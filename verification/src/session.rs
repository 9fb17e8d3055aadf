//! Decision logic of the asynchronous pipeline.
//!
//! The pipeline alternates network transfers with decisions; the transfers
//! live in the surrounding application, the decisions here.  `TreeWalk`
//! turns tree listings into the complete flat list of blob paths, requesting
//! directories of truncated listings one by one until no listing reports
//! truncation.  `FetchFold` hands out content fetches under a configurable
//! concurrency bound and folds every completed file into the per-language
//! aggregation as it arrives; the first failure makes the whole run fail,
//! and a result is returned only for a complete run — never a partial one.

use vstd::prelude::*;
use vstd::string::*;

use crate::error::{Error, FetchError, Unreachable};
use crate::models::{ContentsType, SubtreeModel, TreesModel};
use crate::repository::{spec_raw_url, GitHubRepository};
use crate::statistics::{add_report, is_fold, view_langs, FileReport, FileReportV, LanguageAggregate};
use crate::statistics::{report_of, reports_of_blobs, Statistics};
use crate::blob::GitHubBlobV;
use crate::language::{analyze, classify_path};

verus! {

/// The views of a sequence of strings.
pub open spec fn view_strings(v: Seq<String>) -> Seq<Seq<char>> {
    v.map_values(|s: String| s@)
}

/// `s` holds a `/` somewhere.
pub open spec fn has_slash(s: Seq<char>) -> bool {
    exists|i: int| 0 <= i < s.len() && s[i] == '/'
}

/// Whether `s` holds a `/`: a truncated listing's top-level entries are the
/// ones that do not.
fn contains_slash(s: &str) -> (r: bool)
    ensures
        r == has_slash(s@),
{
    let n = s.unicode_len();
    let mut i: usize = 0;
    while i < n
        invariant
            i <= n,
            n == s@.len(),
            forall|j: int| 0 <= j < i ==> s@[j] != '/',
        decreases n - i,
    {
        if s.get_char(i) == '/' {
            return true;
        }
        i = i + 1;
    }
    false
}

/// The ref to walk when the caller names none: the repository's default
/// branch when metadata is available, else the documented fallback
/// `master`.
pub fn default_ref(default_branch: Option<String>) -> (r: String)
    ensures
        default_branch matches Some(b) ==> r@ == b@,
        default_branch is None ==> r@ == "master"@,
{
    match default_branch {
        Some(b) => b,
        None => String::from_str("master"),
    }
}

/// One tree still to list: the path prefix its entries live under, and its
/// sha.
#[derive(Debug, Clone)]
pub struct PendingTree {
    pub prefix: String,
    pub sha: String,
}

/// The mathematical value of a pending tree.
#[verifier::ext_equal]
pub ghost struct PendingTreeV {
    pub prefix: Seq<char>,
    pub sha: Seq<char>,
}

impl View for PendingTree {
    type V = PendingTreeV;

    open spec fn view(&self) -> PendingTreeV {
        PendingTreeV { prefix: self.prefix@, sha: self.sha@ }
    }
}

/// The views of a sequence of pending trees.
pub open spec fn view_pending(v: Seq<PendingTree>) -> Seq<PendingTreeV> {
    v.map_values(|p: PendingTree| p@)
}

/// The blob paths a listing contributes under `prefix`: every blob entry of
/// a complete listing, only the top-level ones of a truncated listing.
/// `Tree` and `Commit` entries bear no content and contribute none.
pub open spec fn blob_paths(entries: Seq<SubtreeModel>, prefix: Seq<char>, top_only: bool) -> Seq<
    Seq<char>,
>
    decreases entries.len(),
{
    if entries.len() == 0 {
        Seq::empty()
    } else {
        let prev = blob_paths(entries.drop_last(), prefix, top_only);
        let e = entries.last();
        if e.contents_type is Blob && (!top_only || !has_slash(e.path@)) {
            prev.push(prefix + e.path@)
        } else {
            prev
        }
    }
}

/// The trees a truncated listing defers: one request per top-level `Tree`
/// entry, its prefix extended by the entry's path and a slash.
pub open spec fn tree_requests(entries: Seq<SubtreeModel>, prefix: Seq<char>) -> Seq<PendingTreeV>
    decreases entries.len(),
{
    if entries.len() == 0 {
        Seq::empty()
    } else {
        let prev = tree_requests(entries.drop_last(), prefix);
        let e = entries.last();
        if e.contents_type is Tree && !has_slash(e.path@) {
            prev.push(PendingTreeV { prefix: prefix + e.path@ + seq!['/'], sha: e.sha@ })
        } else {
            prev
        }
    }
}

/// The mathematical state of a walk: the trees still to list, and the blob
/// paths enumerated so far.
#[verifier::ext_equal]
pub ghost struct WalkStateV {
    pub pending: Seq<PendingTreeV>,
    pub blobs: Seq<Seq<char>>,
}

/// One walk step, in spec: consuming the listing that answers the head
/// request extends the blob list by the listing's contribution and replaces
/// the head request by a truncated listing's deferred trees.
pub open spec fn spec_step(w: WalkStateV, listing: TreesModel) -> WalkStateV
    recommends
        w.pending.len() > 0,
{
    WalkStateV {
        pending: w.pending.drop_first() + (if listing.truncated {
            tree_requests(listing.tree@, w.pending[0].prefix)
        } else {
            Seq::<PendingTreeV>::empty()
        }),
        blobs: w.blobs + blob_paths(listing.tree@, w.pending[0].prefix, listing.truncated),
    }
}

/// A run of the walk over a sequence of listings, one step each.
pub open spec fn spec_run(w: WalkStateV, listings: Seq<TreesModel>) -> WalkStateV
    decreases listings.len(),
{
    if listings.len() == 0 {
        w
    } else {
        spec_run(spec_step(w, listings[0]), listings.drop_first())
    }
}

/// `b` continues `a`: every entry of `a` stands unchanged at its position.
pub open spec fn blobs_prefix(a: Seq<Seq<char>>, b: Seq<Seq<char>>) -> bool {
    a.len() <= b.len() && forall|i: int| 0 <= i < a.len() ==> b[i] == a[i]
}

/// A run never drops an enumerated blob path: the list only grows at its
/// end.
pub proof fn lemma_run_grows(w: WalkStateV, listings: Seq<TreesModel>)
    ensures
        blobs_prefix(w.blobs, spec_run(w, listings).blobs),
    decreases listings.len(),
{
    if listings.len() > 0 {
        let stepped = spec_step(w, listings[0]);
        lemma_run_grows(stepped, listings.drop_first());
        assert forall|i: int| 0 <= i < w.blobs.len() implies spec_run(w, listings).blobs[i]
            == w.blobs[i] by {
            assert(stepped.blobs[i] == w.blobs[i]);
        }
    }
}

/// A run splits at any point into the run so far and the run of the rest.
proof fn lemma_run_split(w: WalkStateV, listings: Seq<TreesModel>, k: int)
    requires
        0 <= k <= listings.len(),
    ensures
        spec_run(w, listings) == spec_run(spec_run(w, listings.take(k)), listings.skip(k)),
    decreases k,
{
    if k == 0 {
        assert(listings.take(0) =~= Seq::<TreesModel>::empty());
        assert(listings.skip(0) =~= listings);
    } else {
        let stepped = spec_step(w, listings[0]);
        assert(listings.take(k)[0] == listings[0]);
        assert(listings.take(k).drop_first() =~= listings.drop_first().take(k - 1));
        assert(listings.skip(k) =~= listings.drop_first().skip(k - 1));
        lemma_run_split(stepped, listings.drop_first(), k - 1);
    }
}

/// Truncation backfill, end to end: in any run of the walk, every blob path
/// the k-th consumed listing contributes stands in the run's final blob
/// list.  For a directory deferred from a truncated listing this is exactly
/// the guarantee the truncated response lacked: once the directory's own
/// listing is consumed, the files the truncated listing lost are enumerated
/// and stay enumerated to the end of the run.
pub proof fn lemma_backfill_enumerates(w: WalkStateV, listings: Seq<TreesModel>, k: int)
    requires
        0 <= k < listings.len(),
    ensures
        ({
            let before = spec_run(w, listings.take(k));
            blobs_prefix(spec_step(before, listings[k]).blobs, spec_run(w, listings).blobs)
        }),
{
    let before = spec_run(w, listings.take(k));
    lemma_run_split(w, listings, k);
    assert(listings.skip(k)[0] == listings[k]);
    assert(spec_run(before, listings.skip(k)) == spec_run(
        spec_step(before, listings[k]),
        listings.skip(k).drop_first(),
    ));
    lemma_run_grows(spec_step(before, listings[k]), listings.skip(k).drop_first());
}

/// Walks a repository tree to the complete flat list of its blob paths.
///
/// Policy for truncated listings: the entries present are an incomplete
/// prefix, so only its top-level blob entries are kept and each top-level
/// `Tree` entry is listed again individually, recursively, until no listing
/// reports truncation.  A complete listing contributes every blob entry at
/// once.  Partial results are never passed off as complete.
#[derive(Debug, Clone)]
pub struct TreeWalk {
    pub pending: Vec<PendingTree>,
    pub blobs: Vec<String>,
}

impl View for TreeWalk {
    type V = WalkStateV;

    open spec fn view(&self) -> WalkStateV {
        WalkStateV { pending: view_pending(self.pending@), blobs: view_strings(self.blobs@) }
    }
}

impl TreeWalk {
    /// Start a walk at the root tree `sha`.
    pub fn new(sha: &str) -> (r: TreeWalk)
        ensures
            view_pending(r.pending@) == seq![PendingTreeV { prefix: Seq::empty(), sha: sha@ }],
            r.blobs@.len() == 0,
            r@ == (WalkStateV {
                pending: seq![PendingTreeV { prefix: Seq::empty(), sha: sha@ }],
                blobs: Seq::empty(),
            }),
    {
        let mut pending: Vec<PendingTree> = Vec::new();
        pending.push(PendingTree { prefix: String::new(), sha: sha.to_owned() });
        let r = TreeWalk { pending, blobs: Vec::new() };
        proof {
            assert(view_pending(r.pending@) =~= seq![PendingTreeV {
                prefix: Seq::<char>::empty(),
                sha: sha@,
            }]);
        }
        r
    }

    /// The walk is finished when no tree waits to be listed.
    pub fn finished(&self) -> (r: bool)
        ensures
            r == (self.pending@.len() == 0),
    {
        self.pending.len() == 0
    }

    /// The tree to list next, if any.
    pub fn next_request(&self) -> (r: Option<PendingTree>)
        ensures
            (r is Some) == (self.pending@.len() > 0),
            r matches Some(p) ==> p@ == self.pending@[0]@,
    {
        if self.pending.len() > 0 {
            let head = &self.pending[0];
            Some(PendingTree { prefix: head.prefix.clone(), sha: head.sha.clone() })
        } else {
            None
        }
    }

    /// Fold in the listing answering the walk's next request: keep its blob
    /// paths (all of them, or only the top-level ones of a truncated
    /// listing) and defer a truncated listing's top-level trees.
    pub fn on_listing(&mut self, listing: &TreesModel)
        requires
            old(self).pending@.len() > 0,
        ensures
            view_strings(final(self).blobs@) == view_strings(old(self).blobs@) + blob_paths(
                listing.tree@,
                old(self).pending@[0].prefix@,
                listing.truncated,
            ),
            view_pending(final(self).pending@) == view_pending(old(self).pending@).drop_first()
                + (if listing.truncated {
                tree_requests(listing.tree@, old(self).pending@[0].prefix@)
            } else {
                Seq::<PendingTreeV>::empty()
            }),
            final(self)@ == spec_step(old(self)@, *listing),
    {
        let req = self.pending.remove(0);
        let ghost prefix = req.prefix@;
        let ghost pending0 = view_pending(self.pending@);
        let ghost blobs0 = view_strings(self.blobs@);
        proof {
            assert(pending0 =~= view_pending(old(self).pending@).drop_first());
            assert(blob_paths(listing.tree@.take(0), prefix, listing.truncated) =~= Seq::<
                Seq<char>,
            >::empty());
            assert(tree_requests(listing.tree@.take(0), prefix) =~= Seq::<PendingTreeV>::empty());
            assert(blobs0 + blob_paths(listing.tree@.take(0), prefix, listing.truncated)
                =~= blobs0);
            assert(pending0 + tree_requests(listing.tree@.take(0), prefix) =~= pending0);
        }
        let n = listing.tree.len();
        let mut i: usize = 0;
        while i < n
            invariant
                i <= n,
                n == listing.tree@.len(),
                req.prefix@ == prefix,
                view_strings(self.blobs@) == blobs0 + blob_paths(
                    listing.tree@.take(i as int),
                    prefix,
                    listing.truncated,
                ),
                view_pending(self.pending@) == pending0 + (if listing.truncated {
                    tree_requests(listing.tree@.take(i as int), prefix)
                } else {
                    Seq::<PendingTreeV>::empty()
                }),
            decreases n - i,
        {
            let ghost bprev = blob_paths(listing.tree@.take(i as int), prefix, listing.truncated);
            let ghost tprev = tree_requests(listing.tree@.take(i as int), prefix);
            proof {
                assert(listing.tree@.take(i + 1).drop_last() =~= listing.tree@.take(i as int));
                assert(listing.tree@.take(i + 1).last() == listing.tree@[i as int]);
            }
            let entry = &listing.tree[i];
            match entry.contents_type {
                ContentsType::Blob => {
                    if !listing.truncated || !contains_slash(entry.path.as_str()) {
                        let mut path = req.prefix.clone();
                        path.append(entry.path.as_str());
                        let ghost pathg = path@;
                        let ghost sblobs = self.blobs@;
                        self.blobs.push(path);
                        proof {
                            assert(view_strings(self.blobs@) =~= view_strings(sblobs).push(pathg));
                            assert(view_strings(self.blobs@) =~= blobs0 + bprev.push(
                                prefix + listing.tree@[i as int].path@,
                            ));
                        }
                    }
                },
                ContentsType::Tree => {
                    if listing.truncated && !contains_slash(entry.path.as_str()) {
                        let mut tprefix = req.prefix.clone();
                        tprefix.append(entry.path.as_str());
                        tprefix.append("/");
                        let request = PendingTree { prefix: tprefix, sha: entry.sha.clone() };
                        let ghost requestg = request;
                        let ghost spending = self.pending@;
                        self.pending.push(request);
                        proof {
                            reveal_strlit("/");
                            assert(requestg@.prefix =~= prefix + listing.tree@[i as int].path@
                                + seq!['/']);
                            assert(view_pending(self.pending@) =~= view_pending(spending).push(
                                requestg@,
                            ));
                            assert(view_pending(self.pending@) =~= pending0 + tprev.push(
                                PendingTreeV {
                                    prefix: prefix + listing.tree@[i as int].path@ + seq!['/'],
                                    sha: listing.tree@[i as int].sha@,
                                },
                            ));
                        }
                    }
                },
                ContentsType::Commit => {
                },
            }
            i = i + 1;
        }
        proof {
            assert(listing.tree@.take(n as int) =~= listing.tree@);
            assert(view_pending(old(self).pending@)[0] == old(self).pending@[0]@);
            assert(self@ =~= spec_step(old(self)@, *listing));
        }
    }

    /// The blob paths enumerated so far; the complete list once the walk is
    /// finished.
    pub fn into_paths(self) -> (r: Vec<String>)
        ensures
            view_strings(r@) == view_strings(self.blobs@),
    {
        self.blobs
    }
}

/// How many slots of `s` are filled.
pub open spec fn count_true(s: Seq<bool>) -> int
    decreases s.len(),
{
    if s.len() == 0 {
        0
    } else {
        count_true(s.drop_last()) + (if s.last() {
            1int
        } else {
            0int
        })
    }
}

proof fn lemma_count_true_push(s: Seq<bool>, b: bool)
    ensures
        count_true(s.push(b)) == count_true(s) + (if b {
            1int
        } else {
            0int
        }),
{
    assert(s.push(b).drop_last() =~= s);
}

proof fn lemma_count_true_update(s: Seq<bool>, i: int)
    requires
        0 <= i < s.len(),
        !s[i],
    ensures
        count_true(s.update(i, true)) == count_true(s) + 1,
    decreases s.len(),
{
    if i == s.len() - 1 {
        assert(s.update(i, true).drop_last() =~= s.drop_last());
        assert(s.update(i, true).last());
    } else {
        assert(s.update(i, true).drop_last() =~= s.drop_last().update(i, true));
        assert(s.update(i, true).last() == s.last());
        lemma_count_true_update(s.drop_last(), i);
    }
}

proof fn lemma_count_true_full(s: Seq<bool>)
    requires
        count_true(s) >= s.len(),
    ensures
        forall|k: int| 0 <= k < s.len() ==> s[k],
    decreases s.len(),
{
    if s.len() > 0 {
        lemma_count_true_bound(s.drop_last());
        lemma_count_true_full(s.drop_last());
        assert forall|k: int| 0 <= k < s.len() implies s[k] by {
            if k < s.len() - 1 {
                assert(s.drop_last()[k] == s[k]);
            }
        }
    }
}

proof fn lemma_count_true_bound(s: Seq<bool>)
    ensures
        0 <= count_true(s) <= s.len(),
    decreases s.len(),
{
    if s.len() > 0 {
        lemma_count_true_bound(s.drop_last());
    }
}

/// Fetches the contents of a repository's blob paths under a concurrency
/// bound and folds each completed file into the per-language aggregation as
/// it arrives.
///
/// The driver asks `next_fetch` for work until the bound is reached, reports
/// each completion through `on_content` or `on_failure`, and takes the
/// outcome from `result` once `is_done`.  The first failure is kept and the
/// run's outcome is that error: a partial aggregation is never returned as
/// success.
pub struct FetchFold {
    pub repository: GitHubRepository,
    pub sha: String,
    pub paths: Vec<String>,
    pub limit: usize,
    pub next: usize,
    pub completed: Vec<bool>,
    pub done_count: usize,
    pub languages: Vec<LanguageAggregate>,
    pub failed: Option<FetchError>,
    pub blobs: Ghost<Seq<GitHubBlobV>>,
}

impl FetchFold {
    /// The session's invariant: slots track dispatched paths, the counter
    /// counts the filled ones, and the aggregation is exactly the fold of
    /// the files received so far.
    pub open spec fn wf(self) -> bool {
        &&& self.limit >= 1
        &&& self.next <= self.paths@.len()
        &&& self.completed@.len() == self.next
        &&& self.done_count == count_true(self.completed@)
        &&& self.blobs@.len() == self.done_count
        &&& is_fold(view_langs(self.languages@), reports_of_blobs(self.blobs@))
    }

    /// Begin a run over `paths` at `sha` with at most `limit` fetches in
    /// flight.
    pub fn new(repository: GitHubRepository, sha: String, paths: Vec<String>, limit: usize) -> (r:
        FetchFold)
        requires
            limit >= 1,
        ensures
            r.wf(),
            r.repository == repository,
            r.sha == sha,
            r.paths == paths,
            r.limit == limit,
            r.next == 0,
            r.done_count == 0,
            r.failed is None,
            r.blobs@ == Seq::<GitHubBlobV>::empty(),
    {
        let r = FetchFold {
            repository,
            sha,
            paths,
            limit,
            next: 0,
            completed: Vec::new(),
            done_count: 0,
            languages: Vec::new(),
            failed: None,
            blobs: Ghost(Seq::empty()),
        };
        proof {
            assert(count_true(r.completed@) == 0);
            assert(reports_of_blobs(r.blobs@) =~= Seq::<FileReportV>::empty());
            assert(is_fold(view_langs(r.languages@), reports_of_blobs(r.blobs@)));
        }
        r
    }

    /// How many fetches are in flight.
    pub fn in_flight(&self) -> (r: usize)
        requires
            self.wf(),
        ensures
            r == self.next - self.done_count,
    {
        proof {
            lemma_count_true_bound(self.completed@);
        }
        self.next - self.done_count
    }

    /// The next fetch to start, if paths remain, nothing failed, and the
    /// concurrency bound allows one more: the slot index to report back
    /// under, and the URL to fetch.
    pub fn next_fetch(&mut self) -> (r: Option<(usize, String)>)
        requires
            old(self).wf(),
        ensures
            final(self).wf(),
            final(self).repository == old(self).repository,
            final(self).sha == old(self).sha,
            final(self).paths == old(self).paths,
            final(self).limit == old(self).limit,
            final(self).done_count == old(self).done_count,
            final(self).languages == old(self).languages,
            final(self).failed == old(self).failed,
            final(self).blobs == old(self).blobs,
            r matches Some(p) ==> {
                &&& old(self).failed is None
                &&& old(self).next < old(self).paths@.len()
                &&& old(self).next - old(self).done_count < old(self).limit
                &&& p.0 == old(self).next
                &&& final(self).next == old(self).next + 1
                &&& final(self).completed@ == old(self).completed@.push(false)
                &&& p.1@ == spec_raw_url(
                    old(self).repository.owner@,
                    old(self).repository.repo@,
                    old(self).sha@,
                    old(self).paths@[old(self).next as int]@,
                )
            },
            r is None ==> final(self).next == old(self).next && final(self).completed
                == old(self).completed && (old(self).failed is Some || old(self).next
                == old(self).paths@.len() || old(self).next - old(self).done_count
                >= old(self).limit),
    {
        proof {
            lemma_count_true_bound(self.completed@);
        }
        if self.failed.is_some() {
            return None;
        }
        if self.next >= self.paths.len() {
            return None;
        }
        if self.next - self.done_count >= self.limit {
            return None;
        }
        let index = self.next;
        let url = self.repository.raw_url(self.sha.as_str(), self.paths[index].as_str());
        self.next = self.next + 1;
        let ghost comp = self.completed@;
        self.completed.push(false);
        proof {
            lemma_count_true_push(comp, false);
        }
        Some((index, url))
    }

    /// Fold in the content fetched for slot `index`: classify the path,
    /// analyze the content, and sum the report into its language's
    /// aggregate.  A slot never dispatched, or reported twice, is an
    /// internal-invariant violation and changes nothing.
    pub fn on_content(&mut self, index: usize, content: &str) -> (r: Result<(), Unreachable>)
        requires
            old(self).wf(),
        ensures
            final(self).wf(),
            final(self).repository == old(self).repository,
            final(self).sha == old(self).sha,
            final(self).paths == old(self).paths,
            final(self).limit == old(self).limit,
            final(self).next == old(self).next,
            final(self).failed == old(self).failed,
            (r is Ok) == (index < old(self).next && !old(self).completed@[index as int]),
            r matches Err(e) ==> {
                &&& final(self).completed == old(self).completed
                &&& final(self).blobs == old(self).blobs
                &&& final(self).languages == old(self).languages
                &&& final(self).done_count == old(self).done_count
                &&& (if index >= old(self).next {
                    e == Unreachable::UnknownFetchSlot
                } else {
                    e == Unreachable::FetchSlotAlreadyFilled
                })
            },
            r is Ok ==> {
                &&& final(self).completed@ == old(self).completed@.update(index as int, true)
                &&& final(self).done_count == old(self).done_count + 1
                &&& final(self).blobs@ == old(self).blobs@.push(
                    GitHubBlobV { path: old(self).paths@[index as int]@, content: content@ },
                )
            },
    {
        if index >= self.next {
            return Err(Unreachable::UnknownFetchSlot);
        }
        if self.completed[index] {
            return Err(Unreachable::FetchSlotAlreadyFilled);
        }
        proof {
            lemma_count_true_update(self.completed@, index as int);
            lemma_count_true_bound(self.completed@.update(index as int, true));
        }
        self.completed.set(index, true);
        self.done_count = self.done_count + 1;
        let path = self.paths[index].clone();
        let ghost blob = GitHubBlobV { path: path@, content: content@ };
        let ghost blobs0 = self.blobs@;
        proof {
            assert(blobs0.push(blob).drop_last() =~= blobs0);
        }
        match classify_path(path.as_str()) {
            None => {
                proof {
                    assert(reports_of_blobs(blobs0.push(blob)) == reports_of_blobs(blobs0));
                }
                self.blobs = Ghost(blobs0.push(blob));
                Ok(())
            },
            Some(language) => {
                let counts = match analyze(path.as_str(), content) {
                    Some(counts) => counts,
                    None => {
                        // The two classifier calls agree on recognition.
                        proof {
                            assert(false);
                        }
                        return Err(Unreachable::UnknownFetchSlot);
                    },
                };
                let report = FileReport {
                    path,
                    language,
                    code: counts.code,
                    comments: counts.comments,
                    blanks: counts.blanks,
                };
                proof {
                    assert(report@ =~= report_of(blob.path, blob.content));
                    assert(reports_of_blobs(blobs0.push(blob)) == reports_of_blobs(blobs0).push(
                        report_of(blob.path, blob.content),
                    ));
                }
                add_report(&mut self.languages, report, Ghost(reports_of_blobs(blobs0)));
                self.blobs = Ghost(blobs0.push(blob));
                Ok(())
            },
        }
    }

    /// Record the failure of slot `index`.  The first failure is kept: the
    /// run's outcome is that error, whatever arrives afterwards.
    pub fn on_failure(&mut self, index: usize, message: String) -> (r: Result<(), Unreachable>)
        requires
            old(self).wf(),
        ensures
            final(self).wf(),
            final(self).repository == old(self).repository,
            final(self).sha == old(self).sha,
            final(self).paths == old(self).paths,
            final(self).limit == old(self).limit,
            final(self).next == old(self).next,
            final(self).completed == old(self).completed,
            final(self).done_count == old(self).done_count,
            final(self).languages == old(self).languages,
            final(self).blobs == old(self).blobs,
            (r is Ok) == (index < old(self).next && !old(self).completed@[index as int]),
            r is Err ==> final(self).failed == old(self).failed,
            r is Ok ==> final(self).failed == (if old(self).failed is Some {
                old(self).failed
            } else {
                Some(FetchError { path: old(self).paths@[index as int], message: message })
            }),
    {
        if index >= self.next {
            return Err(Unreachable::UnknownFetchSlot);
        }
        if self.completed[index] {
            return Err(Unreachable::FetchSlotAlreadyFilled);
        }
        if self.failed.is_none() {
            let path = self.paths[index].clone();
            self.failed = Some(FetchError { path, message });
        }
        Ok(())
    }

    /// The run is done once something failed or every path's content has
    /// arrived.
    pub fn is_done(&self) -> (r: bool)
        ensures
            r == (self.failed is Some || self.done_count == self.paths@.len()),
    {
        self.failed.is_some() || self.done_count == self.paths.len()
    }

    /// The run's outcome: the first failure if anything failed, else the
    /// statistics of every fetched file — with every path dispatched and
    /// completed, so the result is never partial.
    pub fn result(self) -> (r: Result<Statistics, Error>)
        requires
            self.wf(),
            self.failed is Some || self.done_count == self.paths@.len(),
        ensures
            self.failed matches Some(e) ==> r == Err::<Statistics, Error>(Error::Fetch(e)),
            self.failed is None ==> (r matches Ok(s) && {
                &&& s.repository == self.repository
                &&& is_fold(view_langs(s.languages@), reports_of_blobs(self.blobs@))
                &&& self.blobs@.len() == self.paths@.len()
                &&& self.next == self.paths@.len()
            }),
    {
        proof {
            if self.failed is None {
                lemma_count_true_bound(self.completed@);
                lemma_count_true_full(self.completed@);
            }
        }
        match self.failed {
            Some(e) => Err(Error::Fetch(e)),
            None => Ok(Statistics { repository: self.repository, languages: self.languages }),
        }
    }
}

} // verus!
