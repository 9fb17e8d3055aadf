//! Options of one statistics request.
//!
//! A request may name an explicit commit or branch, paths to include and
//! paths to exclude.  The filters are simple prefix predicates on blob
//! paths, applied to the path list before any content is fetched; a filter
//! entry's leading `/` is ignored, so `/src` retains exactly the paths under
//! `src`.

use vstd::prelude::*;
use vstd::string::*;

use crate::repository::{has_prefix, starts_with};
use crate::session::view_strings;

verus! {

/// Options of one statistics request: the ref to walk (the repository's
/// default branch when none), paths to include (none meaning all), and
/// paths to exclude.
#[derive(Debug, Clone)]
pub struct StatisticsParamsModel {
    pub sha: Option<String>,
    pub paths: Vec<String>,
    pub excluded: Vec<String>,
}

/// A filter entry with its leading `/` dropped.
pub open spec fn entry_prefix(entry: Seq<char>) -> Seq<char> {
    if entry.len() > 0 && entry[0] == '/' {
        entry.drop_first()
    } else {
        entry
    }
}

/// `entry` retains `path` when the path starts with the entry (its leading
/// `/` ignored).
pub open spec fn entry_matches(entry: Seq<char>, path: Seq<char>) -> bool {
    starts_with(path, entry_prefix(entry))
}

/// Whether `entry` retains `path`.
fn entry_matches_exec(entry: &str, path: &str) -> (r: bool)
    ensures
        r == entry_matches(entry@, path@),
{
    if !entry.is_empty() && entry.get_char(0) == '/' {
        let stripped = entry.substring_char(1, entry.unicode_len());
        proof {
            assert(stripped@ =~= entry@.drop_first());
        }
        has_prefix(path, stripped)
    } else {
        has_prefix(path, entry)
    }
}

impl StatisticsParamsModel {
    /// Whether these options keep `path`: some include entry matches it (or
    /// no include entry is given), and no exclude entry matches it.
    pub open spec fn spec_retained(self, path: Seq<char>) -> bool {
        &&& (self.paths@.len() == 0 || exists|i: int|
            0 <= i < self.paths@.len() && entry_matches((#[trigger] self.paths@[i])@, path))
        &&& !(exists|i: int|
            0 <= i < self.excluded@.len() && entry_matches((#[trigger] self.excluded@[i])@, path))
    }

    /// Whether these options keep `path`.
    pub fn retained(&self, path: &str) -> (r: bool)
        ensures
            r == self.spec_retained(path@),
    {
        let mut included = self.paths.len() == 0;
        let n = self.paths.len();
        let mut i: usize = 0;
        while i < n
            invariant
                i <= n,
                n == self.paths@.len(),
                included == (n == 0 || exists|j: int|
                    0 <= j < i && entry_matches((#[trigger] self.paths@[j])@, path@)),
            decreases n - i,
        {
            if entry_matches_exec(self.paths[i].as_str(), path) {
                included = true;
            }
            i = i + 1;
        }
        if !included {
            return false;
        }
        let m = self.excluded.len();
        let mut k: usize = 0;
        while k < m
            invariant
                m == self.excluded@.len(),
                k <= m,
                forall|j: int|
                    0 <= j < k ==> !entry_matches((#[trigger] self.excluded@[j])@, path@),
            decreases m - k,
        {
            if entry_matches_exec(self.excluded[k].as_str(), path) {
                return false;
            }
            k = k + 1;
        }
        true
    }

    /// The paths these options keep, order kept.
    pub fn filter_paths(&self, paths: &Vec<String>) -> (r: Vec<String>)
        ensures
            view_strings(r@) == self.spec_filtered(view_strings(paths@)),
    {
        let mut kept: Vec<String> = Vec::new();
        let n = paths.len();
        let mut i: usize = 0;
        proof {
            assert(view_strings(paths@).take(0) =~= Seq::<Seq<char>>::empty());
            assert(self.spec_filtered(Seq::empty()) =~= Seq::<Seq<char>>::empty());
            assert(view_strings(kept@) =~= Seq::<Seq<char>>::empty());
        }
        while i < n
            invariant
                i <= n,
                n == paths@.len(),
                view_strings(kept@) == self.spec_filtered(view_strings(paths@).take(i as int)),
            decreases n - i,
        {
            proof {
                assert(view_strings(paths@).take(i + 1).drop_last() =~= view_strings(
                    paths@,
                ).take(i as int));
                assert(view_strings(paths@).take(i + 1).last() == paths@[i as int]@);
            }
            if self.retained(paths[i].as_str()) {
                let path = paths[i].clone();
                let ghost pathg = path@;
                let ghost kprev = kept@;
                kept.push(path);
                proof {
                    assert(view_strings(kept@) =~= view_strings(kprev).push(pathg));
                }
            }
            i = i + 1;
        }
        proof {
            assert(view_strings(paths@).take(n as int) =~= view_strings(paths@));
        }
        kept
    }

    /// The sub-sequence of `paths` these options keep, order kept.
    pub open spec fn spec_filtered(self, paths: Seq<Seq<char>>) -> Seq<Seq<char>>
        decreases paths.len(),
    {
        if paths.len() == 0 {
            Seq::empty()
        } else {
            let prefix = self.spec_filtered(paths.drop_last());
            if self.spec_retained(paths.last()) {
                prefix.push(paths.last())
            } else {
                prefix
            }
        }
    }
}

impl Default for StatisticsParamsModel {
    /// No explicit ref, no filters: walk the default branch and keep every
    /// path.
    fn default() -> (r: StatisticsParamsModel)
        ensures
            r.sha is None,
            r.paths@.len() == 0,
            r.excluded@.len() == 0,
    {
        StatisticsParamsModel { sha: None, paths: Vec::new(), excluded: Vec::new() }
    }
}

} // verus!
