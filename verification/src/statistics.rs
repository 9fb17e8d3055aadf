//! Streaming aggregation of per-file reports into per-language totals.
//!
//! The aggregator maintains a mapping from language to aggregate, ordered by
//! the language's key with each key unique.  Folding is streaming: each
//! report is summed into its language's aggregate on arrival, creating the
//! aggregate on first sight of the language.  Counts sum saturating at
//! `u64::MAX`.  The fold's numeric totals do not depend on arrival order,
//! and folds of two sub-streams merge into the fold of the whole stream;
//! both laws are proved here.

use vstd::prelude::*;

use crate::blob::{view_blobs, GitHubBlob, GitHubBlobV};
use crate::language::{
    analyze, classify_of, classify_path, language_name_of, line_counts_of, LanguageId, LanguageIdV,
};
use crate::repository::GitHubRepository;

verus! {

/// One successfully classified file: its path, its language, and its line
/// counts.
#[derive(Debug, Clone)]
pub struct FileReport {
    pub path: String,
    pub language: LanguageId,
    pub code: u64,
    pub comments: u64,
    pub blanks: u64,
}

/// The mathematical value of a report.
#[verifier::ext_equal]
pub ghost struct FileReportV {
    pub path: Seq<char>,
    pub language: LanguageIdV,
    pub code: int,
    pub comments: int,
    pub blanks: int,
}

impl View for FileReport {
    type V = FileReportV;

    open spec fn view(&self) -> FileReportV {
        FileReportV {
            path: self.path@,
            language: self.language@,
            code: self.code as int,
            comments: self.comments as int,
            blanks: self.blanks as int,
        }
    }
}

impl FileReport {
    /// A field-by-field copy whose contents are known to the verifier.
    pub fn duplicate(&self) -> (r: FileReport)
        ensures
            r@ == self@,
    {
        let r = FileReport {
            path: self.path.clone(),
            language: self.language.duplicate(),
            code: self.code,
            comments: self.comments,
            blanks: self.blanks,
        };
        proof {
            assert(r@ =~= self@);
        }
        r
    }
}

/// The running totals of one language: every report folded so far, in
/// arrival order, and the sums of their counts.  `lines` is the sum of the
/// three counts.
#[derive(Debug, Clone)]
pub struct LanguageAggregate {
    pub language: LanguageId,
    pub files: Vec<FileReport>,
    pub code: u64,
    pub comments: u64,
    pub blanks: u64,
}

/// The mathematical value of an aggregate.
#[verifier::ext_equal]
pub ghost struct LanguageAggregateV {
    pub language: LanguageIdV,
    pub files: Seq<FileReportV>,
    pub code: int,
    pub comments: int,
    pub blanks: int,
}

impl View for LanguageAggregate {
    type V = LanguageAggregateV;

    open spec fn view(&self) -> LanguageAggregateV {
        LanguageAggregateV {
            language: self.language@,
            files: view_reports(self.files@),
            code: self.code as int,
            comments: self.comments as int,
            blanks: self.blanks as int,
        }
    }
}

/// Two report vectors with view-equal elements have equal view sequences.
pub proof fn lemma_view_reports_eq(a: Seq<FileReport>, b: Seq<FileReport>)
    requires
        a.len() == b.len(),
        forall|k: int| 0 <= k < a.len() ==> a[k]@ == b[k]@,
    ensures
        view_reports(a) == view_reports(b),
{
    assert(view_reports(a) =~= view_reports(b));
}

/// A sum capped at the largest representable count.
pub open spec fn cap(x: int) -> int {
    if x > u64::MAX as int {
        u64::MAX as int
    } else {
        x
    }
}

/// Saturating addition of two counts.
pub fn sat_add(a: u64, b: u64) -> (r: u64)
    ensures
        r as int == cap(a as int + b as int),
{
    if a <= u64::MAX - b {
        a + b
    } else {
        u64::MAX
    }
}

impl LanguageAggregate {
    /// Total lines of this language: code, comments and blanks together.
    pub fn lines(&self) -> (r: u64)
        ensures
            r as int == cap(self@.code + self@.comments + self@.blanks),
    {
        let r = sat_add(sat_add(self.code, self.comments), self.blanks);
        proof {
            lemma_cap_add(self@.code + self@.comments, self@.blanks);
        }
        r
    }

    /// A field-by-field copy whose contents are known to the verifier.
    pub fn duplicate(&self) -> (r: LanguageAggregate)
        ensures
            r@ == self@,
    {
        let mut files: Vec<FileReport> = Vec::new();
        let n = self.files.len();
        let mut i: usize = 0;
        while i < n
            invariant
                i <= n,
                n == self.files@.len(),
                files@.len() == i,
                forall|k: int| 0 <= k < i ==> files@[k]@ == self.files@[k]@,
            decreases n - i,
        {
            files.push(self.files[i].duplicate());
            i = i + 1;
        }
        let r = LanguageAggregate {
            language: self.language.duplicate(),
            files,
            code: self.code,
            comments: self.comments,
            blanks: self.blanks,
        };
        proof {
            lemma_view_reports_eq(r.files@, self.files@);
            assert(r@ =~= self@);
        }
        r
    }
}

/// The views of a sequence of reports.
pub open spec fn view_reports(v: Seq<FileReport>) -> Seq<FileReportV> {
    v.map_values(|r: FileReport| r@)
}

/// The views of a sequence of aggregates.
pub open spec fn view_langs(v: Seq<LanguageAggregate>) -> Seq<LanguageAggregateV> {
    v.map_values(|a: LanguageAggregate| a@)
}

/// The sub-stream of `reports` whose language key is `key`, order kept.
pub open spec fn reports_for(reports: Seq<FileReportV>, key: int) -> Seq<FileReportV>
    decreases reports.len(),
{
    if reports.len() == 0 {
        Seq::empty()
    } else {
        let prefix = reports_for(reports.drop_last(), key);
        if reports.last().language.key == key {
            prefix.push(reports.last())
        } else {
            prefix
        }
    }
}

/// Sum of the code lines of `rs`.
pub open spec fn sum_code(rs: Seq<FileReportV>) -> int
    decreases rs.len(),
{
    if rs.len() == 0 {
        0
    } else {
        sum_code(rs.drop_last()) + rs.last().code
    }
}

/// Sum of the comment lines of `rs`.
pub open spec fn sum_comments(rs: Seq<FileReportV>) -> int
    decreases rs.len(),
{
    if rs.len() == 0 {
        0
    } else {
        sum_comments(rs.drop_last()) + rs.last().comments
    }
}

/// Sum of the blank lines of `rs`.
pub open spec fn sum_blanks(rs: Seq<FileReportV>) -> int
    decreases rs.len(),
{
    if rs.len() == 0 {
        0
    } else {
        sum_blanks(rs.drop_last()) + rs.last().blanks
    }
}

/// `agg` holds exactly the reports of its language from `reports`: the full
/// sub-stream in order, the capped sums of its counts, and the language id
/// the sub-stream's first report carries.
pub open spec fn agg_matches(agg: LanguageAggregateV, reports: Seq<FileReportV>) -> bool {
    let mine = reports_for(reports, agg.language.key);
    &&& mine.len() > 0
    &&& agg.language == mine[0].language
    &&& agg.files == mine
    &&& agg.code == cap(sum_code(mine))
    &&& agg.comments == cap(sum_comments(mine))
    &&& agg.blanks == cap(sum_blanks(mine))
}

/// Aggregates in strictly increasing key order: every key unique.
pub open spec fn sorted_by_key(langs: Seq<LanguageAggregateV>) -> bool {
    forall|i: int, j: int|
        0 <= i < j < langs.len() ==> langs[i].language.key < langs[j].language.key
}

/// Some aggregate of `langs` carries `key`.
pub open spec fn has_key(langs: Seq<LanguageAggregateV>, key: int) -> bool {
    exists|i: int| 0 <= i < langs.len() && langs[i].language.key == key
}

/// Every count of `r` is a representable `u64`.
pub open spec fn report_bounds(r: FileReportV) -> bool {
    &&& 0 <= r.code <= u64::MAX
    &&& 0 <= r.comments <= u64::MAX
    &&& 0 <= r.blanks <= u64::MAX
}

/// Every report of `rs` has representable counts.
pub open spec fn reports_wf(rs: Seq<FileReportV>) -> bool {
    forall|i: int| 0 <= i < rs.len() ==> report_bounds(#[trigger] rs[i])
}

/// The fold relation: `langs` is the canonical per-language aggregation of
/// the report stream `reports` — keys unique and ordered, each aggregate
/// holding exactly its language's sub-stream, and no language missing.
pub open spec fn is_fold(langs: Seq<LanguageAggregateV>, reports: Seq<FileReportV>) -> bool {
    &&& reports_wf(reports)
    &&& sorted_by_key(langs)
    &&& forall|i: int| 0 <= i < langs.len() ==> agg_matches(#[trigger] langs[i], reports)
    &&& forall|i: int|
        0 <= i < reports.len() ==> has_key(langs, (#[trigger] reports[i]).language.key)
}

proof fn lemma_cap_add(x: int, c: int)
    requires
        c >= 0,
    ensures
        cap(cap(x) + c) == cap(x + c),
{
}

/// Appending one report extends exactly its own language's sub-stream.
proof fn lemma_reports_for_push(reports: Seq<FileReportV>, r: FileReportV)
    ensures
        forall|key: int|
            reports_for(#[trigger] reports.push(r), key) == (if r.language.key == key {
                reports_for(reports, key).push(r)
            } else {
                reports_for(reports, key)
            }),
{
    assert(reports.push(r).drop_last() =~= reports);
    assert(reports.push(r).last() == r);
}

/// Sums distribute over appending one report.
proof fn lemma_sum_push(rs: Seq<FileReportV>, r: FileReportV)
    ensures
        sum_code(rs.push(r)) == sum_code(rs) + r.code,
        sum_comments(rs.push(r)) == sum_comments(rs) + r.comments,
        sum_blanks(rs.push(r)) == sum_blanks(rs) + r.blanks,
{
    assert(rs.push(r).drop_last() =~= rs);
    assert(rs.push(r).last() == r);
}

/// A key no report carries has an empty sub-stream.
proof fn lemma_reports_for_absent(reports: Seq<FileReportV>, key: int)
    requires
        forall|i: int| 0 <= i < reports.len() ==> (#[trigger] reports[i]).language.key != key,
    ensures
        reports_for(reports, key) == Seq::<FileReportV>::empty(),
    decreases reports.len(),
{
    if reports.len() > 0 {
        assert(forall|i: int|
            0 <= i < reports.len() - 1 ==> (#[trigger] reports.drop_last()[i]).language.key
                != key);
        lemma_reports_for_absent(reports.drop_last(), key);
    }
}

/// Fold one report into a canonical aggregation: create its language's
/// aggregate on first sight, otherwise sum the counts in and append the
/// report to the aggregate's file list.
pub fn add_report(
    languages: &mut Vec<LanguageAggregate>,
    report: FileReport,
    Ghost(reports): Ghost<Seq<FileReportV>>,
)
    requires
        is_fold(view_langs(old(languages)@), reports),
    ensures
        is_fold(view_langs(final(languages)@), reports.push(report@)),
{
    let ghost rv = report@;
    let ghost old_view = view_langs(languages@);
    proof {
        lemma_reports_for_push(reports, rv);
    }
    let key = report.language.key;
    let n = languages.len();
    let mut i: usize = 0;
    while i < n && languages[i].language.key < key
        invariant
            i <= n,
            n == languages@.len(),
            languages@ == old(languages)@,
            forall|j: int| 0 <= j < i ==> view_langs(languages@)[j].language.key < key as int,
        decreases n - i,
    {
        i = i + 1;
    }
    if i < n && languages[i].language.key == key {
        let ghost mine = reports_for(reports, key as int);
        proof {
            assert(agg_matches(old_view[i as int], reports));
            lemma_sum_push(mine, rv);
        }
        let mut agg = languages.remove(i);
        agg.code = sat_add(agg.code, report.code);
        agg.comments = sat_add(agg.comments, report.comments);
        agg.blanks = sat_add(agg.blanks, report.blanks);
        agg.files.push(report);
        proof {
            lemma_cap_add(sum_code(mine), rv.code);
            lemma_cap_add(sum_comments(mine), rv.comments);
            lemma_cap_add(sum_blanks(mine), rv.blanks);
        }
        languages.insert(i, agg);
        proof {
            let new_view = view_langs(languages@);
            assert(languages@ =~= old(languages)@.update(i as int, agg));
            assert(new_view =~= old_view.update(i as int, agg@));
            assert(agg@.files =~= mine.push(rv));
            assert(agg_matches(agg@, reports.push(rv)));
            assert forall|j: int| 0 <= j < new_view.len() implies agg_matches(
                #[trigger] new_view[j],
                reports.push(rv),
            ) by {
                if j != i {
                    assert(agg_matches(old_view[j], reports));
                    assert(old_view[j].language.key != key as int);
                }
            }
            assert forall|j: int|
                0 <= j < reports.push(rv).len() implies has_key(
                new_view,
                (#[trigger] reports.push(rv)[j]).language.key,
            ) by {
                if j < reports.len() {
                    let k = reports[j].language.key;
                    let w = choose|w: int| 0 <= w < old_view.len() && old_view[w].language.key == k;
                    assert(new_view[w].language.key == k);
                } else {
                    assert(new_view[i as int].language.key == rv.language.key);
                }
            }
            assert(reports_wf(reports.push(rv)));
        }
    } else {
        proof {
            assert forall|j: int|
                0 <= j < reports.len() implies (#[trigger] reports[j]).language.key
                != key as int by {
                if reports[j].language.key == key as int {
                    let w = choose|w: int|
                        0 <= w < old_view.len() && old_view[w].language.key == key as int;
                    assert(forall|x: int, y: int|
                        0 <= x < y < old_view.len() ==> old_view[x].language.key
                            < old_view[y].language.key);
                }
            }
            lemma_reports_for_absent(reports, key as int);
        }
        let language = report.language.duplicate();
        let code = report.code;
        let comments = report.comments;
        let blanks = report.blanks;
        let mut files: Vec<FileReport> = Vec::new();
        files.push(report);
        let agg = LanguageAggregate { language, files, code, comments, blanks };
        languages.insert(i, agg);
        proof {
            let new_view = view_langs(languages@);
            assert(new_view =~= old_view.insert(i as int, agg@));
            assert(agg@.files =~= Seq::<FileReportV>::empty().push(rv));
            assert(reports_for(reports.push(rv), key as int) =~= Seq::<
                FileReportV,
            >::empty().push(rv));
            lemma_sum_push(Seq::empty(), rv);
            assert(agg_matches(agg@, reports.push(rv)));
            assert forall|j: int| 0 <= j < new_view.len() implies agg_matches(
                #[trigger] new_view[j],
                reports.push(rv),
            ) by {
                if j < i {
                    assert(new_view[j] == old_view[j]);
                    assert(agg_matches(old_view[j], reports));
                    assert(old_view[j].language.key != key as int);
                } else if j > i {
                    assert(new_view[j] == old_view[j - 1]);
                    assert(agg_matches(old_view[j - 1], reports));
                    assert(old_view[j - 1].language.key != key as int);
                }
            }
            assert forall|x: int, y: int|
                0 <= x < y < new_view.len() implies new_view[x].language.key
                < new_view[y].language.key by {
                if x < i && y > i {
                    assert(new_view[x] == old_view[x]);
                    assert(new_view[y] == old_view[y - 1]);
                    if i < old_view.len() {
                        assert(old_view[i as int].language.key > key as int);
                    }
                } else if x == i {
                    assert(new_view[y] == old_view[y - 1]);
                    assert(old_view[i as int].language.key > key as int);
                } else if y == i {
                    assert(new_view[x] == old_view[x]);
                }
            }
            assert forall|j: int|
                0 <= j < reports.push(rv).len() implies has_key(
                new_view,
                (#[trigger] reports.push(rv)[j]).language.key,
            ) by {
                if j < reports.len() {
                    let k = reports[j].language.key;
                    let w = choose|w: int| 0 <= w < old_view.len() && old_view[w].language.key == k;
                    if w < i {
                        assert(new_view[w].language.key == k);
                    } else {
                        assert(new_view[w + 1].language.key == k);
                    }
                } else {
                    assert(new_view[i as int].language.key == rv.language.key);
                }
            }
            assert(reports_wf(reports.push(rv)));
        }
    }
}

/// Fold a finite stream of reports into the per-language mapping, in one
/// pass and in arrival order.  An empty stream yields an empty mapping.
pub fn fold_reports(reports: &Vec<FileReport>) -> (r: Vec<LanguageAggregate>)
    ensures
        is_fold(view_langs(r@), view_reports(reports@)),
        reports@.len() == 0 ==> r@.len() == 0,
{
    let mut languages: Vec<LanguageAggregate> = Vec::new();
    let n = reports.len();
    let mut idx: usize = 0;
    proof {
        assert(view_reports(reports@.take(0)) =~= Seq::<FileReportV>::empty());
    }
    while idx < n
        invariant
            idx <= n,
            n == reports@.len(),
            is_fold(view_langs(languages@), view_reports(reports@.take(idx as int))),
        decreases n - idx,
    {
        let rep = reports[idx].duplicate();
        let ghost sofar = view_reports(reports@.take(idx as int));
        add_report(&mut languages, rep, Ghost(sofar));
        proof {
            assert(sofar.push(reports@[idx as int]@) =~= view_reports(
                reports@.take(idx as int + 1),
            ));
        }
        idx = idx + 1;
    }
    proof {
        assert(reports@.take(n as int) =~= reports@);
        if reports@.len() == 0 && languages@.len() > 0 {
            let a = view_langs(languages@)[0];
            assert(agg_matches(a, view_reports(reports@)));
            assert(view_reports(reports@).len() == 0);
            assert(reports_for(view_reports(reports@), a.language.key).len() == 0);
        }
    }
    languages
}

/// Merge two aggregates of the same language: field-wise saturating sum and
/// file-list concatenation, the left aggregate's files first.
pub fn merge(a: &LanguageAggregate, b: &LanguageAggregate) -> (r: LanguageAggregate)
    requires
        a@.language.key == b@.language.key,
    ensures
        r@.language == a@.language,
        r@.files == a@.files + b@.files,
        r@.code == cap(a@.code + b@.code),
        r@.comments == cap(a@.comments + b@.comments),
        r@.blanks == cap(a@.blanks + b@.blanks),
{
    let mut files: Vec<FileReport> = Vec::new();
    let na = a.files.len();
    let mut i: usize = 0;
    while i < na
        invariant
            i <= na,
            na == a.files@.len(),
            files@.len() == i,
            forall|k: int| 0 <= k < i ==> files@[k]@ == a.files@[k]@,
        decreases na - i,
    {
        files.push(a.files[i].duplicate());
        i = i + 1;
    }
    let nb = b.files.len();
    let mut j: usize = 0;
    while j < nb
        invariant
            j <= nb,
            na == a.files@.len(),
            nb == b.files@.len(),
            files@.len() == na + j,
            forall|k: int| 0 <= k < na ==> files@[k]@ == a.files@[k]@,
            forall|k: int| na <= k < na + j ==> files@[k]@ == b.files@[k - na]@,
        decreases nb - j,
    {
        files.push(b.files[j].duplicate());
        j = j + 1;
    }
    let r = LanguageAggregate {
        language: a.language.duplicate(),
        files,
        code: sat_add(a.code, b.code),
        comments: sat_add(a.comments, b.comments),
        blanks: sat_add(a.blanks, b.blanks),
    };
    proof {
        assert(r@.files =~= a@.files + b@.files);
    }
    r
}

/// The aggregate of `langs` carrying `key`, if any.
pub open spec fn find_key(langs: Seq<LanguageAggregateV>, key: int) -> Option<LanguageAggregateV>
    decreases langs.len(),
{
    if langs.len() == 0 {
        None
    } else if langs[0].language.key == key {
        Some(langs[0])
    } else {
        find_key(langs.drop_first(), key)
    }
}

/// Two aggregates of one language merged: fields summed (capped), the left
/// aggregate's files first, its language id kept.
pub open spec fn merged_agg(x: LanguageAggregateV, y: LanguageAggregateV) -> LanguageAggregateV {
    LanguageAggregateV {
        language: x.language,
        files: x.files + y.files,
        code: cap(x.code + y.code),
        comments: cap(x.comments + y.comments),
        blanks: cap(x.blanks + y.blanks),
    }
}

/// Two key-sorted aggregations merged by key order, aggregates of one
/// language merged pairwise.
pub open spec fn spec_merge_langs(a: Seq<LanguageAggregateV>, b: Seq<LanguageAggregateV>) -> Seq<LanguageAggregateV>
    decreases a.len() + b.len(),
{
    if a.len() == 0 {
        b
    } else if b.len() == 0 {
        a
    } else if a[0].language.key < b[0].language.key {
        seq![a[0]] + spec_merge_langs(a.drop_first(), b)
    } else if b[0].language.key < a[0].language.key {
        seq![b[0]] + spec_merge_langs(a, b.drop_first())
    } else {
        seq![merged_agg(a[0], b[0])] + spec_merge_langs(a.drop_first(), b.drop_first())
    }
}

proof fn lemma_find_key_has(langs: Seq<LanguageAggregateV>, key: int)
    ensures
        (find_key(langs, key) is Some) == has_key(langs, key),
        find_key(langs, key) matches Some(a) ==> a.language.key == key && exists|i: int|
            0 <= i < langs.len() && langs[i] == a,
    decreases langs.len(),
{
    if langs.len() > 0 && langs[0].language.key != key {
        lemma_find_key_has(langs.drop_first(), key);
        if has_key(langs, key) {
            let i = choose|i: int| 0 <= i < langs.len() && langs[i].language.key == key;
            assert(langs.drop_first()[i - 1] == langs[i]);
            assert(has_key(langs.drop_first(), key));
        }
        if has_key(langs.drop_first(), key) {
            let i = choose|i: int|
                0 <= i < langs.drop_first().len() && langs.drop_first()[i].language.key == key;
            assert(langs[i + 1] == langs.drop_first()[i]);
        }
        match find_key(langs, key) {
            Some(a) => {
                let i = choose|i: int|
                    0 <= i < langs.drop_first().len() && langs.drop_first()[i] == a;
                assert(langs[i + 1] == a);
            },
            None => {},
        }
    }
}

/// In a key-sorted aggregation the aggregate at any index is what its key
/// finds.
proof fn lemma_find_key_sorted(langs: Seq<LanguageAggregateV>, i: int)
    requires
        sorted_by_key(langs),
        0 <= i < langs.len(),
    ensures
        find_key(langs, langs[i].language.key) == Some(langs[i]),
    decreases langs.len(),
{
    if i > 0 {
        assert(langs[0].language.key < langs[i].language.key);
        assert(forall|x: int, y: int|
            0 <= x < y < langs.drop_first().len() ==> langs.drop_first()[x].language.key
                < langs.drop_first()[y].language.key);
        assert(langs.drop_first()[i - 1] == langs[i]);
        lemma_find_key_sorted(langs.drop_first(), i - 1);
    }
}

/// A key below every key of a sorted aggregation finds nothing.
proof fn lemma_find_key_below(s: Seq<LanguageAggregateV>, key: int)
    requires
        sorted_by_key(s),
        s.len() == 0 || key < s[0].language.key,
    ensures
        find_key(s, key) is None,
    decreases s.len(),
{
    if s.len() > 0 {
        assert(forall|x: int, y: int|
            0 <= x < y < s.drop_first().len() ==> s.drop_first()[x].language.key
                < s.drop_first()[y].language.key);
        if s.len() > 1 {
            assert(s.drop_first()[0] == s[1]);
        }
        lemma_find_key_below(s.drop_first(), key);
    }
}

/// The match that the sorted merge answers under one key.
pub open spec fn merge_find(
    a: Seq<LanguageAggregateV>,
    b: Seq<LanguageAggregateV>,
    key: int,
) -> Option<LanguageAggregateV> {
    match (find_key(a, key), find_key(b, key)) {
        (Some(x), Some(y)) => Some(merged_agg(x, y)),
        (Some(x), None) => Some(x),
        (None, Some(y)) => Some(y),
        (None, None) => None,
    }
}

/// The sorted merge is itself sorted; under every key it finds exactly the
/// merge of what the two sides find; and each of its aggregates' keys comes
/// from one of the sides.
proof fn lemma_spec_merge_props(a: Seq<LanguageAggregateV>, b: Seq<LanguageAggregateV>)
    requires
        sorted_by_key(a),
        sorted_by_key(b),
    ensures
        sorted_by_key(spec_merge_langs(a, b)),
        forall|key: int|
            #[trigger] find_key(spec_merge_langs(a, b), key) == merge_find(a, b, key),
        forall|i: int|
            0 <= i < spec_merge_langs(a, b).len() ==> has_key(
                a,
                (#[trigger] spec_merge_langs(a, b)[i]).language.key,
            ) || has_key(b, spec_merge_langs(a, b)[i].language.key),
    decreases a.len() + b.len(),
{
    let m = spec_merge_langs(a, b);
    if a.len() == 0 {
        assert forall|key: int| #[trigger] find_key(m, key) == merge_find(a, b, key) by {
            lemma_find_key_has(b, key);
        }
        assert forall|i: int| 0 <= i < m.len() implies has_key(a, (#[trigger] m[i]).language.key)
            || has_key(b, m[i].language.key) by {
            assert(b[i].language.key == m[i].language.key);
        }
    } else if b.len() == 0 {
        assert forall|key: int| #[trigger] find_key(m, key) == merge_find(a, b, key) by {
            lemma_find_key_has(a, key);
        }
        assert forall|i: int| 0 <= i < m.len() implies has_key(a, (#[trigger] m[i]).language.key)
            || has_key(b, m[i].language.key) by {
            assert(a[i].language.key == m[i].language.key);
        }
    } else {
        let ka = a[0].language.key;
        let kb = b[0].language.key;
        let ad = a.drop_first();
        let bd = b.drop_first();
        assert(forall|x: int, y: int|
            0 <= x < y < ad.len() ==> ad[x].language.key < ad[y].language.key);
        assert(forall|x: int, y: int|
            0 <= x < y < bd.len() ==> bd[x].language.key < bd[y].language.key);
        let hk = if ka <= kb { ka } else { kb };
        let at = if ka == hk { ad } else { a };
        let bt = if kb == hk { bd } else { b };
        let tail = spec_merge_langs(at, bt);
        lemma_spec_merge_props(at, bt);
        assert(m[0].language.key == hk);
        assert(m.drop_first() =~= tail);
        // Every key of the tail lies above the head key.
        assert forall|i: int| 0 <= i < tail.len() implies tail[i].language.key > hk by {
            let k = tail[i].language.key;
            if has_key(at, k) {
                let w = choose|w: int| 0 <= w < at.len() && at[w].language.key == k;
                if ka == hk {
                    assert(a[w + 1] == at[w]);
                } else {
                    assert(hk == kb && kb < ka);
                    assert(a[0].language.key <= at[w].language.key);
                }
            } else {
                let w = choose|w: int| 0 <= w < bt.len() && bt[w].language.key == k;
                if kb == hk {
                    assert(b[w + 1] == bt[w]);
                } else {
                    assert(hk == ka && ka < kb);
                    assert(b[0].language.key <= bt[w].language.key);
                }
            }
        }
        assert forall|x: int, y: int| 0 <= x < y < m.len() implies m[x].language.key
            < m[y].language.key by {
            if x == 0 {
                assert(m[y] == tail[y - 1]);
            } else {
                assert(m[x] == tail[x - 1]);
                assert(m[y] == tail[y - 1]);
            }
        }
        assert forall|key: int| #[trigger] find_key(m, key) == merge_find(a, b, key) by {
            if key == hk {
                if ka == hk {
                    lemma_find_key_sorted(a, 0);
                } else {
                    lemma_find_key_below(a, key);
                }
                if kb == hk {
                    lemma_find_key_sorted(b, 0);
                } else {
                    lemma_find_key_below(b, key);
                }
                assert(find_key(m, key) == Some(m[0]));
            } else {
                assert(find_key(m, key) == find_key(m.drop_first(), key));
                assert(find_key(m.drop_first(), key) == find_key(tail, key));
                assert(find_key(tail, key) == merge_find(at, bt, key));
                if ka == hk {
                    assert(find_key(a, key) == find_key(ad, key));
                }
                if kb == hk {
                    assert(find_key(b, key) == find_key(bd, key));
                }
            }
        }
        assert forall|i: int| 0 <= i < m.len() implies has_key(a, (#[trigger] m[i]).language.key)
            || has_key(b, m[i].language.key) by {
            if i == 0 {
                if ka == hk {
                    assert(a[0].language.key == hk);
                } else {
                    assert(b[0].language.key == hk);
                }
            } else {
                let k = tail[i - 1].language.key;
                assert(tail[i - 1] == m[i]);
                if has_key(at, k) {
                    let w = choose|w: int| 0 <= w < at.len() && at[w].language.key == k;
                    if ka == hk {
                        assert(a[w + 1] == at[w]);
                    }
                    assert(has_key(a, k));
                } else {
                    let w = choose|w: int| 0 <= w < bt.len() && bt[w].language.key == k;
                    if kb == hk {
                        assert(b[w + 1] == bt[w]);
                    }
                    assert(has_key(b, k));
                }
            }
        }
    }
}

/// Sub-streams distribute over concatenation of report streams.
proof fn lemma_reports_for_concat(x: Seq<FileReportV>, y: Seq<FileReportV>)
    ensures
        forall|key: int|
            #[trigger] reports_for(x + y, key) == reports_for(x, key) + reports_for(y, key),
    decreases y.len(),
{
    if y.len() == 0 {
        assert(x + y =~= x);
        assert forall|key: int|
            #[trigger] reports_for(x + y, key) == reports_for(x, key) + reports_for(y, key) by {
            assert(reports_for(x, key) + reports_for(y, key) =~= reports_for(x, key));
        }
    } else {
        lemma_reports_for_concat(x, y.drop_last());
        assert((x + y).drop_last() =~= x + y.drop_last());
        assert((x + y).last() == y.last());
        assert forall|key: int|
            #[trigger] reports_for(x + y, key) == reports_for(x, key) + reports_for(y, key) by {
            assert(reports_for(x + y.drop_last(), key) == reports_for(x, key) + reports_for(
                y.drop_last(),
                key,
            ));
            if y.last().language.key == key {
                assert((reports_for(x, key) + reports_for(y.drop_last(), key)).push(y.last())
                    =~= reports_for(x, key) + reports_for(y.drop_last(), key).push(y.last()));
            }
        }
    }
}

/// Sums distribute over concatenation of report streams.
proof fn lemma_sum_concat(x: Seq<FileReportV>, y: Seq<FileReportV>)
    ensures
        sum_code(x + y) == sum_code(x) + sum_code(y),
        sum_comments(x + y) == sum_comments(x) + sum_comments(y),
        sum_blanks(x + y) == sum_blanks(x) + sum_blanks(y),
    decreases y.len(),
{
    if y.len() == 0 {
        assert(x + y =~= x);
    } else {
        lemma_sum_concat(x, y.drop_last());
        assert((x + y).drop_last() =~= x + y.drop_last());
        assert((x + y).last() == y.last());
    }
}

/// A sub-stream of a well-formed stream is well formed.
proof fn lemma_reports_for_wf(rs: Seq<FileReportV>, key: int)
    requires
        reports_wf(rs),
    ensures
        reports_wf(reports_for(rs, key)),
    decreases rs.len(),
{
    if rs.len() > 0 {
        assert(forall|i: int| 0 <= i < rs.len() - 1 ==> #[trigger] rs.drop_last()[i] == rs[i]);
        lemma_reports_for_wf(rs.drop_last(), key);
        let prefix = reports_for(rs.drop_last(), key);
        if rs.last().language.key == key {
            assert(forall|i: int|
                0 <= i < prefix.len() ==> #[trigger] prefix.push(rs.last())[i] == prefix[i]);
            assert(report_bounds(prefix.push(rs.last()).last()));
        }
    }
}

/// Sums of a well-formed stream are not negative.
proof fn lemma_sum_nonneg(rs: Seq<FileReportV>)
    requires
        reports_wf(rs),
    ensures
        sum_code(rs) >= 0,
        sum_comments(rs) >= 0,
        sum_blanks(rs) >= 0,
    decreases rs.len(),
{
    if rs.len() > 0 {
        assert(forall|i: int| 0 <= i < rs.len() - 1 ==> #[trigger] rs.drop_last()[i] == rs[i]);
        lemma_sum_nonneg(rs.drop_last());
        assert(report_bounds(rs.last()));
    }
}

proof fn lemma_cap_cap(x: int, y: int)
    requires
        x >= 0,
        y >= 0,
    ensures
        cap(cap(x) + cap(y)) == cap(x + y),
{
}

/// Folding two sub-streams independently and merging the folds per language
/// yields the fold of the whole stream at once: per-language merging is the
/// fold's homomorphism.
pub proof fn lemma_fold_merge(
    a: Seq<LanguageAggregateV>,
    ra: Seq<FileReportV>,
    b: Seq<LanguageAggregateV>,
    rb: Seq<FileReportV>,
)
    requires
        is_fold(a, ra),
        is_fold(b, rb),
    ensures
        is_fold(spec_merge_langs(a, b), ra + rb),
{
    let m = spec_merge_langs(a, b);
    let rc = ra + rb;
    lemma_spec_merge_props(a, b);
    lemma_reports_for_concat(ra, rb);
    assert forall|i: int| 0 <= i < rc.len() implies report_bounds(#[trigger] rc[i]) by {
        if i < ra.len() {
            assert(rc[i] == ra[i]);
        } else {
            assert(rc[i] == rb[i - ra.len()]);
        }
    }
    assert forall|i: int| 0 <= i < m.len() implies agg_matches(#[trigger] m[i], rc) by {
        let k = m[i].language.key;
        lemma_find_key_sorted(m, i);
        lemma_find_key_has(a, k);
        lemma_find_key_has(b, k);
        let sa = reports_for(ra, k);
        let sb = reports_for(rb, k);
        assert(reports_for(rc, k) == sa + sb);
        lemma_reports_for_wf(ra, k);
        lemma_reports_for_wf(rb, k);
        lemma_sum_nonneg(sa);
        lemma_sum_nonneg(sb);
        lemma_sum_concat(sa, sb);
        if find_key(a, k) is None {
            assert forall|j: int| 0 <= j < ra.len() implies (#[trigger] ra[j]).language.key
                != k by {
                if ra[j].language.key == k {
                    assert(has_key(a, k));
                }
            }
            lemma_reports_for_absent(ra, k);
        } else {
            let x = find_key(a, k)->Some_0;
            let w = choose|w: int| 0 <= w < a.len() && a[w] == x;
            assert(agg_matches(a[w], ra));
        }
        if find_key(b, k) is None {
            assert forall|j: int| 0 <= j < rb.len() implies (#[trigger] rb[j]).language.key
                != k by {
                if rb[j].language.key == k {
                    assert(has_key(b, k));
                }
            }
            lemma_reports_for_absent(rb, k);
        } else {
            let y = find_key(b, k)->Some_0;
            let w = choose|w: int| 0 <= w < b.len() && b[w] == y;
            assert(agg_matches(b[w], rb));
        }
        match (find_key(a, k), find_key(b, k)) {
            (Some(x), Some(y)) => {
                assert(m[i] == merged_agg(x, y));
                lemma_cap_cap(sum_code(sa), sum_code(sb));
                lemma_cap_cap(sum_comments(sa), sum_comments(sb));
                lemma_cap_cap(sum_blanks(sa), sum_blanks(sb));
                assert((sa + sb)[0] == sa[0]);
            },
            (Some(x), None) => {
                assert(m[i] == x);
                assert(sa + sb =~= sa);
            },
            (None, Some(y)) => {
                assert(m[i] == y);
                assert(sa + sb =~= sb);
            },
            (None, None) => {
                assert(false);
            },
        }
    }
    assert forall|j: int| 0 <= j < rc.len() implies has_key(
        m,
        (#[trigger] rc[j]).language.key,
    ) by {
        let k = rc[j].language.key;
        if j < ra.len() {
            assert(rc[j] == ra[j]);
            assert(has_key(a, k));
        } else {
            assert(rc[j] == rb[j - ra.len()]);
            assert(has_key(b, k));
        }
        lemma_find_key_has(a, k);
        lemma_find_key_has(b, k);
        lemma_find_key_has(m, k);
        assert(find_key(m, k) == merge_find(a, b, k));
    }
}

/// Pushing one aggregate pushes its view.
pub proof fn lemma_view_langs_push(v: Seq<LanguageAggregate>, x: LanguageAggregate)
    ensures
        view_langs(v.push(x)) == view_langs(v).push(x@),
{
    assert(view_langs(v.push(x)) =~= view_langs(v).push(x@));
}

/// Merge two key-sorted aggregations, aggregates of one language merged
/// pairwise with `merge`, the rest carried over, key order kept.
pub fn merge_languages(a: &Vec<LanguageAggregate>, b: &Vec<LanguageAggregate>) -> (r: Vec<
    LanguageAggregate,
>)
    requires
        sorted_by_key(view_langs(a@)),
        sorted_by_key(view_langs(b@)),
    ensures
        view_langs(r@) == spec_merge_langs(view_langs(a@), view_langs(b@)),
        sorted_by_key(view_langs(r@)),
        forall|key: int| #[trigger] find_key(view_langs(r@), key) == merge_find(view_langs(a@), view_langs(b@), key),
{
    let ghost av = view_langs(a@);
    let ghost bv = view_langs(b@);
    let mut result: Vec<LanguageAggregate> = Vec::new();
    let na = a.len();
    let nb = b.len();
    let mut i: usize = 0;
    let mut j: usize = 0;
    proof {
        assert(view_langs(result@) =~= Seq::<LanguageAggregateV>::empty());
        assert(av.skip(0) =~= av);
        assert(bv.skip(0) =~= bv);
    }
    while i < na || j < nb
        invariant
            i <= na,
            j <= nb,
            na == a@.len(),
            nb == b@.len(),
            av == view_langs(a@),
            bv == view_langs(b@),
            spec_merge_langs(av, bv) == view_langs(result@) + spec_merge_langs(
                av.skip(i as int),
                bv.skip(j as int),
            ),
        decreases na + nb - i - j,
    {
        let ghost pre = view_langs(result@);
        let ghost askip = av.skip(i as int);
        let ghost bskip = bv.skip(j as int);
        if j >= nb || (i < na && a[i].language.key < b[j].language.key) {
            proof {
                assert(askip[0] == av[i as int]);
                if j >= nb {
                    assert(bskip =~= Seq::<LanguageAggregateV>::empty());
                    assert(spec_merge_langs(askip, bskip) == askip);
                    assert(askip =~= seq![av[i as int]] + av.skip(i as int + 1));
                } else {
                    assert(bskip[0] == bv[j as int]);
                    assert(askip.drop_first() =~= av.skip(i as int + 1));
                    assert(spec_merge_langs(askip, bskip) == seq![askip[0]] + spec_merge_langs(
                        askip.drop_first(),
                        bskip,
                    ));
                }
            }
            let dup = a[i].duplicate();
            let ghost dupg = dup;
            let ghost rprev = result@;
            result.push(dup);
            proof {
                lemma_view_langs_push(rprev, dupg);
                assert(view_langs(result@) =~= pre.push(av[i as int]));
                assert(pre.push(av[i as int]) + spec_merge_langs(av.skip(i as int + 1), bskip)
                    =~= pre + (seq![av[i as int]] + spec_merge_langs(av.skip(i as int + 1), bskip)));
            }
            i = i + 1;
        } else if i >= na || b[j].language.key < a[i].language.key {
            proof {
                assert(bskip[0] == bv[j as int]);
                if i >= na {
                    assert(askip =~= Seq::<LanguageAggregateV>::empty());
                    assert(spec_merge_langs(askip, bskip) == bskip);
                    assert(bskip =~= seq![bv[j as int]] + bv.skip(j as int + 1));
                } else {
                    assert(askip[0] == av[i as int]);
                    assert(bskip.drop_first() =~= bv.skip(j as int + 1));
                    assert(spec_merge_langs(askip, bskip) == seq![bskip[0]] + spec_merge_langs(
                        askip,
                        bskip.drop_first(),
                    ));
                }
            }
            let dup = b[j].duplicate();
            let ghost dupg = dup;
            let ghost rprev = result@;
            result.push(dup);
            proof {
                lemma_view_langs_push(rprev, dupg);
                assert(view_langs(result@) =~= pre.push(bv[j as int]));
                assert(pre.push(bv[j as int]) + spec_merge_langs(askip, bv.skip(j as int + 1))
                    =~= pre + (seq![bv[j as int]] + spec_merge_langs(askip, bv.skip(j as int + 1))));
            }
            j = j + 1;
        } else {
            let merged = merge(&a[i], &b[j]);
            proof {
                assert(askip[0] == av[i as int]);
                assert(bskip[0] == bv[j as int]);
                assert(askip.drop_first() =~= av.skip(i as int + 1));
                assert(bskip.drop_first() =~= bv.skip(j as int + 1));
                assert(spec_merge_langs(askip, bskip) == seq![merged_agg(askip[0], bskip[0])]
                    + spec_merge_langs(askip.drop_first(), bskip.drop_first()));
                assert(merged@ =~= merged_agg(av[i as int], bv[j as int]));
            }
            let ghost mergedg = merged;
            let ghost rprev = result@;
            result.push(merged);
            proof {
                lemma_view_langs_push(rprev, mergedg);
                assert(view_langs(result@) =~= pre.push(merged_agg(av[i as int], bv[j as int])));
                assert(pre.push(merged_agg(av[i as int], bv[j as int])) + spec_merge_langs(
                    av.skip(i as int + 1),
                    bv.skip(j as int + 1),
                ) =~= pre + (seq![merged_agg(av[i as int], bv[j as int])] + spec_merge_langs(
                    av.skip(i as int + 1),
                    bv.skip(j as int + 1),
                )));
            }
            i = i + 1;
            j = j + 1;
        }
    }
    proof {
        assert(av.skip(na as int) =~= Seq::<LanguageAggregateV>::empty());
        assert(bv.skip(nb as int) =~= Seq::<LanguageAggregateV>::empty());
        assert(spec_merge_langs(av.skip(na as int), bv.skip(nb as int)).len() == 0);
        assert(view_langs(result@) + spec_merge_langs(av.skip(na as int), bv.skip(nb as int))
            =~= view_langs(result@));
        lemma_spec_merge_props(av, bv);
    }
    result
}

/// Removing one report removes exactly its own contribution from every
/// language's totals.
proof fn lemma_totals_remove(rs: Seq<FileReportV>, j: int, key: int)
    requires
        0 <= j < rs.len(),
    ensures
        reports_for(rs.remove(j), key).len() == reports_for(rs, key).len() - (
        if rs[j].language.key == key {
            1int
        } else {
            0int
        }),
        sum_code(reports_for(rs.remove(j), key)) == sum_code(reports_for(rs, key)) - (
        if rs[j].language.key == key {
            rs[j].code
        } else {
            0int
        }),
        sum_comments(reports_for(rs.remove(j), key)) == sum_comments(reports_for(rs, key)) - (
        if rs[j].language.key == key {
            rs[j].comments
        } else {
            0int
        }),
        sum_blanks(reports_for(rs.remove(j), key)) == sum_blanks(reports_for(rs, key)) - (
        if rs[j].language.key == key {
            rs[j].blanks
        } else {
            0int
        }),
    decreases rs.len(),
{
    if j == rs.len() - 1 {
        assert(rs.remove(j) =~= rs.drop_last());
        if rs[j].language.key == key {
            let prefix = reports_for(rs.drop_last(), key);
            assert(reports_for(rs, key) == prefix.push(rs.last()));
            assert(prefix.push(rs.last()).drop_last() =~= prefix);
            assert(prefix.push(rs.last()).last() == rs.last());
        }
    } else {
        let rd = rs.drop_last();
        lemma_totals_remove(rd, j, key);
        assert(rs.remove(j).drop_last() =~= rd.remove(j));
        assert(rs.remove(j).last() == rs.last());
        assert(rd[j] == rs[j]);
        if rs.last().language.key == key {
            let pa = reports_for(rd.remove(j), key);
            let pb = reports_for(rd, key);
            assert(reports_for(rs.remove(j), key) == pa.push(rs.last()));
            assert(reports_for(rs, key) == pb.push(rs.last()));
            assert(pa.push(rs.last()).drop_last() =~= pa);
            assert(pb.push(rs.last()).drop_last() =~= pb);
        }
    }
}

/// Rearranging a report stream changes no language's numeric totals: the
/// fold is commutative over its report stream.
pub proof fn lemma_fold_totals_permutation(r1: Seq<FileReportV>, r2: Seq<FileReportV>, key: int)
    requires
        r1.to_multiset() == r2.to_multiset(),
    ensures
        reports_for(r1, key).len() == reports_for(r2, key).len(),
        sum_code(reports_for(r1, key)) == sum_code(reports_for(r2, key)),
        sum_comments(reports_for(r1, key)) == sum_comments(reports_for(r2, key)),
        sum_blanks(reports_for(r1, key)) == sum_blanks(reports_for(r2, key)),
    decreases r1.len(),
{
    r1.to_multiset_ensures();
    r2.to_multiset_ensures();
    if r1.len() == 0 {
        assert(r2.len() == 0);
    } else {
        let x = r1.last();
        assert(r1.contains(x));
        assert(r2.to_multiset().count(x) > 0);
        assert(r2.contains(x));
        let j = choose|j: int| 0 <= j < r2.len() && r2[j] == x;
        assert(r1.remove(r1.len() - 1).to_multiset() == r1.to_multiset().remove(x));
        assert(r2.remove(j).to_multiset() == r2.to_multiset().remove(x));
        assert(r1.remove(r1.len() - 1) =~= r1.drop_last());
        lemma_fold_totals_permutation(r1.drop_last(), r2.remove(j), key);
        lemma_totals_remove(r2, j, key);
        if x.language.key == key {
            lemma_sum_push(reports_for(r1.drop_last(), key), x);
        }
    }
}

/// Folds of rearranged report streams have identical per-language numeric
/// totals: the same languages, and for each the same file count, code,
/// comment and blank sums.  Only the order inside each file list may
/// differ.
pub proof fn lemma_fold_permutation(
    l1: Seq<LanguageAggregateV>,
    r1: Seq<FileReportV>,
    l2: Seq<LanguageAggregateV>,
    r2: Seq<FileReportV>,
)
    requires
        is_fold(l1, r1),
        is_fold(l2, r2),
        r1.to_multiset() == r2.to_multiset(),
    ensures
        forall|key: int|
            #![trigger find_key(l1, key)]
            #![trigger find_key(l2, key)]
            match (find_key(l1, key), find_key(l2, key)) {
                (Some(x), Some(y)) => {
                    &&& x.language.key == y.language.key
                    &&& x.files.len() == y.files.len()
                    &&& x.code == y.code
                    &&& x.comments == y.comments
                    &&& x.blanks == y.blanks
                },
                (None, None) => true,
                _ => false,
            },
{
    assert forall|key: int|
        #![trigger find_key(l1, key)]
        #![trigger find_key(l2, key)]
        match (find_key(l1, key), find_key(l2, key)) {
            (Some(x), Some(y)) => {
                &&& x.language.key == y.language.key
                &&& x.files.len() == y.files.len()
                &&& x.code == y.code
                &&& x.comments == y.comments
                &&& x.blanks == y.blanks
            },
            (None, None) => true,
            _ => false,
        } by {
        lemma_fold_totals_permutation(r1, r2, key);
        lemma_find_key_has(l1, key);
        lemma_find_key_has(l2, key);
        match find_key(l1, key) {
            Some(x) => {
                let w = choose|w: int| 0 <= w < l1.len() && l1[w] == x;
                assert(agg_matches(l1[w], r1));
            },
            None => {
                assert forall|j: int| 0 <= j < r1.len() implies (#[trigger] r1[j]).language.key
                    != key by {
                    if r1[j].language.key == key {
                        assert(has_key(l1, key));
                    }
                }
                lemma_reports_for_absent(r1, key);
            },
        }
        match find_key(l2, key) {
            Some(y) => {
                let w = choose|w: int| 0 <= w < l2.len() && l2[w] == y;
                assert(agg_matches(l2[w], r2));
            },
            None => {
                assert forall|j: int| 0 <= j < r2.len() implies (#[trigger] r2[j]).language.key
                    != key by {
                    if r2[j].language.key == key {
                        assert(has_key(l2, key));
                    }
                }
                lemma_reports_for_absent(r2, key);
            },
        }
    }
}

/// The report the classifier produces for one classified blob.
pub open spec fn report_of(path: Seq<char>, content: Seq<char>) -> FileReportV
    recommends
        classify_of(path) is Some,
{
    let key = classify_of(path)->Some_0;
    let c = line_counts_of(key, content);
    FileReportV {
        path: path,
        language: LanguageIdV { key: key, name: language_name_of(key) },
        code: c.0,
        comments: c.1,
        blanks: c.2,
    }
}

/// The reports of the classified blobs, in blob order.  Blobs whose path the
/// classifier does not recognize contribute nothing.
pub open spec fn reports_of_blobs(blobs: Seq<GitHubBlobV>) -> Seq<FileReportV>
    decreases blobs.len(),
{
    if blobs.len() == 0 {
        Seq::empty()
    } else {
        let prefix = reports_of_blobs(blobs.drop_last());
        if classify_of(blobs.last().path) is Some {
            prefix.push(report_of(blobs.last().path, blobs.last().content))
        } else {
            prefix
        }
    }
}

/// A blob whose path the classifier does not recognize leaves the report
/// stream — and with it every aggregate — unchanged.
pub proof fn lemma_unclassified_contributes_nothing(blobs: Seq<GitHubBlobV>, blob: GitHubBlobV)
    requires
        classify_of(blob.path) is None,
    ensures
        reports_of_blobs(blobs.push(blob)) == reports_of_blobs(blobs),
{
    assert(blobs.push(blob).drop_last() =~= blobs);
}

/// Every report of a classified-blob stream carries a recognized path.
proof fn lemma_blob_reports_classified(blobs: Seq<GitHubBlobV>)
    ensures
        forall|j: int|
            0 <= j < reports_of_blobs(blobs).len() ==> classify_of(
                (#[trigger] reports_of_blobs(blobs)[j]).path,
            ) is Some,
    decreases blobs.len(),
{
    if blobs.len() > 0 {
        lemma_blob_reports_classified(blobs.drop_last());
    }
}

/// Every report of a language's sub-stream is a report of the stream.
proof fn lemma_reports_for_membership(rs: Seq<FileReportV>, key: int)
    ensures
        forall|idx: int|
            0 <= idx < reports_for(rs, key).len() ==> exists|j: int|
                0 <= j < rs.len() && rs[j] == #[trigger] reports_for(rs, key)[idx],
    decreases rs.len(),
{
    if rs.len() > 0 {
        lemma_reports_for_membership(rs.drop_last(), key);
        let prefix = reports_for(rs.drop_last(), key);
        assert forall|idx: int| 0 <= idx < reports_for(rs, key).len() implies exists|j: int|
            0 <= j < rs.len() && rs[j] == #[trigger] reports_for(rs, key)[idx] by {
            if idx < prefix.len() {
                let j = choose|j: int|
                    0 <= j < rs.drop_last().len() && rs.drop_last()[j] == prefix[idx];
                assert(rs[j] == reports_for(rs, key)[idx]);
            } else {
                assert(rs[rs.len() - 1] == reports_for(rs, key)[idx]);
            }
        }
    }
}

/// A path the classifier does not recognize appears in no aggregate's file
/// list of any fold of classified-blob reports.
pub proof fn lemma_unclassified_in_no_file_list(
    langs: Seq<LanguageAggregateV>,
    blobs: Seq<GitHubBlobV>,
)
    requires
        is_fold(langs, reports_of_blobs(blobs)),
    ensures
        forall|i: int, k: int|
            0 <= i < langs.len() && 0 <= k < langs[i].files.len() ==> classify_of(
                (#[trigger] langs[i].files[k]).path,
            ) is Some,
{
    let rs = reports_of_blobs(blobs);
    lemma_blob_reports_classified(blobs);
    assert forall|i: int, k: int|
        0 <= i < langs.len() && 0 <= k < langs[i].files.len() implies classify_of(
        (#[trigger] langs[i].files[k]).path,
    ) is Some by {
        assert(agg_matches(langs[i], rs));
        let key = langs[i].language.key;
        lemma_reports_for_membership(rs, key);
        let j = choose|j: int| 0 <= j < rs.len() && rs[j] == reports_for(rs, key)[k];
    }
}

/// Classify and analyze fetched blobs, in order: one report per recognized
/// path, none for the rest.
pub fn reports_of(files: &Vec<GitHubBlob>) -> (r: Vec<FileReport>)
    ensures
        view_reports(r@) == reports_of_blobs(view_blobs(files@)),
{
    let mut reports: Vec<FileReport> = Vec::new();
    let n = files.len();
    let mut i: usize = 0;
    proof {
        assert(view_reports(reports@) =~= Seq::<FileReportV>::empty());
        assert(view_blobs(files@.take(0)) =~= Seq::<GitHubBlobV>::empty());
    }
    while i < n
        invariant
            i <= n,
            n == files@.len(),
            view_reports(reports@) == reports_of_blobs(view_blobs(files@.take(i as int))),
        decreases n - i,
    {
        let ghost prev = view_blobs(files@.take(i as int));
        proof {
            assert(view_blobs(files@.take(i + 1)) =~= prev.push(files@[i as int]@));
            assert(view_blobs(files@.take(i + 1)).drop_last() =~= prev);
        }
        let file = &files[i];
        match classify_path(file.path.as_str()) {
            None => {
                proof {
                    assert(reports_of_blobs(view_blobs(files@.take(i + 1)))
                        == reports_of_blobs(prev));
                }
            },
            Some(language) => {
                let counts = match analyze(file.path.as_str(), file.content.as_str()) {
                    Some(counts) => counts,
                    None => {
                        // The two classifier calls agree on recognition.
                        proof {
                            assert(false);
                        }
                        return reports;
                    },
                };
                let report = FileReport {
                    path: file.path.clone(),
                    language,
                    code: counts.code,
                    comments: counts.comments,
                    blanks: counts.blanks,
                };
                let ghost rprev = reports@;
                let ghost reportg = report;
                reports.push(report);
                proof {
                    assert(view_reports(reports@) =~= view_reports(rprev).push(reportg@));
                    assert(reportg@ =~= report_of(files@[i as int]@.path, files@[i as int]@.content));
                    assert(reports_of_blobs(view_blobs(files@.take(i + 1)))
                        == reports_of_blobs(prev).push(
                        report_of(files@[i as int]@.path, files@[i as int]@.content),
                    ));
                }
            },
        }
        i = i + 1;
    }
    proof {
        assert(files@.take(n as int) =~= files@);
    }
    reports
}

/// The statistics of one repository: its reference and its per-language
/// aggregates, keys unique and ordered.  Created once per request and owned
/// by the caller afterwards.
#[derive(Debug)]
pub struct Statistics {
    pub repository: GitHubRepository,
    pub languages: Vec<LanguageAggregate>,
}

impl Statistics {
    /// Compute the statistics of fetched files for one repository.
    pub fn get(repository: GitHubRepository, files: &Vec<GitHubBlob>) -> (r: Statistics)
        ensures
            r.repository == repository,
            is_fold(view_langs(r.languages@), reports_of_blobs(view_blobs(files@))),
    {
        let languages = Statistics::get_statistics(files);
        Statistics { repository, languages }
    }

    /// The per-language aggregates of fetched files: classify, analyze and
    /// fold.
    pub fn get_statistics(files: &Vec<GitHubBlob>) -> (r: Vec<LanguageAggregate>)
        ensures
            is_fold(view_langs(r@), reports_of_blobs(view_blobs(files@))),
    {
        let reports = reports_of(files);
        fold_reports(&reports)
    }

    /// Canonicalize any list of aggregates into one per-language mapping:
    /// aggregates sharing a language merge, and every count is recomputed
    /// from the files carried.
    pub fn as_languages(list: &Vec<LanguageAggregate>) -> (r: Vec<LanguageAggregate>)
        ensures
            is_fold(view_langs(r@), flatten_files(view_langs(list@))),
    {
        let mut languages: Vec<LanguageAggregate> = Vec::new();
        let n = list.len();
        let mut i: usize = 0;
        proof {
            assert(view_langs(list@.take(0)) =~= Seq::<LanguageAggregateV>::empty());
        }
        while i < n
            invariant
                i <= n,
                n == list@.len(),
                is_fold(
                    view_langs(languages@),
                    flatten_files(view_langs(list@.take(i as int))),
                ),
            decreases n - i,
        {
            let ghost done = flatten_files(view_langs(list@.take(i as int)));
            let m = list[i].files.len();
            let mut k: usize = 0;
            proof {
                assert(view_reports(list@[i as int].files@.take(0)) =~= Seq::<
                    FileReportV,
                >::empty());
                assert(done + view_reports(list@[i as int].files@.take(0)) =~= done);
            }
            while k < m
                invariant
                    k <= m,
                    0 <= i < n,
                    n == list@.len(),
                    m == list@[i as int].files@.len(),
                    is_fold(
                        view_langs(languages@),
                        done + view_reports(list@[i as int].files@.take(k as int)),
                    ),
                    done == flatten_files(view_langs(list@.take(i as int))),
                decreases m - k,
            {
                let rep = list[i].files[k].duplicate();
                let ghost sofar = done + view_reports(list@[i as int].files@.take(k as int));
                add_report(&mut languages, rep, Ghost(sofar));
                proof {
                    assert(view_reports(list@[i as int].files@.take(k + 1))
                        =~= view_reports(list@[i as int].files@.take(k as int)).push(
                        list@[i as int].files@[k as int]@,
                    ));
                    assert(sofar.push(list@[i as int].files@[k as int]@)
                        =~= done + view_reports(list@[i as int].files@.take(k + 1)));
                }
                k = k + 1;
            }
            proof {
                assert(list@[i as int].files@.take(m as int) =~= list@[i as int].files@);
                assert(view_langs(list@.take(i + 1)) =~= view_langs(list@.take(i as int)).push(
                    list@[i as int]@,
                ));
                assert(view_langs(list@.take(i + 1)).drop_last() =~= view_langs(
                    list@.take(i as int),
                ));
                assert(flatten_files(view_langs(list@.take(i + 1))) == done + view_reports(
                    list@[i as int].files@,
                ));
            }
            i = i + 1;
        }
        proof {
            assert(list@.take(n as int) =~= list@);
        }
        languages
    }
}

/// Whether two reports carry the same values.
pub fn report_eq(a: &FileReport, b: &FileReport) -> (r: bool)
    ensures
        r == (a@ == b@),
{
    let r = a.path == b.path && a.language.key == b.language.key && a.language.name
        == b.language.name && a.code == b.code && a.comments == b.comments && a.blanks == b.blanks;
    proof {
        if r {
            assert(a@ =~= b@);
        }
    }
    r
}

/// Whether two aggregates carry the same values.
pub fn aggregate_eq(a: &LanguageAggregate, b: &LanguageAggregate) -> (r: bool)
    ensures
        r == (a@ == b@),
{
    if !(a.language.key == b.language.key && a.language.name == b.language.name && a.code == b.code
        && a.comments == b.comments && a.blanks == b.blanks) {
        return false;
    }
    let n = a.files.len();
    if n != b.files.len() {
        proof {
            assert(view_reports(a.files@).len() == a.files@.len());
            assert(view_reports(b.files@).len() == b.files@.len());
        }
        return false;
    }
    let mut i: usize = 0;
    while i < n
        invariant
            i <= n,
            n == a.files@.len(),
            n == b.files@.len(),
            forall|j: int| 0 <= j < i ==> a.files@[j]@ == b.files@[j]@,
        decreases n - i,
    {
        if !report_eq(&a.files[i], &b.files[i]) {
            proof {
                assert(view_reports(a.files@)[i as int] != view_reports(b.files@)[i as int]);
            }
            return false;
        }
        i = i + 1;
    }
    proof {
        assert(view_reports(a.files@) =~= view_reports(b.files@));
        assert(a@ =~= b@);
    }
    true
}

impl PartialEq for Statistics {
    /// Equality by value: the same repository and the same aggregation.
    fn eq(&self, other: &Statistics) -> (r: bool) {
        if !(self.repository == other.repository) {
            return false;
        }
        let n = self.languages.len();
        if n != other.languages.len() {
            proof {
                assert(view_langs(self.languages@).len() == self.languages@.len());
                assert(view_langs(other.languages@).len() == other.languages@.len());
            }
            return false;
        }
        let mut i: usize = 0;
        while i < n
            invariant
                i <= n,
                n == self.languages@.len(),
                n == other.languages@.len(),
                self.repository.owner@ == other.repository.owner@,
                self.repository.repo@ == other.repository.repo@,
                forall|j: int| 0 <= j < i ==> self.languages@[j]@ == other.languages@[j]@,
            decreases n - i,
        {
            if !aggregate_eq(&self.languages[i], &other.languages[i]) {
                proof {
                    assert(view_langs(self.languages@)[i as int] != view_langs(
                        other.languages@,
                    )[i as int]);
                }
                return false;
            }
            i = i + 1;
        }
        proof {
            assert(view_langs(self.languages@) =~= view_langs(other.languages@));
        }
        true
    }
}

impl vstd::std_specs::cmp::PartialEqSpecImpl for Statistics {
    open spec fn obeys_eq_spec() -> bool {
        true
    }

    open spec fn eq_spec(&self, other: &Statistics) -> bool {
        &&& self.repository.owner@ == other.repository.owner@
        &&& self.repository.repo@ == other.repository.repo@
        &&& view_langs(self.languages@) == view_langs(other.languages@)
    }
}

/// Every file of every aggregate of the list, in list order.
pub open spec fn flatten_files(list: Seq<LanguageAggregateV>) -> Seq<FileReportV>
    decreases list.len(),
{
    if list.len() == 0 {
        Seq::empty()
    } else {
        flatten_files(list.drop_last()) + list.last().files
    }
}

} // verus!
