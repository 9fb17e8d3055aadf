//! The language classifier collaborator.
//!
//! Classification and per-file line counting are done by tokei; this module
//! is the library's only window onto it.  `classify_path` maps a blob path to
//! a language identifier, or to none when the path carries no recognized
//! name or extension — such files contribute nothing to any statistics.
//! `analyze` counts the code, comment and blank lines of one file's content
//! under its language's tokenization rules.  Both results are functions of
//! their arguments alone and are named by uninterpreted spec functions, so
//! every contract downstream can speak of them exactly.

use vstd::prelude::*;

verus! {

/// The language tokei assigns to a path from its final component's name or
/// extension, as the discriminant of `tokei::LanguageType`; none when the
/// path is not recognized.
pub uninterp spec fn classify_of(path: Seq<char>) -> Option<int>;

/// The display name tokei gives the language whose discriminant is `key`.
pub uninterp spec fn language_name_of(key: int) -> Seq<char>;

/// The `(code, comments, blanks)` line counts tokei's analyzer assigns to
/// `content` under the language whose discriminant is `key`, with the
/// default configuration.
pub uninterp spec fn line_counts_of(key: int, content: Seq<char>) -> (int, int, int);

/// The aggregation key of one language: the classifier's discriminant, which
/// orders the language mapping, and the display name that belongs to it.
#[derive(Debug, Clone)]
pub struct LanguageId {
    pub key: u32,
    pub name: String,
}

/// The mathematical value of a `LanguageId`.
pub ghost struct LanguageIdV {
    pub key: int,
    pub name: Seq<char>,
}

impl View for LanguageId {
    type V = LanguageIdV;

    open spec fn view(&self) -> LanguageIdV {
        LanguageIdV { key: self.key as int, name: self.name@ }
    }
}

impl LanguageId {
    /// A field-by-field copy whose contents are known to the verifier.
    pub fn duplicate(&self) -> (r: LanguageId)
        ensures
            r@ == self@,
    {
        LanguageId { key: self.key, name: self.name.clone() }
    }
}

/// The per-file line counts the classifier's analyzer reports.
#[derive(Debug, Clone, Copy, PartialEq, Eq, Structural)]
pub struct LineCounts {
    pub code: u64,
    pub comments: u64,
    pub blanks: u64,
}

/// Relies on `tokei::LanguageType::from_path` and `LanguageType::name`, with
/// the default configuration.  `from_path` decides by the final path
/// component's name or extension; its only other source, a shebang probe,
/// opens the path on the file system.  The NUL component prefixed here makes
/// that probe fail on every platform while leaving the final component
/// untouched, so the result is a function of the path alone — exactly the
/// behaviour of a deployment with no file system to probe.
#[verifier::external_body]
pub fn classify_path(path: &str) -> (r: Option<LanguageId>)
    ensures
        (r is Some) == (classify_of(path@) is Some),
        r matches Some(id) ==> Some(id@.key) == classify_of(path@)
            && id@.name == language_name_of(id@.key),
{
    let probe = format!("\u{0}/{}", path);
    let config = tokei::Config::default();
    tokei::LanguageType::from_path(&probe, &config)
        .map(|lang| LanguageId { key: lang as u32, name: lang.name().to_string() })
}

/// Relies on `tokei::LanguageType::from_path` (probed as in `classify_path`)
/// and `LanguageType::parse_from_str`, with the default configuration: the
/// counts depend on the language and the text alone.
#[verifier::external_body]
pub fn analyze(path: &str, content: &str) -> (r: Option<LineCounts>)
    ensures
        (r is Some) == (classify_of(path@) is Some),
        r matches Some(c) ==> (c.code as int, c.comments as int, c.blanks as int)
            == line_counts_of(classify_of(path@)->Some_0, content@),
{
    let probe = format!("\u{0}/{}", path);
    let config = tokei::Config::default();
    tokei::LanguageType::from_path(&probe, &config).map(|lang| {
        let stats = lang.parse_from_str(content, &config);
        LineCounts {
            code: stats.code as u64,
            comments: stats.comments as u64,
            blanks: stats.blanks as u64,
        }
    })
}

} // verus!
