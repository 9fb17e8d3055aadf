//! Canonical identity of a remote repository, and its URL grammar.
//!
//! A `GitHubRepository` names a repository by owner and name.  `from_url`
//! validates a public repository URL against the expected origin and splits
//! its path into segments: the first is the owner, the second the repository
//! name; anything after the second segment (in particular a trailing slash)
//! is ignored.  `to_url` is the deterministic inverse for well-formed
//! references, which `lemma_url_round_trip` proves.

use vstd::prelude::*;
use vstd::string::*;

use crate::error::InvalidRepositoryUrl;

verus! {

/// The web origin repository URLs must carry.
pub open spec fn origin_seq() -> Seq<char> {
    "https://github.com"@
}

/// The origin of the REST API.
pub open spec fn api_origin_seq() -> Seq<char> {
    "https://api.github.com"@
}

/// The origin serving raw file content.
pub open spec fn raw_origin_seq() -> Seq<char> {
    "https://raw.githubusercontent.com"@
}

/// A well-formed path segment: non-empty and free of `/`.
pub open spec fn is_segment(s: Seq<char>) -> bool {
    s.len() > 0 && forall|i: int| 0 <= i < s.len() ==> s[i] != '/'
}

/// `prefix` is an initial run of `s`.
pub open spec fn starts_with(s: Seq<char>, prefix: Seq<char>) -> bool {
    prefix.len() <= s.len() && s.subrange(0, prefix.len() as int) == prefix
}

/// Index of the first `/` in `s`, if any.
pub open spec fn find_slash(s: Seq<char>) -> Option<int>
    decreases s.len(),
{
    if s.len() == 0 {
        None
    } else if s[0] == '/' {
        Some(0 as int)
    } else {
        match find_slash(s.drop_first()) {
            None => None,
            Some(i) => Some(i + 1),
        }
    }
}

pub proof fn lemma_find_slash_at(s: Seq<char>, i: int)
    requires
        0 <= i < s.len(),
        s[i] == '/',
        forall|j: int| 0 <= j < i ==> s[j] != '/',
    ensures
        find_slash(s) == Some(i),
    decreases i,
{
    if i > 0 {
        assert(s.drop_first()[i - 1] == s[i]);
        assert(forall|j: int| 0 <= j < i - 1 ==> s.drop_first()[j] == s[j + 1]);
        lemma_find_slash_at(s.drop_first(), i - 1);
    }
}

pub proof fn lemma_find_slash_none(s: Seq<char>)
    requires
        forall|j: int| 0 <= j < s.len() ==> s[j] != '/',
    ensures
        find_slash(s) is None,
    decreases s.len(),
{
    if s.len() > 0 {
        assert(forall|j: int| 0 <= j < s.len() - 1 ==> s.drop_first()[j] == s[j + 1]);
        lemma_find_slash_none(s.drop_first());
    }
}

pub proof fn lemma_find_slash_concat(a: Seq<char>, b: Seq<char>)
    requires
        forall|j: int| 0 <= j < a.len() ==> a[j] != '/',
    ensures
        find_slash(a + seq!['/'] + b) == Some(a.len() as int),
{
    let s = a + seq!['/'] + b;
    assert(s[a.len() as int] == '/');
    assert(forall|j: int| 0 <= j < a.len() ==> s[j] == a[j]);
    lemma_find_slash_at(s, a.len() as int);
}

/// The value of a hexadecimal digit, or -1 for any other character.
pub open spec fn hex_val(c: char) -> int {
    let u = c as int;
    if 48 <= u <= 57 {
        u - 48
    } else if 97 <= u <= 102 {
        u - 87
    } else if 65 <= u <= 70 {
        u - 55
    } else {
        -1
    }
}

/// Whether `c` is a hexadecimal digit.
pub open spec fn is_hex(c: char) -> bool {
    hex_val(c) >= 0
}

/// The characters a path position cannot carry raw: the ASCII specials that
/// end or break a URL path, and `%` itself so that encoding inverts.
/// Everything else — `/` included, so whole paths keep their separators —
/// passes through unchanged.
pub open spec fn is_path_escaped(c: char) -> bool {
    c == ' ' || c == '"' || c == '<' || c == '>' || c == '`' || c == '#' || c == '?' || c == '{'
        || c == '}' || c == '%'
}

/// What one character contributes to a percent-encoded path: its `%XX`
/// escape when it cannot stand raw, else itself.
pub open spec fn escape_of(c: char) -> Seq<char> {
    if c == ' ' {
        seq!['%', '2', '0']
    } else if c == '"' {
        seq!['%', '2', '2']
    } else if c == '<' {
        seq!['%', '3', 'C']
    } else if c == '>' {
        seq!['%', '3', 'E']
    } else if c == '`' {
        seq!['%', '6', '0']
    } else if c == '#' {
        seq!['%', '2', '3']
    } else if c == '?' {
        seq!['%', '3', 'F']
    } else if c == '{' {
        seq!['%', '7', 'B']
    } else if c == '}' {
        seq!['%', '7', 'D']
    } else if c == '%' {
        seq!['%', '2', '5']
    } else {
        seq![c]
    }
}

/// `s` percent-encoded for a URL path position.
pub open spec fn spec_percent_encode(s: Seq<char>) -> Seq<char>
    decreases s.len(),
{
    if s.len() == 0 {
        Seq::empty()
    } else {
        escape_of(s[0]) + spec_percent_encode(s.drop_first())
    }
}

/// `s` percent-decoded: each `%` followed by two hexadecimal digits becomes
/// the character with that code (so a multi-byte escape sequence decodes
/// byte by byte); a `%` not followed by two such digits stays literal.
pub open spec fn spec_percent_decode(s: Seq<char>) -> Seq<char>
    decreases s.len(),
{
    if s.len() == 0 {
        Seq::empty()
    } else if s[0] == '%' && s.len() >= 3 && is_hex(s[1]) && is_hex(s[2]) {
        seq![((hex_val(s[1]) * 16 + hex_val(s[2])) as u8) as char] + spec_percent_decode(s.skip(3))
    } else {
        seq![s[0]] + spec_percent_decode(s.skip(1))
    }
}

/// Decoding a non-empty text yields a non-empty text: every step consumes
/// input and produces one character.
pub proof fn lemma_decode_nonempty(s: Seq<char>)
    requires
        s.len() > 0,
    ensures
        spec_percent_decode(s).len() > 0,
{
}

/// Encoding then decoding is the identity: every escape this encoder emits
/// is a `%` with two hexadecimal digits, decoding back to the escaped
/// character, and every raw character passes both ways.
pub proof fn lemma_decode_of_encode(s: Seq<char>)
    ensures
        spec_percent_decode(spec_percent_encode(s)) == s,
    decreases s.len(),
{
    if s.len() > 0 {
        lemma_decode_of_encode(s.drop_first());
        let c = s[0];
        let e = spec_percent_encode(s);
        let tail = spec_percent_encode(s.drop_first());
        if is_path_escaped(c) {
            assert(e.skip(3) =~= tail);
            assert(spec_percent_decode(e) =~= seq![c] + s.drop_first());
            assert(seq![c] + s.drop_first() =~= s);
        } else {
            assert(e[0] == c);
            assert(e.skip(1) =~= tail);
            assert(spec_percent_decode(e) =~= seq![c] + s.drop_first());
            assert(seq![c] + s.drop_first() =~= s);
        }
    }
}

/// Encoding a slash-free text yields a slash-free text: no escape emits `/`.
pub proof fn lemma_encode_no_slash(s: Seq<char>)
    requires
        forall|i: int| 0 <= i < s.len() ==> s[i] != '/',
    ensures
        forall|j: int|
            0 <= j < spec_percent_encode(s).len() ==> spec_percent_encode(s)[j] != '/',
    decreases s.len(),
{
    if s.len() > 0 {
        assert(forall|i: int| 0 <= i < s.len() - 1 ==> s.drop_first()[i] == s[i + 1]);
        lemma_encode_no_slash(s.drop_first());
        let e = spec_percent_encode(s);
        let head = escape_of(s[0]);
        assert forall|j: int| 0 <= j < e.len() implies e[j] != '/' by {
            if j < head.len() {
                assert(e[j] == head[j]);
            } else {
                assert(e[j] == spec_percent_encode(s.drop_first())[j - head.len()]);
            }
        }
    }
}

/// Split a URL path (the part after the origin and its slash) into owner and
/// repository name.  The raw owner runs to the first `/`, the raw name from
/// there to the next `/` or the end; later segments are ignored.  Each part
/// is stored percent-decoded; a part whose raw text is empty, or whose
/// decoded text holds a `/` (an escaped slash cannot name a segment), is
/// rejected as missing.
pub open spec fn spec_parse_path(path: Seq<char>) -> Result<(Seq<char>, Seq<char>), InvalidRepositoryUrl> {
    let raw_owner = match find_slash(path) {
        None => path,
        Some(i) => path.take(i),
    };
    let owner = spec_percent_decode(raw_owner);
    if raw_owner.len() == 0 {
        Err(InvalidRepositoryUrl::CannotFindOwner)
    } else if find_slash(owner) is Some {
        Err(InvalidRepositoryUrl::CannotFindOwner)
    } else {
        match find_slash(path) {
            None => Err(InvalidRepositoryUrl::CannotFindRepo),
            Some(i) => {
                let rest = path.skip(i + 1);
                let raw_name = match find_slash(rest) {
                    None => rest,
                    Some(j) => rest.take(j),
                };
                let name = spec_percent_decode(raw_name);
                if raw_name.len() == 0 {
                    Err(InvalidRepositoryUrl::CannotFindRepo)
                } else if find_slash(name) is Some {
                    Err(InvalidRepositoryUrl::CannotFindRepo)
                } else {
                    Ok((owner, name))
                }
            },
        }
    }
}

/// The default port of the origin's scheme, which names the same origin
/// when spelled out.
pub open spec fn default_port_seq() -> Seq<char> {
    seq![':', '4', '4', '3']
}

/// What follows the origin of `s`, the scheme's default port stripped if it
/// is spelled out.
pub open spec fn spec_after_origin(s: Seq<char>) -> Seq<char> {
    let rest = s.skip(origin_seq().len() as int);
    if starts_with(rest, default_port_seq()) {
        rest.skip(4)
    } else {
        rest
    }
}

/// What parsing a repository URL yields: the percent-decoded owner and name
/// segments, or the exact rejection.  A URL whose origin differs, or whose
/// origin is not followed by `/`, cannot be a repository base; the origin
/// with its default port spelled out is the same origin.
pub open spec fn spec_from_url(s: Seq<char>) -> Result<(Seq<char>, Seq<char>), InvalidRepositoryUrl> {
    if !starts_with(s, origin_seq()) {
        Err(InvalidRepositoryUrl::CannotBeBase)
    } else {
        let rest = spec_after_origin(s);
        if rest.len() > 0 && rest[0] != '/' {
            Err(InvalidRepositoryUrl::CannotBeBase)
        } else {
            spec_parse_path(
                if rest.len() > 0 {
                    rest.skip(1)
                } else {
                    Seq::empty()
                },
            )
        }
    }
}

/// The canonical URL of a reference: origin, then the owner and name,
/// each percent-encoded.
pub open spec fn spec_to_url(owner: Seq<char>, name: Seq<char>) -> Seq<char> {
    origin_seq() + seq!['/'] + spec_percent_encode(owner) + seq!['/'] + spec_percent_encode(name)
}

/// Round trip: the canonical URL of any well-formed owner and name parses
/// back to exactly that owner and name, and a trailing slash neither fails
/// nor alters the result.
pub proof fn lemma_url_round_trip(owner: Seq<char>, name: Seq<char>)
    requires
        is_segment(owner),
        is_segment(name),
    ensures
        spec_from_url(spec_to_url(owner, name)) == Ok::<(Seq<char>, Seq<char>), InvalidRepositoryUrl>((owner, name)),
        spec_from_url(spec_to_url(owner, name) + seq!['/']) == Ok::<(Seq<char>, Seq<char>), InvalidRepositoryUrl>((owner, name)),
{
    lemma_round_trip_with_suffix(owner, name, Seq::empty());
    lemma_round_trip_with_suffix(owner, name, seq!['/']);
    assert(spec_to_url(owner, name) + Seq::<char>::empty() =~= spec_to_url(owner, name));
}

proof fn lemma_round_trip_with_suffix(owner: Seq<char>, name: Seq<char>, t: Seq<char>)
    requires
        is_segment(owner),
        is_segment(name),
        t.len() == 0 || t == seq!['/'],
    ensures
        spec_from_url(spec_to_url(owner, name) + t) == Ok::<(Seq<char>, Seq<char>), InvalidRepositoryUrl>((owner, name)),
{
    let olen = origin_seq().len() as int;
    let eo = spec_percent_encode(owner);
    let en = spec_percent_encode(name);
    let s = spec_to_url(owner, name) + t;
    assert(s.subrange(0, olen) =~= origin_seq());
    assert(starts_with(s, origin_seq()));
    lemma_decode_of_encode(owner);
    lemma_decode_of_encode(name);
    assert(eo.len() > 0) by {
        if eo.len() == 0 {
            assert(eo =~= Seq::<char>::empty());
            assert(owner =~= Seq::<char>::empty());
        }
    }
    assert(en.len() > 0) by {
        if en.len() == 0 {
            assert(en =~= Seq::<char>::empty());
            assert(name =~= Seq::<char>::empty());
        }
    }
    let rest0 = s.skip(olen);
    assert(rest0[0] == '/');
    assert(!starts_with(rest0, default_port_seq())) by {
        if starts_with(rest0, default_port_seq()) {
            assert(rest0.subrange(0, 4)[0] == rest0[0]);
        }
    }
    assert(spec_after_origin(s) == rest0);
    let path = rest0.skip(1);
    assert(path =~= eo + seq!['/'] + (en + t));
    lemma_encode_no_slash(owner);
    lemma_encode_no_slash(name);
    lemma_find_slash_concat(eo, en + t);
    assert(find_slash(path) == Some(eo.len() as int));
    assert(path.take(eo.len() as int) =~= eo);
    lemma_find_slash_none(owner);
    let rest = path.skip(eo.len() as int + 1);
    assert(rest =~= en + t);
    lemma_find_slash_none(name);
    if t.len() == 0 {
        assert(rest =~= en);
        lemma_find_slash_none(rest);
    } else {
        assert(rest =~= en + seq!['/'] + Seq::<char>::empty());
        lemma_find_slash_concat(en, Seq::empty());
        assert(find_slash(rest) == Some(en.len() as int));
        assert(rest.take(en.len() as int) =~= en);
    }
}

/// Relies on `String::push`: appends exactly the given character.
#[verifier::external_body]
fn push_char(s: &mut String, c: char)
    ensures
        final(s)@ == old(s)@.push(c),
{
    s.push(c);
}

/// Append what `c` contributes to a percent-encoded path.
fn push_escape(out: &mut String, c: char)
    ensures
        final(out)@ == old(out)@ + escape_of(c),
{
    if c == ' ' {
        push_char(out, '%');
        push_char(out, '2');
        push_char(out, '0');
    } else if c == '"' {
        push_char(out, '%');
        push_char(out, '2');
        push_char(out, '2');
    } else if c == '<' {
        push_char(out, '%');
        push_char(out, '3');
        push_char(out, 'C');
    } else if c == '>' {
        push_char(out, '%');
        push_char(out, '3');
        push_char(out, 'E');
    } else if c == '`' {
        push_char(out, '%');
        push_char(out, '6');
        push_char(out, '0');
    } else if c == '#' {
        push_char(out, '%');
        push_char(out, '2');
        push_char(out, '3');
    } else if c == '?' {
        push_char(out, '%');
        push_char(out, '3');
        push_char(out, 'F');
    } else if c == '{' {
        push_char(out, '%');
        push_char(out, '7');
        push_char(out, 'B');
    } else if c == '}' {
        push_char(out, '%');
        push_char(out, '7');
        push_char(out, 'D');
    } else if c == '%' {
        push_char(out, '%');
        push_char(out, '2');
        push_char(out, '5');
    } else {
        push_char(out, c);
    }
}

/// Percent-encode `s` for a URL path position: escape the ASCII specials
/// that cannot stand raw, keep everything else — `/` included.
pub fn percent_encode(s: &str) -> (r: String)
    ensures
        r@ == spec_percent_encode(s@),
{
    let n = s.unicode_len();
    let mut out = String::new();
    let mut i: usize = 0;
    proof {
        assert(s@.skip(0) =~= s@);
        assert(Seq::<char>::empty() + spec_percent_encode(s@) =~= spec_percent_encode(s@));
    }
    while i < n
        invariant
            i <= n,
            n == s@.len(),
            spec_percent_encode(s@) == out@ + spec_percent_encode(s@.skip(i as int)),
        decreases n - i,
    {
        let ghost prev = out@;
        proof {
            assert(s@.skip(i as int)[0] == s@[i as int]);
            assert(s@.skip(i as int).drop_first() =~= s@.skip(i + 1));
        }
        push_escape(&mut out, s.get_char(i));
        proof {
            assert(out@ + spec_percent_encode(s@.skip(i + 1)) =~= prev + (escape_of(s@[i as int])
                + spec_percent_encode(s@.skip(i + 1))));
        }
        i = i + 1;
    }
    proof {
        assert(s@.skip(n as int) =~= Seq::<char>::empty());
        assert(out@ + spec_percent_encode(s@.skip(n as int)) =~= out@);
    }
    out
}

/// The value of a hexadecimal digit, if `c` is one.
fn hex_value(c: char) -> (r: Option<u32>)
    ensures
        (r is Some) == is_hex(c),
        r matches Some(v) ==> v == hex_val(c),
{
    let u = c as u32;
    if u >= 48 && u <= 57 {
        Some(u - 48)
    } else if u >= 97 && u <= 102 {
        Some(u - 87)
    } else if u >= 65 && u <= 70 {
        Some(u - 55)
    } else {
        None
    }
}

/// Percent-decode `s`: each `%` with two hexadecimal digits becomes the
/// character with that code; a `%` without them stays literal.
pub fn percent_decode(s: &str) -> (r: String)
    ensures
        r@ == spec_percent_decode(s@),
{
    let n = s.unicode_len();
    let mut out = String::new();
    let mut i: usize = 0;
    proof {
        assert(s@.skip(0) =~= s@);
        assert(Seq::<char>::empty() + spec_percent_decode(s@) =~= spec_percent_decode(s@));
    }
    while i < n
        invariant
            i <= n,
            n == s@.len(),
            spec_percent_decode(s@) == out@ + spec_percent_decode(s@.skip(i as int)),
        decreases n - i,
    {
        let ghost prev = out@;
        let ghost suffix = s@.skip(i as int);
        proof {
            assert(suffix[0] == s@[i as int]);
            assert(suffix.len() == n - i);
            if n - i > 2 {
                assert(suffix[1] == s@[i + 1]);
                assert(suffix[2] == s@[i + 2]);
            }
            assert(suffix.skip(1) =~= s@.skip(i + 1));
            if n - i > 2 {
                assert(suffix.skip(3) =~= s@.skip(i + 3));
            }
        }
        let c = s.get_char(i);
        let mut stepped = false;
        if c == '%' && n - i > 2 {
            let h1 = hex_value(s.get_char(i + 1));
            let h2 = hex_value(s.get_char(i + 2));
            match (h1, h2) {
                (Some(v1), Some(v2)) => {
                    let code = v1 * 16 + v2;
                    push_char(&mut out, (code as u8) as char);
                    proof {
                        assert(out@ + spec_percent_decode(s@.skip(i + 3)) =~= prev + (seq![
                            ((hex_val(suffix[1]) * 16 + hex_val(suffix[2])) as u8) as char,
                        ] + spec_percent_decode(suffix.skip(3))));
                    }
                    i = i + 3;
                    stepped = true;
                },
                _ => {},
            }
        }
        if !stepped {
            push_char(&mut out, c);
            proof {
                assert(out@ + spec_percent_decode(s@.skip(i + 1)) =~= prev + (seq![suffix[0]]
                    + spec_percent_decode(suffix.skip(1))));
            }
            i = i + 1;
        }
    }
    proof {
        assert(s@.skip(n as int) =~= Seq::<char>::empty());
        assert(out@ + spec_percent_decode(s@.skip(n as int)) =~= out@);
    }
    out
}

/// Canonical identity of a repository: its owner and its name.  Equality is
/// by fields.  A reference is well formed when both parts are non-empty path
/// segments; `new` documents non-emptiness as its caller's obligation.
#[derive(Debug, Clone)]
pub struct GitHubRepository {
    pub owner: String,
    pub repo: String,
}

impl PartialEq for GitHubRepository {
    fn eq(&self, other: &Self) -> (r: bool) {
        self.owner == other.owner && self.repo == other.repo
    }
}

impl vstd::std_specs::cmp::PartialEqSpecImpl for GitHubRepository {
    open spec fn obeys_eq_spec() -> bool {
        true
    }

    open spec fn eq_spec(&self, other: &Self) -> bool {
        self.owner@ == other.owner@ && self.repo@ == other.repo@
    }
}

impl GitHubRepository {
    /// Both parts of a well-formed reference are non-empty segments.
    pub open spec fn wf(self) -> bool {
        is_segment(self.owner@) && is_segment(self.repo@)
    }

    /// Direct construction.  Validates nothing beyond non-emptiness, which is
    /// the caller's obligation.
    pub fn new(owner: &str, repo: &str) -> (r: GitHubRepository)
        requires
            owner@.len() > 0,
            repo@.len() > 0,
        ensures
            r.owner@ == owner@,
            r.repo@ == repo@,
    {
        GitHubRepository { owner: owner.to_owned(), repo: repo.to_owned() }
    }

    /// A field-by-field copy whose contents are known to the verifier.
    pub fn duplicate(&self) -> (r: GitHubRepository)
        ensures
            r.owner@ == self.owner@,
            r.repo@ == self.repo@,
    {
        GitHubRepository { owner: self.owner.clone(), repo: self.repo.clone() }
    }

    /// Parse a public repository URL: validate the origin (its default port
    /// may be spelled out), then read the owner and name segments of its
    /// path, storing each percent-decoded.
    #[verifier::rlimit(50)]
    pub fn from_url(url: &str) -> (r: Result<GitHubRepository, InvalidRepositoryUrl>)
        ensures
            r matches Ok(repo) ==> spec_from_url(url@) == Ok::<(Seq<char>, Seq<char>), InvalidRepositoryUrl>((repo.owner@, repo.repo@)),
            r matches Err(e) ==> spec_from_url(url@) == Err::<(Seq<char>, Seq<char>), InvalidRepositoryUrl>(e),
            r matches Ok(repo) ==> repo.wf(),
    {
        let origin: &str = "https://github.com";
        if !has_prefix(url, origin) {
            return Err(InvalidRepositoryUrl::CannotBeBase);
        }
        let olen = origin.unicode_len();
        let ulen = url.unicode_len();
        let ghost rest0 = url@.skip(olen as int);
        // The origin with its default port spelled out is the same origin.
        let ported = ulen - olen >= 4 && url.get_char(olen) == ':' && url.get_char(olen + 1) == '4'
            && url.get_char(olen + 2) == '4' && url.get_char(olen + 3) == '3';
        let base = if ported {
            olen + 4
        } else {
            olen
        };
        proof {
            lemma_skip_index_all(url@, olen as int);
            if ported {
                assert(rest0.subrange(0, 4) =~= default_port_seq());
                assert(starts_with(rest0, default_port_seq()));
            } else {
                if starts_with(rest0, default_port_seq()) {
                    assert(rest0.subrange(0, 4)[0] == rest0[0]);
                    assert(rest0.subrange(0, 4)[1] == rest0[1]);
                    assert(rest0.subrange(0, 4)[2] == rest0[2]);
                    assert(rest0.subrange(0, 4)[3] == rest0[3]);
                }
            }
            assert(spec_after_origin(url@) =~= url@.skip(base as int));
        }
        let ghost rest = spec_after_origin(url@);
        if ulen <= base {
            // The path is empty, so its first segment is empty.
            assert(rest.len() == 0);
            return Err(InvalidRepositoryUrl::CannotFindOwner);
        }
        if url.get_char(base) != '/' {
            return Err(InvalidRepositoryUrl::CannotBeBase);
        }
        let pstart = base + 1;
        let ghost path = rest.skip(1);
        assert(path =~= url@.skip(pstart as int));
        if ulen == pstart {
            assert(path.len() == 0);
            return Err(InvalidRepositoryUrl::CannotFindOwner);
        }
        let owner_end = match scan_slash(url, pstart) {
            None => {
                proof {
                    lemma_skip_index_all(url@, pstart as int);
                    lemma_find_slash_none(path);
                }
                ulen
            },
            Some(i) => {
                proof {
                    assert(find_slash(path) == Some(i - pstart));
                }
                i
            },
        };
        if owner_end == pstart {
            proof {
                if find_slash(path) is Some {
                    assert(path.take(0) =~= Seq::<char>::empty());
                }
            }
            return Err(InvalidRepositoryUrl::CannotFindOwner);
        }
        let owner = percent_decode(url.substring_char(pstart, owner_end));
        proof {
            if find_slash(path) is None {
                assert(url@.subrange(pstart as int, owner_end as int) =~= path);
            } else {
                assert(url@.subrange(pstart as int, owner_end as int) =~= path.take(
                    owner_end - pstart,
                ));
            }
        }
        if let Some(_) = scan_slash(owner.as_str(), 0) {
            // An escaped slash cannot name a segment.
            proof {
                assert(owner@.skip(0) =~= owner@);
            }
            return Err(InvalidRepositoryUrl::CannotFindOwner);
        }
        proof {
            assert(owner@.skip(0) =~= owner@);
            lemma_find_slash_none(owner@);
        }
        if owner_end == ulen {
            // One non-empty segment and no second one.
            return Err(InvalidRepositoryUrl::CannotFindRepo);
        }
        let rstart = owner_end + 1;
        let ghost rest2 = path.skip(owner_end - pstart + 1);
        assert(rest2 =~= url@.skip(rstart as int));
        let name_end = match scan_slash(url, rstart) {
            None => {
                proof {
                    lemma_skip_index_all(url@, rstart as int);
                    lemma_find_slash_none(rest2);
                }
                ulen
            },
            Some(j) => {
                proof {
                    assert(find_slash(rest2) == Some(j - rstart));
                }
                j
            },
        };
        if name_end == rstart {
            proof {
                if find_slash(rest2) is Some {
                    assert(rest2.take(0) =~= Seq::<char>::empty());
                }
            }
            return Err(InvalidRepositoryUrl::CannotFindRepo);
        }
        let name = percent_decode(url.substring_char(rstart, name_end));
        proof {
            if find_slash(rest2) is None {
                assert(url@.subrange(rstart as int, name_end as int) =~= rest2);
            } else {
                assert(url@.subrange(rstart as int, name_end as int) =~= rest2.take(
                    name_end - rstart,
                ));
            }
        }
        if let Some(_) = scan_slash(name.as_str(), 0) {
            // An escaped slash cannot name a segment.
            proof {
                assert(name@.skip(0) =~= name@);
            }
            return Err(InvalidRepositoryUrl::CannotFindRepo);
        }
        proof {
            assert(name@.skip(0) =~= name@);
            lemma_find_slash_none(name@);
            lemma_decode_nonempty(url@.subrange(pstart as int, owner_end as int));
            lemma_decode_nonempty(url@.subrange(rstart as int, name_end as int));
            assert(is_segment(owner@));
            assert(is_segment(name@));
        }
        Ok(GitHubRepository { owner, repo: name })
    }

    /// The canonical URL of this reference: the inverse of `from_url`, with
    /// owner and name percent-encoded.
    pub fn to_url(&self) -> (r: String)
        ensures
            r@ == spec_to_url(self.owner@, self.repo@),
    {
        let mut url = String::new();
        url.append("https://github.com/");
        url.append(percent_encode(self.owner.as_str()).as_str());
        url.append("/");
        url.append(percent_encode(self.repo.as_str()).as_str());
        proof {
            reveal_strlit("https://github.com");
            reveal_strlit("https://github.com/");
            reveal_strlit("/");
            assert(url@ =~= spec_to_url(self.owner@, self.repo@));
        }
        url
    }
}

/// An endpoint under `origin`: the path percent-encoded (its `/` separators
/// kept), preceded by `/` unless it brings its own.
pub open spec fn spec_endpoint(origin: Seq<char>, path: Seq<char>) -> Seq<char> {
    if path.len() > 0 && path[0] == '/' {
        origin + spec_percent_encode(path)
    } else {
        origin + seq!['/'] + spec_percent_encode(path)
    }
}

/// The REST path naming a repository: `/repos/{owner}/{repo}`, the parts
/// percent-encoded.
pub open spec fn spec_repo_path(owner: Seq<char>, repo: Seq<char>) -> Seq<char> {
    "/repos/"@ + spec_percent_encode(owner) + seq!['/'] + spec_percent_encode(repo)
}

/// The URL listing a tree: the trees endpoint for `sha`, with the
/// `recursive` query flag spelled out.
pub open spec fn spec_trees_url(owner: Seq<char>, repo: Seq<char>, sha: Seq<char>, recursive: bool) -> Seq<char> {
    api_origin_seq() + spec_repo_path(owner, repo) + "/git/trees/"@ + spec_percent_encode(sha)
        + "?recursive="@ + (if recursive {
        "true"@
    } else {
        "false"@
    })
}

/// The URL of the raw content of one blob path at `sha`, every part
/// percent-encoded with the path's `/` separators kept.
pub open spec fn spec_raw_url(owner: Seq<char>, repo: Seq<char>, sha: Seq<char>, path: Seq<char>) -> Seq<char> {
    raw_origin_seq() + seq!['/'] + spec_percent_encode(owner) + seq!['/'] + spec_percent_encode(
        repo,
    ) + seq!['/'] + spec_percent_encode(sha) + seq!['/'] + spec_percent_encode(path)
}

/// The URL answering with repository metadata (among it the default branch).
pub open spec fn spec_repository_url(owner: Seq<char>, repo: Seq<char>) -> Seq<char> {
    api_origin_seq() + spec_repo_path(owner, repo)
}

/// An endpoint under `origin`, exactly as `spec_endpoint` lays it out.
fn build_endpoint(origin: &str, path: &str) -> (r: String)
    ensures
        r@ == spec_endpoint(origin@, path@),
{
    let mut url = String::new();
    url.append(origin);
    if path.is_empty() || path.get_char(0) != '/' {
        url.append("/");
    }
    url.append(percent_encode(path).as_str());
    proof {
        reveal_strlit("/");
        assert(url@ =~= spec_endpoint(origin@, path@));
    }
    url
}

impl GitHubRepository {
    /// An endpoint of the REST API.
    pub fn api_endpoint(&self, path: &str) -> (r: String)
        ensures
            r@ == spec_endpoint(api_origin_seq(), path@),
    {
        build_endpoint("https://api.github.com", path)
    }

    /// An endpoint of the raw-content host.
    pub fn raw_endpoint(&self, path: &str) -> (r: String)
        ensures
            r@ == spec_endpoint(raw_origin_seq(), path@),
    {
        build_endpoint("https://raw.githubusercontent.com", path)
    }

    /// The URL that lists the tree at `sha`, recursively or not.
    pub fn trees_url(&self, sha: &str, recursive: bool) -> (r: String)
        ensures
            r@ == spec_trees_url(self.owner@, self.repo@, sha@, recursive),
    {
        let mut url = String::new();
        url.append("https://api.github.com");
        url.append("/repos/");
        url.append(percent_encode(self.owner.as_str()).as_str());
        url.append("/");
        url.append(percent_encode(self.repo.as_str()).as_str());
        url.append("/git/trees/");
        url.append(percent_encode(sha).as_str());
        url.append("?recursive=");
        if recursive {
            url.append("true");
        } else {
            url.append("false");
        }
        proof {
            reveal_strlit("/");
            assert(url@ =~= spec_trees_url(self.owner@, self.repo@, sha@, recursive));
        }
        url
    }

    /// The URL answering with this repository's metadata.
    pub fn repository_url(&self) -> (r: String)
        ensures
            r@ == spec_repository_url(self.owner@, self.repo@),
    {
        let mut url = String::new();
        url.append("https://api.github.com");
        url.append("/repos/");
        url.append(percent_encode(self.owner.as_str()).as_str());
        url.append("/");
        url.append(percent_encode(self.repo.as_str()).as_str());
        proof {
            reveal_strlit("/");
            assert(url@ =~= spec_repository_url(self.owner@, self.repo@));
        }
        url
    }

    /// The URL of the raw content of `path` at `sha`.
    pub fn raw_url(&self, sha: &str, path: &str) -> (r: String)
        ensures
            r@ == spec_raw_url(self.owner@, self.repo@, sha@, path@),
    {
        let mut url = String::new();
        url.append("https://raw.githubusercontent.com");
        url.append("/");
        url.append(percent_encode(self.owner.as_str()).as_str());
        url.append("/");
        url.append(percent_encode(self.repo.as_str()).as_str());
        url.append("/");
        url.append(percent_encode(sha).as_str());
        url.append("/");
        url.append(percent_encode(path).as_str());
        proof {
            reveal_strlit("/");
            assert(url@ =~= spec_raw_url(self.owner@, self.repo@, sha@, path@));
        }
        url
    }
}

/// `find_slash` of a suffix is none when the suffix holds no `/`.  Helper
/// fact: every index of `s.skip(k)` maps back into `s`.
proof fn lemma_skip_index_all(s: Seq<char>, k: int)
    requires
        0 <= k <= s.len(),
    ensures
        forall|j: int| 0 <= j < s.len() - k ==> s.skip(k)[j] == s[j + k],
{
}

/// Whether `prefix` is an initial run of `s`.
pub(crate) fn has_prefix(s: &str, prefix: &str) -> (r: bool)
    ensures
        r == starts_with(s@, prefix@),
{
    let plen = prefix.unicode_len();
    let slen = s.unicode_len();
    if plen > slen {
        return false;
    }
    let mut i: usize = 0;
    while i < plen
        invariant
            i <= plen,
            plen <= slen,
            plen == prefix@.len(),
            slen == s@.len(),
            forall|j: int| 0 <= j < i ==> s@[j] == prefix@[j],
        decreases plen - i,
    {
        if s.get_char(i) != prefix.get_char(i) {
            assert(!starts_with(s@, prefix@)) by {
                if starts_with(s@, prefix@) {
                    assert(s@.subrange(0, prefix@.len() as int)[i as int] == s@[i as int]);
                }
            }
            return false;
        }
        i = i + 1;
    }
    assert(s@.subrange(0, prefix@.len() as int) =~= prefix@);
    true
}

/// First `/` in `s` at or after `from`, as an index into `s`.
fn scan_slash(s: &str, from: usize) -> (r: Option<usize>)
    requires
        from <= s@.len(),
    ensures
        r matches Some(i) ==> from <= i < s@.len() && find_slash(s@.skip(from as int)) == Some(i - from),
        r matches Some(i) ==> s@[i as int] == '/' && forall|j: int| from <= j < i ==> s@[j] != '/',
        r is None ==> forall|j: int| from <= j < s@.len() ==> s@[j] != '/',
{
    let n = s.unicode_len();
    let mut i: usize = from;
    while i < n
        invariant
            from <= i <= n,
            n == s@.len(),
            forall|j: int| from <= j < i ==> s@[j] != '/',
        decreases n - i,
    {
        if s.get_char(i) == '/' {
            proof {
                lemma_skip_index_all(s@, from as int);
                lemma_find_slash_at(s@.skip(from as int), i - from);
            }
            return Some(i);
        }
        i = i + 1;
    }
    None
}

} // verus!
