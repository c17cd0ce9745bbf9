//! Deriving the base URL of a playlist and resolving segment references.
//!
//! A base URL is the playlist URL truncated at (and including) its last
//! `/`.  A URL with no `/` after its scheme has no directory part, and
//! deriving a base from it fails.

use vstd::prelude::*;

verus! {

/// Error from deriving a base URL.
#[derive(Debug)]
pub enum ResolveError {
    /// The URL holds no `/` after its scheme, so it has no directory part.
    NoDirectory,
}

/// A scheme separator `://` starts at index `i` of `s`.
pub open spec fn scheme_sep_at(s: Seq<char>, i: int) -> bool {
    &&& 0 <= i
    &&& i + 3 <= s.len()
    &&& s[i] == ':'
    &&& s[i + 1] == '/'
    &&& s[i + 2] == '/'
}

/// Index of the first scheme separator at or after `k`, or `s.len()` if none.
pub open spec fn first_scheme_sep_from(s: Seq<char>, k: int) -> int
    decreases s.len() - k,
{
    if k < 0 || k + 3 > s.len() {
        s.len() as int
    } else if scheme_sep_at(s, k) {
        k
    } else {
        first_scheme_sep_from(s, k + 1)
    }
}

/// Index of the first character after the scheme separator, or `0` when the
/// URL has no scheme separator.
pub open spec fn scheme_end(s: Seq<char>) -> int {
    if first_scheme_sep_from(s, 0) < s.len() {
        first_scheme_sep_from(s, 0) + 3
    } else {
        0
    }
}

/// Index of the last `/` strictly before `k`, or `-1` if there is none.
pub open spec fn last_slash_before(s: Seq<char>, k: int) -> int
    decreases k,
{
    if k <= 0 {
        -1
    } else if s[k - 1] == '/' {
        k - 1
    } else {
        last_slash_before(s, k - 1)
    }
}

/// Index of the last `/` of `s`, or `-1` if there is none.
pub open spec fn last_slash(s: Seq<char>) -> int {
    last_slash_before(s, s.len() as int)
}

/// The URL has a directory part: some `/` stands at or after the end of its
/// scheme.
pub open spec fn has_directory(s: Seq<char>) -> bool {
    last_slash(s) >= scheme_end(s)
}

/// The URL truncated at, and including, its last `/`.
pub open spec fn base_of(s: Seq<char>) -> Seq<char> {
    s.take(last_slash(s) + 1)
}

proof fn lemma_last_slash_before_bounds(s: Seq<char>, k: int)
    requires
        0 <= k <= s.len(),
    ensures
        -1 <= last_slash_before(s, k) < k,
        last_slash_before(s, k) >= 0 ==> s[last_slash_before(s, k)] == '/',
        forall|j: int| last_slash_before(s, k) < j < k ==> s[j] != '/',
    decreases k,
{
    if k > 0 && s[k - 1] != '/' {
        lemma_last_slash_before_bounds(s, k - 1);
    }
}

proof fn lemma_first_sep_nonneg(s: Seq<char>, k: int)
    requires
        0 <= k,
    ensures
        first_scheme_sep_from(s, k) >= 0,
    decreases s.len() - k,
{
    if !(k + 3 > s.len()) && !scheme_sep_at(s, k) {
        lemma_first_sep_nonneg(s, k + 1);
    }
}

/// Law: a derived base URL is the URL truncated at its *last* `/`, kept:
/// the base ends with that `/`, and no `/` of the URL stands after it.
pub proof fn lemma_base_url_form(url: Seq<char>)
    requires
        has_directory(url),
    ensures
        base_of(url) == url.take(last_slash(url) + 1),
        base_of(url).len() >= 1,
        base_of(url).last() == '/',
        url[last_slash(url)] == '/',
        forall|j: int| last_slash(url) < j < url.len() ==> url[j] != '/',
{
    lemma_first_sep_nonneg(url, 0);
    lemma_last_slash_before_bounds(url, url.len() as int);
}

/// Derive the base URL: `url` truncated at (and including) its last `/`.
///
/// Fails exactly when no `/` stands at or after the end of the scheme.
pub fn base_url_of(url: &str) -> (r: Result<String, ResolveError>)
    ensures
        match r {
            Ok(b) => has_directory(url@) && b@ == base_of(url@),
            Err(ResolveError::NoDirectory) => !has_directory(url@),
        },
{
    let n: usize = url.unicode_len();
    let ghost s = url@;

    // Find the first scheme separator.
    let mut i: usize = 0;
    while n >= 3 && i <= n - 3 && !(url.get_char(i) == ':' && url.get_char(i + 1) == '/'
        && url.get_char(i + 2) == '/')
        invariant
            0 <= i <= n,
            n == s.len(),
            url@ == s,
            first_scheme_sep_from(s, 0) == first_scheme_sep_from(s, i as int),
        decreases n - i,
    {
        assert(!scheme_sep_at(s, i as int));
        i = i + 1;
    }
    let se: usize = if n >= 3 && i <= n - 3 {
        i + 3
    } else {
        0
    };
    assert(se as int == scheme_end(s));

    // Find the last slash.
    let mut j: usize = n;
    while j > 0 && url.get_char(j - 1) != '/'
        invariant
            0 <= j <= n,
            n == s.len(),
            url@ == s,
            last_slash(s) == last_slash_before(s, j as int),
        decreases j,
    {
        j = j - 1;
    }
    proof {
        lemma_last_slash_before_bounds(s, s.len() as int);
    }

    if j > 0 && j - 1 >= se {
        let base = url.substring_char(0, j);
        assert(base@ == base_of(s));
        Ok(base.to_owned())
    } else {
        assert(!has_directory(s));
        Err(ResolveError::NoDirectory)
    }
}

/// The transport-stream extension `.ts` starts at index `i` of `s`.
pub open spec fn ts_at(s: Seq<char>, i: int) -> bool {
    &&& 0 <= i
    &&& i + 3 <= s.len()
    &&& s[i] == '.'
    &&& s[i + 1] == 't'
    &&& s[i + 2] == 's'
}

/// Index of the first `.ts` at or after `k`, or `s.len()` if none.
pub open spec fn first_ts_from(s: Seq<char>, k: int) -> int
    decreases s.len() - k,
{
    if k < 0 || k + 3 > s.len() {
        s.len() as int
    } else if ts_at(s, k) {
        k
    } else {
        first_ts_from(s, k + 1)
    }
}

/// The name holds the segment extension `.ts` somewhere.
pub open spec fn has_ts(s: Seq<char>) -> bool {
    first_ts_from(s, 0) < s.len()
}

/// The name truncated at its first `.ts`, with the extension re-appended.
pub open spec fn segment_filename_of(s: Seq<char>) -> Seq<char> {
    s.take(first_ts_from(s, 0)) + seq!['.', 't', 's']
}

/// What stands after the last `/` of `s`; all of `s` when it has none.
pub open spec fn last_component_of(s: Seq<char>) -> Seq<char> {
    s.skip(last_slash(s) + 1)
}

/// Index of the last `/` of `s`, if any.
fn find_last_slash(s: &str) -> (r: Option<usize>)
    ensures
        match r {
            Some(j) => last_slash(s@) == j as int && (j as int) < s@.len(),
            None => last_slash(s@) == -1,
        },
{
    let n: usize = s.unicode_len();
    let mut j: usize = n;
    while j > 0 && s.get_char(j - 1) != '/'
        invariant
            0 <= j <= n,
            n == s@.len(),
            last_slash(s@) == last_slash_before(s@, j as int),
        decreases j,
    {
        j = j - 1;
    }
    if j > 0 {
        Some(j - 1)
    } else {
        None
    }
}

/// The final path component of `path`: what stands after its last `/`, or
/// all of it when it has no `/`.
pub fn last_component(path: &str) -> (r: String)
    ensures
        r@ == last_component_of(path@),
{
    let n: usize = path.unicode_len();
    match find_last_slash(path) {
        Some(j) => path.substring_char(j + 1, n).to_owned(),
        None => path.to_owned(),
    }
}

/// The on-disk filename for a segment: `name` truncated at the first
/// occurrence of the `.ts` extension, with the extension re-appended.
/// Fails exactly when `name` does not hold `.ts`.
pub fn segment_filename(name: &str) -> (r: Option<String>)
    ensures
        match r {
            Some(f) => has_ts(name@) && f@ == segment_filename_of(name@),
            None => !has_ts(name@),
        },
{
    let n: usize = name.unicode_len();
    let ghost s = name@;
    let mut i: usize = 0;
    while n >= 3 && i <= n - 3 && !(name.get_char(i) == '.' && name.get_char(i + 1) == 't'
        && name.get_char(i + 2) == 's')
        invariant
            0 <= i <= n,
            n == s.len(),
            name@ == s,
            first_ts_from(s, 0) == first_ts_from(s, i as int),
        decreases n - i,
    {
        assert(!ts_at(s, i as int));
        i = i + 1;
    }
    if n >= 3 && i <= n - 3 {
        let mut out = name.substring_char(0, i).to_owned();
        out.append(".ts");
        proof {
            reveal_strlit(".ts");
            assert(".ts"@ =~= seq!['.', 't', 's']);
            assert(out@ == segment_filename_of(s));
        }
        Some(out)
    } else {
        assert(!has_ts(s));
        None
    }
}

/// Result of `url::Url::path` on the URL written as `s`: the parsed URL's
/// percent-encoded path.  Parsing is a function of the text alone.
pub uninterp spec fn url_path_of(s: Seq<char>) -> Seq<char>;

/// Whether `url::Url::parse` accepts the text `s` as an absolute URL.
/// Parsing is a function of the text alone.
pub uninterp spec fn url_parse_ok(s: Seq<char>) -> bool;

/// Relies on `url::Url::parse` and `url::Url::path`: `parse` accepts or
/// rejects the text deterministically, and `path` returns the parsed
/// URL's percent-encoded path.
#[verifier::external_body]
fn url_path(u: &str) -> (r: Option<String>)
    ensures
        r is Some <==> url_parse_ok(u@),
        r matches Some(p) ==> p@ == url_path_of(u@),
{
    match url::Url::parse(u) {
        Ok(parsed) => Some(parsed.path().to_string()),
        Err(_) => None,
    }
}

/// The on-disk filename for a segment URL: the final component of the
/// URL's path, truncated at the first `.ts` and with the extension
/// re-appended.  Succeeds exactly when the URL parses and that final
/// component holds `.ts`.
pub fn segment_target_name(full_url: &str) -> (r: Option<String>)
    ensures
        r is Some <==> url_parse_ok(full_url@) && has_ts(
            last_component_of(url_path_of(full_url@)),
        ),
        r matches Some(f) ==> f@ == segment_filename_of(
            last_component_of(url_path_of(full_url@)),
        ),
{
    match url_path(full_url) {
        Some(p) => {
            let name = last_component(p.as_str());
            segment_filename(name.as_str())
        },
        None => None,
    }
}

/// Resolve one segment reference to a fetchable URL: the reference itself
/// in full-URL mode, else the base URL with the reference appended.
pub fn resolve_segment_url(base: &str, link: &str, full_url: bool) -> (r: String)
    ensures
        r@ == if full_url {
            link@
        } else {
            base@ + link@
        },
{
    if full_url {
        link.to_owned()
    } else {
        let mut out = base.to_owned();
        out.append(link);
        out
    }
}

} // verus!
