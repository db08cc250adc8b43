//! Mapping a resource locator to the file that holds its content.
use vstd::prelude::*;
use vstd::string::*;

verus! {

/// Whether `char::is_alphanumeric` holds of `c` (alphabetic or numeric in
/// the Unicode sense).
pub uninterp spec fn alphanumeric(c: char) -> bool;

/// The path component of the locator `s` once parsed as an absolute URL, or
/// `None` where it does not parse.
pub uninterp spec fn url_path_of(s: Seq<char>) -> Option<Seq<char>>;

/// What `Path::extension` gives for the path `p` (read as UTF-8).
pub uninterp spec fn extension_of(p: Seq<char>) -> Option<Seq<char>>;

/// Relies on `char::is_alphanumeric`. On ASCII it is true exactly of the
/// letters and the digits.
#[verifier::external_body]
fn is_alphanumeric(c: char) -> (r: bool)
    ensures
        r == alphanumeric(c),
        (c as u32) < 128 ==> (r <==> (('a' <= c && c <= 'z') || ('A' <= c && c <= 'Z') || (
        '0' <= c && c <= '9'))),
{
    c.is_alphanumeric()
}

/// Relies on `reqwest::Url::parse` followed by `Url::path`.
#[verifier::external_body]
fn url_path(text: &str) -> (r: Option<String>)
    ensures
        match r {
            Some(p) => url_path_of(text@) == Some(p@),
            None => url_path_of(text@).is_none(),
        },
{
    match reqwest::Url::parse(text) {
        Ok(url) => Some(url.path().to_owned()),
        Err(_) => None,
    }
}

/// Relies on `std::path::Path::extension`: the extension of the last
/// component, without its dot.
#[verifier::external_body]
fn path_extension(path: &str) -> (r: Option<String>)
    ensures
        match r {
            Some(e) => extension_of(path@) == Some(e@),
            None => extension_of(path@).is_none(),
        },
{
    match std::path::Path::new(path).extension() {
        Some(e) => e.to_str().map(str::to_owned),
        None => None,
    }
}

/// Relies on `String::push`: appends one character.
#[verifier::external_body]
fn push_char(s: &mut String, c: char)
    ensures
        final(s)@ == old(s)@.push(c),
{
    s.push(c)
}

/// `s` with every character that is not alphanumeric replaced by `_`.
pub open spec fn sanitized(s: Seq<char>) -> Seq<char> {
    Seq::new(s.len(), |i: int| if alphanumeric(s[i]) { s[i] } else { '_' })
}

/// The extension of the locator's URL path, where it has a non-empty one.
pub open spec fn locator_extension(s: Seq<char>) -> Option<Seq<char>> {
    match url_path_of(s) {
        Some(p) => match extension_of(p) {
            Some(e) => if e.len() > 0 { Some(e) } else { None },
            None => None,
        },
        None => None,
    }
}

/// The file name that holds the content of locator `s`: the sanitized
/// locator, with the URL's extension re-appended so that decoders which go
/// by the extension still recognise the content.
pub open spec fn file_name_of(s: Seq<char>) -> Seq<char> {
    match locator_extension(s) {
        Some(e) => sanitized(s) + seq!['.'] + e,
        None => sanitized(s),
    }
}

/// The file under the cache directory `dir` that holds locator `s`.
pub open spec fn file_path_of(dir: Seq<char>, s: Seq<char>) -> Seq<char> {
    dir + seq!['/'] + file_name_of(s)
}

/// Replaces each character of `text` that is not alphanumeric by `_`. The
/// result holds no path separator and no dot.
pub fn sanitize(text: &str) -> (r: String)
    ensures
        r@ == sanitized(text@),
        forall|i: int| 0 <= i < r@.len() ==> r@[i] != '/' && r@[i] != '.',
{
    let n = text.unicode_len();
    let mut out = String::new();
    let mut i: usize = 0;
    while i < n
        invariant
            n == text@.len(),
            i <= n,
            out@ == sanitized(text@).subrange(0, i as int),
            forall|j: int| 0 <= j < i ==> out@[j] != '/' && out@[j] != '.',
        decreases n - i,
    {
        let c = text.get_char(i);
        let kept = if is_alphanumeric(c) {
            c
        } else {
            '_'
        };
        push_char(&mut out, kept);
        i += 1;
        assert(out@ =~= sanitized(text@).subrange(0, i as int));
    }
    assert(out@ =~= sanitized(text@));
    out
}

/// The non-empty extension of the URL path of `text`, if there is one.
pub fn extension(text: &str) -> (r: Option<String>)
    ensures
        match r {
            Some(e) => locator_extension(text@) == Some(e@),
            None => locator_extension(text@).is_none(),
        },
{
    match url_path(text) {
        Some(p) => match path_extension(p.as_str()) {
            Some(e) => if e.as_str().unicode_len() > 0 {
                Some(e)
            } else {
                None
            },
            None => None,
        },
        None => None,
    }
}

/// The file name for locator `text`, without the directory.
pub fn file_name(text: &str) -> (r: String)
    ensures
        r@ == file_name_of(text@),
{
    let mut name = sanitize(text);
    match extension(text) {
        Some(e) => {
            name.append(".");
            name.append(e.as_str());
            proof {
                reveal_strlit(".");
            }
            assert(name@ =~= file_name_of(text@));
        },
        None => {},
    }
    name
}

/// The path of the file under the cache directory `dir` that holds the
/// content of locator `url`.
pub fn url_to_file(dir: &str, url: &str) -> (r: String)
    ensures
        r@ == file_path_of(dir@, url@),
{
    let mut path = String::from_str(dir);
    path.append("/");
    path.append(file_name(url).as_str());
    proof {
        reveal_strlit("/");
    }
    assert(path@ =~= file_path_of(dir@, url@));
    path
}

} // verus!
