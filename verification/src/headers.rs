//! Resolution of resource metadata from HTTP response headers: the output
//! filename (from a content-disposition value, from the URL path, or a fixed
//! default) and the total resource size (from a content-range value).

use vstd::prelude::*;

use crate::text::{
    collapse_slashes, collapse_slashes_str, contains_at, find_from, first_match_from,
    last_match_char, parse_u64_decimal, rfind_char, spec_parse_u64, trim_quotes,
    trim_quotes_str,
};

verus! {

/// How resolving one header value failed.
#[derive(Clone, Copy, Debug, PartialEq, Eq, Structural)]
pub enum HeaderError {
    /// The header is not present at all.
    MissingHeader,
    /// The header is present but its value cannot be interpreted.
    MalformedValue,
}

/// The two response header values the engine reads, as plain text.
pub struct ResponseHeaders {
    pub content_disposition: Option<String>,
    pub content_range: Option<String>,
}

/// The view of an optional owned string.
pub open spec fn opt_str_view(o: Option<String>) -> Option<Seq<char>> {
    match o {
        Option::Some(s) => Option::Some(s@),
        Option::None => Option::None,
    }
}

/// The token that introduces a filename inside a disposition header value.
pub open spec fn filename_key() -> Seq<char> {
    seq!['f', 'i', 'l', 'e', 'n', 'a', 'm', 'e', '=']
}

/// The filename a disposition header value carries: the text between the
/// first `filename=` token and the next one (or the end of the value), with
/// leading and trailing quotes stripped; nothing when the token is absent.
pub open spec fn disposition_filename(s: Seq<char>) -> Option<Seq<char>> {
    match first_match_from(s, filename_key(), 0) {
        Option::None => Option::None,
        Option::Some(i) => {
            let start = i + filename_key().len();
            let end = match first_match_from(s, filename_key(), start as int) {
                Option::Some(j) => j,
                Option::None => s.len() as int,
            };
            Option::Some(trim_quotes(s.subrange(start as int, end)))
        },
    }
}

/// The numeric tail of a content-range header value: the text after the
/// last `/`, or the whole value when it has no `/`.
pub open spec fn content_range_tail(s: Seq<char>) -> Seq<char> {
    match last_match_char(s, '/') {
        Option::Some(i) => s.subrange(i + 1, s.len() as int),
        Option::None => s,
    }
}

proof fn lemma_first_match_props(s: Seq<char>, pat: Seq<char>, from: int)
    requires
        0 <= from <= s.len() + 1,
    ensures
        match first_match_from(s, pat, from) {
            Option::Some(i) => from <= i && contains_at(s, pat, i),
            Option::None => true,
        },
    decreases s.len() + 1 - from,
{
    if from + pat.len() > s.len() {
    } else if contains_at(s, pat, from) {
    } else {
        lemma_first_match_props(s, pat, from + 1);
    }
}

/// Extract the filename from a disposition header value.
pub fn parse_disposition_filename(value: &str) -> (r: Option<String>)
    ensures
        match r {
            Option::Some(name) => disposition_filename(value@) == Option::Some(name@),
            Option::None => disposition_filename(value@) is None,
        },
{
    let key: &str = "filename=";
    proof {
        reveal_strlit("filename=");
        assert(key@ =~= filename_key());
    }
    match find_from(value, key, 0) {
        Option::None => Option::None,
        Option::Some(i) => {
            proof {
                lemma_first_match_props(value@, key@, 0);
            }
            let s_len: usize = value.unicode_len();
            let start: usize = i + 9;
            let end: usize = match find_from(value, key, start) {
                Option::Some(j) => {
                    proof {
                        lemma_first_match_props(value@, key@, start as int);
                    }
                    j
                },
                Option::None => s_len,
            };
            let seg: &str = value.substring_char(start, end);
            Option::Some(trim_quotes_str(seg))
        },
    }
}

/// Response headers expose the filename and total size of the resource.
pub trait HeaderUtils {
    /// The disposition header value these headers carry, if any.
    spec fn spec_disposition(&self) -> Option<Seq<char>>;

    /// The content-range header value these headers carry, if any.
    spec fn spec_content_range(&self) -> Option<Seq<char>>;

    /// Extract the resource filename from the disposition header value.
    fn extract_filename(&self) -> (r: Result<String, HeaderError>)
        ensures
            match self.spec_disposition() {
                Option::None => r == Result::<String, HeaderError>::Err(
                    HeaderError::MissingHeader,
                ),
                Option::Some(v) => match disposition_filename(v) {
                    Option::None => r == Result::<String, HeaderError>::Err(
                        HeaderError::MalformedValue,
                    ),
                    Option::Some(name) => r matches Result::Ok(f) && f@ == name,
                },
            },
    ;

    /// Extract the total resource size in bytes from the numeric suffix of
    /// the content-range header value.
    fn extract_file_size(&self) -> (r: Result<u64, HeaderError>)
        ensures
            match self.spec_content_range() {
                Option::None => r == Result::<u64, HeaderError>::Err(HeaderError::MissingHeader),
                Option::Some(v) => match spec_parse_u64(content_range_tail(v)) {
                    Option::Some(n) => r == Result::<u64, HeaderError>::Ok(n),
                    Option::None => r == Result::<u64, HeaderError>::Err(
                        HeaderError::MalformedValue,
                    ),
                },
            },
    ;
}

impl HeaderUtils for ResponseHeaders {
    open spec fn spec_disposition(&self) -> Option<Seq<char>> {
        opt_str_view(self.content_disposition)
    }

    open spec fn spec_content_range(&self) -> Option<Seq<char>> {
        opt_str_view(self.content_range)
    }

    fn extract_filename(&self) -> (r: Result<String, HeaderError>) {
        match &self.content_disposition {
            Option::None => Result::Err(HeaderError::MissingHeader),
            Option::Some(v) => match parse_disposition_filename(v.as_str()) {
                Option::Some(name) => Result::Ok(name),
                Option::None => Result::Err(HeaderError::MalformedValue),
            },
        }
    }

    fn extract_file_size(&self) -> (r: Result<u64, HeaderError>) {
        match &self.content_range {
            Option::None => Result::Err(HeaderError::MissingHeader),
            Option::Some(v) => {
                let s: &str = v.as_str();
                let s_len: usize = s.unicode_len();
                let tail: &str = match rfind_char(s, '/') {
                    Option::Some(i) => s.substring_char(i + 1, s_len),
                    Option::None => s,
                };
                match parse_u64_decimal(tail) {
                    Option::Some(n) => Result::Ok(n),
                    Option::None => Result::Err(HeaderError::MalformedValue),
                }
            },
        }
    }
}

/// The total size a probe response reports: the numeric suffix of its
/// content-range value. A missing header, like a malformed value, leaves
/// the size unknown.
pub open spec fn probed_file_size(cr: Option<Seq<char>>) -> Option<u64> {
    match cr {
        Option::None => Option::None,
        Option::Some(v) => spec_parse_u64(content_range_tail(v)),
    }
}

/// The last path segment of `url` as the URL parser splits it, when the URL
/// parses and has a segmented path.
pub uninterp spec fn url_last_segment(url: Seq<char>) -> Option<Seq<char>>;

/// Relies on url::Url::parse and Url::path_segments (reqwest re-exports the
/// type): whether the URL parses, and how its path splits into segments,
/// depend on the URL string alone.
#[verifier::external_body]
fn url_last_segment_raw(url: &str) -> (r: Option<String>)
    ensures
        match r {
            Option::Some(seg) => url_last_segment(url@) == Option::Some(seg@),
            Option::None => url_last_segment(url@) is None,
        },
{
    match reqwest::Url::parse(url) {
        Ok(u) => match u.path_segments() {
            Some(segs) => match segs.last() {
                Some(seg) => Some(seg.to_string()),
                None => None,
            },
            None => None,
        },
        Err(_) => None,
    }
}

/// The filename the URL yields: its last path segment when that segment is
/// non-empty.
pub open spec fn url_filename(url: Seq<char>) -> Option<Seq<char>> {
    match url_last_segment(url) {
        Option::Some(seg) => if seg.len() > 0 {
            Option::Some(seg)
        } else {
            Option::None
        },
        Option::None => Option::None,
    }
}

/// Derive a filename from the last non-empty path segment of the URL.
pub fn extract_filename_from_url(url: &str) -> (r: Option<String>)
    ensures
        match r {
            Option::Some(name) => url_filename(url@) == Option::Some(name@),
            Option::None => url_filename(url@) is None,
        },
{
    match url_last_segment_raw(url) {
        Option::Some(seg) => {
            if seg.as_str().is_empty() {
                Option::None
            } else {
                Option::Some(seg)
            }
        },
        Option::None => Option::None,
    }
}

/// The fixed fallback filename.
pub open spec fn default_filename() -> Seq<char> {
    "download.bin"@
}

/// The filename the URL path yields, or the fixed default.
pub open spec fn filename_from_url_or_default(url: Seq<char>) -> Seq<char> {
    match url_filename(url) {
        Option::Some(seg) => seg,
        Option::None => default_filename(),
    }
}

/// Filename precedence: a name carried by the disposition header wins; an
/// absent or malformed one falls back to the last non-empty URL path
/// segment; when that too is absent, the fixed default name is used.
pub open spec fn resolved_filename(disposition: Option<Seq<char>>, url: Seq<char>) -> Seq<char> {
    match disposition {
        Option::Some(v) => match disposition_filename(v) {
            Option::Some(name) => name,
            Option::None => filename_from_url_or_default(url),
        },
        Option::None => filename_from_url_or_default(url),
    }
}

/// Resolve the output filename for a resource from its response headers and
/// its URL, applying the precedence `resolved_filename` states.
pub fn resolve_filename(headers: &ResponseHeaders, url: &str) -> (r: String)
    ensures
        r@ == resolved_filename(opt_str_view(headers.content_disposition), url@),
{
    match headers.extract_filename() {
        Result::Ok(name) => name,
        Result::Err(_) => match extract_filename_from_url(url) {
            Option::Some(name) => name,
            Option::None => String::from_str("download.bin"),
        },
    }
}

/// The output path: directory and filename joined by a separator, with any
/// doubled separator collapsed.
pub fn output_path(dir: &str, filename: &str) -> (r: String)
    ensures
        r@ == collapse_slashes(dir@ + "/"@ + filename@),
{
    let mut joined = String::from_str(dir);
    joined.append("/");
    joined.append(filename);
    collapse_slashes_str(joined.as_str())
}

} // verus!
