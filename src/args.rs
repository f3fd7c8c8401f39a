use vstd::prelude::*;

use crate::csv::chars_of;

verus! {

/// Settings of one load test, fixed before any worker starts.
#[derive(Debug, Clone)]
pub struct Args {
    /// Host to make requests to.
    pub url: String,
    /// How many workers send requests at once.
    pub concurrent_requests: u16,
    /// How long the test lasts, in seconds.
    pub test_time: u16,
    /// Request headers, each written `name: value`.
    pub headers: Vec<String>,
    /// HTTP method to use.
    pub method: String,
    /// File that the per-request log is written to.
    pub out_file: Option<String>,
    /// Whether to print additional debug output.
    pub debug: bool,
}

/// The HTTP methods a test can use.
#[derive(Debug, Clone, Copy, PartialEq, Eq, Structural)]
pub enum HttpMethod {
    Get,
    Post,
    Patch,
    Put,
    Delete,
}

/// Whether the ASCII uppercase of `s` is the name `upper`, whose lowercase
/// form is `lower`: each character of `s` is that of `upper` or of `lower`.
pub open spec fn upper_matches(s: Seq<char>, upper: Seq<char>, lower: Seq<char>) -> bool {
    &&& s.len() == upper.len()
    &&& forall|i: int| 0 <= i < s.len() ==> (#[trigger] s[i] == upper[i] || s[i] == lower[i])
}

/// The method named by `s`, in any ASCII case.
pub open spec fn method_named(s: Seq<char>) -> Option<HttpMethod> {
    if upper_matches(s, seq!['G', 'E', 'T'], seq!['g', 'e', 't']) {
        Some(HttpMethod::Get)
    } else if upper_matches(s, seq!['P', 'O', 'S', 'T'], seq!['p', 'o', 's', 't']) {
        Some(HttpMethod::Post)
    } else if upper_matches(s, seq!['P', 'A', 'T', 'C', 'H'], seq!['p', 'a', 't', 'c', 'h']) {
        Some(HttpMethod::Patch)
    } else if upper_matches(s, seq!['P', 'U', 'T'], seq!['p', 'u', 't']) {
        Some(HttpMethod::Put)
    } else if upper_matches(s, seq!['D', 'E', 'L', 'E', 'T', 'E'], seq!['d', 'e', 'l', 'e', 't', 'e']) {
        Some(HttpMethod::Delete)
    } else {
        None
    }
}

fn upper_equals(s: &Vec<char>, upper: &Vec<char>, lower: &Vec<char>) -> (r: bool)
    requires
        upper@.len() == lower@.len(),
    ensures
        r == upper_matches(s@, upper@, lower@),
{
    if s.len() != upper.len() {
        return false;
    }
    let mut i: usize = 0;
    while i < s.len()
        invariant
            s@.len() == upper@.len(),
            upper@.len() == lower@.len(),
            i <= s@.len(),
            forall|j: int| 0 <= j < i ==> (#[trigger] s@[j] == upper@[j] || s@[j] == lower@[j]),
        decreases s@.len() - i,
    {
        if !(s[i] == upper[i] || s[i] == lower[i]) {
            return false;
        }
        i = i + 1;
    }
    true
}

/// The method that `str_method` names, in any ASCII case; `None` for any
/// method other than GET, POST, PATCH, PUT and DELETE.
pub fn string_to_method(str_method: &str) -> (r: Option<HttpMethod>)
    ensures
        r == method_named(str_method@),
{
    let s = chars_of(str_method);
    if upper_equals(&s, &vec!['G', 'E', 'T'], &vec!['g', 'e', 't']) {
        Some(HttpMethod::Get)
    } else if upper_equals(&s, &vec!['P', 'O', 'S', 'T'], &vec!['p', 'o', 's', 't']) {
        Some(HttpMethod::Post)
    } else if upper_equals(&s, &vec!['P', 'A', 'T', 'C', 'H'], &vec!['p', 'a', 't', 'c', 'h']) {
        Some(HttpMethod::Patch)
    } else if upper_equals(&s, &vec!['P', 'U', 'T'], &vec!['p', 'u', 't']) {
        Some(HttpMethod::Put)
    } else if upper_equals(&s, &vec!['D', 'E', 'L', 'E', 'T', 'E'], &vec!['d', 'e', 'l', 'e', 't', 'e']) {
        Some(HttpMethod::Delete)
    } else {
        None
    }
}

/// The lowercase form of a string, as `str::to_lowercase` gives it.
pub uninterp spec fn lower_of(s: Seq<char>) -> Seq<char>;

/// Relies on `str::to_lowercase`: the result depends on the characters alone.
#[verifier::external_body]
fn lowercase(s: &str) -> (r: String)
    ensures
        r@ == lower_of(s@),
{
    s.to_lowercase()
}

/// Whether `s` holds the separator `": "` at index `i`.
pub open spec fn sep_at(s: Seq<char>, i: int) -> bool {
    0 <= i && i + 1 < s.len() && s[i] == ':' && s[i + 1] == ' '
}

/// A header string split at its one separator `": "` into name and value;
/// `None` unless the separator occurs exactly once.
pub open spec fn header_parts(s: Seq<char>) -> Option<(Seq<char>, Seq<char>)> {
    if exists|i: int| sep_at(s, i) && forall|j: int| #[trigger] sep_at(s, j) ==> j == i {
        let i = choose|i: int| sep_at(s, i) && forall|j: int| #[trigger] sep_at(s, j) ==> j == i;
        Some((s.take(i), s.skip(i + 2)))
    } else {
        None
    }
}

/// A header as a lowercase name and a value, if `s` has that form.
pub open spec fn header_of(s: Seq<char>) -> Option<(Seq<char>, Seq<char>)> {
    match header_parts(s) {
        Some(p) => Some((lower_of(p.0), p.1)),
        None => None,
    }
}

/// The headers of a list of header strings, in order, when every string
/// has exactly one separator; `None` as soon as one does not.
pub open spec fn header_list(hs: Seq<Seq<char>>) -> Option<Seq<(Seq<char>, Seq<char>)>> {
    if forall|i: int| 0 <= i < hs.len() ==> #[trigger] header_of(hs[i]) is Some {
        Some(hs.map_values(|h: Seq<char>| header_of(h)->0))
    } else {
        None
    }
}

/// Splits a header string `name: value` at its separator and lowercases the
/// name; `None` unless the separator occurs exactly once.
pub fn parse_header(pair: &str) -> (r: Option<(String, String)>)
    ensures
        match r {
            Some(p) => header_of(pair@) == Some((p.0@, p.1@)),
            None => header_of(pair@) is None,
        },
{
    let cs = chars_of(pair);
    let n = cs.len();
    let mut found: Option<usize> = None;
    let mut i: usize = 0;
    while n > 0 && i < n - 1
        invariant
            cs@ == pair@,
            n == cs@.len(),
            i <= n,
            found is None ==> forall|j: int| 0 <= j < i ==> !sep_at(cs@, j),
            found is Some ==> found->0 < i && sep_at(cs@, found->0 as int) && forall|j: int|
                0 <= j < i && #[trigger] sep_at(cs@, j) ==> j == found->0,
        decreases n - i,
    {
        if cs[i] == ':' && cs[i + 1] == ' ' {
            if found.is_some() {
                assert(sep_at(cs@, i as int));
                assert(header_parts(pair@) is None);
                return None;
            }
            found = Some(i);
        }
        i = i + 1;
    }
    match found {
        None => {
            assert forall|j: int| !sep_at(pair@, j) by {
                if sep_at(pair@, j) {
                    assert(j < i);
                }
            }
            None
        },
        Some(k) => {
            assert forall|j: int| #[trigger] sep_at(pair@, j) implies j == k by {
                assert(j < i);
            }
            let name = lowercase(pair.substring_char(0, k));
            let value = String::from_str(pair.substring_char(k + 2, n));
            proof {
                assert(pair@.take(k as int) =~= pair@.subrange(0, k as int));
                assert(pair@.skip(k + 2) =~= pair@.subrange(k + 2, n as int));
            }
            Some((name, value))
        },
    }
}

/// The headers named by `headers`, in order, each as a lowercase name and a
/// value. A string without exactly one `": "` separator is a configuration
/// error: the result is then `None`.
pub fn get_headers(headers: Vec<String>) -> (r: Option<Vec<(String, String)>>)
    ensures
        ({
            let hs = headers@.map_values(|h: String| h@);
            &&& r is None <==> exists|i: int| 0 <= i < hs.len() && #[trigger] header_of(hs[i]) is None
            &&& r is Some ==> Some(r->0@.map_values(|p: (String, String)| (p.0@, p.1@)))
                == header_list(hs)
        }),
{
    let mut r: Vec<(String, String)> = Vec::new();
    let mut i: usize = 0;
    let ghost hs = headers@.map_values(|h: String| h@);
    while i < headers.len()
        invariant
            i <= headers@.len(),
            hs == headers@.map_values(|h: String| h@),
            r@.len() == i,
            forall|j: int| 0 <= j < i ==> #[trigger] header_of(hs[j]) is Some,
            forall|j: int|
                0 <= j < i ==> Some((#[trigger] r@[j].0@, r@[j].1@)) == header_of(hs[j]),
        decreases headers@.len() - i,
    {
        let parsed = parse_header(headers[i].as_str());
        assert(hs[i as int] == headers@[i as int]@);
        match parsed {
            Some(p) => {
                r.push(p);
            },
            None => {
                return None;
            },
        }
        i = i + 1;
    }
    assert(r@.map_values(|p: (String, String)| (p.0@, p.1@)) =~= hs.map_values(
        |h: Seq<char>| header_of(h)->0,
    ));
    Some(r)
}

} // verus!
