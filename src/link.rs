use vstd::prelude::*;
use vstd::string::{StrSliceExecFns, StringExecFns};

verus! {

/// A reference to a video inside a page's markup: an embed, `v`, watch, short-link
/// or shorts path followed by the video id.
pub const VIDEO_REF_PATTERN: &'static str =
    r"(?:\/embed\/|\/v\/|\/watch\?v=|youtu\.be\/|\/shorts\/)([a-zA-Z0-9_-]+)";

/// The start of every canonical watch URL.
pub const WATCH_PREFIX: &'static str = "https://youtube.com/watch?v=";

#[verifier::external_type_specification]
#[verifier::external_body]
pub struct ExRegex(regex::Regex);

#[verifier::external_type_specification]
#[verifier::external_body]
pub struct ExRegexError(regex::Error);

/// `m` occurs in `s` as a contiguous run of characters.
pub open spec fn is_infix(m: Seq<char>, s: Seq<char>) -> bool {
    exists|i: int| 0 <= i && i + m.len() <= s.len() && #[trigger] s.subrange(i, i + m.len()) == m
}

/// The characters of `s` after its last `/`; all of `s` when it has none.
pub open spec fn last_segment(s: Seq<char>) -> Seq<char>
    decreases s.len(),
{
    if s.len() == 0 {
        s
    } else if s.last() == '/' {
        Seq::empty()
    } else {
        last_segment(s.drop_last()).push(s.last())
    }
}

/// The canonical watch URL for a matched video reference.
pub open spec fn watch_url(m: Seq<char>) -> Seq<char> {
    WATCH_PREFIX@ + last_segment(m)
}

/// Relies on regex::Regex::new: compiles `pattern`, or reports why it cannot.
#[verifier::external_body]
fn compile(pattern: &str) -> (r: Result<regex::Regex, regex::Error>) {
    regex::Regex::new(pattern)
}

/// Relies on regex::Regex::find, whose match is handed out as its text
/// (Match::as_str): a match is a contiguous part of the haystack.
#[verifier::external_body]
fn first_match(re: &regex::Regex, haystack: &str) -> (r: Option<String>)
    ensures
        r is Some ==> is_infix(r->0@, haystack@),
{
    re.find(haystack).map(|m| m.as_str().to_string())
}

/// The canonical watch URL for a matched video reference: the watch prefix
/// followed by what comes after the reference's last `/`.
pub fn regex_output_to_yt_url(re_match: &str) -> (r: String)
    ensures
        r@ == watch_url(re_match@),
{
    let n = re_match.unicode_len();
    let mut start: usize = 0;
    let mut i: usize = 0;
    while i < n
        invariant
            n == re_match@.len(),
            start <= i <= n,
            last_segment(re_match@.subrange(0, i as int)) == re_match@.subrange(
                start as int,
                i as int,
            ),
        decreases n - i,
    {
        let c = re_match.get_char(i);
        proof {
            let next = re_match@.subrange(0, i + 1 as int);
            assert(next.drop_last() =~= re_match@.subrange(0, i as int));
            assert(next.last() == c);
        }
        if c == '/' {
            start = i + 1;
            proof {
                assert(re_match@.subrange(start as int, start as int) =~= Seq::<char>::empty());
            }
        } else {
            proof {
                assert(re_match@.subrange(start as int, i + 1 as int) =~= re_match@.subrange(
                    start as int,
                    i as int,
                ).push(c));
            }
        }
        i = i + 1;
    }
    proof {
        assert(re_match@.subrange(0, n as int) =~= re_match@);
    }
    let id = re_match.substring_char(start, n);
    String::from_str(WATCH_PREFIX).concat(id)
}

/// Finds video references in page markup.
pub struct VideoLinkFinder {
    re: regex::Regex,
}

impl VideoLinkFinder {
    /// A finder for [`VIDEO_REF_PATTERN`]; `None` if the pattern does not compile.
    pub fn new() -> (r: Option<VideoLinkFinder>) {
        match compile(VIDEO_REF_PATTERN) {
            Ok(re) => Some(VideoLinkFinder { re }),
            Err(_) => None,
        }
    }

    /// The canonical watch URL of the first video reference in `page`, if any.
    pub fn link_in(&self, page: &str) -> (r: Option<String>)
        ensures
            r is Some ==> exists|m: Seq<char>| is_infix(m, page@) && r->0@ == watch_url(m),
    {
        match first_match(&self.re, page) {
            Some(m) => Some(regex_output_to_yt_url(m.as_str())),
            None => None,
        }
    }
}

} // verus!
