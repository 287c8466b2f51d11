use crate::decimal::{
    decimal, decimal_string, digits_value, is_digit, is_number, parse_number,
};
use regex::Regex;
use vstd::prelude::*;
use vstd::string::*;
use vstd::utf8::{decode_utf8, valid_utf8};

verus! {

/// Why no preview of a page came about.
#[derive(Debug, PartialEq, Eq)]
pub enum PeekError {
    /// The page asked for lies behind the last one; this is the zero-based
    /// index of the last page there is.
    Exceed(usize),
    /// Anything else, with the text that tells of it.
    Unexpected(String),
}

/// The mathematical value of a [`PeekError`].
pub enum PeekErrorView {
    Exceed(usize),
    Unexpected(Seq<char>),
}

impl View for PeekError {
    type V = PeekErrorView;

    open spec fn view(&self) -> PeekErrorView {
        match self {
            PeekError::Exceed(last) => PeekErrorView::Exceed(*last),
            PeekError::Unexpected(text) => PeekErrorView::Unexpected(text@),
        }
    }
}

/// What the renderer left behind when it ended.
#[derive(Debug)]
pub struct Output {
    /// Whether it ended with exit code 0.
    pub success: bool,
    pub stdout: Vec<u8>,
    pub stderr: Vec<u8>,
}

/// A render that is to be run: the renderer's arguments up to the document's
/// path, which comes last.
#[derive(Debug)]
pub struct Rendering {
    pub args: Vec<String>,
}

/// A rendered page that is to be written to the cache, whatever the cache
/// holds in its place.
#[derive(Debug)]
pub struct Caching {
    pub image: Vec<u8>,
}

/// The words before the page count in the renderer's complaint.
pub open spec fn lead() -> Seq<char> {
    seq!['t', 'h', 'e', ' ', 'l', 'a', 's', 't', ' ', 'p', 'a', 'g', 'e', ' ', '(']
}

/// Whether `t` reads `the last page (`, then `n` digits, then `)` from
/// position `i` on.
pub open spec fn page_count_at(t: Seq<char>, i: int, n: int) -> bool {
    &&& 0 <= i
    &&& 1 <= n
    &&& i + lead().len() + n < t.len()
    &&& t.subrange(i, i + lead().len()) == lead()
    &&& forall|k: int| i + lead().len() <= k < i + lead().len() + n ==> is_digit(#[trigger] t[k])
    &&& t[i + lead().len() + n] == ')'
}

/// Whether `t` discloses a page count anywhere.
pub open spec fn mentions_page_count(t: Seq<char>) -> bool {
    exists|i: int, n: int| page_count_at(t, i, n)
}

/// Whether `digits` are the digits of the first page count that `t`
/// discloses.
pub open spec fn first_page_count(t: Seq<char>, digits: Seq<char>) -> bool {
    exists|i: int, n: int|
        {
            &&& #[trigger] page_count_at(t, i, n)
            &&& digits == t.subrange(i + lead().len(), i + lead().len() + n)
            &&& forall|j: int, m: int| #[trigger] page_count_at(t, j, m) ==> i <= j
        }
}

/// The first page count that `t` discloses, if it discloses one.
pub open spec fn page_count(t: Seq<char>) -> Option<nat> {
    if mentions_page_count(t) {
        Some(digits_value(choose|digits: Seq<char>| first_page_count(t, digits)))
    } else {
        None
    }
}

/// What a failed render amounts to, given the renderer's complaint: where
/// the complaint discloses a page count that is positive and fits the
/// machine's index type, the index of the last page; otherwise the complaint
/// itself.
pub open spec fn verdict(t: Seq<char>) -> PeekErrorView {
    match page_count(t) {
        Some(pages) if 0 < pages <= usize::MAX => PeekErrorView::Exceed((pages - 1) as usize),
        _ => PeekErrorView::Unexpected(t),
    }
}

/// The renderer's arguments for the page behind `skip` pages: one file,
/// JPEG at quality 75, starting at that page, counted from 1.
pub open spec fn renderer_args(skip: usize) -> Seq<Seq<char>> {
    seq![
        "-singlefile"@,
        "-jpeg"@,
        "-jpegopt"@,
        "quality=75"@,
        "-f"@,
        decimal((skip + 1) as nat),
    ]
}

/// The text that `String::from_utf8_lossy` makes of bytes.
pub uninterp spec fn utf8_lossy(bytes: Seq<u8>) -> Seq<char>;

/// `String::from_utf8_lossy`: the bytes as text. Bytes that are valid UTF-8
/// come out as the text they encode.
#[verifier::external_body]
fn lossy_text(bytes: &[u8]) -> (text: String)
    ensures
        text@ == utf8_lossy(bytes@),
        valid_utf8(bytes@) ==> text@ == decode_utf8(bytes@),
{
    String::from_utf8_lossy(bytes).into_owned()
}

/// The pattern of a disclosed page count: the words, an opening bracket, one
/// ASCII digit or more as the first group, and a closing bracket.
pub open spec fn page_count_pattern() -> Seq<char> {
    "the last page \\(([0-9]+)\\)"@
}

/// `Regex::new` and `Regex::captures` with the pattern of a page count, which
/// compiles, and the first group of what is found: the search is for the
/// leftmost match, the group takes the whole run of ASCII digits between the
/// brackets, and there is no match where the words, one digit at least and
/// the closing bracket do not follow one another.
#[verifier::external_body]
fn capture_page_count(pattern: &str, text: &str) -> (digits: Option<String>)
    requires
        pattern@ == page_count_pattern(),
    ensures
        digits is Some <==> mentions_page_count(text@),
        digits matches Some(d) ==> first_page_count(text@, d@),
{
    Regex::new(pattern).unwrap().captures(text).map(|found| found[1].to_string())
}

/// A text discloses one first page count at most, and that one is a numeral.
pub proof fn lemma_first_page_count(t: Seq<char>, a: Seq<char>, b: Seq<char>)
    requires
        first_page_count(t, a),
        first_page_count(t, b),
    ensures
        a == b,
        is_number(a),
{
    let (i, n) = choose|i: int, n: int|
        {
            &&& #[trigger] page_count_at(t, i, n)
            &&& a == t.subrange(i + lead().len(), i + lead().len() + n)
            &&& forall|j: int, m: int| #[trigger] page_count_at(t, j, m) ==> i <= j
        };
    let (j, m) = choose|j: int, m: int|
        {
            &&& #[trigger] page_count_at(t, j, m)
            &&& b == t.subrange(j + lead().len(), j + lead().len() + m)
            &&& forall|i: int, n: int| #[trigger] page_count_at(t, i, n) ==> j <= i
        };
    assert(i == j);
    let from = i + lead().len();
    if n < m {
        assert(is_digit(t[from + n]));
    }
    if m < n {
        assert(is_digit(t[from + m]));
    }
    assert(a =~= b);
    assert forall|k: int| 0 <= k < a.len() implies is_digit(#[trigger] a[k]) by {
        assert(a[k] == t[from + k]);
    }
}

/// The page count of a text is what its first disclosure stands for.
pub proof fn lemma_page_count(t: Seq<char>, digits: Seq<char>)
    requires
        first_page_count(t, digits),
    ensures
        is_number(digits),
        page_count(t) == Some(digits_value(digits)),
{
    let chosen = choose|digits: Seq<char>| first_page_count(t, digits);
    lemma_first_page_count(t, chosen, digits);
}

/// What a failed render amounts to, given the renderer's complaint.
///
/// Where the complaint says `the last page (N)` with a positive `N`, the
/// page asked for does not exist and `N - 1` is the index of the last one
/// that does. Any other complaint is handed on as it is; so is one whose `N`
/// is 0 or does not fit `usize`.
pub fn failure(text: String) -> (e: PeekError)
    ensures
        e@ == verdict(text@),
        !mentions_page_count(text@) ==> e@ == PeekErrorView::Unexpected(text@),
{
    let pages = match capture_page_count("the last page \\(([0-9]+)\\)", text.as_str()) {
        Some(digits) => {
            proof {
                lemma_page_count(text@, digits@);
            }
            match parse_number(digits.as_str()) {
                Some(n) => n,
                None => 0,
            }
        },
        None => 0,
    };
    if pages > 0 {
        PeekError::Exceed(pages - 1)
    } else {
        PeekError::Unexpected(text)
    }
}

/// Starts the preview of the page behind `skip` pages: says how the renderer
/// is to be run.
pub fn pdftoppm(skip: usize) -> (job: Rendering)
    ensures
        job.args@.map_values(|s: String| s@) == renderer_args(skip),
{
    let mut args: Vec<String> = Vec::new();
    args.push(String::from_str("-singlefile"));
    args.push(String::from_str("-jpeg"));
    args.push(String::from_str("-jpegopt"));
    args.push(String::from_str("quality=75"));
    args.push(String::from_str("-f"));
    args.push(decimal_string(skip as u128 + 1));
    assert(args@.map_values(|s: String| s@) =~= renderer_args(skip));
    Rendering { args }
}

impl Rendering {
    /// Takes what became of the renderer: its output, or the text of the
    /// error that kept it from running.
    ///
    /// On exit code 0 the standard output is the image, whole, and is to be
    /// cached. On any other exit code the standard error decides, as
    /// [`failure`] says of its text: the text that it encodes where it is
    /// valid UTF-8, and a lenient reading of it where it is not. An error in
    /// running the renderer is handed on.
    pub fn exited(self, result: Result<Output, String>) -> (next: Result<Caching, PeekError>)
        ensures
            result matches Err(message) ==> (next matches Err(e) && e@
                == PeekErrorView::Unexpected(message@)),
            result matches Ok(output) ==> (output.success ==> (next matches Ok(caching)
                && caching.image@ == output.stdout@)),
            result matches Ok(output) ==> (!output.success ==> (next matches Err(e) && e@
                == verdict(utf8_lossy(output.stderr@)))),
            result matches Ok(output) ==> (!output.success && valid_utf8(output.stderr@) ==> (
            next matches Err(e) && e@ == verdict(decode_utf8(output.stderr@)))),
    {
        match result {
            Err(message) => Err(PeekError::Unexpected(message)),
            Ok(output) => {
                if output.success {
                    Ok(Caching { image: output.stdout })
                } else {
                    Err(failure(lossy_text(output.stderr.as_slice())))
                }
            },
        }
    }
}

impl Caching {
    /// Takes what became of the write to the cache: nothing, or the text of
    /// the error that it met. With the write done the page is rendered.
    pub fn cached(self, result: Result<(), String>) -> (done: Result<(), PeekError>)
        ensures
            result is Ok ==> done is Ok,
            result matches Err(message) ==> (done matches Err(e) && e@
                == PeekErrorView::Unexpected(message@)),
    {
        match result {
            Ok(()) => Ok(()),
            Err(message) => Err(PeekError::Unexpected(message)),
        }
    }
}

} // verus!
