use vstd::prelude::*;
use vstd::string::StringSliceAdditionalSpecFns;
use vstd::utf8::decode_utf8;
use vstd::utf8::encode_utf8;
use vstd::utf8::encode_utf8_decode_utf8;
use vstd::utf8::valid_utf8;

use crate::mode::MyOption;
use crate::mode::WcError;
use crate::text::closed_lines;
use crate::text::lemma_append_unbroken;
use crate::text::lemma_chars_le_bytes;
use crate::text::lemma_lines_of_terminated;
use crate::text::lemma_total_tokens;
use crate::text::lines;
use crate::text::open_tail;
use crate::text::single_spaced;
use crate::text::terminated;
use crate::text::total_tokens;
use crate::text::tally;
use crate::text::total_chars;
use crate::text::total_segments;
use crate::text::total_utf8;
use crate::text::utf8_len;

verus! {

/// The counts that one pass gathers: bytes, lines and words.
pub struct WcResult {
    pub bytes: u64,
    pub lines: usize,
    pub words: usize,
}

impl WcResult {
    /// A result with every count at zero.
    pub fn new() -> (r: WcResult)
        ensures
            r.bytes == 0,
            r.lines == 0,
            r.words == 0,
    {
        WcResult { bytes: 0, lines: 0, words: 0 }
    }

    /// Puts the true byte length of the source in place of the byte count.
    pub fn set_bytes(&mut self, byte: u64)
        ensures
            final(self).bytes == byte,
            final(self).lines == old(self).lines,
            final(self).words == old(self).words,
    {
        self.bytes = byte;
    }
}

/// The single count that `mode` asks for, of a text read from a file: in `Bytes`
/// mode the size of the file, else the line count, the summed single-space
/// segments of the lines, or the summed characters of the lines.
pub open spec fn file_count(s: Seq<char>, mode: MyOption) -> nat {
    match mode {
        MyOption::Bytes => utf8_len(s),
        MyOption::Lines => lines(s).len(),
        MyOption::Words => total_segments(lines(s)),
        MyOption::Characters => total_chars(lines(s)),
    }
}

/// The single count that `mode` asks for, of a text read from a stream whose size
/// is not known: as for a file, except that `Bytes` sums the byte lengths of the
/// lines, without their terminators.
pub open spec fn pipe_count(s: Seq<char>, mode: MyOption) -> nat {
    match mode {
        MyOption::Bytes => total_utf8(lines(s)),
        _ => file_count(s, mode),
    }
}

/// Relies on `std::str::from_utf8`: it succeeds exactly on valid UTF-8, and the
/// text it gives is made of the same bytes.
#[verifier::external_body]
fn utf8_text(data: &[u8]) -> (r: Option<&str>)
    ensures
        r.is_some() == valid_utf8(data@),
        r matches Some(t) ==> t.spec_bytes() == data@,
{
    std::str::from_utf8(data).ok()
}

/// Reads `data` as UTF-8 text.
pub fn decode_text(data: &[u8]) -> (r: Result<&str, WcError>)
    ensures
        match r {
            Ok(t) => valid_utf8(data@) && t@ == decode_utf8(data@) && utf8_len(t@) == data@.len(),
            Err(e) => !valid_utf8(data@) && e == WcError::StreamDecodingError,
        },
{
    match utf8_text(data) {
        Some(t) => {
            proof {
                encode_utf8_decode_utf8(t@);
            }
            Ok(t)
        },
        None => Err(WcError::StreamDecodingError),
    }
}

/// Counts one dimension of a text read from a file.
pub fn count(text: &str, option: MyOption) -> (r: usize)
    requires
        text@.len() < usize::MAX,
    ensures
        r == file_count(text@, option),
{
    match option {
        MyOption::Bytes => text.as_bytes().len(),
        MyOption::Lines => tally(text).lines,
        MyOption::Words => tally(text).words,
        MyOption::Characters => tally(text).chars,
    }
}

/// Counts one dimension of a stream whose size is not known in advance.
pub fn count_pip(data: &[u8], option: MyOption) -> (r: Result<usize, WcError>)
    requires
        data@.len() < usize::MAX,
    ensures
        match r {
            Ok(n) => valid_utf8(data@) && n == pipe_count(decode_utf8(data@), option),
            Err(e) => !valid_utf8(data@) && e == WcError::StreamDecodingError,
        },
{
    let text = decode_text(data)?;
    proof {
        lemma_chars_le_bytes(text@);
    }
    match option {
        MyOption::Bytes => Ok(tally(text).line_bytes),
        _ => Ok(count(text, option)),
    }
}

/// Counts one dimension of a file's contents; in `Bytes` mode the contents are not
/// decoded at all.
pub fn count_file(data: &[u8], option: MyOption) -> (r: Result<usize, WcError>)
    requires
        data@.len() < usize::MAX,
    ensures
        option == MyOption::Bytes ==> r == Ok::<usize, WcError>(data@.len() as usize),
        option != MyOption::Bytes ==> match r {
            Ok(n) => valid_utf8(data@) && n == file_count(decode_utf8(data@), option),
            Err(e) => !valid_utf8(data@) && e == WcError::StreamDecodingError,
        },
{
    match option {
        MyOption::Bytes => Ok(data.len()),
        _ => {
            let text = decode_text(data)?;
            proof {
                lemma_chars_le_bytes(text@);
            }
            Ok(count(text, option))
        },
    }
}

/// Lines and words of a text read from a file, in one pass; the byte count is left
/// at zero for the caller to fill in from the file's size.
pub fn count_all(text: &str) -> (r: WcResult)
    requires
        text@.len() < usize::MAX,
    ensures
        r.bytes == 0,
        r.lines == lines(text@).len(),
        r.words == total_segments(lines(text@)),
{
    let t = tally(text);
    let mut r = WcResult::new();
    r.lines = t.lines;
    r.words = t.words;
    r
}

/// Bytes, lines and words of a file's contents.
pub fn count_file_all(data: &[u8]) -> (r: Result<WcResult, WcError>)
    requires
        data@.len() < usize::MAX,
    ensures
        match r {
            Ok(w) => {
                &&& valid_utf8(data@)
                &&& w.bytes == data@.len()
                &&& w.lines == lines(decode_utf8(data@)).len()
                &&& w.words == total_segments(lines(decode_utf8(data@)))
            },
            Err(e) => !valid_utf8(data@) && e == WcError::StreamDecodingError,
        },
{
    let text = decode_text(data)?;
    proof {
        lemma_chars_le_bytes(text@);
    }
    let mut r = count_all(text);
    r.set_bytes(data.len() as u64);
    Ok(r)
}

/// Lines and words of a stream, with the summed characters of its lines standing
/// in for the byte count.
pub fn count_all_pipe(data: &[u8]) -> (r: Result<WcResult, WcError>)
    requires
        data@.len() < usize::MAX,
    ensures
        match r {
            Ok(w) => {
                &&& valid_utf8(data@)
                &&& w.bytes == total_chars(lines(decode_utf8(data@)))
                &&& w.lines == lines(decode_utf8(data@)).len()
                &&& w.words == total_segments(lines(decode_utf8(data@)))
            },
            Err(e) => !valid_utf8(data@) && e == WcError::StreamDecodingError,
        },
{
    let text = decode_text(data)?;
    proof {
        lemma_chars_le_bytes(text@);
    }
    let t = tally(text);
    Ok(WcResult { bytes: t.chars as u64, lines: t.lines, words: t.words })
}

/// A text of N lines, each ended by a terminator, counts N lines, whatever the
/// lines hold, empty ones included.
pub proof fn law_lines_counted(ls: Seq<Seq<char>>)
    requires
        forall|i: int| 0 <= i < ls.len() ==> !(#[trigger] ls[i]).contains('\n'),
    ensures
        file_count(terminated(ls), MyOption::Lines) == ls.len(),
        pipe_count(terminated(ls), MyOption::Lines) == ls.len(),
{
    lemma_lines_of_terminated(ls);
}

/// A text of N terminated lines followed by one more line, not empty and without a
/// terminator, counts N + 1 lines.
pub proof fn law_lines_counted_open_last(ls: Seq<Seq<char>>, last: Seq<char>)
    requires
        forall|i: int| 0 <= i < ls.len() ==> !(#[trigger] ls[i]).contains('\n'),
        !last.contains('\n'),
        last.len() > 0,
    ensures
        file_count(terminated(ls) + last, MyOption::Lines) == ls.len() + 1,
        pipe_count(terminated(ls) + last, MyOption::Lines) == ls.len() + 1,
{
    lemma_lines_of_terminated(ls);
    lemma_append_unbroken(terminated(ls), last);
    assert(open_tail(terminated(ls)) + last =~= last);
}

/// Where every line holds tokens parted by single spaces and none is blank, the
/// word count is the number of tokens, line by line, that a tokenizer splitting at
/// runs of spaces finds.
pub proof fn law_words_are_tokens(s: Seq<char>)
    requires
        forall|i: int| 0 <= i < lines(s).len() ==> single_spaced(#[trigger] lines(s)[i]),
    ensures
        file_count(s, MyOption::Words) == total_tokens(lines(s)),
        pipe_count(s, MyOption::Words) == total_tokens(lines(s)),
{
    lemma_total_tokens(lines(s));
}

/// Empty input counts zero in every mode.
pub proof fn law_empty_counts(mode: MyOption)
    ensures
        file_count(Seq::empty(), mode) == 0,
        pipe_count(Seq::empty(), mode) == 0,
{
    let e = Seq::<char>::empty();
    assert(open_tail(e).len() == 0);
    assert(closed_lines(e).len() == 0);
    assert(lines(e) =~= Seq::<Seq<char>>::empty());
    assert(encode_utf8(e) =~= Seq::<u8>::empty());
}

/// Counting the same contents twice gives the same counts: each count depends on
/// the contents and the mode alone.
pub proof fn law_counts_repeat(a: Seq<u8>, b: Seq<u8>, mode: MyOption)
    requires
        a == b,
    ensures
        file_count(decode_utf8(a), mode) == file_count(decode_utf8(b), mode),
        pipe_count(decode_utf8(a), mode) == pipe_count(decode_utf8(b), mode),
{
}

} // verus!
