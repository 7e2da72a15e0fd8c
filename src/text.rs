use vstd::prelude::*;
use vstd::utf8::encode_scalar;
use vstd::utf8::encode_utf8;
use vstd::string::StringSliceAdditionalSpecFns;

verus! {

/// A line as a line reader hands it out: a `'\r'` that stood just before the `'\n'` dropped.
pub open spec fn strip_cr(l: Seq<char>) -> Seq<char> {
    if l.len() > 0 && l.last() == '\r' {
        l.drop_last()
    } else {
        l
    }
}

/// The text after the last `'\n'` of `s` (all of `s` if it holds none).
pub open spec fn open_tail(s: Seq<char>) -> Seq<char>
    decreases s.len(),
{
    if s.len() == 0 {
        Seq::empty()
    } else if s.last() == '\n' {
        Seq::empty()
    } else {
        open_tail(s.drop_last()).push(s.last())
    }
}

/// The lines of `s` that a `'\n'` ends, without their terminators.
pub open spec fn closed_lines(s: Seq<char>) -> Seq<Seq<char>>
    decreases s.len(),
{
    if s.len() == 0 {
        Seq::empty()
    } else if s.last() == '\n' {
        closed_lines(s.drop_last()).push(strip_cr(open_tail(s.drop_last())))
    } else {
        closed_lines(s.drop_last())
    }
}

/// The lines of `s` as a line-by-line reader yields them: split at each `'\n'`, with
/// the terminator (`"\n"` or `"\r\n"`) removed, and no empty line after a final `'\n'`.
pub open spec fn lines(s: Seq<char>) -> Seq<Seq<char>> {
    if open_tail(s).len() == 0 {
        closed_lines(s)
    } else {
        closed_lines(s).push(open_tail(s))
    }
}

/// How many single spaces `l` holds.
pub open spec fn spaces(l: Seq<char>) -> nat
    decreases l.len(),
{
    if l.len() == 0 {
        0
    } else {
        spaces(l.drop_last()) + if l.last() == ' ' { 1nat } else { 0nat }
    }
}

/// How many pieces splitting `l` at every single space gives: one more than its spaces.
pub open spec fn segments(l: Seq<char>) -> nat {
    spaces(l) + 1
}

/// The number of UTF-8 bytes that encode `l`.
pub open spec fn utf8_len(l: Seq<char>) -> nat {
    encode_utf8(l).len()
}

/// The sum of the segment counts of the lines `ls`.
pub open spec fn total_segments(ls: Seq<Seq<char>>) -> nat
    decreases ls.len(),
{
    if ls.len() == 0 {
        0
    } else {
        total_segments(ls.drop_last()) + segments(ls.last())
    }
}

/// The sum of the character counts of the lines `ls`.
pub open spec fn total_chars(ls: Seq<Seq<char>>) -> nat
    decreases ls.len(),
{
    if ls.len() == 0 {
        0
    } else {
        total_chars(ls.drop_last()) + ls.last().len()
    }
}

/// The sum of the UTF-8 byte lengths of the lines `ls`.
pub open spec fn total_utf8(ls: Seq<Seq<char>>) -> nat
    decreases ls.len(),
{
    if ls.len() == 0 {
        0
    } else {
        total_utf8(ls.drop_last()) + utf8_len(ls.last())
    }
}

/// Encoding a concatenation encodes each part in turn.
pub proof fn lemma_encode_append(a: Seq<char>, b: Seq<char>)
    ensures
        encode_utf8(a + b) == encode_utf8(a) + encode_utf8(b),
    decreases a.len(),
{
    if a.len() == 0 {
        assert(a + b =~= b);
        assert(encode_utf8(a) + encode_utf8(b) =~= encode_utf8(b));
    } else {
        assert((a + b).drop_first() =~= a.drop_first() + b);
        lemma_encode_append(a.drop_first(), b);
        assert(encode_utf8(a + b) =~= encode_utf8(a) + encode_utf8(b));
    }
}

/// Appending a character adds the length of its own encoding.
pub proof fn lemma_encode_push(a: Seq<char>, c: char)
    ensures
        utf8_len(a.push(c)) == utf8_len(a) + encode_scalar(c as u32).len(),
        encode_scalar(c as u32).len() >= 1,
{
    let one = seq![c];
    assert(a.push(c) =~= a + one);
    lemma_encode_append(a, one);
    assert(one[0] == c);
    assert(one.drop_first() =~= Seq::<char>::empty());
    assert(encode_utf8(one.drop_first()) =~= Seq::<u8>::empty());
    assert(encode_utf8(one) =~= encode_scalar(c as u32));
}

/// Every character takes at least one byte.
pub proof fn lemma_chars_le_bytes(a: Seq<char>)
    ensures
        a.len() <= utf8_len(a),
    decreases a.len(),
{
    if a.len() > 0 {
        lemma_chars_le_bytes(a.drop_last());
        lemma_encode_push(a.drop_last(), a.last());
        assert(a.drop_last().push(a.last()) =~= a);
    }
}

/// Number of bytes in the UTF-8 encoding of `c`.
fn utf8_width(c: char) -> (r: usize)
    ensures
        r == encode_scalar(c as u32).len(),
{
    let v = c as u32;
    if v <= 0x7F {
        1
    } else if v <= 0x7FF {
        2
    } else if v <= 0xFFFF {
        3
    } else {
        4
    }
}

/// The text made of the lines `ls`, each followed by a `'\n'`.
pub open spec fn terminated(ls: Seq<Seq<char>>) -> Seq<char>
    decreases ls.len(),
{
    if ls.len() == 0 {
        Seq::empty()
    } else {
        terminated(ls.drop_last()) + ls.last() + seq!['\n']
    }
}

/// Text without a `'\n'` only lengthens the open last line.
pub proof fn lemma_append_unbroken(p: Seq<char>, l: Seq<char>)
    requires
        !l.contains('\n'),
    ensures
        closed_lines(p + l) == closed_lines(p),
        open_tail(p + l) == open_tail(p) + l,
    decreases l.len(),
{
    if l.len() == 0 {
        assert(p + l =~= p);
        assert(open_tail(p) + l =~= open_tail(p));
    } else {
        let q = l.drop_last();
        assert(!q.contains('\n')) by {
            if q.contains('\n') {
                let k = choose|k: int| 0 <= k < q.len() && q[k] == '\n';
                assert(l[k] == '\n');
            }
        }
        assert(l[l.len() - 1] != '\n');
        lemma_append_unbroken(p, q);
        assert((p + l).drop_last() =~= p + q);
        assert((open_tail(p) + q).push(l.last()) =~= open_tail(p) + l);
    }
}

/// The lines of the text that terminates each of `ls` are `ls` themselves, less a
/// `'\r'` at the end of any of them.
pub proof fn lemma_lines_of_terminated(ls: Seq<Seq<char>>)
    requires
        forall|i: int| 0 <= i < ls.len() ==> !(#[trigger] ls[i]).contains('\n'),
    ensures
        lines(terminated(ls)) == ls.map_values(|l: Seq<char>| strip_cr(l)),
        open_tail(terminated(ls)).len() == 0,
    decreases ls.len(),
{
    if ls.len() == 0 {
        assert(ls.map_values(|l: Seq<char>| strip_cr(l)) =~= Seq::<Seq<char>>::empty());
    } else {
        let q = ls.drop_last();
        let l = ls.last();
        assert(forall|i: int| 0 <= i < q.len() ==> #[trigger] q[i] == ls[i]);
        lemma_lines_of_terminated(q);
        let p = terminated(q);
        assert(!l.contains('\n')) by {
            assert(l == ls[ls.len() - 1]);
        }
        lemma_append_unbroken(p, l);
        assert(open_tail(p) + l =~= l);
        let t = p + l + seq!['\n'];
        assert(t.drop_last() =~= p + l);
        assert(t.last() == '\n');
        assert(terminated(ls) == t);
        assert(ls.map_values(|l: Seq<char>| strip_cr(l)) =~= q.map_values(
            |l: Seq<char>| strip_cr(l),
        ).push(strip_cr(l)));
    }
}

/// How many tokens (maximal runs of characters other than a space) `l` holds.
pub open spec fn tokens(l: Seq<char>) -> nat
    decreases l.len(),
{
    if l.len() == 0 {
        0
    } else {
        tokens(l.drop_last()) + if l.last() != ' ' && (l.len() == 1 || l[l.len() - 2] == ' ') {
            1nat
        } else {
            0nat
        }
    }
}

/// The sum of the token counts of the lines `ls`.
pub open spec fn total_tokens(ls: Seq<Seq<char>>) -> nat
    decreases ls.len(),
{
    if ls.len() == 0 {
        0
    } else {
        total_tokens(ls.drop_last()) + tokens(ls.last())
    }
}

/// A line that is not blank and holds tokens parted by single spaces, with no space
/// at either end.
pub open spec fn single_spaced(l: Seq<char>) -> bool {
    &&& l.len() > 0
    &&& l[0] != ' '
    &&& l.last() != ' '
    &&& forall|i: int| 0 <= i < l.len() - 1 ==> !(#[trigger] l[i] == ' ' && l[i + 1] == ' ')
}

/// In a line that starts with a token and never holds two spaces in a row, each
/// space but a last one opens a token.
pub proof fn lemma_tokens_of_spaced(l: Seq<char>)
    requires
        l.len() > 0,
        l[0] != ' ',
        forall|i: int| 0 <= i < l.len() - 1 ==> !(#[trigger] l[i] == ' ' && l[i + 1] == ' '),
    ensures
        tokens(l) == spaces(l) + if l.last() == ' ' { 0nat } else { 1nat },
    decreases l.len(),
{
    if l.len() > 1 {
        let q = l.drop_last();
        assert(forall|i: int| 0 <= i < q.len() - 1 ==> #[trigger] q[i] == l[i]);
        assert forall|i: int| 0 <= i < q.len() - 1 implies !(#[trigger] q[i] == ' ' && q[i + 1] == ' ') by {
            assert(q[i] == l[i] && q[i + 1] == l[i + 1]);
        }
        lemma_tokens_of_spaced(q);
        assert(q.last() == l[l.len() - 2]);
        assert(!(l[l.len() - 2] == ' ' && l[l.len() - 1] == ' '));
    } else {
        assert(l.drop_last().len() == 0);
        assert(tokens(l.drop_last()) == 0 && spaces(l.drop_last()) == 0);
        assert(l.last() == l[0]);
    }
}

/// Over single-spaced lines, segments and tokens agree line by line.
pub proof fn lemma_total_tokens(ls: Seq<Seq<char>>)
    requires
        forall|i: int| 0 <= i < ls.len() ==> single_spaced(#[trigger] ls[i]),
    ensures
        total_segments(ls) == total_tokens(ls),
    decreases ls.len(),
{
    if ls.len() > 0 {
        let q = ls.drop_last();
        assert(forall|i: int| 0 <= i < q.len() ==> #[trigger] q[i] == ls[i]);
        lemma_total_tokens(q);
        let l = ls.last();
        assert(single_spaced(ls[ls.len() - 1]));
        lemma_tokens_of_spaced(l);
    }
}

/// What one pass over a text finds, line by line.
pub struct Tally {
    /// Number of lines.
    pub lines: usize,
    /// Sum over the lines of their single-space segments.
    pub words: usize,
    /// Sum over the lines of their characters.
    pub chars: usize,
    /// Sum over the lines of their UTF-8 byte lengths.
    pub line_bytes: usize,
}

/// One pass over `text`, counting what each line holds.
pub fn tally(text: &str) -> (r: Tally)
    requires
        text@.len() < usize::MAX,
    ensures
        r.lines == lines(text@).len(),
        r.words == total_segments(lines(text@)),
        r.chars == total_chars(lines(text@)),
        r.line_bytes == total_utf8(lines(text@)),
{
    let ghost s = text@;
    let mut lines_done: usize = 0;
    let mut words_done: usize = 0;
    let mut chars_done: usize = 0;
    let mut bytes_done: usize = 0;
    let mut cur_spaces: usize = 0;
    let mut cur_len: usize = 0;
    let mut cur_bytes: usize = 0;
    let mut last_cr: bool = false;
    let ghost mut i: int = 0;
    let all = text.as_bytes();
    proof {
        assert(all@.len() == all.len());
        assert(s.take(0) =~= Seq::<char>::empty());
        assert(s.skip(0) =~= s);
        assert(s =~= s.take(0) + s);
        lemma_encode_append(s.take(0), s);
    }
    for c in it: text.chars()
        invariant
            s == text@,
            s.len() < usize::MAX,
            it.seq() == s,
            i == it.index(),
            0 <= i <= s.len(),
            text.spec_bytes().len() <= usize::MAX,
            encode_utf8(s) == encode_utf8(s.take(i)) + encode_utf8(s.skip(i)),
            lines_done == closed_lines(s.take(i)).len(),
            words_done == total_segments(closed_lines(s.take(i))),
            chars_done == total_chars(closed_lines(s.take(i))),
            bytes_done == total_utf8(closed_lines(s.take(i))),
            cur_spaces == spaces(open_tail(s.take(i))),
            cur_len == open_tail(s.take(i)).len(),
            cur_bytes == utf8_len(open_tail(s.take(i))),
            last_cr == (open_tail(s.take(i)).len() > 0 && open_tail(s.take(i)).last() == '\r'),
            lines_done + cur_len <= i,
            words_done + cur_spaces <= i,
            chars_done + cur_len <= i,
            bytes_done + cur_bytes <= utf8_len(s.take(i)),
            i <= utf8_len(s.take(i)),
    {
        let ghost pre = s.take(i);
        let ghost tail = open_tail(pre);
        proof {
            assert(c == s[i]);
            assert(s.take(i + 1) =~= pre.push(c));
            assert(s.take(i + 1).drop_last() =~= pre);
            assert(s.skip(i) =~= seq![c] + s.skip(i + 1));
            lemma_encode_append(seq![c], s.skip(i + 1));
            lemma_encode_push(pre, c);
            assert(pre.push(c) =~= pre + seq![c]);
            lemma_encode_append(pre, seq![c]);
            lemma_encode_push(tail, c);
            assert(tail.push(c).drop_last() =~= tail);
        }
        let w = utf8_width(c);
        if c == '\n' {
            proof {
                let cl = closed_lines(pre);
                let l = strip_cr(tail);
                assert(cl.push(l).drop_last() =~= cl);
                if last_cr {
                    assert(tail.drop_last().push('\r') =~= tail);
                    lemma_encode_push(tail.drop_last(), '\r');
                    assert(encode_scalar('\r' as u32).len() == 1);
                }
            }
            if last_cr {
                words_done = words_done + cur_spaces + 1;
                chars_done = chars_done + (cur_len - 1);
                bytes_done = bytes_done + (cur_bytes - 1);
            } else {
                words_done = words_done + cur_spaces + 1;
                chars_done = chars_done + cur_len;
                bytes_done = bytes_done + cur_bytes;
            }
            lines_done = lines_done + 1;
            cur_spaces = 0;
            cur_len = 0;
            cur_bytes = 0;
            last_cr = false;
        } else {
            if c == ' ' {
                cur_spaces = cur_spaces + 1;
            }
            cur_len = cur_len + 1;
            cur_bytes = cur_bytes + w;
            last_cr = c == '\r';
        }
        proof {
            i = i + 1;
        }
    }
    proof {
        assert(s.take(i) =~= s);
    }
    let ghost tail = open_tail(s);
    if cur_len > 0 {
        proof {
            let cl = closed_lines(s);
            assert(cl.push(tail).drop_last() =~= cl);
        }
        Tally {
            lines: lines_done + 1,
            words: words_done + cur_spaces + 1,
            chars: chars_done + cur_len,
            line_bytes: bytes_done + cur_bytes,
        }
    } else {
        Tally { lines: lines_done, words: words_done, chars: chars_done, line_bytes: bytes_done }
    }
}

} // verus!
