//! Zero-copy line splitting: a lazy, forward-only sequence of the logical
//! lines of a text buffer, split on `\n` with a preceding `\r` stripped.
//!
//! The splitter holds a cursor, the still unconsumed suffix of the original
//! buffer, and each step scans it for the next `\n` with a single call into
//! a fast byte-search primitive. A trailing unterminated line is always
//! yielded; a trailing terminator does not produce an extra empty line.
//! The model of the split is stated over the buffer's bytes; that the byte
//! positions it cuts at are always character boundaries of the UTF-8 text
//! is proved, not assumed, so no line is ever re-validated.

use vstd::prelude::*;
use vstd::string::StringSliceAdditionalSpecFns;
use vstd::utf8::encode_utf8_valid_utf8;
use vstd::utf8::is_char_boundary;
use vstd::utf8::is_continuation_byte;
use vstd::utf8::is_leading_byte_width_1;
use vstd::utf8::length_of_first_scalar;
use vstd::utf8::pop_first_scalar;
use vstd::utf8::valid_utf8;
use vstd::utf8::valid_utf8_split;

verus! {

/// The line-feed byte `\n`.
pub const LF: u8 = 10;

/// The carriage-return byte `\r`.
pub const CR: u8 = 13;

/// The index of the first `\n` in `s`, or `s.len()` when there is none.
pub open spec fn first_lf(s: Seq<u8>) -> int
    decreases s.len(),
{
    if s.len() == 0 {
        0
    } else if s[0] == LF {
        0
    } else {
        1 + first_lf(s.drop_first())
    }
}

/// `first_lf` is in bounds, lands on a `\n` when one exists, and nothing
/// before it is a `\n`.
pub proof fn lemma_first_lf(s: Seq<u8>)
    ensures
        0 <= first_lf(s) <= s.len(),
        first_lf(s) < s.len() ==> s[first_lf(s)] == LF,
        forall|j: int| 0 <= j < first_lf(s) ==> s[j] != LF,
    decreases s.len(),
{
    if s.len() == 0 {
    } else if s[0] == LF {
    } else {
        lemma_first_lf(s.drop_first());
        assert forall|j: int| 0 <= j < first_lf(s) implies s[j] != LF by {
            if j > 0 {
                assert(s.drop_first()[j - 1] != LF);
            }
        }
    }
}

/// A position that holds a `\n` with no earlier `\n` is `first_lf`.
pub proof fn lemma_first_lf_at(s: Seq<u8>, i: int)
    requires
        0 <= i < s.len(),
        s[i] == LF,
        forall|j: int| 0 <= j < i ==> s[j] != LF,
    ensures
        first_lf(s) == i,
{
    lemma_first_lf(s);
    if first_lf(s) < i {
        assert(s[first_lf(s)] != LF);
    }
    if first_lf(s) > i {
        assert(s[i] != LF);
    }
}

/// When no byte of `s` is a `\n`, `first_lf` is the length.
pub proof fn lemma_first_lf_none(s: Seq<u8>)
    requires
        forall|j: int| 0 <= j < s.len() ==> s[j] != LF,
    ensures
        first_lf(s) == s.len(),
{
    lemma_first_lf(s);
}

/// The first logical line of `s`: the bytes before the first `\n`, with a
/// `\r` immediately before that `\n` stripped; the whole of `s` when it has
/// no `\n`.
pub open spec fn line_of(s: Seq<u8>) -> Seq<u8> {
    let i = first_lf(s);
    if i < s.len() {
        if i > 0 && s[i - 1] == CR {
            s.subrange(0, i - 1)
        } else {
            s.subrange(0, i)
        }
    } else {
        s
    }
}

/// What remains of `s` after its first logical line and that line's
/// terminator are consumed; empty when `s` has no `\n`.
pub open spec fn rest_of(s: Seq<u8>) -> Seq<u8> {
    let i = first_lf(s);
    if i < s.len() {
        s.subrange(i + 1, s.len() as int)
    } else {
        Seq::empty()
    }
}

/// All logical lines of `s`, in order. The empty buffer has no lines; a
/// buffer without a trailing terminator still contributes its last line.
pub open spec fn split_lines(s: Seq<u8>) -> Seq<Seq<u8>>
    decreases s.len(),
    via split_lines_decreases
{
    if s.len() == 0 {
        Seq::empty()
    } else {
        seq![line_of(s)] + split_lines(rest_of(s))
    }
}

#[via_fn]
proof fn split_lines_decreases(s: Seq<u8>) {
    if s.len() != 0 {
        lemma_first_lf(s);
    }
}

/// Consuming one line strictly shrinks a nonempty cursor.
pub proof fn lemma_rest_of_shrinks(s: Seq<u8>)
    requires
        s.len() > 0,
    ensures
        rest_of(s).len() < s.len(),
{
    lemma_first_lf(s);
}

/// The lines joined back together with a single `\n` between consecutive
/// lines (a separator, not a terminator).
pub open spec fn join_lf(lines: Seq<Seq<u8>>) -> Seq<u8>
    decreases lines.len(),
{
    if lines.len() == 0 {
        Seq::empty()
    } else if lines.len() == 1 {
        lines[0]
    } else {
        lines[0] + seq![LF] + join_lf(lines.drop_first())
    }
}

/// `s` with every `\r\n` pair reduced to a single `\n`.
pub open spec fn normalize_crlf(s: Seq<u8>) -> Seq<u8>
    decreases s.len(),
{
    if s.len() == 0 {
        Seq::empty()
    } else if s.len() >= 2 && s[0] == CR && s[1] == LF {
        seq![LF] + normalize_crlf(s.subrange(2, s.len() as int))
    } else {
        seq![s[0]] + normalize_crlf(s.drop_first())
    }
}

/// Normalization passes over a `\r`-free prefix unchanged.
proof fn lemma_normalize_prefix(a: Seq<u8>, t: Seq<u8>)
    requires
        forall|i: int| 0 <= i < a.len() ==> a[i] != CR,
    ensures
        normalize_crlf(a + t) == a + normalize_crlf(t),
    decreases a.len(),
{
    if a.len() == 0 {
        assert(a + t =~= t);
        assert(a + normalize_crlf(t) =~= normalize_crlf(t));
    } else {
        let s = a + t;
        assert(s[0] == a[0]);
        assert(s.drop_first() =~= a.drop_first() + t);
        lemma_normalize_prefix(a.drop_first(), t);
        assert(seq![a[0]] + (a.drop_first() + normalize_crlf(t)) =~= a + normalize_crlf(t));
    }
}

/// Normalization turns a leading `\r\n` into `\n`.
proof fn lemma_normalize_crlf_head(b: Seq<u8>)
    ensures
        normalize_crlf(seq![CR, LF] + b) == seq![LF] + normalize_crlf(b),
{
    let s = seq![CR, LF] + b;
    assert(s.len() >= 2 && s[0] == CR && s[1] == LF);
    assert(s.subrange(2, s.len() as int) =~= b);
}

/// Normalization passes a leading bare `\n` through unchanged.
proof fn lemma_normalize_lf_head(b: Seq<u8>)
    ensures
        normalize_crlf(seq![LF] + b) == seq![LF] + normalize_crlf(b),
{
    let s = seq![LF] + b;
    assert(s[0] == LF && s[0] != CR);
    assert(s.drop_first() =~= b);
}

/// Joining a first line onto at least one further line inserts one `\n`.
proof fn lemma_join_cons(l: Seq<u8>, rest: Seq<Seq<u8>>)
    requires
        rest.len() > 0,
    ensures
        join_lf(seq![l] + rest) == l + seq![LF] + join_lf(rest),
{
    let ls = seq![l] + rest;
    assert(ls.len() >= 2);
    assert(ls[0] == l);
    assert(ls.drop_first() =~= rest);
}

/// Round trip: joining all the lines of `s` with `\n` reproduces `s` with
/// its terminators normalized (every `\r\n` reduced to `\n`), for any `s`
/// free of a bare `\r` not followed by `\n` and not ending in a terminator.
pub proof fn lemma_lines_round_trip(s: Seq<u8>)
    requires
        forall|i: int| 0 <= i < s.len() && #[trigger] s[i] == CR ==> i + 1 < s.len() && s[i + 1] == LF,
        s.len() == 0 || s[s.len() - 1] != LF,
    ensures
        join_lf(split_lines(s)) == normalize_crlf(s),
    decreases s.len(),
{
    if s.len() == 0 {
        return;
    }
    lemma_first_lf(s);
    let i = first_lf(s);
    let line = line_of(s);
    let rest = rest_of(s);
    if i == s.len() {
        assert forall|j: int| 0 <= j < s.len() implies s[j] != CR by {
            if s[j] == CR {
                assert(s[j + 1] == LF);
            }
        }
        lemma_normalize_prefix(s, Seq::empty());
        assert(s + Seq::<u8>::empty() =~= s);
        assert(split_lines(rest) =~= Seq::<Seq<u8>>::empty());
        assert(seq![line] + Seq::<Seq<u8>>::empty() =~= seq![line]);
        assert(join_lf(split_lines(s)) == s);
    } else {
        assert(s[s.len() - 1] != LF && s[i] == LF);
        assert(i < s.len() - 1);
        assert(rest.len() > 0);
        assert forall|k: int| 0 <= k < rest.len() && #[trigger] rest[k] == CR implies k + 1 < rest.len()
            && rest[k + 1] == LF by {
            assert(rest[k] == s[i + 1 + k]);
            assert(s[i + 1 + k + 1] == LF);
        }
        assert(rest[rest.len() - 1] == s[s.len() - 1]);
        lemma_lines_round_trip(rest);
        assert(split_lines(rest).len() > 0);
        lemma_join_cons(line, split_lines(rest));
        if i > 0 && s[i - 1] == CR {
            assert forall|j: int| 0 <= j < line.len() implies line[j] != CR by {
                if line[j] == CR {
                    assert(s[j] == CR);
                    assert(s[j + 1] == LF);
                }
            }
            assert(s =~= line + (seq![CR, LF] + rest));
            lemma_normalize_crlf_head(rest);
            lemma_normalize_prefix(line, seq![CR, LF] + rest);
            assert(line + (seq![LF] + normalize_crlf(rest)) =~= line + seq![LF] + normalize_crlf(
                rest,
            ));
        } else {
            assert forall|j: int| 0 <= j < line.len() implies line[j] != CR by {
                if line[j] == CR {
                    assert(s[j] == CR);
                    assert(s[j + 1] == LF);
                    assert(j + 1 >= i);
                }
            }
            assert(s =~= line + (seq![LF] + rest));
            lemma_normalize_lf_head(rest);
            lemma_normalize_prefix(line, seq![LF] + rest);
            assert(line + (seq![LF] + normalize_crlf(rest)) =~= line + seq![LF] + normalize_crlf(
                rest,
            ));
        }
    }
}

/// In valid UTF-8 an ASCII byte always encodes a whole scalar on its own,
/// so both its position and the position after it are character boundaries.
proof fn lemma_ascii_is_boundary(bytes: Seq<u8>, i: int)
    requires
        valid_utf8(bytes),
        0 <= i < bytes.len(),
        bytes[i] < 0x80,
    ensures
        is_char_boundary(bytes, i),
        is_char_boundary(bytes, i + 1),
    decreases bytes.len(),
{
    let l = length_of_first_scalar(bytes);
    let pop = pop_first_scalar(bytes);
    assert(valid_utf8(pop));
    assert(1 <= l <= bytes.len());
    if i == 0 {
        assert(is_leading_byte_width_1(bytes[0]));
        assert(l == 1);
        assert(is_char_boundary(pop, 0));
        assert(is_char_boundary(bytes, 1));
    } else {
        assert(l <= 4);
        if i < l {
            assert(is_continuation_byte(bytes[i]));
            assert(false);
        }
        assert(pop[i - l] == bytes[i]);
        lemma_ascii_is_boundary(pop, i - l);
    }
}

/// Relies on memchr::memchr: the index of the first occurrence of `needle`
/// in `haystack`, or `None` when it does not occur; a returned index is
/// always less than the haystack's length.
#[verifier::external_body]
fn find_byte(needle: u8, haystack: &[u8]) -> (r: Option<usize>)
    ensures
        (r matches Some(i) ==> i < haystack@.len() && haystack@[i as int] == needle && (forall|
            j: int,
        | 0 <= j < i ==> haystack@[j] != needle)),
        r is None ==> forall|j: int| 0 <= j < haystack@.len() ==> haystack@[j] != needle,
{
    memchr::memchr(needle, haystack)
}

/// A lazy, forward-only sequence of the logical lines of a text buffer.
///
/// The view is the byte content of the cursor: the still unconsumed suffix
/// of the buffer. Once the cursor is empty the sequence is exhausted
/// permanently; construct a fresh one over the same buffer to restart.
pub struct FastLines<'a>(&'a str);

impl<'a> View for FastLines<'a> {
    type V = Seq<u8>;

    closed spec fn view(&self) -> Seq<u8> {
        self.0.spec_bytes()
    }
}

/// Makes a line sequence over `buf` without scanning anything eagerly.
pub fn fast_lines(buf: &str) -> (it: FastLines)
    ensures
        it@ == buf.spec_bytes(),
{
    FastLines(buf)
}

impl<'a> FastLines<'a> {
    /// Yields the next logical line, or `None` once the cursor is empty.
    ///
    /// One call scans the cursor for the first `\n` in a single pass; the
    /// yielded line is a verbatim subrange of the original buffer, and a
    /// split on `\n` or `\r\n` always falls on character boundaries, so no
    /// re-validation of the text is needed.
    pub fn next(&mut self) -> (r: Option<&'a str>)
        ensures
            old(self)@.len() == 0 ==> r is None && final(self)@ == old(self)@,
            old(self)@.len() > 0 ==> (r matches Some(line) && line.spec_bytes() == line_of(
                old(self)@,
            ) && final(self)@ == rest_of(old(self)@)),
    {
        let cursor: &'a str = self.0;
        let bytes: &[u8] = cursor.as_bytes();
        let n: usize = bytes.len();
        if n == 0 {
            return None;
        }
        proof {
            encode_utf8_valid_utf8(cursor@);
        }
        let line: &'a str;
        match find_byte(LF, bytes) {
            Some(i) => {
                proof {
                    lemma_first_lf_at(cursor.spec_bytes(), i as int);
                    lemma_ascii_is_boundary(cursor.spec_bytes(), i as int);
                }
                let (head, tail) = cursor.split_at(i + 1);
                proof {
                    valid_utf8_split(cursor.spec_bytes(), i + 1);
                    assert(head.spec_bytes()[i as int] == cursor.spec_bytes()[i as int]);
                    lemma_ascii_is_boundary(head.spec_bytes(), i as int);
                }
                let (line0, _lf) = head.split_at(i);
                if i > 0 && bytes[i - 1] == CR {
                    proof {
                        valid_utf8_split(head.spec_bytes(), i as int);
                        assert(line0.spec_bytes()[i - 1] == cursor.spec_bytes()[i - 1]);
                        lemma_ascii_is_boundary(line0.spec_bytes(), i - 1);
                    }
                    let (line1, _cr) = line0.split_at(i - 1);
                    proof {
                        assert(line1.spec_bytes() =~= cursor.spec_bytes().subrange(0, i - 1));
                    }
                    line = line1;
                } else {
                    proof {
                        assert(line0.spec_bytes() =~= cursor.spec_bytes().subrange(0, i as int));
                    }
                    line = line0;
                }
                self.0 = tail;
            },
            None => {
                proof {
                    lemma_first_lf_none(cursor.spec_bytes());
                    assert(is_char_boundary(cursor.spec_bytes(), 0));
                    assert(cursor.spec_bytes().subrange(0, 0) =~= Seq::<u8>::empty());
                }
                let (empty_tail, _whole) = cursor.split_at(0);
                line = cursor;
                self.0 = empty_tail;
            },
        }
        Some(line)
    }

    /// The number of unconsumed bytes left in the cursor.
    pub fn remaining(&self) -> (n: usize)
        ensures
            n == self@.len(),
    {
        self.0.as_bytes().len()
    }
}

/// The byte contents of a sequence of text slices, line by line.
pub open spec fn bytes_of_lines(v: Seq<&str>) -> Seq<Seq<u8>> {
    Seq::new(v.len(), |k: int| v[k].spec_bytes())
}

/// Splits the whole buffer at once: exactly the lines that a fresh
/// [`FastLines`] over `text` would yield, in order.
pub fn lines_of<'a>(text: &'a str) -> (r: Vec<&'a str>)
    ensures
        bytes_of_lines(r@) == split_lines(text.spec_bytes()),
{
    let mut it = fast_lines(text);
    let mut acc: Vec<&'a str> = Vec::new();
    proof {
        assert(bytes_of_lines(acc@) + split_lines(it@) =~= split_lines(text.spec_bytes()));
    }
    while it.remaining() > 0
        invariant
            bytes_of_lines(acc@) + split_lines(it@) == split_lines(text.spec_bytes()),
        decreases it@.len(),
    {
        let ghost prev = it@;
        let ghost prev_acc = bytes_of_lines(acc@);
        let line = match it.next() {
            Some(line) => line,
            None => {
                proof {
                    assert(false);
                }
                text
            },
        };
        acc.push(line);
        proof {
            lemma_rest_of_shrinks(prev);
            assert(bytes_of_lines(acc@) =~= prev_acc.push(line.spec_bytes()));
            assert(prev_acc.push(line_of(prev)) + split_lines(rest_of(prev)) =~= prev_acc + (
            seq![line_of(prev)] + split_lines(rest_of(prev))));
        }
    }
    proof {
        assert(split_lines(it@) =~= Seq::<Seq<u8>>::empty());
        assert(bytes_of_lines(acc@) + split_lines(it@) =~= bytes_of_lines(acc@));
    }
    acc
}

} // verus!
