//! The lines of a text.
//!
//! A line ends with a line feed, which is no part of it; a carriage return
//! just before the line feed is no part of it either. What follows the last
//! line feed is a line too, unless nothing follows.

use vstd::prelude::*;
use vstd::utf8::{
    char_u32_cast, encode_utf8, encode_utf8_decode_utf8, encode_utf8_valid_utf8,
    is_char_boundary_iff_not_is_continuation_byte,
};
use crate::text::{
    byte_len, lemma_ascii_byte_at, lemma_ascii_char_at, lemma_cut_again, lemma_encode_parts,
    lemma_offset_is_boundary, lemma_offset_rises, lemma_slice_between, offset, str_texts,
};

verus! {

/// The index of the first line feed of a text, or the length of the text
/// where it holds none.
pub open spec fn line_end(text: Seq<char>) -> nat
    decreases text.len(),
{
    if text.len() == 0 || text[0] == '\n' {
        0
    } else {
        1 + line_end(text.drop_first())
    }
}

/// A line without the carriage return at its end, if it has one.
pub open spec fn without_cr(line: Seq<char>) -> Seq<char> {
    if line.len() > 0 && line.last() == '\r' {
        line.drop_last()
    } else {
        line
    }
}

/// The lines of a text, in order.
pub open spec fn lines_of(text: Seq<char>) -> Seq<Seq<char>>
    decreases text.len(),
{
    if text.len() == 0 {
        Seq::empty()
    } else if line_end(text) >= text.len() {
        seq![text]
    } else {
        seq![without_cr(text.take(line_end(text) as int))] + lines_of(
            text.skip(line_end(text) as int + 1),
        )
    }
}

/// Whether `n` is the index of the first line feed of a text, or its length
/// where it holds none.
pub open spec fn is_line_end(text: Seq<char>, n: int) -> bool {
    &&& 0 <= n <= text.len()
    &&& n < text.len() ==> text[n] == '\n'
    &&& forall|i: int| 0 <= i < n ==> text[i] != '\n'
}

/// The first line feed of a text is where `line_end` says.
pub proof fn lemma_line_end(text: Seq<char>, n: int)
    requires
        is_line_end(text, n),
    ensures
        line_end(text) == n,
    decreases n,
{
    if n > 0 {
        let rest = text.drop_first();
        assert(text[0] != '\n');
        assert forall|i: int| 0 <= i < n - 1 implies rest[i] != '\n' by {
            assert(rest[i] == text[i + 1]);
        }
        lemma_line_end(rest, n - 1);
    }
}

/// The first line feed among the bytes of a text is the first line feed of
/// the text; a text without one among its bytes holds none.
proof fn lemma_line_end_in_bytes(text: Seq<char>, k: int)
    requires
        0 <= k <= byte_len(text),
        k < byte_len(text) ==> encode_utf8(text)[k] == 0x0Au8,
        forall|j: int| 0 <= j < k ==> encode_utf8(text)[j] != 0x0Au8,
    ensures
        line_end(text) <= text.len(),
        offset(text, line_end(text) as int) == k,
        k < byte_len(text) ==> line_end(text) < text.len() && offset(
            text,
            line_end(text) as int + 1,
        ) == k + 1,
        k == byte_len(text) ==> line_end(text) == text.len(),
{
    let bytes = encode_utf8(text);
    assert(text.take(text.len() as int) =~= text);
    let n = if k < byte_len(text) {
        lemma_ascii_byte_at(text, k);
        choose|i: int| 0 <= i < text.len() && offset(text, i) == k && text[i] as u32 == bytes[k] as u32
    } else {
        text.len() as int
    };
    assert forall|i: int| 0 <= i < n implies text[i] != '\n' by {
        if text[i] == '\n' {
            lemma_ascii_char_at(text, i);
            lemma_offset_rises(text, i, n);
        }
    }
    if n < text.len() {
        char_u32_cast(text[n], 0x0Au32);
        lemma_ascii_char_at(text, n);
    }
    lemma_line_end(text, n);
}

/// The index of the first byte of `bytes` that is `wanted`, or the length of
/// `bytes` where none is.
fn find_byte(bytes: &[u8], wanted: u8) -> (k: usize)
    ensures
        k <= bytes@.len(),
        k < bytes@.len() ==> bytes@[k as int] == wanted,
        forall|j: int| 0 <= j < k ==> bytes@[j] != wanted,
{
    let mut k: usize = 0;
    while k < bytes.len()
        invariant
            k <= bytes@.len(),
            forall|j: int| 0 <= j < k ==> bytes@[j] != wanted,
        decreases bytes.len() - k,
    {
        if bytes[k] == wanted {
            return k;
        }
        k += 1;
    }
    k
}

/// A line without the carriage return at its end, if it has one.
fn strip_cr(line: &str) -> (r: &str)
    ensures
        r@ == without_cr(line@),
{
    let bytes = line.as_bytes();
    let size = bytes.len();
    proof {
        assert(line@.take(line@.len() as int) =~= line@);
        if line@.len() > 0 {
            lemma_offset_rises(line@, 0, line@.len() as int);
        }
    }
    if size > 0 && bytes[size - 1] == 0x0D {
        proof {
            lemma_ascii_byte_at(line@, size - 1);
            let i = choose|i: int|
                0 <= i < line@.len() && offset(line@, i) == size - 1 && line@[i] as u32
                    == bytes@[size - 1] as u32;
            lemma_ascii_char_at(line@, i);
            if i + 1 < line@.len() {
                lemma_offset_rises(line@, i + 1, line@.len() as int);
            }
            char_u32_cast(line@[i], 0x0Du32);
            lemma_offset_is_boundary(line@, i);
            lemma_slice_between(line@, 0, i);
            assert(line@.take(0) =~= Seq::<char>::empty());
            assert(line@.subrange(0, i) =~= line@.drop_last());
        }
        let (kept, _) = line.split_at(size - 1);
        proof {
            encode_utf8_decode_utf8(kept@);
        }
        kept
    } else {
        proof {
            if line@.len() > 0 && line@.last() == '\r' {
                lemma_ascii_char_at(line@, line@.len() - 1);
            }
        }
        line
    }
}

/// The lines of a text, in order.
pub fn split_lines(text: &str) -> (lines: Vec<&str>)
    ensures
        str_texts(lines@) == lines_of(text@),
{
    let mut lines: Vec<&str> = Vec::new();
    let mut rest: &str = text;
    assert(str_texts(lines@) =~= Seq::<Seq<char>>::empty());
    while rest.as_bytes().len() > 0
        invariant
            lines_of(text@) == str_texts(lines@) + lines_of(rest@),
        decreases byte_len(rest@),
    {
        let ghost done = str_texts(lines@);
        let ghost whole = rest@;
        let bytes = rest.as_bytes();
        let k = find_byte(bytes, 0x0A);
        proof {
            lemma_line_end_in_bytes(whole, k as int);
            assert(whole.len() > 0);
        }
        if k == bytes.len() {
            lines.push(rest);
            rest = "";
            proof {
                reveal_strlit("");
                assert(rest@ =~= Seq::<char>::empty());
                assert(str_texts(lines@) =~= done.push(whole));
                assert(done + lines_of(whole) =~= str_texts(lines@) + lines_of(rest@));
            }
        } else {
            let ghost n = line_end(whole) as int;
            proof {
                encode_utf8_valid_utf8(whole);
                is_char_boundary_iff_not_is_continuation_byte(encode_utf8(whole), k as int);
                lemma_offset_is_boundary(whole, n + 1);
                lemma_cut_again(encode_utf8(whole), k as int, k + 1);
                lemma_slice_between(whole, 0, n);
                lemma_slice_between(whole, n + 1, whole.len() as int);
                assert(whole.take(0) =~= Seq::<char>::empty());
                assert(whole.take(whole.len() as int) =~= whole);
            }
            let (head, tail) = rest.split_at(k);
            let (_, after) = tail.split_at(1);
            proof {
                encode_utf8_decode_utf8(head@);
                encode_utf8_decode_utf8(after@);
                assert(encode_utf8(after@) =~= encode_utf8(whole).subrange(
                    k + 1,
                    byte_len(whole) as int,
                ));
                assert(head@ =~= whole.take(n));
                assert(after@ =~= whole.skip(n + 1));
                lemma_encode_parts(whole, n + 1, whole.len() as int);
            }
            let line = strip_cr(head);
            lines.push(line);
            rest = after;
            proof {
                assert(str_texts(lines@) =~= done.push(without_cr(whole.take(n))));
                assert(done + lines_of(whole) =~= str_texts(lines@) + lines_of(rest@));
            }
        }
    }
    proof {
        if rest@.len() > 0 {
            lemma_offset_rises(rest@, 0, rest@.len() as int);
            assert(rest@.take(rest@.len() as int) =~= rest@);
        }
        assert(str_texts(lines@) + lines_of(rest@) =~= str_texts(lines@));
    }
    lines
}

} // verus!
