//! Text as characters and as UTF-8 bytes.
//!
//! A string is seen as its sequence of characters. Positions that leave this
//! library — the ends of a match — are byte offsets into the UTF-8 form of the
//! string, so this module relates the two.

use vstd::prelude::*;
use vstd::utf8::*;

verus! {

/// The texts that a sequence of strings holds.
pub open spec fn texts(strings: Seq<String>) -> Seq<Seq<char>> {
    strings.map_values(|s: String| s@)
}

/// The texts that a sequence of string slices holds.
pub open spec fn str_texts(parts: Seq<&str>) -> Seq<Seq<char>> {
    parts.map_values(|s: &str| s@)
}

/// The number of bytes that a text takes in UTF-8.
pub open spec fn byte_len(s: Seq<char>) -> nat {
    encode_utf8(s).len()
}

/// The byte offset at which the character with index `i` starts; for
/// `i == s.len()`, the offset of the end.
pub open spec fn offset(s: Seq<char>, i: int) -> nat {
    byte_len(s.take(i))
}

/// The text that lies between two byte offsets of `s`.
pub open spec fn slice(s: Seq<char>, from: int, to: int) -> Seq<char> {
    decode_utf8(encode_utf8(s).subrange(from, to))
}

/// Whether `from` and `to` cut a piece out of `s` without splitting a
/// character.
pub open spec fn cuts(s: Seq<char>, from: int, to: int) -> bool {
    &&& 0 <= from <= to <= byte_len(s)
    &&& is_char_boundary(encode_utf8(s), from)
    &&& is_char_boundary(encode_utf8(s), to)
}

/// Whether `needle` stands in `hay` from index `i` on.
pub open spec fn occurs_at<T>(hay: Seq<T>, needle: Seq<T>, i: int) -> bool {
    &&& 0 <= i
    &&& i + needle.len() <= hay.len()
    &&& hay.subrange(i, i + needle.len()) == needle
}

/// Whether `needle` stands somewhere in `hay`.
pub open spec fn occurs<T>(hay: Seq<T>, needle: Seq<T>) -> bool {
    exists|i: int| occurs_at(hay, needle, i)
}

/// Whether `i` is the first index from which `needle` stands in `hay`.
pub open spec fn is_first<T>(hay: Seq<T>, needle: Seq<T>, i: int) -> bool {
    &&& occurs_at(hay, needle, i)
    &&& forall|j: int| 0 <= j < i ==> !occurs_at(hay, needle, j)
}

/// The first index from which `needle` stands in `hay`, where it occurs at
/// all.
pub open spec fn first_index<T>(hay: Seq<T>, needle: Seq<T>) -> int {
    choose|i: int| is_first(hay, needle, i)
}

/// A needle that occurs has a first place, and only one.
pub proof fn lemma_first_index<T>(hay: Seq<T>, needle: Seq<T>)
    requires
        occurs(hay, needle),
    ensures
        is_first(hay, needle, first_index(hay, needle)),
        forall|i: int| is_first(hay, needle, i) ==> i == first_index(hay, needle),
{
    let some = choose|i: int| occurs_at(hay, needle, i);
    lemma_least_place(hay, needle, some);
}

proof fn lemma_least_place<T>(hay: Seq<T>, needle: Seq<T>, bound: int)
    requires
        occurs_at(hay, needle, bound),
    ensures
        exists|i: int| is_first(hay, needle, i),
    decreases bound,
{
    if exists|j: int| 0 <= j < bound && occurs_at(hay, needle, j) {
        let j = choose|j: int| 0 <= j < bound && occurs_at(hay, needle, j);
        lemma_least_place(hay, needle, j);
    } else {
        assert(is_first(hay, needle, bound));
    }
}

/// The UTF-8 form of two texts in a row is the two forms in a row.
pub proof fn lemma_encode_concat(a: Seq<char>, b: Seq<char>)
    ensures
        encode_utf8(a + b) == encode_utf8(a) + encode_utf8(b),
    decreases a.len(),
{
    if a.len() == 0 {
        assert(a + b =~= b);
        assert(encode_utf8(a) + encode_utf8(b) =~= encode_utf8(b));
    } else {
        assert((a + b).drop_first() =~= a.drop_first() + b);
        lemma_encode_concat(a.drop_first(), b);
        assert(encode_utf8(a + b) =~= encode_utf8(a) + encode_utf8(b));
    }
}

/// The bytes of a text fall into those of its first `i` characters, those of
/// the characters from `i` to `j`, and those of the rest.
pub proof fn lemma_encode_parts(s: Seq<char>, i: int, j: int)
    requires
        0 <= i <= j <= s.len(),
    ensures
        offset(s, i) <= offset(s, j) <= byte_len(s),
        offset(s, j) == offset(s, i) + byte_len(s.subrange(i, j)),
        encode_utf8(s).subrange(0, offset(s, i) as int) == encode_utf8(s.take(i)),
        encode_utf8(s).subrange(offset(s, i) as int, offset(s, j) as int) == encode_utf8(
            s.subrange(i, j),
        ),
        encode_utf8(s).subrange(offset(s, j) as int, byte_len(s) as int) == encode_utf8(s.skip(j)),
{
    let head = s.take(i);
    let mid = s.subrange(i, j);
    let tail = s.skip(j);
    assert(s.take(j) =~= head + mid);
    assert(s =~= s.take(j) + tail);
    lemma_encode_concat(head, mid);
    lemma_encode_concat(s.take(j), tail);
    let bytes = encode_utf8(s);
    assert(bytes.subrange(0, offset(s, i) as int) =~= encode_utf8(head));
    assert(bytes.subrange(offset(s, i) as int, offset(s, j) as int) =~= encode_utf8(mid));
    assert(bytes.subrange(offset(s, j) as int, byte_len(s) as int) =~= encode_utf8(tail));
}

/// The first byte of a text in UTF-8 is no continuation byte.
pub proof fn lemma_starts_with_leading_byte(s: Seq<char>)
    requires
        s.len() > 0,
    ensures
        byte_len(s) > 0,
        !is_continuation_byte(encode_utf8(s)[0]),
{
    encode_utf8_first_scalar(s);
}

/// Every character starts on a character boundary of the UTF-8 form, and the
/// text ends on one.
pub proof fn lemma_offset_is_boundary(s: Seq<char>, i: int)
    requires
        0 <= i <= s.len(),
    ensures
        offset(s, i) <= byte_len(s),
        is_char_boundary(encode_utf8(s), offset(s, i) as int),
{
    let bytes = encode_utf8(s);
    encode_utf8_valid_utf8(s);
    lemma_encode_parts(s, i, s.len() as int);
    assert(s.take(s.len() as int) =~= s);
    if i == s.len() {
        is_char_boundary_start_end_of_seq(bytes);
    } else {
        let rest = s.skip(i);
        lemma_starts_with_leading_byte(rest);
        assert(bytes[offset(s, i) as int] == encode_utf8(rest)[0]) by {
            assert(encode_utf8(rest) == bytes.subrange(offset(s, i) as int, byte_len(s) as int));
        }
        is_char_boundary_iff_not_is_continuation_byte(bytes, offset(s, i) as int);
    }
}

/// Between the offsets of two characters lies the text between the two.
pub proof fn lemma_slice_between(s: Seq<char>, i: int, j: int)
    requires
        0 <= i <= j <= s.len(),
    ensures
        cuts(s, offset(s, i) as int, offset(s, j) as int),
        slice(s, offset(s, i) as int, offset(s, j) as int) == s.subrange(i, j),
{
    lemma_encode_parts(s, i, j);
    lemma_offset_is_boundary(s, i);
    lemma_offset_is_boundary(s, j);
    encode_utf8_decode_utf8(s.subrange(i, j));
}

/// A text whose UTF-8 form begins with the UTF-8 form of `q` begins with `q`.
pub proof fn lemma_prefix_of_bytes(q: Seq<char>, m: Seq<char>)
    requires
        byte_len(q) <= byte_len(m),
        encode_utf8(m).subrange(0, byte_len(q) as int) == encode_utf8(q),
    ensures
        q.len() <= m.len(),
        m.take(q.len() as int) == q,
    decreases q.len(),
{
    if q.len() == 0 {
        assert(m.take(0) =~= q);
    } else {
        let qb = encode_utf8(q);
        let mb = encode_utf8(m);
        encode_utf8_first_scalar(q);
        assert(m.len() > 0);
        encode_utf8_first_scalar(m);
        let w = length_of_first_scalar(qb);
        assert forall|k: int| 0 <= k < qb.len() implies mb[k] == qb[k] by {
            assert(mb.subrange(0, qb.len() as int)[k] == mb[k]);
        }
        assert(decode_first_scalar(mb) == decode_first_scalar(qb));
        char_u32_cast(m[0], m[0] as u32);
        char_u32_cast(q[0], q[0] as u32);
        assert(m[0] == q[0]);
        let q1 = q.drop_first();
        let m1 = m.drop_first();
        assert(encode_utf8(q1) =~= qb.subrange(w, qb.len() as int));
        assert(encode_utf8(m1) =~= mb.subrange(w, mb.len() as int));
        assert(encode_utf8(m1).subrange(0, byte_len(q1) as int) =~= encode_utf8(q1));
        lemma_prefix_of_bytes(q1, m1);
        assert(m.take(q.len() as int) =~= q) by {
            assert(m1.take(q1.len() as int) == q1);
            assert forall|k: int| 0 <= k < q.len() implies m[k] == q[k] by {
                if k > 0 {
                    assert(m1.take(q1.len() as int)[k - 1] == q1[k - 1]);
                }
            }
        }
    }
}

/// Every character boundary of the UTF-8 form is the offset of a character,
/// or of the end.
pub proof fn lemma_boundary_is_offset(s: Seq<char>, k: int)
    requires
        0 <= k <= byte_len(s),
        is_char_boundary(encode_utf8(s), k),
    ensures
        exists|i: int| 0 <= i <= s.len() && offset(s, i) == k,
    decreases s.len(),
{
    if k == 0 {
        assert(s.take(0) =~= Seq::<char>::empty());
        assert(offset(s, 0) == 0);
    } else {
        let bytes = encode_utf8(s);
        encode_utf8_valid_utf8(s);
        encode_utf8_first_scalar(s);
        let w = length_of_first_scalar(bytes);
        let rest = s.drop_first();
        assert(pop_first_scalar(bytes) =~= encode_utf8(rest));
        assert(is_char_boundary(encode_utf8(rest), k - w));
        encode_utf8_valid_utf8(rest);
        lemma_boundary_is_offset(rest, k - w);
        let i = choose|i: int| 0 <= i <= rest.len() && offset(rest, i) == k - w;
        assert(s.take(i + 1) =~= seq![s[0]] + rest.take(i));
        lemma_encode_concat(seq![s[0]], rest.take(i));
        assert(encode_utf8(seq![s[0]]) =~= encode_scalar(s[0] as u32)) by {
            reveal_with_fuel(encode_utf8, 2);
        }
        assert(offset(s, i + 1) == k);
    }
}

/// A text stands in another exactly if its UTF-8 form stands in the UTF-8
/// form of the other: no match of the bytes begins or ends inside a
/// character.
pub proof fn lemma_occurs_in_bytes(hay: Seq<char>, needle: Seq<char>)
    ensures
        occurs(hay, needle) <==> occurs(encode_utf8(hay), encode_utf8(needle)),
{
    let hb = encode_utf8(hay);
    let nb = encode_utf8(needle);
    if occurs(hay, needle) {
        let i = choose|i: int| occurs_at(hay, needle, i);
        lemma_encode_parts(hay, i, i + needle.len());
        assert(occurs_at(hb, nb, offset(hay, i) as int));
    }
    if occurs(hb, nb) {
        let k = choose|k: int| occurs_at(hb, nb, k);
        if needle.len() == 0 {
            assert(hay.subrange(0, 0) =~= needle);
            assert(occurs_at(hay, needle, 0));
        } else {
            encode_utf8_valid_utf8(hay);
            lemma_starts_with_leading_byte(needle);
            assert(hb[k] == nb[0]) by {
                assert(hb.subrange(k, k + nb.len())[0] == hb[k]);
            }
            is_char_boundary_iff_not_is_continuation_byte(hb, k);
            lemma_boundary_is_offset(hay, k);
            let i = choose|i: int| 0 <= i <= hay.len() && offset(hay, i) == k;
            lemma_encode_parts(hay, i, i);
            let rest = hay.skip(i);
            assert(encode_utf8(rest).subrange(0, nb.len() as int) =~= hb.subrange(
                k,
                k + nb.len(),
            ));
            lemma_prefix_of_bytes(needle, rest);
            assert(hay.subrange(i, i + needle.len()) =~= rest.take(needle.len() as int));
            assert(occurs_at(hay, needle, i));
        }
    }
}

/// A text has no more characters than bytes.
pub proof fn lemma_chars_within_bytes(s: Seq<char>)
    ensures
        s.len() <= byte_len(s),
    decreases s.len(),
{
    if s.len() > 0 {
        encode_utf8_first_scalar(s);
        lemma_chars_within_bytes(s.drop_first());
    }
}

/// A later character starts at a later byte.
pub proof fn lemma_offset_rises(s: Seq<char>, i: int, j: int)
    requires
        0 <= i < j <= s.len(),
    ensures
        offset(s, i) < offset(s, j),
{
    lemma_encode_parts(s, i, j);
    lemma_starts_with_leading_byte(s.subrange(i, j));
}

/// A character below 128 takes one byte, which holds its number.
pub proof fn lemma_ascii_char_at(s: Seq<char>, i: int)
    requires
        0 <= i < s.len(),
        (s[i] as u32) < 0x80,
    ensures
        offset(s, i) < byte_len(s),
        offset(s, i + 1) == offset(s, i) + 1,
        encode_utf8(s)[offset(s, i) as int] as u32 == s[i] as u32,
{
    let c = s[i];
    let v = c as u32;
    lemma_encode_parts(s, i, i + 1);
    assert(s.subrange(i, i + 1) =~= seq![c]);
    lemma_encode_single(c);
    assert((v & 0x7F) as u8 as u32 == v) by (bit_vector)
        requires
            v < 0x80,
    ;
    let piece = encode_utf8(s).subrange(offset(s, i) as int, offset(s, i + 1) as int);
    assert(piece == encode_scalar(v));
    assert(piece.len() == 1);
    assert(piece[0] == encode_utf8(s)[offset(s, i) as int]);
}

/// A byte below 128 is a character of its own, whose number it holds.
pub proof fn lemma_ascii_byte_at(s: Seq<char>, k: int)
    requires
        0 <= k < byte_len(s),
        encode_utf8(s)[k] < 0x80,
    ensures
        exists|i: int|
            0 <= i < s.len() && offset(s, i) == k && s[i] as u32 == encode_utf8(s)[k] as u32,
{
    let bytes = encode_utf8(s);
    let b = bytes[k];
    encode_utf8_valid_utf8(s);
    is_char_boundary_iff_not_is_continuation_byte(bytes, k);
    lemma_boundary_is_offset(s, k);
    let i = choose|i: int| 0 <= i <= s.len() && offset(s, i) == k;
    assert(s.take(s.len() as int) =~= s);
    assert(i < s.len());
    lemma_encode_parts(s, i, i);
    let rest = s.skip(i);
    encode_utf8_first_scalar(rest);
    assert(encode_utf8(rest)[0] == b) by {
        assert(bytes.subrange(k, byte_len(s) as int)[0] == bytes[k]);
    }
    assert((b & 0x7F) as u32 == b as u32) by (bit_vector)
        requires
            b < 0x80,
    ;
    assert(rest[0] == s[i]);
}

/// A boundary of a text is also one of the part of the text that begins at an
/// earlier boundary.
pub proof fn lemma_cut_again(bytes: Seq<u8>, from: int, to: int)
    requires
        valid_utf8(bytes),
        0 <= from <= to <= bytes.len(),
        is_char_boundary(bytes, from),
        is_char_boundary(bytes, to),
    ensures
        valid_utf8(bytes.subrange(from, bytes.len() as int)),
        is_char_boundary(bytes.subrange(from, bytes.len() as int), to - from),
{
    let rest = bytes.subrange(from, bytes.len() as int);
    valid_utf8_split(bytes, from);
    if to == bytes.len() {
        is_char_boundary_start_end_of_seq(rest);
    } else {
        is_char_boundary_iff_not_is_continuation_byte(bytes, to);
        assert(rest[to - from] == bytes[to]);
        is_char_boundary_iff_not_is_continuation_byte(rest, to - from);
    }
}

/// The UTF-8 form of a single character.
pub proof fn lemma_encode_single(c: char)
    ensures
        encode_utf8(seq![c]) == encode_scalar(c as u32),
        1 <= byte_len(seq![c]) <= 4,
{
    reveal_with_fuel(encode_utf8, 2);
    assert(encode_utf8(seq![c]) =~= encode_scalar(c as u32));
}

/// The number of bytes that a character takes in UTF-8.
pub fn char_width(c: char) -> (w: usize)
    ensures
        w == byte_len(seq![c]),
        1 <= w <= 4,
{
    proof {
        lemma_encode_single(c);
        char_is_scalar(c);
    }
    let v = c as u32;
    if v < 0x80 {
        1
    } else if v < 0x800 {
        2
    } else if v < 0x10000 {
        3
    } else {
        4
    }
}

/// The number of bytes that the characters from `from` up to `to` take in
/// UTF-8.
pub fn width_between(chars: &[char], from: usize, to: usize) -> (w: usize)
    requires
        from <= to <= chars@.len(),
        byte_len(chars@) <= usize::MAX,
    ensures
        w == byte_len(chars@.subrange(from as int, to as int)),
        w == offset(chars@, to as int) - offset(chars@, from as int),
{
    let mut w: usize = 0;
    let mut k: usize = from;
    assert(chars@.subrange(from as int, from as int) =~= Seq::<char>::empty());
    while k < to
        invariant
            from <= k <= to <= chars@.len(),
            byte_len(chars@) <= usize::MAX,
            w == byte_len(chars@.subrange(from as int, k as int)),
        decreases to - k,
    {
        let step = char_width(chars[k]);
        proof {
            let done = chars@.subrange(from as int, k as int);
            assert(chars@.subrange(from as int, k + 1) =~= done + seq![chars@[k as int]]);
            lemma_encode_concat(done, seq![chars@[k as int]]);
            lemma_encode_parts(chars@, from as int, k + 1);
        }
        w += step;
        k += 1;
    }
    proof {
        lemma_encode_parts(chars@, from as int, to as int);
    }
    w
}

/// Whether two strings hold the same text.
pub fn same_text(a: &str, b: &str) -> (r: bool)
    ensures
        r == (a@ == b@),
{
    let x = a.as_bytes();
    let y = b.as_bytes();
    proof {
        encode_utf8_decode_utf8(a@);
        encode_utf8_decode_utf8(b@);
    }
    if x.len() != y.len() {
        return false;
    }
    let mut i: usize = 0;
    while i < x.len()
        invariant
            i <= x.len(),
            x.len() == y.len(),
            x@ == encode_utf8(a@),
            y@ == encode_utf8(b@),
            forall|j: int| 0 <= j < i ==> x@[j] == y@[j],
        decreases x.len() - i,
    {
        if x[i] != y[i] {
            return false;
        }
        i += 1;
    }
    assert(x@ =~= y@);
    true
}

/// The characters of a string, in order.
pub fn chars_of(s: &str) -> (r: Vec<char>)
    ensures
        r@ == s@,
{
    let mut out: Vec<char> = Vec::new();
    for c in it: s.chars()
        invariant
            out@ == it.seq().take(it.index()),
    {
        out.push(c);
    }
    out
}

} // verus!
