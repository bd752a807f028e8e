use vstd::prelude::*;
use vstd::utf8::*;

verus! {

broadcast use vstd::string::group_string_axioms;

/// Number of UTF-16 code units that encode `c`.
pub open spec fn utf16_units(c: char) -> nat {
    if (c as u32) < 0x10000 {
        1
    } else {
        2
    }
}

/// Number of UTF-16 code units that encode the characters of `s`.
pub open spec fn utf16_len_of(s: Seq<char>) -> nat
    decreases s.len(),
{
    if s.len() == 0 {
        0
    } else {
        utf16_len_of(s.drop_last()) + utf16_units(s.last())
    }
}

/// Number of bytes in the UTF-8 encoding of the characters of `s`.
pub open spec fn utf8_len_of(s: Seq<char>) -> nat {
    encode_utf8(s).len()
}

/// How many leading characters of `s` start strictly before UTF-16 offset `off`.
/// At a legal offset these are exactly the characters that encode to `off` units.
pub open spec fn chars_before(s: Seq<char>, off: int) -> nat
    decreases s.len(),
{
    if s.len() == 0 {
        0
    } else if utf16_len_of(s.drop_last()) < off {
        s.len()
    } else {
        chars_before(s.drop_last(), off)
    }
}

/// The byte offset that UTF-16 offset `off` maps to: the length of the UTF-8
/// encoding of the characters that start before `off`.
pub open spec fn byte_offset_of(s: Seq<char>, off: int) -> nat {
    utf8_len_of(s.take(chars_before(s, off) as int))
}

/// `off` falls between two characters (or at an end) of `s`, never inside a
/// surrogate pair.
pub open spec fn is_utf16_boundary(s: Seq<char>, off: int) -> bool {
    0 <= off <= utf16_len_of(s) && utf16_len_of(s.take(chars_before(s, off) as int)) == off
}

proof fn lemma_encode_concat(a: Seq<char>, b: Seq<char>)
    ensures
        encode_utf8(a + b) == encode_utf8(a) + encode_utf8(b),
    decreases a.len(),
{
    if a.len() == 0 {
        assert(a + b =~= b);
        assert(encode_utf8(a) + encode_utf8(b) =~= encode_utf8(b));
    } else {
        assert((a + b).drop_first() =~= a.drop_first() + b);
        lemma_encode_concat(a.drop_first(), b);
        assert(encode_utf8(a + b) =~= encode_utf8(a) + encode_utf8(b));
    }
}

proof fn lemma_boundary(a: Seq<char>, b: Seq<char>)
    ensures
        is_char_boundary(encode_utf8(a + b), encode_utf8(a).len() as int),
    decreases a.len(),
{
    let bytes = encode_utf8(a + b);
    encode_utf8_valid_utf8(a + b);
    if a.len() == 0 {
    } else {
        lemma_encode_concat(a, b);
        encode_utf8_first_scalar(a + b);
        assert((a + b).drop_first() =~= a.drop_first() + b);
        assert(pop_first_scalar(bytes) =~= encode_utf8(a.drop_first() + b));
        lemma_encode_concat(a.drop_first(), b);
        lemma_boundary(a.drop_first(), b);
        encode_utf8_valid_utf8(a.drop_first() + b);
    }
}

proof fn lemma_scalar_len(c: char)
    ensures
        encode_scalar(c as u32).len() == (if (c as u32) < 0x80 {
            1int
        } else if (c as u32) < 0x800 {
            2
        } else if (c as u32) < 0x10000 {
            3
        } else {
            4
        }),
        encode_scalar(c as u32).len() >= utf16_units(c),
{
    char_is_scalar(c);
}

proof fn lemma_utf8_push(s: Seq<char>, c: char)
    ensures
        utf8_len_of(s.push(c)) == utf8_len_of(s) + encode_scalar(c as u32).len(),
{
    lemma_encode_concat(s, seq![c]);
    assert(s.push(c) =~= s + seq![c]);
    assert(seq![c].drop_first() =~= Seq::<char>::empty());
    assert(encode_utf8(Seq::<char>::empty()) =~= Seq::<u8>::empty());
    assert(encode_utf8(seq![c]) =~= encode_scalar(c as u32));
}

proof fn lemma_utf16_le_utf8(s: Seq<char>)
    ensures
        utf16_len_of(s) <= utf8_len_of(s),
    decreases s.len(),
{
    if s.len() > 0 {
        lemma_utf16_le_utf8(s.drop_last());
        lemma_utf8_push(s.drop_last(), s.last());
        lemma_scalar_len(s.last());
        assert(s.drop_last().push(s.last()) =~= s);
    }
}

proof fn lemma_utf16_take_step(s: Seq<char>, i: int)
    requires
        0 <= i < s.len(),
    ensures
        utf16_len_of(s.take(i + 1)) == utf16_len_of(s.take(i)) + utf16_units(s[i]),
{
    assert(s.take(i + 1).drop_last() =~= s.take(i));
}

proof fn lemma_utf16_take_mono(s: Seq<char>, j: int, k: int)
    requires
        0 <= j <= k <= s.len(),
    ensures
        utf16_len_of(s.take(j)) + (k - j) <= utf16_len_of(s.take(k)),
    decreases k - j,
{
    if j < k {
        lemma_utf16_take_mono(s, j, k - 1);
        lemma_utf16_take_step(s, k - 1);
    }
}

proof fn lemma_chars_before_is(s: Seq<char>, off: int, i: int)
    requires
        0 <= i <= s.len(),
        i == s.len() || utf16_len_of(s.take(i)) >= off,
        forall|j: int| 0 <= j < i ==> utf16_len_of(#[trigger] s.take(j)) < off,
    ensures
        chars_before(s, off) == i,
    decreases s.len(),
{
    if s.len() > 0 {
        let n = s.len() as int;
        assert(s.take(n - 1) =~= s.drop_last());
        if i == n {
            assert(utf16_len_of(s.take(n - 1)) < off);
        } else {
            lemma_utf16_take_mono(s, i, n - 1);
            let t = s.drop_last();
            assert forall|j: int| 0 <= j < i implies utf16_len_of(#[trigger] t.take(j)) < off by {
                assert(t.take(j) =~= s.take(j));
                assert(utf16_len_of(s.take(j)) < off);
            }
            assert(t.take(i) =~= s.take(i));
            lemma_chars_before_is(t, off, i);
        }
    } else {
        assert(i == 0);
    }
}

proof fn lemma_take_full(s: Seq<char>)
    ensures
        s.take(s.len() as int) == s,
{
    assert(s.take(s.len() as int) =~= s);
}

proof fn lemma_chars_before_props(s: Seq<char>, off: int)
    ensures
        chars_before(s, off) <= s.len(),
        chars_before(s, off) == s.len() || utf16_len_of(s.take(chars_before(s, off) as int))
            >= off,
        forall|j: int|
            0 <= j < chars_before(s, off) ==> utf16_len_of(#[trigger] s.take(j)) < off,
    decreases s.len(),
{
    if s.len() > 0 {
        let n = s.len() as int;
        let t = s.drop_last();
        assert(s.take(n - 1) =~= t);
        if utf16_len_of(t) < off {
            assert forall|j: int| 0 <= j < n implies utf16_len_of(#[trigger] s.take(j)) < off by {
                lemma_utf16_take_mono(s, j, n - 1);
            }
        } else {
            lemma_chars_before_props(t, off);
            let k = chars_before(t, off) as int;
            assert(t.take(k) =~= s.take(k));
            assert forall|j: int| 0 <= j < k implies utf16_len_of(#[trigger] s.take(j)) < off by {
                assert(t.take(j) =~= s.take(j));
            }
        }
    }
}

/// Characters that start before `off` in `s` are the same in any longer prefix of `s`.
pub proof fn lemma_chars_before_prefix(s: Seq<char>, off: int, b: int)
    requires
        chars_before(s, off) <= b <= s.len(),
    ensures
        chars_before(s.take(b), off) == chars_before(s, off),
{
    let a = chars_before(s, off) as int;
    let u = s.take(b);
    lemma_chars_before_props(s, off);
    assert forall|j: int| 0 <= j < a implies utf16_len_of(#[trigger] u.take(j)) < off by {
        assert(u.take(j) =~= s.take(j));
        assert(utf16_len_of(s.take(j)) < off);
    }
    assert(u.take(a) =~= s.take(a));
    lemma_chars_before_is(u, off, a);
}

/// The characters that start before a UTF-16 offset never encode to more units than
/// the offset, unless the offset is past the end.
pub proof fn lemma_chars_before_mono(s: Seq<char>, x: int, y: int)
    requires
        x <= y,
    ensures
        chars_before(s, x) <= chars_before(s, y),
    decreases s.len(),
{
    if s.len() > 0 {
        lemma_chars_before_mono(s.drop_last(), x, y);
    }
}

/// The prefix up to a legal UTF-16 offset.
pub proof fn lemma_boundary_prefix(s: Seq<char>, off: int)
    requires
        is_utf16_boundary(s, off),
    ensures
        utf16_len_of(s.take(chars_before(s, off) as int)) == off,
        chars_before(s, off) <= s.len(),
{
    lemma_chars_before_props(s, off);
}

/// UTF-16 length adds up over concatenation.
pub proof fn lemma_utf16_concat(a: Seq<char>, b: Seq<char>)
    ensures
        utf16_len_of(a + b) == utf16_len_of(a) + utf16_len_of(b),
    decreases b.len(),
{
    if b.len() == 0 {
        assert(a + b =~= a);
    } else {
        assert((a + b).drop_last() =~= a + b.drop_last());
        lemma_utf16_concat(a, b.drop_last());
    }
}

/// Every character takes at least one UTF-16 unit.
pub proof fn lemma_utf16_len_ge(s: Seq<char>)
    ensures
        utf16_len_of(s) >= s.len(),
{
    lemma_utf16_take_mono(s, 0, s.len() as int);
    lemma_take_full(s);
}

/// Counting characters from a legal split point `x` on: the characters of the rest
/// that start before `y - x` are those of the whole text that start before `y`,
/// less the ones before `x`.
pub proof fn lemma_chars_before_skip(t: Seq<char>, x: int, y: int)
    requires
        is_utf16_boundary(t, x),
        x <= y,
    ensures
        chars_before(t, x) <= chars_before(t, y),
        chars_before(t.skip(chars_before(t, x) as int), y - x) == chars_before(t, y) - chars_before(
            t,
            x,
        ),
{
    let k = chars_before(t, x) as int;
    let c = chars_before(t, y) as int;
    let u = t.skip(k);
    lemma_chars_before_mono(t, x, y);
    lemma_chars_before_props(t, y);
    lemma_boundary_prefix(t, x);
    assert forall|j: int| 0 <= j < c - k implies utf16_len_of(#[trigger] u.take(j)) < y - x by {
        assert(t.take(k) + u.take(j) =~= t.take(k + j));
        lemma_utf16_concat(t.take(k), u.take(j));
        assert(utf16_len_of(t.take(k + j)) < y);
    }
    if c < t.len() {
        assert(t.take(k) + u.take(c - k) =~= t.take(c));
        lemma_utf16_concat(t.take(k), u.take(c - k));
    }
    lemma_chars_before_is(u, y - x, c - k);
}

/// A legal split point of a text, seen from inside a piece `t[k1..k2]` that starts at
/// the legal point `o` and covers it, is a legal split point of the piece, and the
/// characters before it are counted alike.
pub proof fn lemma_boundary_in_piece(t: Seq<char>, o: int, z: int, y: int)
    requires
        is_utf16_boundary(t, o),
        is_utf16_boundary(t, z),
        is_utf16_boundary(t, y),
        o <= y <= z,
    ensures
        ({
            let k1 = chars_before(t, o) as int;
            let k2 = chars_before(t, z) as int;
            let piece = t.subrange(k1, k2);
            &&& k1 <= chars_before(t, y) <= k2 <= t.len()
            &&& chars_before(piece, y - o) == chars_before(t, y) - k1
            &&& is_utf16_boundary(piece, y - o)
            &&& utf16_len_of(piece) == z - o
        }),
{
    let k1 = chars_before(t, o) as int;
    let k2 = chars_before(t, z) as int;
    let c = chars_before(t, y) as int;
    lemma_chars_before_skip(t, o, y);
    lemma_chars_before_mono(t, y, z);
    lemma_boundary_prefix(t, o);
    lemma_boundary_prefix(t, y);
    lemma_boundary_prefix(t, z);
    let u = t.skip(k1);
    let piece = t.subrange(k1, k2);
    assert(piece =~= u.take(k2 - k1));
    lemma_chars_before_prefix(u, y - o, k2 - k1);
    assert(piece.take(c - k1) =~= t.subrange(k1, c));
    assert(t.take(k1) + t.subrange(k1, c) =~= t.take(c));
    lemma_utf16_concat(t.take(k1), t.subrange(k1, c));
    assert(t.take(k1) + piece =~= t.take(k2));
    lemma_utf16_concat(t.take(k1), piece);
}

/// The start of a text is a legal split point.
pub proof fn lemma_boundary_start(s: Seq<char>)
    ensures
        is_utf16_boundary(s, 0),
        chars_before(s, 0) == 0,
{
    lemma_chars_before_is(s, 0, 0);
    assert(s.take(0) =~= Seq::<char>::empty());
}

/// The end of a text is a legal split point.
pub proof fn lemma_boundary_end(s: Seq<char>)
    ensures
        is_utf16_boundary(s, utf16_len_of(s) as int),
{
    let n = utf16_len_of(s) as int;
    assert forall|j: int| 0 <= j < s.len() implies utf16_len_of(#[trigger] s.take(j)) < n by {
        lemma_utf16_take_mono(s, j, s.len() as int);
        lemma_take_full(s);
    }
    lemma_take_full(s);
    lemma_chars_before_is(s, n, s.len() as int);
}

/// All characters start before the end of the text.
pub proof fn lemma_chars_before_end(s: Seq<char>)
    ensures
        chars_before(s, utf16_len_of(s) as int) == s.len(),
{
    lemma_boundary_end(s);
    lemma_chars_before_props(s, utf16_len_of(s) as int);
    if chars_before(s, utf16_len_of(s) as int) < s.len() {
        let k = chars_before(s, utf16_len_of(s) as int) as int;
        lemma_utf16_take_mono(s, k, s.len() as int);
        lemma_take_full(s);
    }
}

/// The number of UTF-16 code units needed to encode `content`.
pub fn utf16_len(content: &str) -> (r: usize)
    ensures
        r == utf16_len_of(content@),
{
    let (_, units) = locate_utf16_offset(content, usize::MAX);
    proof {
        let s = content@;
        assert forall|j: int| 0 <= j < s.len() implies utf16_len_of(
            #[trigger] s.take(j),
        ) < usize::MAX by {
            lemma_utf16_take_mono(s, j, s.len() as int);
        }
        lemma_take_full(s);
        lemma_chars_before_is(s, usize::MAX as int, s.len() as int);
    }
    units
}

/// The byte offset of UTF-16 offset `utf16_offset` in `content`: the UTF-8 length of
/// the characters that start before it. An offset inside a surrogate pair moves on
/// to the end of that character.
pub fn utf16_to_byte_offset(content: &str, utf16_offset: usize) -> (r: usize)
    requires
        utf16_offset <= utf16_len_of(content@),
    ensures
        r == byte_offset_of(content@, utf16_offset as int),
{
    let (b, _) = locate_utf16_offset(content, utf16_offset);
    b
}

/// Whether `off` is a legal split point of `content`: not inside a surrogate pair,
/// and not past the end.
pub fn utf16_boundary(content: &str, off: usize) -> (r: bool)
    ensures
        r == is_utf16_boundary(content@, off as int),
{
    let (_, u) = locate_utf16_offset(content, off);
    proof {
        let s = content@;
        lemma_chars_before_props(s, off as int);
        lemma_utf16_take_mono(s, chars_before(s, off as int) as int, s.len() as int);
        lemma_take_full(s);
    }
    u == off
}

/// Splits `content` at a legal UTF-16 offset.
pub fn split_at_utf16_offset<'a>(content: &'a str, u16_len: usize) -> (r: (&'a str, &'a str))
    requires
        is_utf16_boundary(content@, u16_len as int),
    ensures
        r.0@ == content@.take(chars_before(content@, u16_len as int) as int),
        r.1@ == content@.skip(chars_before(content@, u16_len as int) as int),
        utf16_len_of(r.0@) == u16_len,
{
    let prefix_len = utf16_to_byte_offset(content, u16_len);
    let ghost s = content@;
    let ghost k = chars_before(s, u16_len as int) as int;
    proof {
        lemma_boundary_prefix(s, u16_len as int);
        assert(s.take(k) + s.skip(k) =~= s);
        lemma_encode_concat(s.take(k), s.skip(k));
        lemma_boundary(s.take(k), s.skip(k));
        encode_utf8_valid_utf8(s);
    }
    let (p, r) = content.split_at(prefix_len);
    proof {
        assert(encode_utf8(p@) =~= encode_utf8(s.take(k)));
        assert(encode_utf8(r@) =~= encode_utf8(s.skip(k)));
        encode_utf8_decode_utf8(p@);
        encode_utf8_decode_utf8(s.take(k));
        encode_utf8_decode_utf8(r@);
        encode_utf8_decode_utf8(s.skip(k));
    }
    (p, r)
}

/// Walks `content` up to the first character that starts at or after UTF-16 offset
/// `off`, and returns the byte offset and the UTF-16 offset of that position.
fn locate_utf16_offset(content: &str, off: usize) -> (r: (usize, usize))
    ensures
        r.0 == byte_offset_of(content@, off as int),
        r.1 == utf16_len_of(content@.take(chars_before(content@, off as int) as int)),
        off <= utf16_len_of(content@) ==> r.1 >= off,
        utf16_len_of(content@) <= usize::MAX,
{
    let ghost s = content@;
    let bytes_total = content.as_bytes().len();
    proof {
        lemma_take_full(s);
        lemma_utf16_le_utf8(s);
    }
    let mut units: usize = 0;
    let mut bytes: usize = 0;
    let ghost mut i: int = 0;
    for c in it: content.chars()
        invariant
            it.seq() == s,
            s == content@,
            utf16_len_of(s) <= utf8_len_of(s),
            i == it.index(),
            0 <= i <= s.len(),
            bytes_total == utf8_len_of(s),
            units == utf16_len_of(s.take(i)),
            bytes == utf8_len_of(s.take(i)),
            forall|j: int| 0 <= j < i ==> utf16_len_of(#[trigger] s.take(j)) < off,
    {
        if units >= off {
            proof {
                lemma_chars_before_is(s, off as int, i);
            }
            return (bytes, units);
        }
        proof {
            lemma_scalar_len(c);
            lemma_utf16_take_step(s, i);
            lemma_utf8_push(s.take(i), c);
            assert(s.take(i).push(c) =~= s.take(i + 1));
            lemma_utf16_take_mono(s, i + 1, s.len() as int);
            lemma_take_full(s);
            lemma_encode_concat(s.take(i + 1), s.skip(i + 1));
            assert(s.take(i + 1) + s.skip(i + 1) =~= s);
        }
        let cu: u32 = c as u32;
        let b: usize = if cu < 0x80 {
            1
        } else if cu < 0x800 {
            2
        } else if cu < 0x10000 {
            3
        } else {
            4
        };
        let u: usize = if cu < 0x10000 {
            1
        } else {
            2
        };
        units = units + u;
        bytes = bytes + b;
        proof {
            i = i + 1;
        }
    }
    proof {
        lemma_chars_before_is(s, off as int, i);
    }
    (bytes, units)
}

} // verus!
