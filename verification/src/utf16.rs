//! Offsets between the UTF-16 units that native text input counts and the
//! UTF-8 bytes that the document counts.

use vstd::prelude::*;
use vstd::utf8::*;
use vstd::std_specs::iter::IteratorSpec;

verus! {

broadcast use {char_is_scalar, char_u32_cast, encode_utf8_valid_utf8};

/// The number of UTF-16 units of a character.
pub open spec fn units16(c: char) -> int {
    if (c as u32) >= 0x10000 {
        2
    } else {
        1
    }
}

/// The number of UTF-8 bytes of a character.
pub open spec fn units8(c: char) -> int {
    encode_scalar(c as u32).len() as int
}

/// The byte offset of UTF-16 offset `u` in `cs`: the start of the
/// character that the offset falls in or before, or the end.
pub open spec fn byte_at_units(cs: Seq<char>, u: int) -> int
    decreases cs.len(),
{
    if cs.len() == 0 {
        0
    } else if units16(cs[0]) > u {
        0
    } else {
        units8(cs[0]) + byte_at_units(cs.drop_first(), u - units16(cs[0]))
    }
}

/// The UTF-16 length of the characters of `cs` that end by byte `b`.
pub open spec fn units_before(cs: Seq<char>, b: int) -> int
    decreases cs.len(),
{
    if cs.len() == 0 {
        0
    } else if units8(cs[0]) > b {
        0
    } else {
        units16(cs[0]) + units_before(cs.drop_first(), b - units8(cs[0]))
    }
}

/// The UTF-8 width of a character, as its code point shows it.
fn width8(c: char) -> (r: usize)
    ensures
        r == units8(c),
        1 <= r <= 4,
{
    let v = c as u32;
    if v < 0x80 {
        1
    } else if v < 0x800 {
        2
    } else if v < 0x10000 {
        3
    } else {
        4
    }
}

/// The UTF-16 width of a character.
fn width16(c: char) -> (r: usize)
    ensures
        r == units16(c),
{
    if (c as u32) >= 0x10000 {
        2
    } else {
        1
    }
}

proof fn lemma_encode_add(a: Seq<char>, b: Seq<char>)
    ensures
        encode_utf8(a + b) == encode_utf8(a) + encode_utf8(b),
    decreases a.len(),
{
    if a.len() == 0 {
        assert(a + b == b);
    } else {
        lemma_encode_add(a.drop_first(), b);
        assert((a + b).drop_first() == a.drop_first() + b);
        assert((a + b)[0] == a[0]);
    }
}

/// The bytes of the first `k + 1` characters: those of the first `k` and
/// the next one; all of them fit in the whole text.
proof fn lemma_encode_step(cs: Seq<char>, k: int)
    requires
        0 <= k < cs.len(),
    ensures
        encode_utf8(cs.take(k + 1)).len() == encode_utf8(cs.take(k)).len() + units8(cs[k]),
        encode_utf8(cs.take(k + 1)).len() <= encode_utf8(cs).len(),
        units16(cs[k]) <= units8(cs[k]),
{
    lemma_encode_add(cs.take(k), seq![cs[k]]);
    assert(cs.take(k + 1) == cs.take(k) + seq![cs[k]]);
    assert(seq![cs[k]].drop_first() == Seq::<char>::empty());
    assert(encode_utf8(Seq::<char>::empty()) == Seq::<u8>::empty());
    assert(encode_utf8(seq![cs[k]]) == encode_scalar(cs[k] as u32) + encode_utf8(Seq::<char>::empty()));
    lemma_encode_add(cs.take(k + 1), cs.skip(k + 1));
    assert(cs == cs.take(k + 1) + cs.skip(k + 1));
}

/// The characters of `text`, one by one.
pub fn chars_of(text: &str) -> (r: Vec<char>)
    ensures
        r@ == text@,
{
    broadcast use vstd::string::axiom_spec_iter, vstd::string::next_postcondition;

    let mut it = text.chars();
    let mut r: Vec<char> = Vec::new();
    loop
        invariant
            r@ + it.remaining() == text@,
            it.obeys_prophetic_iter_laws(),
            it.decrease() is Some,
        decreases it.decrease()->0,
    {
        let ghost before = it.remaining();
        match it.next() {
            Some(c) => {
                r.push(c);
                assert(before == seq![c] + it.remaining());
            },
            None => {
                assert(r@ == text@);
                return r;
            },
        }
    }
}

/// The byte offset in `text` of UTF-16 offset `utf16`: the start of the
/// character it falls in, or the end of the text.
pub fn byte_offset(text: &str, utf16: usize) -> (r: usize)
    ensures
        r == byte_at_units(text@, utf16 as int),
{
    let cs = chars_of(text);
    let total = text.as_bytes().len();
    let n = cs.len();
    let mut units: usize = 0;
    let mut bytes: usize = 0;
    let mut k: usize = 0;
    assert(cs@.skip(0) == cs@);
    while k < n
        invariant
            n == cs@.len(),
            cs@ == text@,
            total == encode_utf8(cs@).len(),
            k <= n,
            units <= utf16,
            byte_at_units(cs@, utf16 as int) == bytes + byte_at_units(cs@.skip(k as int), utf16 - units),
            bytes == encode_utf8(cs@.take(k as int)).len(),
        decreases n - k,
    {
        let c = cs[k];
        let w16 = width16(c);
        assert(cs@.skip(k as int)[0] == c);
        assert(cs@.skip(k as int).drop_first() == cs@.skip(k + 1));
        proof {
            lemma_encode_step(cs@, k as int);
        }
        if w16 > utf16 - units {
            return bytes;
        }
        units = units + w16;
        bytes = bytes + width8(c);
        k = k + 1;
    }
    proof {
        assert(cs@.skip(n as int) == Seq::<char>::empty());
    }
    bytes
}

/// The UTF-16 offset of byte offset `byte` of `text`, counting only up to
/// the end of the text. The offset must fall on a character boundary.
pub fn utf16_offset(text: &str, byte: usize) -> (r: usize)
    requires
        is_char_boundary(encode_utf8(text@), if byte < encode_utf8(text@).len() {
            byte as int
        } else {
            encode_utf8(text@).len() as int
        }),
    ensures
        r == units_before(text@, byte as int),
{
    let cs = chars_of(text);
    let n = cs.len();
    let mut units: usize = 0;
    let mut bytes: usize = 0;
    let mut k: usize = 0;
    assert(cs@.skip(0) == cs@);
    while k < n
        invariant
            n == cs@.len(),
            cs@ == text@,
            k <= n,
            bytes <= byte,
            units <= bytes,
            units_before(cs@, byte as int) == units + units_before(cs@.skip(k as int), byte - bytes),
        decreases n - k,
    {
        let c = cs[k];
        let w8 = width8(c);
        assert(cs@.skip(k as int)[0] == c);
        assert(cs@.skip(k as int).drop_first() == cs@.skip(k + 1));
        proof {
            lemma_encode_step(cs@, k as int);
        }
        if w8 > byte - bytes {
            return units;
        }
        bytes = bytes + w8;
        units = units + width16(c);
        k = k + 1;
    }
    proof {
        assert(cs@.skip(n as int) == Seq::<char>::empty());
    }
    units
}


/// The UTF-16 length of a run of characters.
pub open spec fn units16_of(cs: Seq<char>) -> int
    decreases cs.len(),
{
    if cs.len() == 0 {
        0
    } else {
        units16(cs[0]) + units16_of(cs.drop_first())
    }
}

/// At the start of every character, the UTF-16 offset and the byte offset
/// name each other: converting either way and back gives the offset back.
pub proof fn lemma_offsets_round_trip(cs: Seq<char>, k: int)
    requires
        0 <= k <= cs.len(),
    ensures
        byte_at_units(cs, units16_of(cs.take(k))) == encode_utf8(cs.take(k)).len(),
        units_before(cs, encode_utf8(cs.take(k)).len() as int) == units16_of(cs.take(k)),
    decreases k,
{
    if k == 0 {
        assert(cs.take(0) == Seq::<char>::empty());
        if cs.len() > 0 {
            assert(units16(cs[0]) >= 1);
            assert(units8(cs[0]) >= 1);
        }
    } else {
        let rest = cs.drop_first();
        lemma_offsets_round_trip(rest, k - 1);
        assert(cs.take(k).drop_first() == rest.take(k - 1));
        assert(cs.take(k)[0] == cs[0]);
        lemma_units_nonneg(rest.take(k - 1));
    }
}

proof fn lemma_units_nonneg(cs: Seq<char>)
    ensures
        units16_of(cs) >= 0,
        encode_utf8(cs).len() >= 0,
    decreases cs.len(),
{
    if cs.len() > 0 {
        lemma_units_nonneg(cs.drop_first());
    }
}

/// A byte offset found from a UTF-16 offset starts a character of the
/// text, or is its end.
pub proof fn lemma_byte_at_units_boundary(cs: Seq<char>, u: int)
    ensures
        0 <= byte_at_units(cs, u) <= encode_utf8(cs).len(),
        is_char_boundary(encode_utf8(cs), byte_at_units(cs, u)),
    decreases cs.len(),
{
    let bytes = encode_utf8(cs);
    if cs.len() > 0 && units16(cs[0]) <= u {
        let rest = cs.drop_first();
        lemma_byte_at_units_boundary(rest, u - units16(cs[0]));
        encode_utf8_first_scalar(cs);
        assert(bytes == encode_scalar(cs[0] as u32) + encode_utf8(rest));
        assert(pop_first_scalar(bytes) =~= encode_utf8(rest));
        let b = byte_at_units(cs, u);
        if b > 0 {
            assert(length_of_first_scalar(bytes) == units8(cs[0]));
        }
    }
}

} // verus!
