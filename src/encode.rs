use vstd::prelude::*;
use vstd::utf8::encode_utf8;
use vstd::std_specs::iter::IteratorSpec;

verus! {

broadcast use vstd::string::group_string_axioms;

/// The four big-endian bytes of `x`.
pub open spec fn be32(x: u32) -> Seq<u8> {
    seq![(x >> 24u32) as u8, (x >> 16u32) as u8, (x >> 8u32) as u8, x as u8]
}

/// A tagged, length-prefixed field: tag byte, big-endian length, payload.
pub open spec fn field(tag: u8, payload: Seq<u8>) -> Seq<u8> {
    seq![tag] + be32(payload.len() as u32) + payload
}

/// The UTF-16 big-endian bytes of one character.
pub open spec fn utf16_char_be(c: char) -> Seq<u8> {
    let v = c as u32;
    if v < 0x10000 {
        seq![(v >> 8u32) as u8, v as u8]
    } else {
        let w = (v - 0x10000) as u32;
        let hi = (0xd800u32 + (w >> 10u32)) as u32;
        let lo = (0xdc00u32 + (w & 0x3ffu32)) as u32;
        seq![(hi >> 8u32) as u8, hi as u8, (lo >> 8u32) as u8, lo as u8]
    }
}

/// The UTF-16 big-endian encoding of a text.
pub open spec fn utf16_be(cs: Seq<char>) -> Seq<u8>
    decreases cs.len(),
{
    if cs.len() == 0 {
        Seq::empty()
    } else {
        utf16_be(cs.drop_last()) + utf16_char_be(cs.last())
    }
}

/// The UTF-8 bytes of a string.
pub open spec fn utf8_of(s: String) -> Seq<u8> {
    encode_utf8(s@)
}

/// Appends the big-endian bytes of `x`.
pub fn push_be32(out: &mut Vec<u8>, x: u32)
    ensures
        final(out)@ == old(out)@ + be32(x),
{
    out.push((x >> 24u32) as u8);
    out.push((x >> 16u32) as u8);
    out.push((x >> 8u32) as u8);
    out.push(x as u8);
    assert(final(out)@ =~= old(out)@ + be32(x));
}

/// Appends all of `bytes`.
pub fn push_all(out: &mut Vec<u8>, bytes: &[u8])
    ensures
        final(out)@ == old(out)@ + bytes@,
{
    let ghost start = out@;
    let mut i: usize = 0;
    while i < bytes.len()
        invariant
            i <= bytes@.len(),
            out@ == start + bytes@.take(i as int),
        decreases bytes@.len() - i,
    {
        out.push(bytes[i]);
        i = i + 1;
        assert(out@ =~= start + bytes@.take(i as int));
    }
    assert(bytes@.take(bytes@.len() as int) =~= bytes@);
}

/// Appends a tagged field with the given payload.
pub fn push_field(out: &mut Vec<u8>, tag: u8, payload: &[u8])
    ensures
        final(out)@ == old(out)@ + field(tag, payload@),
{
    out.push(tag);
    push_be32(out, payload.len() as u32);
    push_all(out, payload);
    assert(final(out)@ =~= old(out)@ + field(tag, payload@));
}

/// Appends the UTF-16 big-endian bytes of one character.
fn push_utf16_char(out: &mut Vec<u8>, c: char)
    ensures
        final(out)@ == old(out)@ + utf16_char_be(c),
{
    let v = c as u32;
    if v < 0x10000 {
        out.push((v >> 8u32) as u8);
        out.push(v as u8);
    } else {
        assert(v <= 0x10ffff) by {
            vstd::utf8::char_is_scalar(c);
        }
        let w = v - 0x10000;
        assert(w >> 10u32 <= 0x3ff) by (bit_vector)
            requires
                w <= 0xfffff;
        assert(w & 0x3ffu32 <= 0x3ff) by (bit_vector);
        let hi = 0xd800u32 + (w >> 10u32);
        let lo = 0xdc00u32 + (w & 0x3ffu32);
        out.push((hi >> 8u32) as u8);
        out.push(hi as u8);
        out.push((lo >> 8u32) as u8);
        out.push(lo as u8);
    }
    assert(final(out)@ =~= old(out)@ + utf16_char_be(c));
}

/// Appends the UTF-16 big-endian encoding of `s`.
pub fn push_utf16(out: &mut Vec<u8>, s: &str)
    ensures
        final(out)@ == old(out)@ + utf16_be(s@),
{
    let ghost start = out@;
    let mut it = s.chars();
    let ghost mut done: Seq<char> = Seq::empty();
    loop
        invariant
            done + it.remaining() == s@,
            out@ == start + utf16_be(done),
            it.decrease() is Some,
        ensures
            out@ == start + utf16_be(s@),
        decreases it.decrease()->0,
    {
        match it.next() {
            Some(c) => {
                push_utf16_char(out, c);
                proof {
                    assert(done.push(c).drop_last() =~= done);
                    assert(done.push(c) + it.remaining() =~= s@);
                    assert(out@ =~= start + utf16_be(done.push(c)));
                    done = done.push(c);
                }
            },
            None => {
                assert(done =~= s@);
                break;
            },
        }
    }
}

} // verus!
