use vstd::prelude::*;
use crate::cursor::ByteCursor;
use crate::error::FormatError;

verus! {

/// The value carried by the low seven bits of a byte.
pub open spec fn low7(b: u8) -> nat {
    (b % 128) as nat
}

/// Whether the top bit of a byte announces that another byte follows.
pub open spec fn continues(b: u8) -> bool {
    b >= 128
}

/// The little-endian base-128 number that starts at `at`: seven bits per
/// byte, least significant group first, ended by the first byte whose top bit
/// is clear. Gives the value and the index just past its last byte, or `None`
/// when `s` ends before such a byte.
pub open spec fn le_base128(s: Seq<u8>, at: int) -> Option<(nat, int)>
    decreases s.len() - at,
{
    if at < 0 || at >= s.len() {
        None
    } else if !continues(s[at]) {
        Some((low7(s[at]), at + 1))
    } else {
        match le_base128(s, at + 1) {
            Some((v, end)) => Some((low7(s[at]) + 128 * v, end)),
            None => None,
        }
    }
}

/// `base + unit * v` in place of the value `v` of a decoded number.
pub open spec fn scaled(r: Option<(nat, int)>, base: nat, unit: nat) -> Option<(nat, int)> {
    match r {
        Some((v, end)) => Some((base + unit * v, end)),
        None => None,
    }
}

/// The type tag in bits 4 to 6 of the first byte of an object header.
pub open spec fn type_tag(c0: u8) -> u8 {
    ((c0 / 16) % 8) as u8
}

/// The size and type header that starts at `at`: the type tag, the declared
/// size and the index just past the header. The low four bits of the first
/// byte are the least significant bits of the size; the bytes after it, while
/// the top bit of the byte before is set, add seven bits each.
pub open spec fn size_header(s: Seq<u8>, at: int) -> Option<(u8, nat, int)> {
    if at < 0 || at >= s.len() {
        None
    } else if !continues(s[at]) {
        Some((type_tag(s[at]), (s[at] % 16) as nat, at + 1))
    } else {
        match le_base128(s, at + 1) {
            Some((v, end)) => Some((type_tag(s[at]), (s[at] % 16) as nat + 16 * v, end)),
            None => None,
        }
    }
}

/// The rest of a base distance after its first byte, with `acc` the value
/// read so far: every further byte adds one to it before shifting it up by
/// seven bits, so that no distance has two encodings.
pub open spec fn biased_tail(s: Seq<u8>, at: int, acc: nat) -> Option<(nat, int)>
    decreases s.len() - at,
{
    if at < 0 || at >= s.len() {
        None
    } else if !continues(s[at]) {
        Some(((acc + 1) * 128 + low7(s[at]), at + 1))
    } else {
        biased_tail(s, at + 1, (acc + 1) * 128 + low7(s[at]))
    }
}

/// The base distance of an offset delta that starts at `at`: seven bits per
/// byte, most significant group first, ended by the first byte whose top bit
/// is clear. Gives the value and the index just past its last byte, or `None`
/// when `s` ends before such a byte.
pub open spec fn offset_varint(s: Seq<u8>, at: int) -> Option<(nat, int)> {
    if at < 0 || at >= s.len() {
        None
    } else if !continues(s[at]) {
        Some((low7(s[at]), at + 1))
    } else {
        biased_tail(s, at + 1, low7(s[at]))
    }
}

/// A little-endian base-128 number that is read takes at least one byte
/// and ends inside the stream.
pub proof fn lemma_le_base128_end(s: Seq<u8>, at: int)
    ensures
        le_base128(s, at) matches Some((v, end)) ==> 0 <= at < end <= s.len(),
    decreases s.len() - at,
{
    if 0 <= at < s.len() && continues(s[at]) {
        lemma_le_base128_end(s, at + 1);
    }
}

/// A size and type header that is read takes at least one byte, ends inside
/// the stream and gives a tag below 8.
pub proof fn lemma_size_header_end(s: Seq<u8>, at: int)
    ensures
        size_header(s, at) matches Some((tag, size, end)) ==> 0 <= at < end <= s.len() && tag < 8,
{
    lemma_le_base128_end(s, at + 1);
}

proof fn lemma_biased_tail_end(s: Seq<u8>, at: int, acc: nat)
    ensures
        biased_tail(s, at, acc) matches Some((v, end)) ==> 0 <= at < end <= s.len(),
    decreases s.len() - at,
{
    if 0 <= at < s.len() && continues(s[at]) {
        lemma_biased_tail_end(s, at + 1, (acc + 1) * 128 + low7(s[at]));
    }
}

/// A base distance that is read takes at least one byte and ends inside the
/// stream.
pub proof fn lemma_offset_end(s: Seq<u8>, at: int)
    ensures
        offset_varint(s, at) matches Some((v, end)) ==> 0 <= at < end <= s.len(),
{
    if 0 <= at < s.len() {
        lemma_biased_tail_end(s, at + 1, low7(s[at]));
    }
}

proof fn lemma_byte_bits(b: u8)
    ensures
        (b & 0x7f) == b % 128,
        (b & 0x80 == 0) == (b < 128),
        (b & 0x0f) == b % 16,
        ((b >> 4) & 7) == (b / 16) % 8,
{
    assert((b & 0x7f) == b % 128) by (bit_vector);
    assert((b & 0x80 == 0) == (b < 128)) by (bit_vector);
    assert((b & 0x0f) == b % 16) by (bit_vector);
    assert(((b >> 4) & 7) == (b / 16) % 8) by (bit_vector);
}

proof fn lemma_weighted_group(weight: nat, group: nat)
    by (nonlinear_arith)
    ensures
        weight * group == group * weight,
        group >= 1 ==> weight * group >= weight,
        group == 0 ==> weight * group == 0,
{
}

proof fn lemma_scaled_step(s: Seq<u8>, at: int, base: nat, unit: nat)
    requires
        0 <= at < s.len(),
        continues(s[at]),
    ensures
        scaled(le_base128(s, at), base, unit) == scaled(
            le_base128(s, at + 1),
            base + unit * low7(s[at]),
            unit * 128,
        ),
{
    match le_base128(s, at + 1) {
        Some((v, end)) => {
            let l = low7(s[at]);
            assert(unit * (l + 128 * v) == unit * l + (unit * 128) * v) by (nonlinear_arith);
        },
        None => {},
    }
}

/// Adds up the little-endian base-128 number at `start` on top of `seed`,
/// its groups weighted from `unit` upwards.
fn accumulate_le_base128(data: &[u8], start: usize, seed: usize, unit: usize) -> (res: Result<
    (usize, usize),
    FormatError,
>)
    ensures
        match scaled(le_base128(data@, start as int), seed as nat, unit as nat) {
            None => res == Err::<(usize, usize), FormatError>(FormatError::Truncated),
            Some((v, end)) => if v > usize::MAX {
                res == Err::<(usize, usize), FormatError>(FormatError::Overflow)
            } else {
                res matches Ok((value, stop)) && value == v && stop == end
            },
        },
{
    let len: usize = data.len();
    let mut pos: usize = start;
    let mut acc: usize = seed;
    let mut over: bool = false;
    let mut mult: usize = unit;
    let mut mult_big: bool = false;
    let ghost mut total: nat = seed as nat;
    let ghost mut weight: nat = unit as nat;
    loop
        invariant
            len == data@.len(),
            start <= pos,
            scaled(le_base128(data@, pos as int), total, weight) == scaled(
                le_base128(data@, start as int),
                seed as nat,
                unit as nat,
            ),
            !over ==> acc == total,
            over ==> total > usize::MAX,
            !mult_big ==> mult == weight,
            mult_big ==> weight > usize::MAX,
        decreases len - pos,
    {
        if pos >= len {
            return Err(FormatError::Truncated);
        }
        let b: u8 = data[pos];
        let low: u8 = b & 0x7f;
        proof {
            lemma_byte_bits(b);
            if continues(b) {
                lemma_scaled_step(data@, pos as int, total, weight);
            }
        }
        let ghost step: nat = weight * low7(b);
        proof {
            lemma_weighted_group(weight, low7(b));
        }
        if low != 0 && !over {
            if mult_big {
                over = true;
            } else {
                assert(low * mult <= 127 * 0xffff_ffff_ffff_ffff) by (nonlinear_arith)
                    requires
                        low <= 127,
                        mult <= 0xffff_ffff_ffff_ffff,
                ;
                let t: u128 = acc as u128 + (low as u128) * (mult as u128);
                if t > usize::MAX as u128 {
                    over = true;
                } else {
                    acc = t as usize;
                }
            }
        }
        proof {
            total = total + step;
        }
        pos = pos + 1;
        if b & 0x80 == 0 {
            if over {
                return Err(FormatError::Overflow);
            }
            return Ok((acc, pos));
        }
        if !mult_big {
            if mult > usize::MAX / 128 {
                mult_big = true;
            } else {
                mult = mult * 128;
            }
        }
        proof {
            weight = weight * 128;
        }
    }
}

/// Reads the size and type header of an object and steps past it. Gives the
/// type tag and the declared size; `Truncated` when the buffer ends inside
/// the header, `Overflow` when the header is complete but the size does not
/// fit a `usize`. On failure the cursor is unmoved.
pub fn read_size_header(r: &mut ByteCursor) -> (res: Result<(u8, usize), FormatError>)
    ensures
        final(r).bytes() == old(r).bytes(),
        match size_header(old(r).bytes(), old(r).offset()) {
            None => res == Err::<(u8, usize), FormatError>(FormatError::Truncated)
                && final(r).offset() == old(r).offset(),
            Some((tag, size, end)) => if size > usize::MAX {
                res == Err::<(u8, usize), FormatError>(FormatError::Overflow)
                    && final(r).offset() == old(r).offset()
            } else {
                res == Ok::<(u8, usize), FormatError>((tag, size as usize))
                    && final(r).offset() == end
            },
        },
{
    let data = r.data();
    let start: usize = r.position();
    if start >= data.len() {
        return Err(FormatError::Truncated);
    }
    let c0: u8 = data[start];
    proof {
        lemma_byte_bits(c0);
    }
    let tag: u8 = (c0 >> 4) & 7;
    let seed: usize = (c0 & 0x0f) as usize;
    if c0 & 0x80 == 0 {
        r.seek(start + 1);
        return Ok((tag, seed));
    }
    match accumulate_le_base128(data, start + 1, seed, 16) {
        Ok((size, end)) => {
            r.seek(end);
            Ok((tag, size))
        },
        Err(e) => Err(e),
    }
}

/// Reads the base distance of an offset delta and steps past it; `Truncated`
/// when the buffer ends before a byte with a clear top bit, `Overflow` when
/// the distance does not fit a `usize`. On failure the cursor is unmoved.
pub fn read_offset(r: &mut ByteCursor) -> (res: Result<usize, FormatError>)
    ensures
        final(r).bytes() == old(r).bytes(),
        match offset_varint(old(r).bytes(), old(r).offset()) {
            None => res == Err::<usize, FormatError>(FormatError::Truncated)
                && final(r).offset() == old(r).offset(),
            Some((v, end)) => if v > usize::MAX {
                res == Err::<usize, FormatError>(FormatError::Overflow)
                    && final(r).offset() == old(r).offset()
            } else {
                res == Ok::<usize, FormatError>(v as usize) && final(r).offset() == end
            },
        },
{
    let data = r.data();
    let len: usize = data.len();
    let start: usize = r.position();
    if start >= len {
        return Err(FormatError::Truncated);
    }
    let b0: u8 = data[start];
    proof {
        lemma_byte_bits(b0);
    }
    let mut pos: usize = start + 1;
    let mut acc: usize = (b0 & 0x7f) as usize;
    if b0 & 0x80 == 0 {
        r.seek(pos);
        return Ok(acc);
    }
    let mut over: bool = false;
    let ghost mut total: nat = low7(b0);
    loop
        invariant
            len == data@.len(),
            data@ == old(r).bytes(),
            r.bytes() == old(r).bytes(),
            r.offset() == old(r).offset(),
            start == old(r).offset(),
            start < pos,
            biased_tail(data@, pos as int, total) == offset_varint(data@, start as int),
            !over ==> acc == total,
            over ==> total > usize::MAX,
        decreases len - pos,
    {
        if pos >= len {
            return Err(FormatError::Truncated);
        }
        let b: u8 = data[pos];
        let low: u8 = b & 0x7f;
        proof {
            lemma_byte_bits(b);
        }
        if !over {
            let t: u128 = (acc as u128 + 1) * 128 + low as u128;
            if t > usize::MAX as u128 {
                over = true;
            } else {
                acc = t as usize;
            }
        }
        proof {
            total = (total + 1) * 128 + low7(b);
        }
        pos = pos + 1;
        if b & 0x80 == 0 {
            if over {
                return Err(FormatError::Overflow);
            }
            r.seek(pos);
            return Ok(acc);
        }
    }
}

} // verus!
