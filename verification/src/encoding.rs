use vstd::prelude::*;
use crate::cursor::{be_u32_at, header_of, MAGIC_HEADER};
use crate::error::FormatError;
use crate::varint::{
    biased_tail, continues, le_base128, low7, offset_varint, size_header, type_tag,
};

verus! {

/// The four bytes of `v`, most significant first.
pub open spec fn be_bytes(v: u32) -> Seq<u8> {
    seq![
        (v / 0x100_0000) as u8,
        ((v / 0x1_0000) % 0x100) as u8,
        ((v / 0x100) % 0x100) as u8,
        (v % 0x100) as u8,
    ]
}

/// The twelve-byte preamble of a pack of format version `version` that
/// declares `count` objects.
pub open spec fn header_bytes(version: u32, count: u32) -> Seq<u8> {
    be_bytes(MAGIC_HEADER) + be_bytes(version) + be_bytes(count)
}

/// The little-endian base-128 encoding of `v`: seven bits per byte, least
/// significant group first, the top bit set on every byte but the last.
pub open spec fn le_base128_bytes(v: nat) -> Seq<u8>
    decreases v,
{
    if v < 128 {
        seq![v as u8]
    } else {
        seq![(128 + v % 128) as u8] + le_base128_bytes(v / 128)
    }
}

/// The size and type header of an object of type tag `tag` and size `size`.
pub open spec fn size_header_bytes(tag: u8, size: nat) -> Seq<u8> {
    if size < 16 {
        seq![(tag * 16 + size) as u8]
    } else {
        seq![(128 + tag * 16 + size % 16) as u8] + le_base128_bytes(size / 16)
    }
}

/// The bytes of a base distance before its last one, for the part `q` of
/// the distance that the last byte does not hold.
pub open spec fn offset_prefix_bytes(q: nat) -> Seq<u8>
    decreases q,
{
    if q == 0 {
        Seq::empty()
    } else {
        offset_prefix_bytes(((q - 1) / 128) as nat) + seq![(128 + (q - 1) % 128) as u8]
    }
}

/// The encoding of the base distance `v` of an offset delta.
pub open spec fn offset_bytes(v: nat) -> Seq<u8> {
    offset_prefix_bytes(v / 128) + seq![(v % 128) as u8]
}

/// The number whose base-128 digits, most significant first, are the low
/// seven bits of the bytes of `s` from `from` up to `to`.
pub open spec fn concat7(s: Seq<u8>, from: int, to: int) -> nat
    decreases to - from,
{
    if to <= from {
        0
    } else {
        concat7(s, from, to - 1) * 128 + low7(s[to - 1])
    }
}

/// What a base distance written in `n` bytes has on top of the plain number
/// its seven-bit groups spell: nothing for one byte, and for more the sum of
/// 128 to the powers 1 to `n - 1`.
pub open spec fn offset_bias(n: nat) -> nat
    decreases n,
{
    if n <= 1 {
        0
    } else {
        128 * (offset_bias((n - 1) as nat) + 1)
    }
}

proof fn lemma_be_bytes_value(s: Seq<u8>, at: int, v: u32)
    requires
        0 <= at,
        at + 4 <= s.len(),
        s.subrange(at, at + 4) == be_bytes(v),
    ensures
        be_u32_at(s, at) == v,
{
    let part = s.subrange(at, at + 4);
    assert(s[at] == part[0] && s[at + 1] == part[1] && s[at + 2] == part[2] && s[at + 3]
        == part[3]);
    assert((v / 0x100_0000) * 0x100_0000 + ((v / 0x1_0000) % 0x100) * 0x1_0000 + ((v / 0x100)
        % 0x100) * 0x100 + v % 0x100 == v) by (bit_vector);
    assert(v / 0x100_0000 < 0x100) by (bit_vector);
}

/// Reading the preamble written for `version` and `count` gives back that
/// version and count, whatever bytes follow it.
pub proof fn lemma_header_round_trip(version: u32, count: u32, rest: Seq<u8>)
    ensures
        header_of(header_bytes(version, count) + rest) == Ok::<(u32, u32), FormatError>(
            (version, count),
        ),
{
    let s = header_bytes(version, count) + rest;
    assert(s.subrange(0, 4) =~= be_bytes(MAGIC_HEADER));
    assert(s.subrange(4, 8) =~= be_bytes(version));
    assert(s.subrange(8, 12) =~= be_bytes(count));
    lemma_be_bytes_value(s, 0, MAGIC_HEADER);
    lemma_be_bytes_value(s, 4, version);
    lemma_be_bytes_value(s, 8, count);
}

/// Reading the little-endian base-128 encoding of `v` gives back `v` and
/// stops just past the encoding, wherever in a stream it stands.
pub proof fn lemma_le_base128_round_trip(pre: Seq<u8>, v: nat, rest: Seq<u8>)
    ensures
        le_base128(pre + le_base128_bytes(v) + rest, pre.len() as int) == Some(
            (v, (pre.len() + le_base128_bytes(v).len()) as int),
        ),
    decreases v,
{
    let s = pre + le_base128_bytes(v) + rest;
    let at = pre.len() as int;
    if v < 128 {
        assert(s[at] == v as u8);
    } else {
        let b = (128 + v % 128) as u8;
        lemma_le_base128_round_trip(pre.push(b), v / 128, rest);
        assert(pre.push(b) + le_base128_bytes(v / 128) + rest =~= s);
        assert(s[at] == b);
    }
}

/// Reading the header written for a type tag below 8 and any size gives back
/// that tag and that size and stops just past the header, wherever in a
/// stream it stands.
pub proof fn lemma_size_header_round_trip(pre: Seq<u8>, tag: u8, size: nat, rest: Seq<u8>)
    requires
        tag < 8,
    ensures
        size_header(pre + size_header_bytes(tag, size) + rest, pre.len() as int) == Some(
            (tag, size, (pre.len() + size_header_bytes(tag, size).len()) as int),
        ),
{
    let s = pre + size_header_bytes(tag, size) + rest;
    let at = pre.len() as int;
    if size < 16 {
        assert(s[at] == (tag * 16 + size) as u8);
    } else {
        let c0 = (128 + tag * 16 + size % 16) as u8;
        lemma_le_base128_round_trip(pre.push(c0), size / 16, rest);
        assert(pre.push(c0) + le_base128_bytes(size / 16) + rest =~= s);
        assert(s[at] == c0);
    }
}

proof fn lemma_offset_prefix(pre: Seq<u8>, q: nat, rest: Seq<u8>)
    requires
        q >= 1,
    ensures
        offset_varint(pre + offset_prefix_bytes(q) + rest, pre.len() as int) == biased_tail(
            pre + offset_prefix_bytes(q) + rest,
            (pre.len() + offset_prefix_bytes(q).len()) as int,
            (q - 1) as nat,
        ),
    decreases q,
{
    let s = pre + offset_prefix_bytes(q) + rest;
    let at = pre.len() as int;
    let above = ((q - 1) / 128) as nat;
    let b = (128 + (q - 1) % 128) as u8;
    if above == 0 {
        assert(offset_prefix_bytes(above) =~= Seq::<u8>::empty());
        assert(offset_prefix_bytes(q) =~= seq![b]);
        assert(s[at] == b);
    } else {
        lemma_offset_prefix(pre, above, seq![b] + rest);
        assert(pre + offset_prefix_bytes(above) + (seq![b] + rest) =~= s);
        let mid = (pre.len() + offset_prefix_bytes(above).len()) as int;
        assert(s[mid] == b);
        assert(offset_prefix_bytes(q).len() == offset_prefix_bytes(above).len() + 1);
    }
}

/// Reading the encoding of the base distance `v` gives back `v` and stops
/// just past the encoding, wherever in a stream it stands.
pub proof fn lemma_offset_round_trip(pre: Seq<u8>, v: nat, rest: Seq<u8>)
    ensures
        offset_varint(pre + offset_bytes(v) + rest, pre.len() as int) == Some(
            (v, (pre.len() + offset_bytes(v).len()) as int),
        ),
{
    let s = pre + offset_bytes(v) + rest;
    let at = pre.len() as int;
    let q = v / 128;
    let last = (v % 128) as u8;
    if q == 0 {
        assert(offset_prefix_bytes(q) =~= Seq::<u8>::empty());
        assert(offset_bytes(v) =~= seq![last]);
        assert(s[at] == last);
    } else {
        lemma_offset_prefix(pre, q, seq![last] + rest);
        assert(pre + offset_prefix_bytes(q) + (seq![last] + rest) =~= s);
        let mid = (pre.len() + offset_prefix_bytes(q).len()) as int;
        assert(s[mid] == last);
    }
}

proof fn lemma_biased_tail_bias(s: Seq<u8>, from: int, at: int, acc: nat)
    requires
        0 <= from < at,
        acc == concat7(s, from, at) + offset_bias((at - from) as nat),
    ensures
        biased_tail(s, at, acc) matches Some((v, end)) ==> from < end <= s.len() && v == concat7(
            s,
            from,
            end,
        ) + offset_bias((end - from) as nat),
    decreases s.len() - at,
{
    if at < s.len() {
        let next = (acc + 1) * 128 + low7(s[at]);
        assert(next == concat7(s, from, at + 1) + offset_bias((at + 1 - from) as nat));
        if continues(s[at]) {
            lemma_biased_tail_bias(s, from, at + 1, next);
        }
    }
}

/// A base distance is the number that the low seven bits of its bytes spell,
/// most significant group first, plus the bias of its length: 128 for two
/// bytes, 128 + 128 * 128 for three, and so on.
pub proof fn lemma_offset_is_biased_concat(s: Seq<u8>, at: int)
    ensures
        offset_varint(s, at) matches Some((v, end)) ==> at < end <= s.len() && v == concat7(
            s,
            at,
            end,
        ) + offset_bias((end - at) as nat),
{
    if 0 <= at < s.len() {
        assert(concat7(s, at, at + 1) == low7(s[at])) by {
            assert(concat7(s, at, at) == 0);
        }
        if continues(s[at]) {
            lemma_biased_tail_bias(s, at, at + 1, low7(s[at]));
        }
    }
}

proof fn lemma_unended_tail(s: Seq<u8>, at: int, acc: nat)
    requires
        forall|i: int| at <= i < s.len() ==> continues(#[trigger] s[i]),
    ensures
        le_base128(s, at) is None,
        biased_tail(s, at, acc) is None,
    decreases s.len() - at,
{
    if 0 <= at < s.len() {
        lemma_unended_tail(s, at + 1, (acc + 1) * 128 + low7(s[at]));
    }
}

/// A number none of whose bytes up to the end of the stream has a clear top
/// bit is not read as any value: the stream is truncated.
pub proof fn lemma_unended_number_is_truncated(s: Seq<u8>, at: int)
    requires
        forall|i: int| at <= i < s.len() ==> continues(#[trigger] s[i]),
    ensures
        le_base128(s, at) is None,
        offset_varint(s, at) is None,
        size_header(s, at) is None,
{
    lemma_unended_tail(s, at, 0);
    if 0 <= at < s.len() {
        lemma_unended_tail(s, at + 1, low7(s[at]));
    }
}

} // verus!
