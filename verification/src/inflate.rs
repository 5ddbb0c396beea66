use vstd::prelude::*;
use vstd::slice::slice_subrange;
use crate::cursor::ByteCursor;
use crate::error::FormatError;

verus! {

/// How one run of the zlib decoder ended.
#[derive(Clone, Copy, Debug, PartialEq, Eq, Structural)]
pub enum InflateStatus {
    /// The stream was read to its end and its checksum matched.
    StreamEnd,
    /// The decoder stopped in good order before the end of the stream.
    Unfinished,
    /// The decoder could go no further: the input ran out or the output
    /// buffer was full before the stream ended.
    BufError,
    /// The input is not a zlib stream.
    Corrupt,
}

/// What one run of the zlib decoder left behind.
#[derive(Debug, PartialEq, Eq)]
pub struct Inflated {
    /// How the run ended.
    pub status: InflateStatus,
    /// How many input bytes the decoder took.
    pub consumed: u64,
    /// How many output bytes the decoder wrote.
    pub produced: u64,
    /// The output buffer: the bytes written, then zeros up to its length.
    pub output: Vec<u8>,
}

/// The mathematical content of an [`Inflated`].
pub struct InflatedView {
    pub status: InflateStatus,
    pub consumed: nat,
    pub produced: nat,
    pub output: Seq<u8>,
}

impl View for Inflated {
    type V = InflatedView;

    open spec fn view(&self) -> InflatedView {
        InflatedView {
            status: self.status,
            consumed: self.consumed as nat,
            produced: self.produced as nat,
            output: self.output@,
        }
    }
}

/// What a fresh zlib decoder does with `input` when it is told that no more
/// input will come and is given an output buffer of `size` zero bytes.
pub uninterp spec fn zlib_inflated(input: Seq<u8>, size: nat) -> InflatedView;

/// One call of flate2's `Decompress::decompress` with `FlushDecompress::Finish`
/// on a decoder fresh from `Decompress::new(true)`, into a zeroed buffer of
/// `size` bytes, followed by the decoder's `total_in` and `total_out`.
/// Nothing is proved of it. The contract claims only that the outcome is
/// determined by the input bytes and the buffer's size: the decoder keeps no
/// state between runs and reads nothing but its input. A buffer of more than
/// `isize::MAX` bytes cannot be made, so such a size is not admitted.
#[verifier::external_body]
fn zlib_inflate(input: &[u8], size: usize) -> (run: Inflated)
    requires
        size <= isize::MAX,
    ensures
        run@ == zlib_inflated(input@, size as nat),
{
    let mut output = vec![0u8; size];
    let mut decoder = flate2::Decompress::new(true);
    let status = match decoder.decompress(input, &mut output, flate2::FlushDecompress::Finish) {
        Ok(flate2::Status::StreamEnd) => InflateStatus::StreamEnd,
        Ok(flate2::Status::Ok) => InflateStatus::Unfinished,
        Ok(flate2::Status::BufError) => InflateStatus::BufError,
        Err(_) => InflateStatus::Corrupt,
    };
    Inflated { status, consumed: decoder.total_in(), produced: decoder.total_out(), output }
}

/// What a decoder run means for an object of declared size `size`, read as
/// object number `index` from `available` bytes of input: the payload and the
/// length of its compressed block, or the reason it is rejected.
///
/// The payload is accepted only when the stream ended having written exactly
/// `size` bytes. A run that ended the stream otherwise, or met corrupt input,
/// is a failed decompression. A run that stopped short after taking all the
/// input there was is a truncation; one that stopped short with input to
/// spare had no room left for what the stream still holds, and is a failed
/// decompression too.
pub open spec fn payload_of(run: InflatedView, size: nat, available: nat, index: u32) -> Result<
    (Seq<u8>, nat),
    FormatError,
> {
    if run.status is StreamEnd && run.produced == size && run.output.len() == size && run.consumed
        <= available {
        Ok((run.output, run.consumed))
    } else if run.status is StreamEnd || run.status is Corrupt {
        Err(FormatError::DecompressionFailed(index))
    } else if run.consumed >= available {
        Err(FormatError::Truncated)
    } else {
        Err(FormatError::DecompressionFailed(index))
    }
}

/// Judges a decoder run as [`payload_of`] says, and hands out the payload
/// and the number of input bytes its compressed block took.
pub fn accept_payload(run: Inflated, size: usize, available: usize, index: u32) -> (res: Result<
    (Vec<u8>, usize),
    FormatError,
>)
    ensures
        match res {
            Ok((content, used)) => payload_of(run@, size as nat, available as nat, index) == Ok::<
                (Seq<u8>, nat),
                FormatError,
            >((content@, used as nat)),
            Err(e) => payload_of(run@, size as nat, available as nat, index) == Err::<
                (Seq<u8>, nat),
                FormatError,
            >(e),
        },
{
    let Inflated { status, consumed, produced, output } = run;
    let within: bool = consumed <= available as u64;
    match status {
        InflateStatus::StreamEnd => {
            if produced == size as u64 && output.len() == size && within {
                Ok((output, consumed as usize))
            } else {
                Err(FormatError::DecompressionFailed(index))
            }
        },
        InflateStatus::Corrupt => Err(FormatError::DecompressionFailed(index)),
        _ => {
            if consumed >= available as u64 {
                Err(FormatError::Truncated)
            } else {
                Err(FormatError::DecompressionFailed(index))
            }
        },
    }
}

/// The bytes of `s` from `at` on; none when `at` lies outside `s`.
pub open spec fn rest_from(s: Seq<u8>, at: int) -> Seq<u8> {
    if 0 <= at <= s.len() {
        s.subrange(at, s.len() as int)
    } else {
        Seq::empty()
    }
}

/// The payload of object number `index`, declared `size` bytes long, whose
/// compressed block starts at `at`: its bytes and the index just past the
/// block. A size that no buffer can have is an overflow; any other is judged
/// by what the decoder makes of the bytes from `at` on.
pub open spec fn payload_at(s: Seq<u8>, at: int, size: nat, index: u32) -> Result<
    (Seq<u8>, int),
    FormatError,
> {
    let input = rest_from(s, at);
    if size > isize::MAX {
        Err(FormatError::Overflow)
    } else {
        match payload_of(zlib_inflated(input, size), size, input.len(), index) {
            Ok((content, used)) => Ok((content, at + used)),
            Err(e) => Err(e),
        }
    }
}

/// Inflates the payload of object number `index`, declared `size` bytes
/// long, from the cursor's position, and moves the cursor to the first byte
/// after the compressed block. On failure the cursor is unmoved.
pub fn read_object_content(r: &mut ByteCursor, size: usize, index: u32) -> (res: Result<
    Vec<u8>,
    FormatError,
>)
    ensures
        final(r).bytes() == old(r).bytes(),
        match res {
            Ok(content) => payload_at(old(r).bytes(), old(r).offset(), size as nat, index) == Ok::<
                (Seq<u8>, int),
                FormatError,
            >((content@, final(r).offset())) && content@.len() == size,
            Err(e) => payload_at(old(r).bytes(), old(r).offset(), size as nat, index) == Err::<
                (Seq<u8>, int),
                FormatError,
            >(e) && final(r).offset() == old(r).offset(),
        },
{
    if size > isize::MAX as usize {
        return Err(FormatError::Overflow);
    }
    let data = r.data();
    let start: usize = r.position();
    let input = if start <= data.len() {
        slice_subrange(data, start, data.len())
    } else {
        slice_subrange(data, 0, 0)
    };
    assert(input@ =~= rest_from(data@, start as int));
    let run = zlib_inflate(input, size);
    match accept_payload(run, size, input.len(), index) {
        Ok((content, used)) => {
            r.seek(start + used);
            Ok(content)
        },
        Err(e) => Err(e),
    }
}

} // verus!
