use std::io::Write;

use rgit::cursor::{read_byte, ByteCursor};
use rgit::error::FormatError;
use rgit::inflate::{accept_payload, read_object_content, InflateStatus, Inflated};
use rgit::pack::{read_object, read_packfile_objects, PackObjectType};

fn deflate(payload: &[u8]) -> Vec<u8> {
    let mut encoder =
        flate2::write::ZlibEncoder::new(Vec::new(), flate2::Compression::default());
    encoder.write_all(payload).unwrap();
    encoder.finish().unwrap()
}

fn run(status: InflateStatus, consumed: u64, produced: u64, output: &[u8]) -> Inflated {
    Inflated { status, consumed, produced, output: output.to_vec() }
}

#[test]
fn finished_run_of_the_declared_size_is_accepted() {
    let result = accept_payload(run(InflateStatus::StreamEnd, 13, 5, b"hello"), 5, 40, 0);
    assert_eq!(result, Ok((b"hello".to_vec(), 13)));
    let result = accept_payload(run(InflateStatus::StreamEnd, 8, 0, b""), 0, 8, 3);
    assert_eq!(result, Ok((Vec::new(), 8)));
}

#[test]
fn finished_run_of_another_size_fails_decompression() {
    let result = accept_payload(run(InflateStatus::StreamEnd, 13, 3, b"hel\0\0"), 5, 40, 7);
    assert_eq!(result, Err(FormatError::DecompressionFailed(7)));
    let result = accept_payload(run(InflateStatus::StreamEnd, 13, 5, b"hello"), 4, 40, 7);
    assert_eq!(result, Err(FormatError::DecompressionFailed(7)));
    let result = accept_payload(run(InflateStatus::StreamEnd, 41, 5, b"hello"), 5, 40, 7);
    assert_eq!(result, Err(FormatError::DecompressionFailed(7)));
}

#[test]
fn corrupt_run_fails_decompression() {
    let result = accept_payload(run(InflateStatus::Corrupt, 2, 0, b"\0\0\0"), 3, 2, 9);
    assert_eq!(result, Err(FormatError::DecompressionFailed(9)));
    let result = accept_payload(run(InflateStatus::Corrupt, 1, 3, b"abc"), 3, 20, 1);
    assert_eq!(result, Err(FormatError::DecompressionFailed(1)));
}

#[test]
fn unfinished_run_out_of_input_is_truncated() {
    for status in [InflateStatus::BufError, InflateStatus::Unfinished] {
        let result = accept_payload(run(status, 10, 2, b"he\0\0\0"), 5, 10, 0);
        assert_eq!(result, Err(FormatError::Truncated));
        let result = accept_payload(run(status, 0, 0, b""), 0, 0, 0);
        assert_eq!(result, Err(FormatError::Truncated));
        let result = accept_payload(run(status, 10, 5, b"hello"), 5, 10, 0);
        assert_eq!(result, Err(FormatError::Truncated));
    }
}

#[test]
fn unfinished_run_with_input_to_spare_fails_decompression() {
    for status in [InflateStatus::BufError, InflateStatus::Unfinished] {
        let result = accept_payload(run(status, 9, 5, b"hello"), 5, 10, 6);
        assert_eq!(result, Err(FormatError::DecompressionFailed(6)));
    }
}

#[test]
fn content_is_inflated_and_the_cursor_realigned() {
    let block = deflate(b"hello");
    let mut data = vec![0x35u8];
    data.extend_from_slice(&block);
    data.push(0x42);
    let mut cursor = ByteCursor::new(&data);
    cursor.seek(1);
    assert_eq!(read_object_content(&mut cursor, 5, 0), Ok(b"hello".to_vec()));
    assert_eq!(cursor.position(), 1 + block.len());
    assert_eq!(read_byte(&mut cursor), Ok(0x42));
}

#[test]
fn content_is_not_the_compressed_input() {
    let payload = b"aaaaaaaaaaaaaaaaaaaaaaaaaaaaaaaaaaaaaaaaaaaaaaaaaaaaaaaaaaaaaaaa";
    let block = deflate(payload);
    assert!(block.len() < payload.len());
    let mut cursor = ByteCursor::new(&block);
    let content = read_object_content(&mut cursor, payload.len(), 0).unwrap();
    assert_eq!(content.as_slice(), payload);
    assert_ne!(content, block);
    assert_eq!(cursor.position(), block.len());
}

#[test]
fn empty_content_still_consumes_its_block() {
    let block = deflate(b"");
    assert!(!block.is_empty());
    let mut data = block.clone();
    data.push(0x35);
    let mut cursor = ByteCursor::new(&data);
    assert_eq!(read_object_content(&mut cursor, 0, 0), Ok(Vec::new()));
    assert_eq!(cursor.position(), block.len());
}

#[test]
fn content_failure_leaves_the_cursor_unmoved() {
    let block = deflate(b"hello");
    let mut data = vec![0u8; 3];
    data.extend_from_slice(&block);
    let mut cursor = ByteCursor::new(&data);
    cursor.seek(3);
    assert_eq!(
        read_object_content(&mut cursor, 6, 4),
        Err(FormatError::DecompressionFailed(4))
    );
    assert_eq!(cursor.position(), 3);
    assert_eq!(
        read_object_content(&mut cursor, 4, 4),
        Err(FormatError::DecompressionFailed(4))
    );
    assert_eq!(cursor.position(), 3);
    cursor.seek(0);
    assert_eq!(
        read_object_content(&mut cursor, 5, 1),
        Err(FormatError::DecompressionFailed(1))
    );
    assert_eq!(cursor.position(), 0);
}

#[test]
fn content_at_or_past_the_end_is_truncated() {
    let data = [0x35u8];
    let mut cursor = ByteCursor::new(&data);
    cursor.seek(1);
    assert_eq!(read_object_content(&mut cursor, 5, 0), Err(FormatError::Truncated));
    assert_eq!(read_object_content(&mut cursor, 0, 0), Err(FormatError::Truncated));
    cursor.seek(8);
    assert_eq!(read_object_content(&mut cursor, 5, 0), Err(FormatError::Truncated));
    assert_eq!(cursor.position(), 8);
}

#[test]
fn content_cut_anywhere_is_truncated() {
    let block = deflate(b"a payload long enough to be cut in several places");
    for keep in 0..block.len() {
        let mut cursor = ByteCursor::new(&block[..keep]);
        assert_eq!(read_object_content(&mut cursor, 49, 2), Err(FormatError::Truncated));
        assert_eq!(cursor.position(), 0);
    }
    let mut cursor = ByteCursor::new(&block);
    assert!(read_object_content(&mut cursor, 49, 2).is_ok());
}

#[test]
fn content_larger_than_any_buffer_overflows() {
    let block = deflate(b"hello");
    let mut cursor = ByteCursor::new(&block);
    assert_eq!(
        read_object_content(&mut cursor, isize::MAX as usize + 1, 0),
        Err(FormatError::Overflow)
    );
    assert_eq!(read_object_content(&mut cursor, usize::MAX, 0), Err(FormatError::Overflow));
    assert_eq!(cursor.position(), 0);
}

#[test]
fn object_is_read_whole_and_the_cursor_realigned() {
    let block = deflate(b"delta");
    let mut data = vec![0xff, 0x65, 0x85, 0x10];
    data.extend_from_slice(&block);
    data.push(0x31);
    let mut cursor = ByteCursor::new(&data);
    cursor.seek(1);
    let object = read_object(&mut cursor, 0).unwrap();
    assert_eq!(object.obj_type(), PackObjectType::OfsDelta(784));
    assert_eq!(object.size(), 5);
    assert_eq!(object.content().as_slice(), b"delta");
    assert_eq!(cursor.position(), 4 + block.len());
}

#[test]
fn object_failure_leaves_the_cursor_unmoved() {
    let mut data = vec![0x00, 0x65, 0x85, 0x10];
    data.extend_from_slice(&deflate(b"four"));
    let mut cursor = ByteCursor::new(&data);
    cursor.seek(1);
    assert_eq!(read_object(&mut cursor, 3), Err(FormatError::DecompressionFailed(3)));
    assert_eq!(cursor.position(), 1);
    cursor.seek(0);
    assert_eq!(read_object(&mut cursor, 3), Err(FormatError::UnknownObjectType(0)));
    assert_eq!(cursor.position(), 0);
}

#[test]
fn object_with_a_size_no_buffer_can_have_overflows() {
    let mut data = vec![0xbfu8];
    data.extend_from_slice(&[0xff; 8]);
    data.push(0x0f);
    data.extend_from_slice(&deflate(b"hello"));
    let mut cursor = ByteCursor::new(&data);
    assert_eq!(read_object(&mut cursor, 0), Err(FormatError::Overflow));
    assert_eq!(cursor.position(), 0);
}

#[test]
fn size_overflow_is_found_before_an_unknown_tag() {
    let mut data = vec![0xdfu8];
    data.extend_from_slice(&[0xff; 12]);
    data.push(0x0f);
    let mut cursor = ByteCursor::new(&data);
    assert_eq!(read_object(&mut cursor, 0), Err(FormatError::Overflow));
}

#[test]
fn objects_follow_one_another() {
    let first = deflate(b"first object");
    let second = deflate(b"");
    let third = deflate(b"third");
    let mut data = vec![0x9c, 0x00];
    data.extend_from_slice(&first);
    data.push(0x20);
    data.extend_from_slice(&second);
    data.push(0x45);
    data.extend_from_slice(&third);
    data.extend_from_slice(b"trailer");
    let mut cursor = ByteCursor::new(&data);
    let objects = read_packfile_objects(&mut cursor, 3).unwrap();
    assert_eq!(objects.len(), 3);
    assert_eq!(objects[0].obj_type(), PackObjectType::Commit);
    assert_eq!(objects[0].content().as_slice(), b"first object");
    assert_eq!(objects[1].obj_type(), PackObjectType::Tree);
    assert_eq!(objects[1].size(), 0);
    assert_eq!(objects[2].obj_type(), PackObjectType::Tag);
    assert_eq!(objects[2].content().as_slice(), b"third");
    assert_eq!(cursor.position(), data.len() - 7);
}

#[test]
fn runs_split_where_the_first_part_ends() {
    let mut data = Vec::new();
    for payload in [&b"one"[..], b"two", b"three", b"four"] {
        data.push(0x30 | payload.len() as u8);
        data.extend_from_slice(&deflate(payload));
    }
    let mut whole = ByteCursor::new(&data);
    let all = read_packfile_objects(&mut whole, 4).unwrap();
    let mut parts = ByteCursor::new(&data);
    let mut head = read_packfile_objects(&mut parts, 1).unwrap();
    let tail = read_packfile_objects(&mut parts, 3).unwrap();
    head.extend(tail);
    assert_eq!(head, all);
    assert_eq!(parts.position(), whole.position());
    assert_eq!(whole.position(), data.len());
}

#[test]
fn zero_objects_read_nothing() {
    let data = [0x35u8, 0x00];
    let mut cursor = ByteCursor::new(&data);
    cursor.seek(1);
    assert_eq!(read_packfile_objects(&mut cursor, 0), Ok(Vec::new()));
    assert_eq!(cursor.position(), 1);
}

#[test]
fn failing_run_reports_the_failing_object_and_rewinds() {
    let mut data = vec![0x33];
    data.extend_from_slice(&deflate(b"one"));
    data.push(0x35);
    data.extend_from_slice(&deflate(b"two"));
    let mut cursor = ByteCursor::new(&data);
    assert_eq!(
        read_packfile_objects(&mut cursor, 2),
        Err(FormatError::DecompressionFailed(1))
    );
    assert_eq!(cursor.position(), 0);
    assert_eq!(read_packfile_objects(&mut cursor, 1).unwrap().len(), 1);
}
