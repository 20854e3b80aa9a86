use bindelta::apply::{read_step, Step};
use bindelta::encode::{
    encode, encode_window, next_window_len, plan_compare, write_extension, ComparePlan, EncodeError,
};
use bindelta::format::{Format, Header, CHUNK_SIZE, FORMAT_VERSION};
use bindelta::record::DiffRecord;
use bindelta::scan::scan_window;

fn header(declared_size: u64) -> Vec<u8> {
    let mut bytes = vec![0x44, 0x49, 0x46, 0x46, 1];
    bytes.extend_from_slice(&declared_size.to_le_bytes());
    bytes
}

fn record(offset: u64, payload: &[u8]) -> Vec<u8> {
    let mut bytes = offset.to_le_bytes().to_vec();
    bytes.push(payload.len() as u8);
    bytes.extend_from_slice(payload);
    bytes
}

/// The records of a plain stream as (offset, payload) pairs.
fn records_of(stream: &[u8], format: Format) -> Vec<(u64, Vec<u8>)> {
    let mut found = Vec::new();
    let mut pos = 0;
    loop {
        match read_step(stream, pos, format) {
            Step::Record { record } => {
                pos += 9 + record.payload.len();
                found.push((record.offset, record.payload));
            }
            _ => return found,
        }
    }
}

#[test]
fn identical_buffers_give_an_empty_plain_delta() {
    let a = vec![7u8; 1000];
    let delta = encode(&a, &a, Format::Plain).unwrap();
    assert_eq!(delta.records, 0);
    assert!(delta.bytes.is_empty());
}

#[test]
fn identical_buffers_give_only_a_header_in_the_extended_layout() {
    let a = vec![7u8; 1000];
    let delta = encode(&a, &a, Format::Extended).unwrap();
    assert_eq!(delta.records, 0);
    assert_eq!(delta.bytes, header(1000));
}

#[test]
fn empty_buffers_give_an_empty_plain_delta_and_a_bare_header() {
    let plain = encode(&[], &[], Format::Plain).unwrap();
    assert!(plain.bytes.is_empty());
    let extended = encode(&[], &[], Format::Extended).unwrap();
    assert_eq!(extended.bytes, header(0));
}

#[test]
fn a_record_is_offset_length_payload() {
    let a = [1u8, 2, 3, 4, 5, 6];
    let b = [1u8, 2, 9, 8, 5, 6];
    let delta = encode(&a, &b, Format::Plain).unwrap();
    assert_eq!(delta.records, 1);
    assert_eq!(delta.bytes, vec![2, 0, 0, 0, 0, 0, 0, 0, 2, 9, 8]);
}

#[test]
fn the_offset_is_written_low_byte_first() {
    let mut out = Vec::new();
    let record = DiffRecord { offset: 0x0102030405060708, payload: vec![0xEE] };
    record.write_to(&mut out);
    assert_eq!(out, vec![8, 7, 6, 5, 4, 3, 2, 1, 1, 0xEE]);
}

#[test]
fn write_to_appends_behind_what_is_there() {
    let mut out = vec![0xAB];
    DiffRecord { offset: 3, payload: vec![1, 2] }.write_to(&mut out);
    assert_eq!(out, vec![0xAB, 3, 0, 0, 0, 0, 0, 0, 0, 2, 1, 2]);
}

#[test]
fn the_header_is_magic_version_and_declared_size() {
    let mut out = Vec::new();
    Header { version: FORMAT_VERSION, declared_size: 0x1122 }.write_to(&mut out);
    assert_eq!(out, vec![b'D', b'I', b'F', b'F', 1, 0x22, 0x11, 0, 0, 0, 0, 0, 0]);
}

#[test]
fn separate_runs_give_separate_records_in_order() {
    let a = [0u8; 10];
    let mut b = [0u8; 10];
    b[1] = 1;
    b[2] = 2;
    b[5] = 5;
    b[9] = 9;
    let delta = encode(&a, &b, Format::Plain).unwrap();
    assert_eq!(delta.records, 3);
    let mut expected = record(1, &[1, 2]);
    expected.extend(record(5, &[5]));
    expected.extend(record(9, &[9]));
    assert_eq!(delta.bytes, expected);
}

#[test]
fn the_payload_holds_the_bytes_of_the_target() {
    let a = [10u8, 20, 30];
    let b = [10u8, 21, 31];
    let records = scan_window(&a, &b, 0, Format::Plain);
    assert_eq!(records.len(), 1);
    assert_eq!(records[0].offset, 1);
    assert_eq!(records[0].payload, vec![21, 31]);
}

#[test]
fn scan_window_adds_the_base_to_the_offsets() {
    let a = [0u8, 0, 0, 0];
    let b = [1u8, 0, 0, 1];
    let records = scan_window(&a, &b, 5000, Format::Extended);
    assert_eq!(records.len(), 2);
    assert_eq!(records[0].offset, 5000);
    assert_eq!(records[0].payload, vec![1]);
    assert_eq!(records[1].offset, 5003);
    assert_eq!(records[1].payload, vec![1]);
}

#[test]
fn scan_window_of_empty_windows_finds_nothing() {
    assert!(scan_window(&[], &[], 0, Format::Plain).is_empty());
}

#[test]
fn encode_window_appends_and_counts() {
    let a = [0u8, 0, 0, 0];
    let b = [1u8, 0, 2, 3];
    let mut out = vec![0xCC];
    let count = encode_window(&a, &b, 100, Format::Extended, &mut out);
    assert_eq!(count, 2);
    let mut expected = vec![0xCC];
    expected.extend(record(100, &[1]));
    expected.extend(record(102, &[2, 3]));
    assert_eq!(out, expected);
}

#[test]
fn plain_run_of_255_bytes_is_one_record() {
    let a = vec![0u8; 300];
    let mut b = vec![0u8; 300];
    for i in 10..265 {
        b[i] = 1;
    }
    let delta = encode(&a, &b, Format::Plain).unwrap();
    assert_eq!(delta.records, 1);
    assert_eq!(delta.bytes, record(10, &vec![1u8; 255]));
}

#[test]
fn plain_run_of_256_bytes_is_two_adjacent_records() {
    let a = vec![0u8; 300];
    let mut b = vec![0u8; 300];
    for i in 10..266 {
        b[i] = (i % 251) as u8 + 1;
    }
    let delta = encode(&a, &b, Format::Plain).unwrap();
    assert_eq!(delta.records, 2);
    let records = records_of(&delta.bytes, Format::Plain);
    assert_eq!(records.len(), 2);
    assert_eq!(records[0].0, 10);
    assert_eq!(records[0].1, b[10..265].to_vec());
    assert_eq!(records[1].0, 265);
    assert_eq!(records[1].1, b[265..266].to_vec());
}

#[test]
fn extended_run_of_254_bytes_is_one_record() {
    let a = vec![0u8; 300];
    let mut b = vec![0u8; 300];
    for i in 0..254 {
        b[i] = 1;
    }
    let delta = encode(&a, &b, Format::Extended).unwrap();
    assert_eq!(delta.records, 1);
    let mut expected = header(300);
    expected.extend(record(0, &vec![1u8; 254]));
    assert_eq!(delta.bytes, expected);
}

#[test]
fn extended_run_of_255_bytes_is_two_adjacent_records() {
    let a = vec![0u8; 300];
    let mut b = vec![0u8; 300];
    for i in 45..300 {
        b[i] = 1;
    }
    let delta = encode(&a, &b, Format::Extended).unwrap();
    assert_eq!(delta.records, 2);
    let mut expected = header(300);
    expected.extend(record(45, &vec![1u8; 254]));
    expected.extend(record(299, &[1]));
    assert_eq!(delta.bytes, expected);
}

#[test]
fn no_record_of_the_extended_layout_has_the_marker_as_length() {
    let a = vec![0u8; 2000];
    let b = vec![1u8; 2000];
    let delta = encode(&a, &b, Format::Extended).unwrap();
    let records = records_of(&delta.bytes[13..], Format::Plain);
    assert_eq!(records.len() as u64, delta.records);
    assert_eq!(records.len(), 8);
    let mut next = 0u64;
    for (offset, payload) in &records {
        assert_eq!(*offset, next);
        assert!(!payload.is_empty() && payload.len() <= 254);
        next = offset + payload.len() as u64;
    }
    assert_eq!(next, 2000);
}

#[test]
fn a_run_across_a_chunk_edge_is_cut_there() {
    let a = vec![0u8; CHUNK_SIZE + 5];
    let mut b = vec![0u8; CHUNK_SIZE + 5];
    b[CHUNK_SIZE - 1] = 0x11;
    b[CHUNK_SIZE] = 0x22;
    b[CHUNK_SIZE + 1] = 0x33;
    let delta = encode(&a, &b, Format::Plain).unwrap();
    assert_eq!(delta.records, 2);
    let records = records_of(&delta.bytes, Format::Plain);
    assert_eq!(records[0], ((CHUNK_SIZE - 1) as u64, vec![0x11]));
    assert_eq!(records[1], (CHUNK_SIZE as u64, vec![0x22, 0x33]));
    assert_eq!(records[0].0 + records[0].1.len() as u64, records[1].0);
    let mut joined = records[0].1.clone();
    joined.extend(&records[1].1);
    assert_eq!(joined, b[CHUNK_SIZE - 1..CHUNK_SIZE + 2].to_vec());
}

#[test]
fn a_run_inside_a_chunk_is_not_cut() {
    let a = vec![0u8; CHUNK_SIZE + 5];
    let mut b = vec![0u8; CHUNK_SIZE + 5];
    b[CHUNK_SIZE - 3] = 1;
    b[CHUNK_SIZE - 2] = 2;
    b[CHUNK_SIZE - 1] = 3;
    let delta = encode(&a, &b, Format::Extended).unwrap();
    assert_eq!(delta.records, 1);
    let mut expected = header((CHUNK_SIZE + 5) as u64);
    expected.extend(record((CHUNK_SIZE - 3) as u64, &[1, 2, 3]));
    assert_eq!(delta.bytes, expected);
}

#[test]
fn a_longer_target_gets_a_trailing_extension() {
    let a = vec![0u8; 10];
    let mut b = vec![0u8; 10];
    b.extend_from_slice(&[0xAA, 0xBB]);
    let delta = encode(&a, &b, Format::Extended).unwrap();
    assert_eq!(delta.records, 0);
    let mut expected = header(12);
    expected.extend_from_slice(&[10, 0, 0, 0, 0, 0, 0, 0, 0xFF, 0xAA, 0xBB]);
    assert_eq!(delta.bytes, expected);
    match read_step(&delta.bytes, 13, Format::Extended) {
        Step::Extension { offset } => assert_eq!(offset, 10),
        other => panic!("no extension: {:?}", other),
    }
}

#[test]
fn the_plain_layout_leaves_a_longer_target_out() {
    let a = vec![0u8; 10];
    let mut b = vec![0u8; 10];
    b[3] = 1;
    b.extend_from_slice(&[0xAA, 0xBB]);
    let delta = encode(&a, &b, Format::Plain).unwrap();
    assert_eq!(delta.bytes, record(3, &[1]));
}

#[test]
fn the_plain_layout_takes_a_longer_base() {
    let a = [1u8, 2, 3, 4, 5];
    let b = [1u8, 9];
    let delta = encode(&a, &b, Format::Plain).unwrap();
    assert_eq!(delta.records, 1);
    assert_eq!(delta.bytes, record(1, &[9]));
}

#[test]
fn the_extended_layout_refuses_a_longer_base() {
    let a = [1u8, 2, 3];
    let b = [1u8, 2];
    match encode(&a, &b, Format::Extended) {
        Err(e) => assert_eq!(e, EncodeError::BaseLongerThanTarget { base_len: 3, target_len: 2 }),
        Ok(delta) => panic!("a delta was made: {:?}", delta),
    }
}

#[test]
fn the_extended_layout_refuses_a_longer_base_against_an_empty_target() {
    assert_eq!(
        encode(&[0], &[], Format::Extended).err(),
        Some(EncodeError::BaseLongerThanTarget { base_len: 1, target_len: 0 })
    );
}

#[test]
fn encoding_twice_gives_the_same_bytes() {
    let a: Vec<u8> = (0..5000u32).map(|i| (i % 7) as u8).collect();
    let b: Vec<u8> = (0..6000u32).map(|i| (i % 11) as u8).collect();
    for format in [Format::Plain, Format::Extended] {
        let first = encode(&a, &b, format).unwrap();
        let second = encode(&a, &b, format).unwrap();
        assert_eq!(first.bytes, second.bytes);
        assert_eq!(first.records, second.records);
    }
}

#[test]
fn the_plan_of_the_plain_layout_compares_the_common_prefix() {
    let plan = ComparePlan { header: None, compared: 7, extension: 0 };
    assert_eq!(plan_compare(7, 9, Format::Plain), Ok(plan));
    assert_eq!(plan_compare(9, 7, Format::Plain), Ok(plan));
}

#[test]
fn the_plan_of_the_extended_layout_declares_the_larger_size() {
    let plan = ComparePlan {
        header: Some(Header { version: 1, declared_size: 9 }),
        compared: 7,
        extension: 2,
    };
    assert_eq!(plan_compare(7, 9, Format::Extended), Ok(plan));
    let even = ComparePlan {
        header: Some(Header { version: 1, declared_size: 7 }),
        compared: 7,
        extension: 0,
    };
    assert_eq!(plan_compare(7, 7, Format::Extended), Ok(even));
}

#[test]
fn the_plan_of_the_extended_layout_refuses_a_longer_base() {
    assert_eq!(
        plan_compare(9, 7, Format::Extended),
        Err(EncodeError::BaseLongerThanTarget { base_len: 9, target_len: 7 })
    );
}

#[test]
fn windows_are_whole_chunks_until_the_last() {
    let chunk = CHUNK_SIZE as u64;
    assert_eq!(CHUNK_SIZE, 1024 * 1024);
    assert_eq!(next_window_len(0, 3 * chunk), CHUNK_SIZE);
    assert_eq!(next_window_len(chunk, 2 * chunk + 17), CHUNK_SIZE);
    assert_eq!(next_window_len(2 * chunk, 2 * chunk + 17), 17);
    assert_eq!(next_window_len(0, 5), 5);
    assert_eq!(next_window_len(5, 5), 0);
    assert_eq!(next_window_len(0, u64::MAX), CHUNK_SIZE);
}

#[test]
fn max_run_is_255_plain_and_254_extended() {
    assert_eq!(Format::Plain.max_run(), 255);
    assert_eq!(Format::Extended.max_run(), 254);
}

#[test]
fn write_extension_is_offset_marker_tail() {
    let mut out = vec![1];
    write_extension(0x0A0B, &[5, 6, 7], &mut out);
    assert_eq!(out, vec![1, 0x0B, 0x0A, 0, 0, 0, 0, 0, 0, 0xFF, 5, 6, 7]);
}

#[test]
fn windows_written_one_by_one_give_the_delta_of_the_buffers() {
    let len = 2 * CHUNK_SIZE + 100;
    let a = vec![3u8; len];
    let mut b = vec![3u8; len + 4];
    b[0] = 4;
    b[CHUNK_SIZE - 1] = 4;
    b[CHUNK_SIZE] = 4;
    b[len - 1] = 4;
    let plan = plan_compare(a.len() as u64, b.len() as u64, Format::Extended).unwrap();
    let mut out = Vec::new();
    plan.header.unwrap().write_to(&mut out);
    let mut offset = 0u64;
    let mut count: usize = 0;
    loop {
        let n = next_window_len(offset, plan.compared);
        if n == 0 {
            break;
        }
        let at = offset as usize;
        count += encode_window(&a[at..at + n], &b[at..at + n], offset, Format::Extended, &mut out);
        offset += n as u64;
    }
    write_extension(plan.compared, &b[len..], &mut out);
    let whole = encode(&a, &b, Format::Extended).unwrap();
    assert_eq!(count, 4);
    assert_eq!(whole.records, 4);
    assert_eq!(out, whole.bytes);
}
