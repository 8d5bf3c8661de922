use ddup::ntfs::{parse_usn_buffer, parse_usn_record, UsnRange};
use ddup::paths::{NameTable, ROOT_REFERENCE};

fn le16(out: &mut Vec<u8>, v: u16) {
    out.push(v as u8);
    out.push((v >> 8) as u8);
}

fn le32(out: &mut Vec<u8>, v: u32) {
    le16(out, v as u16);
    le16(out, (v >> 16) as u16);
}

fn le64(out: &mut Vec<u8>, v: u64) {
    le32(out, v as u32);
    le32(out, (v >> 32) as u32);
}

/// A version-2 USN record with the given identity and UTF-16 name units,
/// padded to 8-byte alignment.
fn v2_record(file_ref: u64, parent: u64, attributes: u32, name_units: &[u16]) -> Vec<u8> {
    let name_len = (name_units.len() * 2) as u16;
    let raw_len = 60 + name_len as u32;
    let rec_len = (raw_len + 7) / 8 * 8;
    let mut r = Vec::new();
    le32(&mut r, rec_len);
    le16(&mut r, 2); // major
    le16(&mut r, 0); // minor
    le64(&mut r, file_ref);
    le64(&mut r, parent);
    le64(&mut r, 11); // usn
    le64(&mut r, 22); // timestamp
    le32(&mut r, 33); // reason
    le32(&mut r, 0); // source info
    le32(&mut r, 0); // security id
    le32(&mut r, attributes);
    le16(&mut r, name_len);
    le16(&mut r, 60); // name offset
    for &u in name_units {
        le16(&mut r, u);
    }
    while r.len() < rec_len as usize {
        r.push(0);
    }
    r
}

fn units(s: &str) -> Vec<u16> {
    s.encode_utf16().collect()
}

#[test]
fn v2_record_roundtrip() {
    let mut buf = Vec::new();
    le64(&mut buf, 999); // cursor
    buf.extend_from_slice(&v2_record(0x200, 0x100, 0, &units("file.txt")));
    let (cursor, records) = parse_usn_buffer(&buf);
    assert_eq!(cursor, 999);
    assert_eq!(records.len(), 1);
    assert_eq!(records[0].file_reference, 0x200);
    assert_eq!(records[0].parent_reference, 0x100);
    assert_eq!(records[0].usn, 11);
    assert_eq!(records[0].timestamp, 22);
    assert_eq!(records[0].reason, 33);
    assert_eq!(records[0].name, "file.txt");
    assert!(!records[0].is_directory);
}

#[test]
fn directory_flag_follows_the_attribute_bit() {
    let mut buf = Vec::new();
    le64(&mut buf, 0);
    buf.extend_from_slice(&v2_record(0x300, ROOT_REFERENCE, 0x10, &units("dir1")));
    let (_, records) = parse_usn_buffer(&buf);
    assert_eq!(records.len(), 1);
    assert!(records[0].is_directory);
}

#[test]
fn v3_record_widened_references() {
    // Version 3 widens both references to 128 bits; the low 64 carry the
    // record number and sequence.
    let name = units("wide");
    let name_len = (name.len() * 2) as u16;
    let raw_len = 76 + name_len as u32;
    let rec_len = (raw_len + 7) / 8 * 8;
    let mut r = Vec::new();
    le32(&mut r, rec_len);
    le16(&mut r, 3);
    le16(&mut r, 0);
    le64(&mut r, 0xABCD); // file reference, low half
    le64(&mut r, 0);
    le64(&mut r, 0xEF01); // parent reference, low half
    le64(&mut r, 0);
    le64(&mut r, 44); // usn
    le64(&mut r, 55); // timestamp
    le32(&mut r, 66); // reason
    le32(&mut r, 0);
    le32(&mut r, 0);
    le32(&mut r, 0x10);
    le16(&mut r, name_len);
    le16(&mut r, 76);
    for &u in &name {
        le16(&mut r, u);
    }
    while r.len() < rec_len as usize {
        r.push(0);
    }
    let mut buf = Vec::new();
    le64(&mut buf, 1);
    buf.extend_from_slice(&r);
    let (_, records) = parse_usn_buffer(&buf);
    assert_eq!(records.len(), 1);
    assert_eq!(records[0].file_reference, 0xABCD);
    assert_eq!(records[0].parent_reference, 0xEF01);
    assert_eq!(records[0].usn, 44);
    assert_eq!(records[0].name, "wide");
    assert!(records[0].is_directory);
}

#[test]
fn ill_formed_name_skips_only_that_record() {
    let mut buf = Vec::new();
    le64(&mut buf, 0);
    // A lone high surrogate is not well-formed UTF-16.
    buf.extend_from_slice(&v2_record(0x401, 0x100, 0, &[0xD800]));
    buf.extend_from_slice(&v2_record(0x402, 0x100, 0, &units("good")));
    let (_, records) = parse_usn_buffer(&buf);
    assert_eq!(records.len(), 1);
    assert_eq!(records[0].file_reference, 0x402);
    assert_eq!(records[0].name, "good");
}

#[test]
fn surrogate_pairs_decode() {
    let mut buf = Vec::new();
    le64(&mut buf, 0);
    buf.extend_from_slice(&v2_record(0x500, 0x100, 0, &units("a\u{1F600}b")));
    let (_, records) = parse_usn_buffer(&buf);
    assert_eq!(records.len(), 1);
    assert_eq!(records[0].name, "a\u{1F600}b");
}

#[test]
fn truncated_or_inconsistent_buffers_yield_nothing() {
    assert_eq!(parse_usn_buffer(&[]).1.len(), 0);
    assert_eq!(parse_usn_buffer(&[1, 2, 3]).1.len(), 0);
    let mut buf = Vec::new();
    le64(&mut buf, 7);
    assert_eq!(parse_usn_buffer(&buf).1.len(), 0);
    // A record length larger than the buffer stops the walk.
    let mut bad = Vec::new();
    le64(&mut bad, 0);
    let mut r = v2_record(0x600, 0x100, 0, &units("x"));
    r[0] = 0xFF;
    r[1] = 0xFF;
    bad.extend_from_slice(&r);
    assert_eq!(parse_usn_buffer(&bad).1.len(), 0);
    // An unknown major version is unsound as well.
    assert!(parse_usn_record(&v2_record(1, 2, 0, &units("y")), 0).is_some());
    let mut odd = v2_record(1, 2, 0, &units("y"));
    odd[4] = 9;
    assert!(parse_usn_record(&odd, 0).is_none());
}

#[test]
fn name_table_first_observation_wins() {
    // A file seen in both the MFT sweep and the journal stream produces
    // exactly one entry, under its first-seen name.
    let mut table = NameTable::new();
    table.absorb(0x200, "first.txt".to_string(), ROOT_REFERENCE);
    table.absorb(0x200, "second.txt".to_string(), ROOT_REFERENCE);
    assert_eq!(table.len(), 1);
    assert_eq!(table.resolve(0x200).unwrap(), "first.txt");
}

#[test]
fn resolve_walks_parent_chains() {
    let mut table = NameTable::new();
    table.absorb(0x100, "dir1".to_string(), ROOT_REFERENCE);
    table.absorb(0x110, "dir2".to_string(), 0x100);
    table.absorb(0x200, "file.txt".to_string(), 0x110);
    assert_eq!(table.resolve(0x200).unwrap(), "dir1\\dir2\\file.txt");
    assert_eq!(table.resolve(0x100).unwrap(), "dir1");
}

#[test]
fn resolve_aborts_on_missing_parents_and_cycles() {
    let mut table = NameTable::new();
    table.absorb(0x200, "orphan".to_string(), 0xDEAD);
    assert!(table.resolve(0x200).is_none());
    assert!(table.resolve(0x999).is_none());
    // A corrupted journal can make the parent graph cyclic; the bounded
    // walk gives such paths up.
    let mut cyclic = NameTable::new();
    cyclic.absorb(0x1, "a".to_string(), 0x2);
    cyclic.absorb(0x2, "b".to_string(), 0x1);
    assert!(cyclic.resolve(0x1).is_none());
}

#[test]
fn absorb_records_feeds_the_table() {
    let mut buf = Vec::new();
    le64(&mut buf, 0);
    buf.extend_from_slice(&v2_record(0x100, ROOT_REFERENCE, 0x10, &units("dir1")));
    buf.extend_from_slice(&v2_record(0x200, 0x100, 0, &units("file.txt")));
    let (_, records) = parse_usn_buffer(&buf);
    let mut table = NameTable::new();
    table.absorb_records(&records);
    assert_eq!(table.len(), 2);
    assert_eq!(table.resolve(0x200).unwrap(), "dir1\\file.txt");
}

#[test]
fn usn_range_carries_the_journal_bounds() {
    let range = UsnRange { low: 5, high: 700 };
    assert_eq!(range.low, 5);
    assert_eq!(range.high, 700);
    let copy = range;
    assert_eq!(copy, range);
}
