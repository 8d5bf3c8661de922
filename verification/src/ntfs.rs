//! The on-disk USN record format.
//!
//! The volume enumerator obtains raw byte buffers from the kernel: eight
//! bytes of cursor, then a packed run of variable-length USN records
//! (versions 2 and 3). This module parses those buffers. A record whose
//! lengths are inconsistent stops the buffer; one whose name is not
//! well-formed UTF-16 is skipped; both match the enumerator's failure
//! policy of dropping bad records and carrying on.

use crate::utf16::{utf16_chars, utf16_to_string, utf16_valid};
use vstd::prelude::*;

verus! {

/// The file-attribute flag that marks a directory.
pub const ATTRIBUTE_DIRECTORY: u32 = 0x10;

/// The bounds of the change journal: the lowest USN still valid and the one
/// past the newest.
#[derive(Debug, Clone, Copy, PartialEq, Eq, Structural)]
pub struct UsnRange {
    pub low: u64,
    pub high: u64,
}

/// One parsed record: the identity of a file or directory, its parent, and
/// its name. 128-bit references of version-3 records keep their low 64 bits,
/// which carry the NTFS record number and sequence.
#[derive(Debug, Clone)]
pub struct UsnRecord {
    pub file_reference: u64,
    pub parent_reference: u64,
    pub usn: u64,
    pub timestamp: u64,
    pub reason: u32,
    pub attributes: u32,
    pub name: String,
    pub is_directory: bool,
}

/// The ghost form of a parsed record.
pub struct UsnFields {
    pub file_reference: u64,
    pub parent_reference: u64,
    pub usn: u64,
    pub timestamp: u64,
    pub reason: u32,
    pub attributes: u32,
    pub name: Seq<char>,
    pub is_directory: bool,
}

impl View for UsnRecord {
    type V = UsnFields;

    open spec fn view(&self) -> UsnFields {
        UsnFields {
            file_reference: self.file_reference,
            parent_reference: self.parent_reference,
            usn: self.usn,
            timestamp: self.timestamp,
            reason: self.reason,
            attributes: self.attributes,
            name: self.name@,
            is_directory: self.is_directory,
        }
    }
}

/// A little-endian 16-bit value at byte offset `off`.
pub open spec fn le16(b: Seq<u8>, off: int) -> int {
    b[off] + 0x100 * b[off + 1]
}

/// A little-endian 32-bit value at byte offset `off`.
pub open spec fn le32(b: Seq<u8>, off: int) -> int {
    le16(b, off) + 0x10000 * le16(b, off + 2)
}

/// A little-endian 64-bit value at byte offset `off`.
pub open spec fn le64(b: Seq<u8>, off: int) -> int {
    le32(b, off) + 0x100000000 * le32(b, off + 4)
}

/// Reads a little-endian 16-bit value.
pub fn read_le16(buf: &[u8], off: usize) -> (r: u16)
    requires
        off + 2 <= buf@.len(),
    ensures
        r as int == le16(buf@, off as int),
{
    (buf[off] as u16) + 0x100 * (buf[off + 1] as u16)
}

/// Reads a little-endian 32-bit value.
pub fn read_le32(buf: &[u8], off: usize) -> (r: u32)
    requires
        off + 4 <= buf@.len(),
    ensures
        r as int == le32(buf@, off as int),
{
    // Binding the length pins the slice's view below usize::MAX, which the
    // offset arithmetic needs.
    let n: usize = buf.len();
    (read_le16(buf, off) as u32) + 0x10000 * (read_le16(buf, off + 2) as u32)
}

/// Reads a little-endian 64-bit value.
pub fn read_le64(buf: &[u8], off: usize) -> (r: u64)
    requires
        off + 8 <= buf@.len(),
    ensures
        r as int == le64(buf@, off as int),
{
    // Binding the length pins the slice's view below usize::MAX, which the
    // offset arithmetic needs.
    let n: usize = buf.len();
    (read_le32(buf, off) as u64) + 0x100000000 * (read_le32(buf, off + 4) as u64)
}

/// The UTF-16 code units stored little-endian at `off`, `n` of them.
pub open spec fn units_at(b: Seq<u8>, off: int, n: nat) -> Seq<u16> {
    Seq::new(n, |k: int| le16(b, off + 2 * k) as u16)
}

/// The header length of a record: version 3 widens both references to 128
/// bits.
pub open spec fn header_len(major: int) -> int {
    if major == 2 {
        60
    } else {
        76
    }
}

/// Whether the bytes at `pos` carry a structurally sound record: a known
/// version, a record length that covers the header and stays inside the
/// buffer, and a name field inside the record.
pub open spec fn record_sound(b: Seq<u8>, pos: int) -> bool {
    let rl = le32(b, pos);
    let major = le16(b, pos + 4);
    let hl = header_len(major);
    let nlen = le16(b, pos + (if major == 2 {
        56int
    } else {
        72int
    }));
    let noff = le16(b, pos + (if major == 2 {
        58int
    } else {
        74int
    }));
    &&& pos + 60 <= b.len()
    &&& (major == 2 || major == 3)
    &&& rl >= hl
    &&& pos + rl <= b.len()
    &&& noff >= hl
    &&& noff + nlen <= rl
    &&& nlen % 2 == 0
}

/// The name units of a sound record.
pub open spec fn record_name_units(b: Seq<u8>, pos: int) -> Seq<u16> {
    let major = le16(b, pos + 4);
    let nlen = le16(b, pos + (if major == 2 {
        56int
    } else {
        72int
    }));
    let noff = le16(b, pos + (if major == 2 {
        58int
    } else {
        74int
    }));
    units_at(b, pos + noff, (nlen / 2) as nat)
}

/// The fields of a sound record whose name decodes.
pub open spec fn record_fields(b: Seq<u8>, pos: int) -> UsnFields {
    let major = le16(b, pos + 4);
    let v2 = major == 2;
    let attributes = le32(b, pos + (if v2 {
        52int
    } else {
        68int
    })) as u32;
    UsnFields {
        file_reference: le64(b, pos + 8) as u64,
        parent_reference: le64(b, pos + (if v2 {
            16int
        } else {
            24int
        })) as u64,
        usn: le64(b, pos + (if v2 {
            24int
        } else {
            40int
        })) as u64,
        timestamp: le64(b, pos + (if v2 {
            32int
        } else {
            48int
        })) as u64,
        reason: le32(b, pos + (if v2 {
            40int
        } else {
            56int
        })) as u32,
        attributes,
        name: utf16_chars(record_name_units(b, pos)),
        is_directory: attributes & ATTRIBUTE_DIRECTORY != 0,
    }
}

/// Parses the record at `pos`. Returns `None` when the record is not
/// structurally sound or its name is not well-formed UTF-16.
pub fn parse_usn_record(buf: &[u8], pos: usize) -> (r: Option<UsnRecord>)
    ensures
        r is Some <==> record_sound(buf@, pos as int) && utf16_valid(
            record_name_units(buf@, pos as int),
        ),
        r matches Some(rec) ==> rec@ == record_fields(buf@, pos as int),
{
    if !(pos <= buf.len() && buf.len() - pos >= 60) {
        return None;
    }
    let rl = read_le32(buf, pos);
    let major = read_le16(buf, pos + 4);
    if !(major == 2 || major == 3) {
        return None;
    }
    let v2 = major == 2;
    let hl: u32 = if v2 {
        60
    } else {
        76
    };
    if rl < hl {
        return None;
    }
    if !(rl as usize <= buf.len() && pos <= buf.len() - rl as usize) {
        return None;
    }
    let nlen = read_le16(buf, pos + (if v2 {
        56
    } else {
        72
    }));
    let noff = read_le16(buf, pos + (if v2 {
        58
    } else {
        74
    }));
    if !((noff as u32) >= hl) {
        return None;
    }
    if !((noff as u32) + (nlen as u32) <= rl) {
        return None;
    }
    if nlen % 2 != 0 {
        return None;
    }
    assert(record_sound(buf@, pos as int));
    // Gather the UTF-16LE name units.
    let count: usize = (nlen / 2) as usize;
    let base: usize = pos + noff as usize;
    let mut units: Vec<u16> = Vec::new();
    let mut k: usize = 0;
    let blen: usize = buf.len();
    while k < count
        invariant
            k <= count,
            base == pos + noff,
            blen == buf@.len(),
            base + 2 * count <= buf@.len(),
            units@.len() == k,
            forall|j: int| 0 <= j < k ==> units@[j] as int == le16(buf@, base + 2 * j),
        decreases count - k,
    {
        let u = read_le16(buf, base + 2 * k);
        units.push(u);
        k = k + 1;
    }
    proof {
        assert(units@ =~= record_name_units(buf@, pos as int));
    }
    let name = match utf16_to_string(&units) {
        Some(s) => s,
        None => {
            return None;
        },
    };
    let attributes = read_le32(buf, pos + (if v2 {
        52
    } else {
        68
    }));
    let rec = UsnRecord {
        file_reference: read_le64(buf, pos + 8),
        parent_reference: read_le64(buf, pos + (if v2 {
            16
        } else {
            24
        })),
        usn: read_le64(buf, pos + (if v2 {
            24
        } else {
            40
        })),
        timestamp: read_le64(buf, pos + (if v2 {
            32
        } else {
            48
        })),
        reason: read_le32(buf, pos + (if v2 {
            40
        } else {
            56
        })),
        attributes,
        name,
        is_directory: attributes & ATTRIBUTE_DIRECTORY != 0,
    };
    Some(rec)
}

/// Where the record after the one at `pos` starts: records are packed on
/// 8-byte alignment.
pub open spec fn next_record_pos(b: Seq<u8>, pos: int) -> int {
    pos + ((le32(b, pos) + 7) / 8) * 8
}

/// Every record of a buffer from `pos` on: parsing stops at the first
/// structurally unsound record and skips records with ill-formed names.
pub open spec fn buffer_records_from(b: Seq<u8>, pos: int) -> Seq<UsnFields>
    decreases (if pos < b.len() {
        b.len() - pos
    } else {
        0
    }),
{
    if !record_sound(b, pos) {
        Seq::empty()
    } else {
        let rest = buffer_records_from(b, next_record_pos(b, pos));
        if utf16_valid(record_name_units(b, pos)) {
            seq![record_fields(b, pos)] + rest
        } else {
            rest
        }
    }
}

/// The buffer's leading cursor: the eight bytes the kernel prepends (the
/// next starting reference for an MFT sweep, or the next USN for a journal
/// read).
pub open spec fn buffer_cursor(b: Seq<u8>) -> u64 {
    if b.len() >= 8 {
        le64(b, 0) as u64
    } else {
        0
    }
}

/// Splits a raw kernel buffer into its cursor and its records.
pub fn parse_usn_buffer(buf: &[u8]) -> (r: (u64, Vec<UsnRecord>))
    ensures
        r.0 == buffer_cursor(buf@),
        r.1@.map_values(|rec: UsnRecord| rec@) == buffer_records_from(buf@, 8),
{
    let mut records: Vec<UsnRecord> = Vec::new();
    if buf.len() < 8 {
        proof {
            assert(!record_sound(buf@, 8));
            assert(records@.map_values(|rec: UsnRecord| rec@) =~= buffer_records_from(buf@, 8));
        }
        return (0, records);
    }
    let cursor = read_le64(buf, 0);
    let mut pos: usize = 8;
    proof {
        assert(records@.map_values(|rec: UsnRecord| rec@) + buffer_records_from(buf@, 8)
            =~= buffer_records_from(buf@, 8));
    }
    loop
        invariant
            8 <= pos <= buf@.len(),
            buffer_records_from(buf@, 8) == records@.map_values(|rec: UsnRecord| rec@)
                + buffer_records_from(buf@, pos as int),
        ensures
            buffer_records_from(buf@, 8) == records@.map_values(|rec: UsnRecord| rec@),
        decreases buf@.len() - pos,
    {
        let rec = parse_usn_record(buf, pos);
        if !record_sound_exec(buf, pos) {
            proof {
                assert(buffer_records_from(buf@, pos as int) =~= Seq::<UsnFields>::empty());
                assert(records@.map_values(|rec2: UsnRecord| rec2@) + Seq::<UsnFields>::empty()
                    =~= records@.map_values(|rec2: UsnRecord| rec2@));
            }
            break ;
        }
        let rl = read_le32(buf, pos);
        let step64: u64 = ((rl as u64) + 7) / 8 * 8;
        let ghost old_pos = pos as int;
        let ghost old_map = records@.map_values(|rec2: UsnRecord| rec2@);
        let ghost rest = buffer_records_from(buf@, next_record_pos(buf@, old_pos));
        proof {
            assert(step64 as int == next_record_pos(buf@, old_pos) - old_pos);
            assert(step64 >= 60);
        }
        match rec {
            Some(record) => {
                records.push(record);
                proof {
                    assert(records@.map_values(|rec2: UsnRecord| rec2@) =~= old_map.push(
                        record_fields(buf@, old_pos),
                    ));
                    assert(old_map + (seq![record_fields(buf@, old_pos)] + rest) =~= old_map.push(
                        record_fields(buf@, old_pos),
                    ) + rest);
                }
            },
            None => {
                proof {
                    assert(!utf16_valid(record_name_units(buf@, old_pos)));
                }
            },
        }
        let remaining: usize = buf.len() - pos;
        if step64 >= remaining as u64 {
            pos = buf.len();
            proof {
                let nxt = next_record_pos(buf@, old_pos);
                assert(nxt >= buf@.len());
                assert(!record_sound(buf@, nxt));
                assert(buffer_records_from(buf@, nxt) =~= Seq::<UsnFields>::empty());
                assert(!record_sound(buf@, pos as int));
                assert(buffer_records_from(buf@, pos as int) =~= Seq::<UsnFields>::empty());
                assert(records@.map_values(|rec2: UsnRecord| rec2@) + Seq::<UsnFields>::empty()
                    =~= records@.map_values(|rec2: UsnRecord| rec2@));
            }
            break ;
        }
        pos = pos + step64 as usize;
        proof {
            assert(pos as int == next_record_pos(buf@, old_pos));
        }
    }
    (cursor, records)
}

/// Decides `record_sound` at runtime.
fn record_sound_exec(buf: &[u8], pos: usize) -> (r: bool)
    ensures
        r == record_sound(buf@, pos as int),
{
    if !(pos <= buf.len() && buf.len() - pos >= 60) {
        return false;
    }
    let rl = read_le32(buf, pos);
    let major = read_le16(buf, pos + 4);
    if !(major == 2 || major == 3) {
        return false;
    }
    let v2 = major == 2;
    let hl: u32 = if v2 {
        60
    } else {
        76
    };
    if rl < hl {
        return false;
    }
    if !(rl as usize <= buf.len() && pos <= buf.len() - rl as usize) {
        return false;
    }
    let nlen = read_le16(buf, pos + (if v2 {
        56
    } else {
        72
    }));
    let noff = read_le16(buf, pos + (if v2 {
        58
    } else {
        74
    }));
    (noff as u32) >= hl && (noff as u32) + (nlen as u32) <= rl && nlen % 2 == 0
}

} // verus!
