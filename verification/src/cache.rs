//! The snapshot format: a database written out as bytes, to be read back
//! later.
//!
//! A snapshot is the four bytes `NFIX`, a version byte, the number of
//! records as eight bytes, and then the records. A record is the length of
//! its name in bytes as eight bytes, the name in UTF-8, the codepoint as
//! four bytes, and one byte that is 1 for an obsolete icon and 0 otherwise.
//! Numbers are written least significant byte first.

use crate::bytes::push_all;
use crate::db::{icon_views, Icon, IconView};
use vstd::bytes::{
    lemma_auto_spec_u32_to_from_le_bytes, lemma_auto_spec_u64_to_from_le_bytes,
    spec_u32_from_le_bytes, spec_u32_to_le_bytes, spec_u64_from_le_bytes, spec_u64_to_le_bytes,
    u32_from_le_bytes, u32_to_le_bytes, u64_from_le_bytes, u64_to_le_bytes,
};
use vstd::prelude::*;
use vstd::slice::{slice_subrange, slice_to_vec};
use vstd::utf8::{
    decode_utf8, decode_utf8_encode_utf8, encode_utf8, encode_utf8_decode_utf8,
    encode_utf8_valid_utf8, valid_utf8,
};

verus! {

/// The bytes every snapshot starts with: `NFIX` and the version, 1.
pub open spec fn header() -> Seq<u8> {
    seq![0x4e, 0x46, 0x49, 0x58, 0x01]
}

/// The byte that stands for the obsolete flag.
pub open spec fn flag_byte(obsolete: bool) -> u8 {
    if obsolete {
        1
    } else {
        0
    }
}

/// One record as bytes.
pub open spec fn record_bytes(record: IconView) -> Seq<u8> {
    spec_u64_to_le_bytes(record.key().len() as u64) + record.key() + spec_u32_to_le_bytes(
        record.codepoint,
    ) + seq![flag_byte(record.obsolete)]
}

/// The records as bytes, one after the other.
pub open spec fn records_bytes(records: Seq<IconView>) -> Seq<u8>
    decreases records.len(),
{
    if records.len() == 0 {
        Seq::empty()
    } else {
        record_bytes(records.first()) + records_bytes(records.drop_first())
    }
}

/// The snapshot of a list of records.
pub open spec fn snapshot(records: Seq<IconView>) -> Seq<u8> {
    header() + spec_u64_to_le_bytes(records.len() as u64) + records_bytes(records)
}

/// Whether a snapshot can hold the records: their number and the length of
/// each name fit 64 bits. This holds of every list in memory.
pub open spec fn storable(records: Seq<IconView>) -> bool {
    &&& records.len() <= u64::MAX
    &&& forall|i: int| 0 <= i < records.len() ==> (#[trigger] records[i]).key().len() <= u64::MAX
}

/// The record at the start of `bytes` and the number of bytes it takes;
/// `None` where the bytes end too early, the name is not UTF-8 or the flag
/// is neither 0 nor 1.
pub open spec fn read_record(bytes: Seq<u8>) -> Option<(IconView, int)> {
    if bytes.len() < 8 {
        None
    } else {
        let n = spec_u64_from_le_bytes(bytes.subrange(0, 8)) as int;
        if bytes.len() < 8 + n + 5 {
            None
        } else if !valid_utf8(bytes.subrange(8, 8 + n)) || bytes[8 + n + 4] > 1 {
            None
        } else {
            Some(
                (
                    IconView {
                        name: decode_utf8(bytes.subrange(8, 8 + n)),
                        codepoint: spec_u32_from_le_bytes(bytes.subrange(8 + n, 8 + n + 4)),
                        obsolete: bytes[8 + n + 4] == 1,
                    },
                    8 + n + 5,
                ),
            )
        }
    }
}

/// The `count` records that `bytes` is made of; `None` where the bytes are
/// not exactly `count` records.
pub open spec fn read_records(bytes: Seq<u8>, count: nat) -> Option<Seq<IconView>>
    decreases count,
{
    if count == 0 {
        if bytes.len() == 0 {
            Some(Seq::empty())
        } else {
            None
        }
    } else {
        match read_record(bytes) {
            Some((record, used)) => match read_records(bytes.skip(used), (count - 1) as nat) {
                Some(rest) => Some(seq![record] + rest),
                None => None,
            },
            None => None,
        }
    }
}

/// The records that a snapshot holds; `None` where the bytes are no
/// snapshot of this version.
pub open spec fn read_snapshot(bytes: Seq<u8>) -> Option<Seq<IconView>> {
    if bytes.len() >= 13 && bytes.take(5) == header() {
        read_records(bytes.skip(13), spec_u64_from_le_bytes(bytes.subrange(5, 13)) as nat)
    } else {
        None
    }
}

proof fn lemma_read_record_written(record: IconView, rest: Seq<u8>)
    requires
        record.key().len() <= u64::MAX,
    ensures
        read_record(record_bytes(record) + rest) == Some(
            (record, record_bytes(record).len() as int),
        ),
{
    lemma_auto_spec_u64_to_from_le_bytes();
    lemma_auto_spec_u32_to_from_le_bytes();
    encode_utf8_valid_utf8(record.name);
    encode_utf8_decode_utf8(record.name);
    let key = record.key();
    let n = key.len() as int;
    let length = spec_u64_to_le_bytes(n as u64);
    let code = spec_u32_to_le_bytes(record.codepoint);
    let bytes = record_bytes(record) + rest;
    assert(bytes.subrange(0, 8) =~= length);
    assert(bytes.subrange(8, 8 + n) =~= key);
    assert(bytes.subrange(8 + n, 8 + n + 4) =~= code);
    assert(bytes[8 + n + 4] == flag_byte(record.obsolete));
}

proof fn lemma_read_records_written(records: Seq<IconView>)
    requires
        storable(records),
    ensures
        read_records(records_bytes(records), records.len()) == Some(records),
    decreases records.len(),
{
    if records.len() > 0 {
        let first = records.first();
        let rest = records.drop_first();
        assert(first == records[0]);
        assert forall|i: int| 0 <= i < rest.len() implies (#[trigger] rest[i]).key().len()
            <= u64::MAX by {
            assert(rest[i] == records[i + 1]);
        }
        lemma_read_record_written(first, records_bytes(rest));
        lemma_read_records_written(rest);
        let bytes = records_bytes(records);
        assert(bytes.skip(record_bytes(first).len() as int) =~= records_bytes(rest));
        assert(seq![first] + rest =~= records);
    }
}

/// A snapshot reads back as the records it was written from.
pub proof fn lemma_snapshot_reads_back(records: Seq<IconView>)
    requires
        storable(records),
    ensures
        read_snapshot(snapshot(records)) == Some(records),
{
    lemma_auto_spec_u64_to_from_le_bytes();
    lemma_read_records_written(records);
    let bytes = snapshot(records);
    let count = spec_u64_to_le_bytes(records.len() as u64);
    assert(bytes.take(5) =~= header());
    assert(bytes.subrange(5, 13) =~= count);
    assert(bytes.skip(13) =~= records_bytes(records));
}

proof fn lemma_record_written_as_read(bytes: Seq<u8>)
    requires
        read_record(bytes) is Some,
    ensures
        match read_record(bytes) {
            Some((record, used)) => {
                &&& bytes.take(used) == record_bytes(record)
                &&& record.key().len() <= u64::MAX
                &&& 13 <= used <= bytes.len()
            },
            None => true,
        },
{
    lemma_auto_spec_u64_to_from_le_bytes();
    lemma_auto_spec_u32_to_from_le_bytes();
    let n = spec_u64_from_le_bytes(bytes.subrange(0, 8)) as int;
    let key = bytes.subrange(8, 8 + n);
    decode_utf8_encode_utf8(key);
    let (record, used) = read_record(bytes)->0;
    assert(record.key() == key);
    assert(bytes.take(8 + n + 5) =~= record_bytes(record));
}

proof fn lemma_records_written_as_read(bytes: Seq<u8>, count: nat)
    requires
        read_records(bytes, count) is Some,
    ensures
        records_bytes(read_records(bytes, count)->0) == bytes,
        read_records(bytes, count)->0.len() == count,
        forall|i: int|
            0 <= i < count ==> (#[trigger] read_records(bytes, count)->0[i]).key().len()
                <= u64::MAX,
    decreases count,
{
    if count == 0 {
        assert(bytes =~= Seq::empty());
    } else {
        let (record, used) = read_record(bytes)->0;
        lemma_record_written_as_read(bytes);
        lemma_records_written_as_read(bytes.skip(used), (count - 1) as nat);
        let rest = read_records(bytes.skip(used), (count - 1) as nat)->0;
        let records = seq![record] + rest;
        assert(records.first() == record);
        assert(records.drop_first() =~= rest);
        assert(bytes =~= bytes.take(used) + bytes.skip(used));
        assert forall|i: int| 0 <= i < count implies (#[trigger] records[i]).key().len()
            <= u64::MAX by {
            if i > 0 {
                assert(records[i] == rest[i - 1]);
            }
        }
    }
}

/// Bytes that read as a snapshot are the snapshot of what they read as:
/// no other bytes stand for the same records.
pub proof fn lemma_snapshot_written_as_read(bytes: Seq<u8>)
    requires
        read_snapshot(bytes) is Some,
    ensures
        snapshot(read_snapshot(bytes)->0) == bytes,
        storable(read_snapshot(bytes)->0),
{
    lemma_auto_spec_u64_to_from_le_bytes();
    let count = spec_u64_from_le_bytes(bytes.subrange(5, 13));
    lemma_records_written_as_read(bytes.skip(13), count as nat);
    assert(bytes =~= bytes.take(5) + bytes.subrange(5, 13) + bytes.skip(13));
}

/// The bytes that read as a snapshot are exactly the snapshots of the
/// lists that a snapshot can hold.
pub proof fn lemma_reads_exactly_snapshots(bytes: Seq<u8>)
    ensures
        read_snapshot(bytes) is Some <==> exists|records: Seq<IconView>|
            storable(records) && bytes == #[trigger] snapshot(records),
{
    if read_snapshot(bytes) is Some {
        lemma_snapshot_written_as_read(bytes);
        assert(bytes == snapshot(read_snapshot(bytes)->0));
    }
    if exists|records: Seq<IconView>| storable(records) && bytes == #[trigger] snapshot(records) {
        let records = choose|records: Seq<IconView>|
            storable(records) && bytes == #[trigger] snapshot(records);
        lemma_snapshot_reads_back(records);
    }
}

/// Writes the snapshot of a list of icons.
pub fn write_snapshot(icons: &[Icon]) -> (out: Vec<u8>)
    ensures
        out@ == snapshot(icon_views(icons@)),
        storable(icon_views(icons@)),
{
    let ghost records = icon_views(icons@);
    let mut out: Vec<u8> = Vec::new();
    out.push(0x4e);
    out.push(0x46);
    out.push(0x49);
    out.push(0x58);
    out.push(0x01);
    assert(out@ =~= header());
    let count = u64_to_le_bytes(icons.len() as u64);
    push_all(&mut out, count.as_slice());
    let ghost start = out@;
    let mut i: usize = 0;
    assert(records.skip(0) =~= records);
    while i < icons.len()
        invariant
            i <= icons.len(),
            records == icon_views(icons@),
            out@ + records_bytes(records.skip(i as int)) == start + records_bytes(records),
            forall|k: int| 0 <= k < i ==> (#[trigger] records[k]).key().len() <= u64::MAX,
        decreases icons.len() - i,
    {
        let icon = &icons[i];
        let ghost before = out@;
        let key = icon.key();
        let length = u64_to_le_bytes(key.len() as u64);
        push_all(&mut out, length.as_slice());
        push_all(&mut out, key);
        let code = u32_to_le_bytes(icon.codepoint);
        push_all(&mut out, code.as_slice());
        out.push(if icon.obsolete { 1 } else { 0 });
        proof {
            let rest = records.skip(i as int);
            assert(rest.first() == icon@);
            assert(rest.drop_first() =~= records.skip(i + 1));
            assert(out@ =~= before + record_bytes(icon@));
            assert(out@ + records_bytes(records.skip(i + 1)) =~= before + records_bytes(rest));
        }
        i += 1;
    }
    assert(out@ =~= out@ + records_bytes(records.skip(i as int)));
    out
}

/// Calls `String::from_utf8`, which turns bytes into a string where they
/// are valid UTF-8 and fails otherwise. The contract says so: a string
/// comes back exactly for valid UTF-8, and it holds the characters that
/// the bytes encode.
#[verifier::external_body]
fn string_from_utf8(bytes: Vec<u8>) -> (text: Option<String>)
    ensures
        text is Some <==> valid_utf8(bytes@),
        text is Some ==> text->0@ == decode_utf8(bytes@),
{
    String::from_utf8(bytes).ok()
}

/// Reads the record at place `pos` of `bytes`, and says where the next one
/// starts.
fn read_one(bytes: &[u8], pos: usize) -> (res: Option<(Icon, usize)>)
    requires
        pos <= bytes.len(),
    ensures
        match res {
            Some((icon, next)) => read_record(bytes@.skip(pos as int)) == Some(
                (icon@, next - pos),
            ) && pos < next <= bytes.len(),
            None => read_record(bytes@.skip(pos as int)) is None,
        },
{
    let ghost tail = bytes@.skip(pos as int);
    let left = bytes.len() - pos;
    if left < 8 {
        return None;
    }
    assert(tail.subrange(0, 8) =~= bytes@.subrange(pos as int, pos + 8));
    let n = u64_from_le_bytes(slice_subrange(bytes, pos, pos + 8));
    if n > (left - 8) as u64 || (left - 8) as u64 - n < 5 {
        return None;
    }
    let n = n as usize;
    let start = pos + 8;
    assert(tail.subrange(8, 8 + n) =~= bytes@.subrange(start as int, start + n));
    assert(tail.subrange(8 + n, 8 + n + 4) =~= bytes@.subrange(start + n, start + n + 4));
    assert(tail[8 + n + 4] == bytes[start + n + 4]);
    let name = match string_from_utf8(slice_to_vec(slice_subrange(bytes, start, start + n))) {
        Some(name) => name,
        None => return None,
    };
    let codepoint = u32_from_le_bytes(slice_subrange(bytes, start + n, start + n + 4));
    let flag = bytes[start + n + 4];
    if flag > 1 {
        return None;
    }
    Some((Icon { name, codepoint, obsolete: flag == 1 }, start + n + 5))
}

/// Reads a snapshot back into the icons it was written from.
pub fn load_snapshot(bytes: &[u8]) -> (icons: Option<Vec<Icon>>)
    ensures
        match icons {
            Some(found) => read_snapshot(bytes@) == Some(icon_views(found@)),
            None => read_snapshot(bytes@) is None,
        },
{
    if bytes.len() < 13 {
        return None;
    }
    if bytes[0] != 0x4e || bytes[1] != 0x46 || bytes[2] != 0x49 || bytes[3] != 0x58 || bytes[4]
        != 0x01 {
        assert(bytes@.take(5)[0] == bytes[0] && bytes@.take(5)[1] == bytes[1] && bytes@.take(5)[2]
            == bytes[2] && bytes@.take(5)[3] == bytes[3] && bytes@.take(5)[4] == bytes[4]);
        return None;
    }
    assert(bytes@.take(5) =~= header());
    let count = u64_from_le_bytes(slice_subrange(bytes, 5, 13));
    let mut icons: Vec<Icon> = Vec::new();
    let mut pos: usize = 13;
    let mut done: u64 = 0;
    assert(Seq::<IconView>::empty() + read_records(bytes@.skip(13), count as nat)->0
        =~= read_records(bytes@.skip(13), count as nat)->0);
    while done < count
        invariant
            done <= count,
            13 <= pos <= bytes.len(),
            read_snapshot(bytes@) == read_records(bytes@.skip(13), count as nat),
            match read_records(bytes@.skip(pos as int), (count - done) as nat) {
                Some(rest) => read_snapshot(bytes@) == Some(icon_views(icons@) + rest),
                None => read_snapshot(bytes@) is None,
            },
        decreases count - done,
    {
        let ghost tail = bytes@.skip(pos as int);
        match read_one(bytes, pos) {
            Some((icon, next)) => {
                proof {
                    assert(tail.skip(next - pos) =~= bytes@.skip(next as int));
                    let rest = read_records(bytes@.skip(next as int), (count - done - 1) as nat);
                    if rest is Some {
                        assert(icon_views(icons@.push(icon)) + rest->0 =~= icon_views(icons@) + (
                        seq![icon@] + rest->0));
                    }
                }
                icons.push(icon);
                pos = next;
                done += 1;
            },
            None => return None,
        }
    }
    if pos != bytes.len() {
        return None;
    }
    assert(bytes@.skip(pos as int).len() == 0);
    assert(icon_views(icons@) + Seq::<IconView>::empty() =~= icon_views(icons@));
    Some(icons)
}

} // verus!
