use vstd::prelude::*;

use crate::bytes::{cat, le_bytes, le_value, zeros};
use crate::error::Error;
use crate::path::{legal_char, legal_chars};

verus! {

/// Bytes of the fixed header record.
pub const HEADER_SIZE: usize = 64;

/// Bytes of one mapping record.
pub const MAPPING_SIZE: usize = 32;

/// The signature every archive starts with.
pub open spec fn magic() -> Seq<u8> {
    seq![0xBAu8, 0xDAu8, 0x55u8, 0x6Du8, 0x61u8, 0x66u8, 0x67u8, 0x65u8, 0x78u8]
}

/// An entry as a value: its path label's text and its contents.
pub type EntryModel = (Seq<char>, Seq<u8>);

/// Every path of `es` is a legal label.
pub open spec fn legal_entries(es: Seq<EntryModel>) -> bool {
    forall|i: int| 0 <= i < es.len() ==> legal_chars(#[trigger] es[i].0)
}

// ----- Encoding -----

/// The stored bytes of a legal path label: one byte per character.
pub open spec fn path_bytes(c: Seq<char>) -> Seq<u8> {
    c.map_values(|x: char| x as u8)
}

pub open spec fn path_pieces(es: Seq<EntryModel>) -> Seq<Seq<u8>> {
    es.map_values(|e: EntryModel| path_bytes(e.0))
}

pub open spec fn data_pieces(es: Seq<EntryModel>) -> Seq<Seq<u8>> {
    es.map_values(|e: EntryModel| e.1)
}

/// Where the path of entry `i` starts in the path region.
pub open spec fn path_offset(es: Seq<EntryModel>, i: int) -> nat {
    cat(path_pieces(es).take(i)).len()
}

/// Where the contents of entry `i` start in the data region.
pub open spec fn data_offset(es: Seq<EntryModel>, i: int) -> nat {
    cat(data_pieces(es).take(i)).len()
}

pub open spec fn path_total(es: Seq<EntryModel>) -> nat {
    cat(path_pieces(es)).len()
}

pub open spec fn data_total(es: Seq<EntryModel>) -> nat {
    cat(data_pieces(es)).len()
}

/// A mapping record: path offset, data offset, zeroed reserved bytes.
pub open spec fn mapping_bytes(p: nat, d: nat) -> Seq<u8> {
    le_bytes(p, 8) + le_bytes(d, 16) + zeros(8)
}

pub open spec fn mapping_pieces(es: Seq<EntryModel>) -> Seq<Seq<u8>> {
    Seq::new(es.len(), |i: int| mapping_bytes(path_offset(es, i), data_offset(es, i)))
}

/// The header record: signature, version 0, no auxiliary metadata, the
/// entry count, both region sizes and zeroed reserved bytes.
pub open spec fn header_bytes(count: nat, paths: nat, data: nat) -> Seq<u8> {
    magic() + seq![0u8] + le_bytes(0, 2) + le_bytes(count, 4) + le_bytes(paths, 8) + le_bytes(
        data,
        16,
    ) + zeros(24)
}

/// The archive holding `es`: header, data region, mapping table, path region.
pub open spec fn encode(es: Seq<EntryModel>) -> Seq<u8> {
    header_bytes(es.len(), path_total(es), data_total(es)) + cat(data_pieces(es)) + cat(
        mapping_pieces(es),
    ) + cat(path_pieces(es))
}

/// The length of `encode(es)`.
pub open spec fn encoded_len(es: Seq<EntryModel>) -> nat {
    HEADER_SIZE as nat + data_total(es) + MAPPING_SIZE as nat * es.len() + path_total(es)
}

/// `es` fits the widths of the header's fields and an encoding of it fits in
/// memory.
pub open spec fn encodable(es: Seq<EntryModel>) -> bool {
    &&& es.len() <= u32::MAX
    &&& path_total(es) <= u64::MAX
    &&& encoded_len(es) <= usize::MAX
}

// ----- Decoding -----

/// The number stored in the `n` bytes of `b` from `start`.
pub open spec fn field(b: Seq<u8>, start: int, n: int) -> nat {
    le_value(b.subrange(start, start + n))
}

pub open spec fn header_aux_len(b: Seq<u8>) -> nat {
    field(b, 10, 2)
}

pub open spec fn header_count(b: Seq<u8>) -> nat {
    field(b, 12, 4)
}

pub open spec fn header_paths(b: Seq<u8>) -> nat {
    field(b, 16, 8)
}

pub open spec fn header_data(b: Seq<u8>) -> nat {
    field(b, 24, 16)
}

/// Where the mapping table starts: after the header, the data region and the
/// auxiliary metadata.
pub open spec fn mapping_start(b: Seq<u8>) -> nat {
    HEADER_SIZE as nat + header_data(b) + header_aux_len(b)
}

/// Where the path region starts: after the mapping table.
pub open spec fn path_start(b: Seq<u8>) -> nat {
    mapping_start(b) + MAPPING_SIZE as nat * header_count(b)
}

/// The first mapping record that does not fit in `b`.
pub open spec fn first_missing_mapping(b: Seq<u8>) -> nat {
    if mapping_start(b) > b.len() {
        0
    } else {
        ((b.len() - mapping_start(b)) / (MAPPING_SIZE as int)) as nat
    }
}

pub open spec fn record_path_offset(b: Seq<u8>, i: int) -> nat {
    field(b, mapping_start(b) + MAPPING_SIZE * i, 8)
}

pub open spec fn record_data_offset(b: Seq<u8>, i: int) -> nat {
    field(b, mapping_start(b) + MAPPING_SIZE * i + 8, 16)
}

/// Where the path of entry `i` ends: where the next one starts, or the end
/// of the path region for the last entry.
pub open spec fn path_end(b: Seq<u8>, i: int) -> nat {
    if i + 1 < header_count(b) {
        record_path_offset(b, i + 1)
    } else {
        header_paths(b)
    }
}

/// Where the contents of entry `i` end, by the same rule.
pub open spec fn data_end(b: Seq<u8>, i: int) -> nat {
    if i + 1 < header_count(b) {
        record_data_offset(b, i + 1)
    } else {
        header_data(b)
    }
}

pub open spec fn path_in_bounds(b: Seq<u8>, i: int) -> bool {
    record_path_offset(b, i) <= path_end(b, i) && path_start(b) + path_end(b, i) <= b.len()
}

pub open spec fn stored_path(b: Seq<u8>, i: int) -> Seq<u8> {
    b.subrange(
        path_start(b) + record_path_offset(b, i) as int,
        path_start(b) + path_end(b, i) as int,
    )
}

pub open spec fn data_in_bounds(b: Seq<u8>, i: int) -> bool {
    record_data_offset(b, i) <= data_end(b, i) <= header_data(b)
}

pub open spec fn stored_data(b: Seq<u8>, i: int) -> Seq<u8> {
    b.subrange(
        HEADER_SIZE + record_data_offset(b, i) as int,
        HEADER_SIZE + data_end(b, i) as int,
    )
}

/// A byte that stands for a legal path character.
pub open spec fn legal_byte(x: u8) -> bool {
    0x20 <= x <= 0x7E
}

pub open spec fn legal_bytes(s: Seq<u8>) -> bool {
    forall|j: int| 0 <= j < s.len() ==> legal_byte(#[trigger] s[j])
}

/// The text of stored path bytes: one character per byte.
pub open spec fn path_text(s: Seq<u8>) -> Seq<char> {
    s.map_values(|x: u8| x as char)
}

/// Entry `i` of `b`, once its mapping record has been read.
pub open spec fn decode_entry(b: Seq<u8>, i: int) -> Result<EntryModel, Error> {
    if !path_in_bounds(b, i) || !legal_bytes(stored_path(b, i)) {
        Err(Error::PathReadError { index: i as usize })
    } else if !data_in_bounds(b, i) {
        Err(Error::MappingReadError { index: i as usize })
    } else {
        Ok((path_text(stored_path(b, i)), stored_data(b, i)))
    }
}

/// The first `n` entries of `b`, or the first error among them.
pub open spec fn decode_entries(b: Seq<u8>, n: nat) -> Result<Seq<EntryModel>, Error>
    decreases n,
{
    if n == 0 {
        Ok(seq![])
    } else {
        match decode_entries(b, (n - 1) as nat) {
            Err(e) => Err(e),
            Ok(s) => match decode_entry(b, n - 1) {
                Err(e) => Err(e),
                Ok(e) => Ok(s.push(e)),
            },
        }
    }
}

/// What reading the archive `b` gives.
pub open spec fn decode(b: Seq<u8>) -> Result<Seq<EntryModel>, Error> {
    if b.len() < HEADER_SIZE {
        Err(Error::HeaderReadError)
    } else if b.subrange(0, 9) != magic() {
        Err(Error::WrongMagicValue)
    } else if header_count(b) > 0 && path_start(b) > b.len() {
        Err(Error::MappingReadError { index: first_missing_mapping(b) as usize })
    } else {
        decode_entries(b, header_count(b))
    }
}

/// Once reading the first `m` entries has failed, reading more fails the
/// same way.
pub proof fn lemma_entries_error_stays(b: Seq<u8>, m: nat, k: nat)
    requires
        m <= k,
        decode_entries(b, m) is Err,
    ensures
        decode_entries(b, k) == decode_entries(b, m),
    decreases k - m,
{
    if m < k {
        lemma_entries_error_stays(b, m, (k - 1) as nat);
    }
}

} // verus!
