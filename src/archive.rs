use vstd::prelude::*;

use crate::bytes::{
    cat, lemma_cat_len_monotone, lemma_cat_step, lemma_le_value_bound, lemma_pow256_16, push_le,
    push_zeros, read_le,
};
use crate::error::Error;
use crate::format::{
    data_end, data_offset, data_pieces, data_total, decode, decode_entries, decode_entry,
    encodable, encode, header_bytes, header_count, header_data, header_paths, legal_byte,
    legal_bytes, legal_entries, lemma_entries_error_stays, magic, mapping_bytes, mapping_pieces, mapping_start,
    path_end, path_offset, path_pieces, path_start, path_total, record_data_offset,
    record_path_offset, EntryModel, HEADER_SIZE, MAPPING_SIZE,
};
use crate::path::{legal_chars, Path};

verus! {

/// One named blob of an archive.
#[derive(Debug)]
pub struct Entry {
    pub path: Path,
    pub contents: Vec<u8>,
}

impl View for Entry {
    type V = EntryModel;

    open spec fn view(&self) -> EntryModel {
        (self.path@, self.contents@)
    }
}

/// The entries of a sequence, as values.
pub open spec fn entry_models(v: Seq<Entry>) -> Seq<EntryModel> {
    v.map_values(|e: Entry| e@)
}

/// An ordered sequence of entries.
pub struct Archive {
    entries: Vec<Entry>,
}

impl View for Archive {
    type V = Seq<EntryModel>;

    closed spec fn view(&self) -> Seq<EntryModel> {
        entry_models(self.entries@)
    }
}

/// Collects entries, in order, for an archive.
pub struct ArchiveBuilder {
    entries: Vec<Entry>,
}

impl View for ArchiveBuilder {
    type V = Seq<EntryModel>;

    closed spec fn view(&self) -> Seq<EntryModel> {
        entry_models(self.entries@)
    }
}

impl ArchiveBuilder {
    /// A builder with no entries.
    pub fn new() -> (r: ArchiveBuilder)
        ensures
            r@ == Seq::<EntryModel>::empty(),
    {
        let r = ArchiveBuilder { entries: Vec::new() };
        assert(r@ =~= Seq::<EntryModel>::empty());
        r
    }

    /// Appends an entry after those already added, and hands the builder
    /// back for further calls.
    pub fn add_entry(&mut self, path: Path, contents: Vec<u8>) -> (r: &mut ArchiveBuilder)
        ensures
            (*r)@ == old(self)@.push((path@, contents@)),
            *final(self) == *final(r),
    {
        let ghost before = self.entries@;
        self.entries.push(Entry { path, contents });
        assert(entry_models(self.entries@) =~= entry_models(before).push((path@, contents@)));
        self
    }

    /// The archive holding the added entries, in the order they were added.
    pub fn build(self) -> (r: Archive)
        ensures
            r@ == self@,
    {
        Archive { entries: self.entries }
    }
}

impl Archive {
    /// A builder with no entries.
    pub fn builder() -> (r: ArchiveBuilder)
        ensures
            r@ == Seq::<EntryModel>::empty(),
    {
        ArchiveBuilder::new()
    }

    /// The entries, in archive order.
    pub fn entries(&self) -> (r: &Vec<Entry>)
        ensures
            entry_models(r@) == self@,
    {
        &self.entries
    }

    /// Reads an archive from its encoded bytes.
    pub fn read(bytes: &[u8]) -> (r: Result<Archive, Error>)
        ensures
            match decode(bytes@) {
                Ok(es) => r is Ok && r->Ok_0@ == es,
                Err(e) => r is Err && r->Err_0 == e,
            },
    {
        let ghost b = bytes@;
        let len = bytes.len();
        if len < HEADER_SIZE {
            return Err(Error::HeaderReadError);
        }
        if !has_magic(bytes) {
            return Err(Error::WrongMagicValue);
        }
        let aux = read_le(bytes, 10, 2);
        let count = read_le(bytes, 12, 4);
        let paths = read_le(bytes, 16, 8);
        let data = read_le(bytes, 24, 16);
        proof {
            lemma_le_value_bound(b.subrange(10, 12));
            lemma_le_value_bound(b.subrange(12, 16));
            lemma_le_value_bound(b.subrange(16, 24));
            lemma_pow256_16();
        }
        if count == 0 {
            let r = Archive { entries: Vec::new() };
            assert(r@ =~= Seq::<EntryModel>::empty());
            return Ok(r);
        }
        let room = (len - HEADER_SIZE) as u128;
        if data > room || aux > room - data {
            return Err(Error::MappingReadError { index: 0 });
        }
        let ms = HEADER_SIZE + data as usize + aux as usize;
        if count * 32 > (len - ms) as u128 {
            return Err(Error::MappingReadError { index: (len - ms) / MAPPING_SIZE });
        }
        let n = count as usize;
        let ps = ms + n * MAPPING_SIZE;
        let mut entries: Vec<Entry> = Vec::new();
        let mut i: usize = 0;
        assert(entry_models(entries@) =~= Seq::<EntryModel>::empty());
        while i < n
            invariant
                b == bytes@,
                len == b.len(),
                len >= HEADER_SIZE,
                b.subrange(0, 9) == magic(),
                ms == mapping_start(b),
                ps == path_start(b),
                ps <= len,
                n == header_count(b),
                n > 0,
                paths == header_paths(b),
                data == header_data(b),
                i <= n,
                decode_entries(b, i as nat) == Ok::<Seq<EntryModel>, Error>(entry_models(entries@)),
            decreases n - i,
        {
            match read_entry(bytes, ms, ps, n, paths, data, i) {
                Ok(e) => {
                    let ghost before = entries@;
                    entries.push(e);
                    assert(entry_models(entries@) =~= entry_models(before).push(e@));
                },
                Err(e) => {
                    proof {
                        assert(decode_entries(b, (i + 1) as nat) is Err);
                        lemma_entries_error_stays(b, (i + 1) as nat, n as nat);
                    }
                    return Err(e);
                },
            }
            i = i + 1;
        }
        Ok(Archive { entries })
    }

    /// Whether the archive can be encoded: its entry count fits the header's
    /// 32-bit field, the total length of its paths the 64-bit field, and the
    /// whole encoding fits in memory.
    pub fn is_encodable(&self) -> (r: bool)
        ensures
            r == encodable(self@),
    {
        let ghost es = self@;
        let ghost pp = path_pieces(es);
        let ghost dp = data_pieces(es);
        let n = self.entries.len();
        proof {
            assert(pp.take(n as int) =~= pp);
            assert(dp.take(n as int) =~= dp);
            lemma_cat_len_monotone(pp, 0, n as int);
            lemma_cat_len_monotone(dp, 0, n as int);
        }
        if n > 0xFFFF_FFFF || n > (usize::MAX - HEADER_SIZE) / MAPPING_SIZE {
            return false;
        }
        let mut total: usize = HEADER_SIZE + MAPPING_SIZE * n;
        let mut paths: u64 = 0;
        let mut i: usize = 0;
        while i < n
            invariant
                es == self@,
                pp == path_pieces(es),
                dp == data_pieces(es),
                n == es.len(),
                n <= u32::MAX,
                pp.take(n as int) == pp,
                dp.take(n as int) == dp,
                i <= n,
                paths == path_offset(es, i as int),
                total == HEADER_SIZE + MAPPING_SIZE * n + path_offset(es, i as int) + data_offset(
                    es,
                    i as int,
                ),
            decreases n - i,
        {
            let e = &self.entries[i];
            let pl = e.path.as_bytes().len();
            let dl = e.contents.len();
            proof {
                lemma_cat_step(pp, i as int);
                lemma_cat_step(dp, i as int);
                lemma_cat_len_monotone(pp, i + 1, n as int);
                lemma_cat_len_monotone(dp, i + 1, n as int);
            }
            if pl as u64 > u64::MAX - paths || pl > usize::MAX - total {
                return false;
            }
            total = total + pl;
            if dl > usize::MAX - total {
                return false;
            }
            total = total + dl;
            paths = paths + pl as u64;
            i = i + 1;
        }
        true
    }

    /// The encoded archive: header, data region, mapping table, path region.
    pub fn to_bytes(self) -> (r: Vec<u8>)
        requires
            encodable(self@),
        ensures
            r@ == encode(self@),
            legal_entries(self@),
    {
        let ghost es = self@;
        let ghost pp = path_pieces(es);
        let ghost dp = data_pieces(es);
        let n = self.entries.len();
        proof {
            assert(pp.take(n as int) =~= pp);
            assert(dp.take(n as int) =~= dp);
        }
        let mut paths: u64 = 0;
        let mut data: usize = 0;
        let mut i: usize = 0;
        while i < n
            invariant
                es == self@,
                pp == path_pieces(es),
                dp == data_pieces(es),
                n == es.len(),
                encodable(es),
                pp.take(n as int) == pp,
                dp.take(n as int) == dp,
                i <= n,
                paths == path_offset(es, i as int),
                data == data_offset(es, i as int),
                forall|j: int| 0 <= j < i ==> legal_chars(#[trigger] es[j].0),
            decreases n - i,
        {
            let e = &self.entries[i];
            let pb = e.path.as_bytes();
            proof {
                lemma_cat_step(pp, i as int);
                lemma_cat_step(dp, i as int);
                lemma_cat_len_monotone(pp, i + 1, n as int);
                lemma_cat_len_monotone(dp, i + 1, n as int);
            }
            paths = paths + pb.len() as u64;
            data = data + e.contents.len();
            i = i + 1;
        }
        let mut out: Vec<u8> = Vec::new();
        proof {
            lemma_pow256_16();
        }
        push_magic(&mut out);
        out.push(0u8);
        push_le(&mut out, 0, 2);
        push_le(&mut out, n as u128, 4);
        push_le(&mut out, paths as u128, 8);
        push_le(&mut out, data as u128, 16);
        push_zeros(&mut out, 24);
        let ghost header = out@;
        assert(header =~= header_bytes(n as nat, path_total(es), data_total(es)));

        let mut i: usize = 0;
        while i < n
            invariant
                es == self@,
                dp == data_pieces(es),
                n == es.len(),
                i <= n,
                out@ == header + cat(dp.take(i as int)),
            decreases n - i,
        {
            let mut c = vstd::slice::slice_to_vec(self.entries[i].contents.as_slice());
            proof {
                lemma_cat_step(dp, i as int);
            }
            out.append(&mut c);
            i = i + 1;
        }
        let ghost with_data = out@;

        let ghost mp = mapping_pieces(es);
        let mut paths: u64 = 0;
        let mut data: usize = 0;
        let mut i: usize = 0;
        while i < n
            invariant
                es == self@,
                pp == path_pieces(es),
                dp == data_pieces(es),
                mp == mapping_pieces(es),
                n == es.len(),
                encodable(es),
                pp.take(n as int) == pp,
                dp.take(n as int) == dp,
                i <= n,
                paths == path_offset(es, i as int),
                data == data_offset(es, i as int),
                out@ == with_data + cat(mp.take(i as int)),
            decreases n - i,
        {
            let e = &self.entries[i];
            let pb = e.path.as_bytes();
            proof {
                lemma_cat_step(pp, i as int);
                lemma_cat_step(dp, i as int);
                lemma_cat_step(mp, i as int);
                lemma_cat_len_monotone(pp, i + 1, n as int);
                lemma_cat_len_monotone(dp, i + 1, n as int);
                lemma_pow256_16();
            }
            let ghost before = out@;
            push_le(&mut out, paths as u128, 8);
            push_le(&mut out, data as u128, 16);
            push_zeros(&mut out, 8);
            assert(out@ =~= before + mapping_bytes(paths as nat, data as nat));
            paths = paths + pb.len() as u64;
            data = data + e.contents.len();
            i = i + 1;
        }
        proof {
            assert(mp.take(n as int) =~= mp);
        }
        let ghost with_mappings = out@;

        let mut i: usize = 0;
        while i < n
            invariant
                es == self@,
                pp == path_pieces(es),
                n == es.len(),
                i <= n,
                out@ == with_mappings + cat(pp.take(i as int)),
            decreases n - i,
        {
            let mut b = vstd::slice::slice_to_vec(self.entries[i].path.as_bytes());
            proof {
                lemma_cat_step(pp, i as int);
            }
            out.append(&mut b);
            i = i + 1;
        }
        assert(out@ =~= encode(es));
        out
    }
}

/// Whether `bytes` starts with the archive signature.
fn has_magic(bytes: &[u8]) -> (r: bool)
    requires
        bytes@.len() >= 9,
    ensures
        r == (bytes@.subrange(0, 9) == magic()),
{
    let r = bytes[0] == 0xBA && bytes[1] == 0xDA && bytes[2] == 0x55 && bytes[3] == 0x6D
        && bytes[4] == 0x61 && bytes[5] == 0x66 && bytes[6] == 0x67 && bytes[7] == 0x65
        && bytes[8] == 0x78;
    if r {
        assert(bytes@.subrange(0, 9) =~= magic());
    } else {
        assert(bytes@.subrange(0, 9) != magic()) by {
            if bytes@.subrange(0, 9) == magic() {
                assert(bytes@.subrange(0, 9)[0] == bytes@[0]);
            }
        }
    }
    r
}

/// Whether every byte of `s` stands for a legal path character.
fn all_legal(s: &[u8]) -> (r: bool)
    ensures
        r == legal_bytes(s@),
{
    let mut i: usize = 0;
    while i < s.len()
        invariant
            i <= s@.len(),
            forall|j: int| 0 <= j < i ==> legal_byte(#[trigger] s@[j]),
        decreases s@.len() - i,
    {
        if !(0x20 <= s[i] && s[i] <= 0x7E) {
            return false;
        }
        i = i + 1;
    }
    true
}

/// Entry `i` of the archive `bytes`, whose mapping table has been found to
/// fit.
fn read_entry(
    bytes: &[u8],
    ms: usize,
    ps: usize,
    n: usize,
    paths: u128,
    data: u128,
    i: usize,
) -> (r: Result<Entry, Error>)
    requires
        bytes@.len() >= HEADER_SIZE,
        ms == mapping_start(bytes@),
        ps == path_start(bytes@),
        ps <= bytes@.len(),
        n == header_count(bytes@),
        paths == header_paths(bytes@),
        data == header_data(bytes@),
        i < n,
    ensures
        match decode_entry(bytes@, i as int) {
            Ok(m) => r is Ok && r->Ok_0@ == m,
            Err(e) => r is Err && r->Err_0 == e,
        },
{
    let ghost b = bytes@;
    let len = bytes.len();
    let rec = ms + i * MAPPING_SIZE;
    let poff = read_le(bytes, rec, 8);
    let doff = read_le(bytes, rec + 8, 16);
    let (pnext, dnext) = if i + 1 < n {
        (read_le(bytes, rec + MAPPING_SIZE, 8), read_le(bytes, rec + MAPPING_SIZE + 8, 16))
    } else {
        (paths, data)
    };
    assert(poff == record_path_offset(b, i as int));
    assert(doff == record_data_offset(b, i as int));
    assert(pnext == path_end(b, i as int));
    assert(dnext == data_end(b, i as int));
    if !(poff <= pnext && pnext <= (len - ps) as u128) {
        return Err(Error::PathReadError { index: i });
    }
    let stored = vstd::slice::slice_subrange(bytes, ps + poff as usize, ps + pnext as usize);
    if !all_legal(stored) {
        return Err(Error::PathReadError { index: i });
    }
    if !(doff <= dnext && dnext <= data) {
        return Err(Error::MappingReadError { index: i });
    }
    let path = match Path::from_legal_bytes(stored) {
        Some(p) => p,
        None => {
            return Err(Error::PathReadError { index: i });
        },
    };
    let contents = vstd::slice::slice_to_vec(
        vstd::slice::slice_subrange(
            bytes,
            HEADER_SIZE + doff as usize,
            HEADER_SIZE + dnext as usize,
        ),
    );
    Ok(Entry { path, contents })
}

/// Appends the archive signature to `out`.
fn push_magic(out: &mut Vec<u8>)
    ensures
        final(out)@ == old(out)@ + magic(),
{
    let ghost start = out@;
    out.push(0xBA);
    out.push(0xDA);
    out.push(0x55);
    out.push(0x6D);
    out.push(0x61);
    out.push(0x66);
    out.push(0x67);
    out.push(0x65);
    out.push(0x78);
    assert(out@ =~= start + magic());
}

} // verus!
