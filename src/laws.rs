use vstd::prelude::*;

use crate::bytes::{
    cat, lemma_cat_len_monotone, lemma_cat_piece, lemma_cat_uniform, lemma_le_round_trip,
    lemma_pow256_16, le_bytes,
};
use crate::error::Error;
use crate::format::{
    data_offset, data_pieces, data_total, decode, decode_entries, decode_entry, encodable,
    encode, encoded_len, header_aux_len, header_count, header_data, header_paths, legal_bytes,
    legal_entries, magic, mapping_pieces, mapping_start, path_bytes, path_end, path_offset,
    path_pieces, path_start, path_text, path_total, record_data_offset, record_path_offset,
    stored_data, stored_path, EntryModel, data_end,
};

verus! {

/// The layout facts of an encoding: its length, its signature and what its
/// header fields hold.
proof fn lemma_header(es: Seq<EntryModel>)
    requires
        encodable(es),
    ensures
        encode(es).len() == encoded_len(es),
        encode(es).subrange(0, 9) == magic(),
        header_aux_len(encode(es)) == 0,
        header_count(encode(es)) == es.len(),
        header_paths(encode(es)) == path_total(es),
        header_data(encode(es)) == data_total(es),
        cat(mapping_pieces(es)).len() == 32 * es.len(),
        mapping_start(encode(es)) == 64 + data_total(es),
        path_start(encode(es)) == 64 + data_total(es) + 32 * es.len(),
{
    let n = es.len();
    let pp = path_pieces(es);
    let dp = data_pieces(es);
    let mp = mapping_pieces(es);
    assert(pp.take(n as int) =~= pp);
    assert(dp.take(n as int) =~= dp);
    lemma_pow256_16();
    lemma_le_round_trip(0, 2);
    lemma_le_round_trip(n, 4);
    lemma_le_round_trip(path_total(es), 8);
    lemma_le_round_trip(data_total(es), 16);
    assert forall|i: int| 0 <= i < n implies (#[trigger] mp[i]).len() == 32 by {
        lemma_cat_len_monotone(pp, i, n as int);
        lemma_cat_len_monotone(dp, i, n as int);
        lemma_le_round_trip(path_offset(es, i), 8);
        lemma_le_round_trip(data_offset(es, i), 16);
    }
    lemma_cat_uniform(mp, 32);
    let b = encode(es);
    assert(b.subrange(0, 9) =~= magic());
    assert(b.subrange(10, 12) =~= le_bytes(0, 2));
    assert(b.subrange(12, 16) =~= le_bytes(n, 4));
    assert(b.subrange(16, 24) =~= le_bytes(path_total(es), 8));
    assert(b.subrange(24, 40) =~= le_bytes(data_total(es), 16));
}

/// Mapping record `i` of an encoding holds the offsets of entry `i`.
proof fn lemma_record(es: Seq<EntryModel>, i: int)
    requires
        encodable(es),
        0 <= i < es.len(),
    ensures
        record_path_offset(encode(es), i) == path_offset(es, i),
        record_data_offset(encode(es), i) == data_offset(es, i),
{
    let n = es.len();
    let pp = path_pieces(es);
    let dp = data_pieces(es);
    let mp = mapping_pieces(es);
    lemma_header(es);
    assert(pp.take(n as int) =~= pp);
    assert(dp.take(n as int) =~= dp);
    lemma_pow256_16();
    lemma_cat_len_monotone(pp, i, n as int);
    lemma_cat_len_monotone(dp, i, n as int);
    let po = path_offset(es, i);
    let d = data_offset(es, i);
    lemma_le_round_trip(po, 8);
    lemma_le_round_trip(d, 16);
    let head = mp.take(i);
    assert forall|j: int| 0 <= j < head.len() implies (#[trigger] head[j]).len() == 32 by {
        lemma_cat_len_monotone(pp, j, n as int);
        lemma_cat_len_monotone(dp, j, n as int);
        lemma_le_round_trip(path_offset(es, j), 8);
        lemma_le_round_trip(data_offset(es, j), 16);
    }
    lemma_cat_uniform(head, 32);
    lemma_cat_piece(mp, i);
    let m = cat(mp);
    let b = encode(es);
    let ms = 64 + data_total(es);
    let off = 32 * i;
    let rec = m.subrange(off, off + 32);
    assert(rec == mp[i]);
    assert(b.subrange(ms + off, ms + off + 8) =~= rec.subrange(0, 8));
    assert(rec.subrange(0, 8) =~= le_bytes(po, 8));
    assert(b.subrange(ms + off + 8, ms + off + 24) =~= rec.subrange(8, 24));
    assert(rec.subrange(8, 24) =~= le_bytes(d, 16));
}

/// Where each entry of an encoding ends, and that the offsets grow.
proof fn lemma_ends(es: Seq<EntryModel>, i: int)
    requires
        encodable(es),
        0 <= i < es.len(),
    ensures
        record_path_offset(encode(es), i) == path_offset(es, i),
        record_data_offset(encode(es), i) == data_offset(es, i),
        path_end(encode(es), i) == path_offset(es, i + 1),
        data_end(encode(es), i) == data_offset(es, i + 1),
        path_offset(es, i + 1) == path_offset(es, i) + path_pieces(es)[i].len(),
        data_offset(es, i + 1) == data_offset(es, i) + data_pieces(es)[i].len(),
        path_offset(es, i + 1) <= path_total(es),
        data_offset(es, i + 1) <= data_total(es),
{
    let n = es.len();
    let pp = path_pieces(es);
    let dp = data_pieces(es);
    lemma_header(es);
    lemma_record(es, i);
    assert(pp.take(n as int) =~= pp);
    assert(dp.take(n as int) =~= dp);
    lemma_cat_piece(pp, i);
    lemma_cat_piece(dp, i);
    if i + 1 < n {
        lemma_record(es, i + 1);
    }
}

/// A legal label is stored as legal bytes, and reads back as itself.
proof fn lemma_path_bytes(c: Seq<char>)
    requires
        crate::path::legal_chars(c),
    ensures
        legal_bytes(path_bytes(c)),
        path_text(path_bytes(c)) == c,
{
    assert(path_text(path_bytes(c)) =~= c);
}

/// Entry `i` of an encoding reads back as the entry itself, in any prefix
/// of the encoding that holds its path; in a shorter one its path cannot be
/// read.
proof fn lemma_entry_in_prefix(es: Seq<EntryModel>, k: int, i: int)
    requires
        legal_entries(es),
        encodable(es),
        0 <= i < es.len(),
        path_start(encode(es)) <= k <= encode(es).len(),
    ensures
        path_start(encode(es)) + path_offset(es, i + 1) <= k ==> decode_entry(
            encode(es).take(k),
            i,
        ) == Ok::<EntryModel, Error>(es[i]),
        path_start(encode(es)) + path_offset(es, i + 1) > k ==> decode_entry(
            encode(es).take(k),
            i,
        ) == Err::<EntryModel, Error>(Error::PathReadError { index: i as usize }),
{
    let n = es.len();
    let b = encode(es);
    let t = b.take(k);
    let pp = path_pieces(es);
    let dp = data_pieces(es);
    lemma_header(es);
    lemma_ends(es, i);
    let ms = mapping_start(b);
    let ps = path_start(b);
    assert(t.subrange(10, 12) =~= b.subrange(10, 12));
    assert(t.subrange(12, 16) =~= b.subrange(12, 16));
    assert(t.subrange(16, 24) =~= b.subrange(16, 24));
    assert(t.subrange(24, 40) =~= b.subrange(24, 40));
    assert(t.subrange(ms + 32 * i, ms + 32 * i + 8) =~= b.subrange(
        ms + 32 * i,
        ms + 32 * i + 8,
    ));
    assert(t.subrange(ms + 32 * i + 8, ms + 32 * i + 24) =~= b.subrange(
        ms + 32 * i + 8,
        ms + 32 * i + 24,
    ));
    if i + 1 < n {
        assert(t.subrange(ms + 32 * (i + 1), ms + 32 * (i + 1) + 8) =~= b.subrange(
            ms + 32 * (i + 1),
            ms + 32 * (i + 1) + 8,
        ));
        assert(t.subrange(ms + 32 * (i + 1) + 8, ms + 32 * (i + 1) + 24) =~= b.subrange(
            ms + 32 * (i + 1) + 8,
            ms + 32 * (i + 1) + 24,
        ));
    }
    assert(record_path_offset(t, i) == record_path_offset(b, i));
    assert(record_data_offset(t, i) == record_data_offset(b, i));
    assert(path_end(t, i) == path_end(b, i));
    assert(data_end(t, i) == data_end(b, i));
    if ps + path_offset(es, i + 1) <= k {
        let pm = cat(pp);
        let dm = cat(dp);
        lemma_cat_piece(pp, i);
        lemma_cat_piece(dp, i);
        let po = path_offset(es, i);
        let pe = path_offset(es, i + 1);
        assert(pm.subrange(po as int, pe as int) == pp[i]);
        assert(stored_path(t, i) =~= pm.subrange(po as int, pe as int));
        lemma_path_bytes(es[i].0);
        let d0 = data_offset(es, i);
        let d1 = data_offset(es, i + 1);
        assert(dm.subrange(d0 as int, d1 as int) == dp[i]);
        assert(stored_data(t, i) =~= dm.subrange(d0 as int, d1 as int));
    }
}

/// Reading the first `m` entries of a prefix of an encoding that holds the
/// whole mapping table gives the first `m` entries, or fails on a path.
proof fn lemma_entries_in_prefix(es: Seq<EntryModel>, k: int, m: nat)
    requires
        legal_entries(es),
        encodable(es),
        m <= es.len(),
        path_start(encode(es)) <= k <= encode(es).len(),
    ensures
        match decode_entries(encode(es).take(k), m) {
            Ok(s) => s == es.take(m as int) && path_start(encode(es)) + path_offset(es, m as int)
                <= k,
            Err(e) => e is PathReadError,
        },
        k == encode(es).len() ==> decode_entries(encode(es).take(k), m) is Ok,
    decreases m,
{
    let t = encode(es).take(k);
    let n = es.len();
    lemma_header(es);
    assert(path_pieces(es).take(n as int) =~= path_pieces(es));
    lemma_cat_len_monotone(path_pieces(es), m as int, n as int);
    if m == 0 {
        assert(es.take(0) =~= Seq::<EntryModel>::empty());
    } else {
        lemma_entries_in_prefix(es, k, (m - 1) as nat);
        lemma_entry_in_prefix(es, k, m - 1);
        if decode_entries(t, (m - 1) as nat) is Ok {
            assert(es.take(m as int) =~= es.take(m - 1).push(es[m - 1]));
        }
    }
}

/// Reading back an encoding of legal entries gives the same entries, in the
/// same order.
pub proof fn lemma_round_trip(es: Seq<EntryModel>)
    requires
        legal_entries(es),
        encodable(es),
    ensures
        decode(encode(es)) == Ok::<Seq<EntryModel>, Error>(es),
{
    let n = es.len();
    let b = encode(es);
    lemma_header(es);
    assert(b.take(b.len() as int) =~= b);
    assert(path_pieces(es).take(n as int) =~= path_pieces(es));
    lemma_entries_in_prefix(es, b.len() as int, n);
    assert(es.take(n as int) =~= es);
    if n > 0 {
        lemma_ends(es, n - 1);
    }
}

/// Encoding is a function of the entries alone: equal entry sequences give
/// byte-identical encodings.
pub proof fn lemma_encode_deterministic(a: Seq<EntryModel>, b: Seq<EntryModel>)
    requires
        a == b,
    ensures
        encode(a) == encode(b),
{
}

/// A buffer long enough for a header whose first nine bytes are not the
/// signature is rejected as `WrongMagicValue`, whatever follows.
pub proof fn lemma_magic_gate(b: Seq<u8>)
    requires
        b.len() >= 64,
        b.subrange(0, 9) != magic(),
    ensures
        decode(b) == Err::<Seq<EntryModel>, Error>(Error::WrongMagicValue),
{
}

/// Reading any proper prefix of an encoding of legal entries fails with
/// `HeaderReadError`, `MappingReadError` or `PathReadError`.
pub proof fn lemma_truncation(es: Seq<EntryModel>, k: int)
    requires
        legal_entries(es),
        encodable(es),
        0 <= k < encode(es).len(),
    ensures
        decode(encode(es).take(k)) is Err,
        decode(encode(es).take(k))->Err_0 is HeaderReadError || decode(
            encode(es).take(k),
        )->Err_0 is MappingReadError || decode(encode(es).take(k))->Err_0 is PathReadError,
{
    let n = es.len();
    let b = encode(es);
    let t = b.take(k);
    lemma_header(es);
    assert(path_pieces(es).take(n as int) =~= path_pieces(es));
    if k >= 64 {
        assert(t.subrange(0, 9) =~= b.subrange(0, 9));
        assert(t.subrange(10, 12) =~= b.subrange(10, 12));
        assert(t.subrange(12, 16) =~= b.subrange(12, 16));
        assert(t.subrange(16, 24) =~= b.subrange(16, 24));
        assert(t.subrange(24, 40) =~= b.subrange(24, 40));
        assert(n > 0);
        if k >= path_start(b) {
            lemma_entries_in_prefix(es, k, n);
        }
    }
}

/// The encoding of no entries is a bare header that counts no entries and
/// two empty regions, and it reads back as no entries.
pub proof fn lemma_empty_archive()
    ensures
        encode(Seq::<EntryModel>::empty()).len() == 64,
        header_count(encode(Seq::<EntryModel>::empty())) == 0,
        header_paths(encode(Seq::<EntryModel>::empty())) == 0,
        header_data(encode(Seq::<EntryModel>::empty())) == 0,
        decode(encode(Seq::<EntryModel>::empty())) == Ok::<Seq<EntryModel>, Error>(
            Seq::<EntryModel>::empty(),
        ),
{
    let es = Seq::<EntryModel>::empty();
    assert(path_total(es) == 0);
    assert(data_total(es) == 0);
    assert(encodable(es));
    lemma_header(es);
    lemma_round_trip(es);
}

} // verus!
