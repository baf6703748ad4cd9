//! The binary MO catalog codec.
//!
//! Layout: a 28-byte header of little-endian 32-bit words (magic,
//! revision, string count N, offset of the originals table, offset of the
//! translations table, hash size 0, hash offset 0), two tables of N
//! (length, offset) pairs, and a trailing pool where every string lies as
//! raw UTF-8 bytes closed by one NUL byte. A context is fused to its
//! source text as `context \x04 source`.

use rayon::iter::{IntoParallelIterator, ParallelIterator};
use vstd::prelude::*;
use vstd::bytes::{spec_u32_from_le_bytes, spec_u32_to_le_bytes, u32_to_le_bytes};
use vstd::relations::sorted_by;
use vstd::utf8::{decode_utf8, encode_utf8, valid_utf8};
use crate::entry::{
    collect_catalog, entries_map, entry_le_rel, lemma_entries_map_perm, lemma_seq_multiset_elems,
    nonempty_sources, sort_entries, spec_collect, spec_upsert, unique_keys, views, Catalog, Entry,
    EntryV,
};
use crate::errors::CatalogError;

verus! {

/// The magic number that opens every little-endian MO file.
pub const MO_MAGIC: u32 = 0x950412DE;

/// The pool bytes of one entry's key: the source text, prefixed by
/// `context \x04` when a context is present.
pub open spec fn mo_key_bytes(e: EntryV) -> Seq<u8> {
    match e.context {
        Some(c) => encode_utf8(c) + seq![4u8] + encode_utf8(e.source),
        None => encode_utf8(e.source),
    }
}

/// The pool bytes of one entry's translation.
pub open spec fn mo_val_bytes(e: EntryV) -> Seq<u8> {
    encode_utf8(e.translated)
}

/// The serialized (key, value) string pairs of a catalog: the header
/// pseudo-entry (empty key) first when present, then the entries.
pub open spec fn mo_items(hv: Option<Seq<char>>, es: Seq<EntryV>) -> Seq<(Seq<u8>, Seq<u8>)> {
    let tail = es.map_values(|e: EntryV| (mo_key_bytes(e), mo_val_bytes(e)));
    match hv {
        Some(h) => seq![(Seq::<u8>::empty(), encode_utf8(h))] + tail,
        None => tail,
    }
}

/// The string pool: each key and each value in item order, NUL-closed.
pub open spec fn pool_bytes(items: Seq<(Seq<u8>, Seq<u8>)>) -> Seq<u8>
    decreases items.len(),
{
    if items.len() == 0 {
        Seq::empty()
    } else {
        pool_bytes(items.drop_last()) + items.last().0 + seq![0u8] + items.last().1 + seq![0u8]
    }
}

/// Offset of item `i`'s key within the pool.
pub open spec fn key_pool_off(items: Seq<(Seq<u8>, Seq<u8>)>, i: int) -> int {
    pool_bytes(items.take(i)).len() as int
}

/// Offset of item `i`'s value within the pool.
pub open spec fn val_pool_off(items: Seq<(Seq<u8>, Seq<u8>)>, i: int) -> int {
    key_pool_off(items, i) + items[i].0.len() + 1
}

/// Offset of the pool in the whole file: header plus both tables.
pub open spec fn str_base(n: int) -> int {
    28 + 16 * n
}

/// The string length written for item `i` in one of the tables.
pub open spec fn tbl_len(items: Seq<(Seq<u8>, Seq<u8>)>, keys: bool, i: int) -> int {
    if keys {
        items[i].0.len() as int
    } else {
        items[i].1.len() as int
    }
}

/// The file offset written for item `i` in one of the tables.
pub open spec fn tbl_off(items: Seq<(Seq<u8>, Seq<u8>)>, keys: bool, i: int) -> int {
    str_base(items.len() as int) + if keys {
        key_pool_off(items, i)
    } else {
        val_pool_off(items, i)
    }
}

/// One offset table from item `i` on: (length, file offset) word pairs,
/// for the keys when `keys` is set, else for the values.
pub open spec fn table_bytes(items: Seq<(Seq<u8>, Seq<u8>)>, keys: bool, i: int) -> Seq<u8>
    decreases items.len() - i,
    when 0 <= i <= items.len()
{
    if i >= items.len() {
        Seq::empty()
    } else {
        spec_u32_to_le_bytes(tbl_len(items, keys, i) as u32) + spec_u32_to_le_bytes(
            tbl_off(items, keys, i) as u32,
        ) + table_bytes(items, keys, i + 1)
    }
}

/// Whether every file offset fits in the 32-bit fields.
pub open spec fn mo_fits(items: Seq<(Seq<u8>, Seq<u8>)>) -> bool {
    str_base(items.len() as int) + pool_bytes(items).len() <= u32::MAX
}

/// The whole encoded file.
pub open spec fn spec_encode_mo(items: Seq<(Seq<u8>, Seq<u8>)>) -> Seq<u8> {
    spec_u32_to_le_bytes(MO_MAGIC) + spec_u32_to_le_bytes(0u32) + spec_u32_to_le_bytes(
        items.len() as u32,
    ) + spec_u32_to_le_bytes(28u32) + spec_u32_to_le_bytes((28 + 8 * items.len()) as u32)
        + spec_u32_to_le_bytes(0u32) + spec_u32_to_le_bytes(0u32) + table_bytes(items, true, 0)
        + table_bytes(items, false, 0) + pool_bytes(items)
}

/// `bytes` is the encoding of the catalog with header `hv` and entries
/// `evs`, through the sorted output order `es`.
pub open spec fn mo_encodes(
    hv: Option<Seq<char>>,
    evs: Seq<EntryV>,
    bytes: Seq<u8>,
    es: Seq<EntryV>,
) -> bool {
    &&& sorted_by(es, entry_le_rel())
    &&& es.to_multiset() == evs.to_multiset()
    &&& mo_fits(mo_items(hv, es))
    &&& bytes == spec_encode_mo(mo_items(hv, es))
}

/// Some sorted output order of the catalog's entries encodes to `bytes`.
pub open spec fn mo_encode_ok(hv: Option<Seq<char>>, evs: Seq<EntryV>, bytes: Seq<u8>) -> bool {
    exists|es: Seq<EntryV>| #[trigger] mo_encodes(hv, evs, bytes, es)
}

/// The catalog is too large for 32-bit file offsets.
pub open spec fn mo_overflows(hv: Option<Seq<char>>, evs: Seq<EntryV>) -> bool {
    exists|es: Seq<EntryV>|
        {
            &&& sorted_by(es, entry_le_rel())
            &&& #[trigger] es.to_multiset() == evs.to_multiset()
            &&& !mo_fits(mo_items(hv, es))
        }
}

/// Taking one more item extends the pool by that item's strings.
pub proof fn lemma_pool_take_snoc(items: Seq<(Seq<u8>, Seq<u8>)>, i: int)
    requires
        0 <= i < items.len(),
    ensures
        pool_bytes(items.take(i + 1)) == pool_bytes(items.take(i)) + items[i].0 + seq![0u8]
            + items[i].1 + seq![0u8],
{
    assert(items.take(i + 1).drop_last() =~= items.take(i));
    assert(items.take(i + 1).last() == items[i]);
}

/// Pool prefixes never shrink, and each item's strings lie inside the
/// whole pool.
pub proof fn lemma_pool_take_bound(items: Seq<(Seq<u8>, Seq<u8>)>, i: int)
    requires
        0 <= i <= items.len(),
    ensures
        pool_bytes(items.take(i)).len() <= pool_bytes(items).len(),
        i < items.len() ==> key_pool_off(items, i) + items[i].0.len() + 1 + items[i].1.len() + 1
            <= pool_bytes(items).len(),
    decreases items.len() - i,
{
    if i == items.len() {
        assert(items.take(i) =~= items);
    } else {
        lemma_pool_take_bound(items, i + 1);
        lemma_pool_take_snoc(items, i);
    }
}

/// The byte views of materialized (key, value) pairs.
pub open spec fn pairs_view(items: Seq<(Vec<u8>, Vec<u8>)>) -> Seq<(Seq<u8>, Seq<u8>)> {
    items.map_values(|p: (Vec<u8>, Vec<u8>)| (p.0@, p.1@))
}

/// Materializes the (key, value) byte pairs of a catalog in item order.
fn build_mo_items(header: &Option<String>, sorted: &Vec<Entry>) -> (items: Vec<(Vec<u8>, Vec<u8>)>)
    ensures
        pairs_view(items@) == mo_items(
            match header {
                Some(h) => Some(h@),
                None => None,
            },
            views(sorted@),
        ),
{
    let ghost es = views(sorted@);
    let ghost hv: Option<Seq<char>> = match header {
        Some(h) => Some(h@),
        None => None,
    };
    let ghost items_v = mo_items(hv, es);
    let mut items: Vec<(Vec<u8>, Vec<u8>)> = Vec::new();
    if let Some(h) = header {
        let hb = h.as_str().as_bytes_vec();
        items.push((Vec::new(), hb));
    }
    proof {
        let k = items@.len() as int;
        assert(pairs_view(items@) =~= items_v.take(k));
    }
    let mut i: usize = 0;
    let n_e = sorted.len();
    let ghost head_n = items@.len() as int;
    while i < n_e
        invariant
            i <= n_e,
            n_e == sorted@.len(),
            es == views(sorted@),
            items_v == mo_items(hv, es),
            items_v.len() == head_n + n_e,
            items@.len() == head_n + i,
            pairs_view(items@) == items_v.take(head_n + i),
        decreases n_e - i,
    {
        let e = &sorted[i];
        let mut kb: Vec<u8> = Vec::new();
        if let Some(ctx) = &e.context {
            kb = ctx.as_str().as_bytes_vec();
            kb.push(4u8);
        }
        let mut sb = e.source_text.as_str().as_bytes_vec();
        kb.append(&mut sb);
        let vb = e.translated_text.as_str().as_bytes_vec();
        proof {
            assert(views(sorted@)[i as int] == sorted@[i as int]@);
            assert(kb@ =~= mo_key_bytes(es[i as int]));
            assert(vb@ == mo_val_bytes(es[i as int]));
            assert(items_v[head_n + i] == (mo_key_bytes(es[i as int]), mo_val_bytes(es[i as int])));
        }
        items.push((kb, vb));
        proof {
            assert(pairs_view(items@) =~= items_v.take(head_n + i + 1));
        }
        i = i + 1;
    }
    proof {
        assert(items_v.take(items_v.len() as int) =~= items_v);
        assert(pairs_view(items@) == items_v);
    }
    items
}

/// Lays out the string pool of the given items.
fn build_mo_pool(items: &Vec<(Vec<u8>, Vec<u8>)>) -> (pool: Vec<u8>)
    ensures
        pool@ == pool_bytes(pairs_view(items@)),
{
    let ghost items_v = pairs_view(items@);
    let n = items.len();
    let mut pool: Vec<u8> = Vec::new();
    let mut j: usize = 0;
    proof {
        assert(items_v.take(0) =~= Seq::<(Seq<u8>, Seq<u8>)>::empty());
    }
    while j < n
        invariant
            j <= n,
            n == items@.len(),
            items_v == pairs_view(items@),
            pool@ == pool_bytes(items_v.take(j as int)),
        decreases n - j,
    {
        proof {
            assert(items_v[j as int] == (items@[j as int].0@, items@[j as int].1@));
        }
        pool.extend_from_slice(items[j].0.as_slice());
        pool.push(0u8);
        pool.extend_from_slice(items[j].1.as_slice());
        pool.push(0u8);
        proof {
            lemma_pool_take_snoc(items_v, j as int);
            assert(pool@ =~= pool_bytes(items_v.take(j as int + 1)));
        }
        j = j + 1;
    }
    proof {
        assert(items_v.take(n as int) =~= items_v);
    }
    pool
}

/// Writes both offset tables of the given items.
fn build_mo_tables(items: &Vec<(Vec<u8>, Vec<u8>)>) -> (r: (Vec<u8>, Vec<u8>))
    requires
        mo_fits(pairs_view(items@)),
    ensures
        r.0@ == table_bytes(pairs_view(items@), true, 0),
        r.1@ == table_bytes(pairs_view(items@), false, 0),
{
    let ghost items_v = pairs_view(items@);
    let n = items.len();
    proof {
        lemma_pool_take_bound(items_v, 0);
    }
    let base: usize = 28 + 16 * n;
    let mut otab: Vec<u8> = Vec::new();
    let mut ttab: Vec<u8> = Vec::new();
    let mut pos: usize = 0;
    let mut j: usize = 0;
    proof {
        assert(items_v.take(0) =~= Seq::<(Seq<u8>, Seq<u8>)>::empty());
        assert(table_bytes(items_v, true, 0) == otab@ + table_bytes(items_v, true, 0));
        assert(table_bytes(items_v, false, 0) == ttab@ + table_bytes(items_v, false, 0));
    }
    while j < n
        invariant
            j <= n,
            n == items@.len(),
            items_v == pairs_view(items@),
            base == 28 + 16 * n,
            base + pool_bytes(items_v).len() <= u32::MAX,
            pos == key_pool_off(items_v, j as int),
            pos <= pool_bytes(items_v).len(),
            table_bytes(items_v, true, 0) == otab@ + table_bytes(items_v, true, j as int),
            table_bytes(items_v, false, 0) == ttab@ + table_bytes(items_v, false, j as int),
        decreases n - j,
    {
        proof {
            assert(items_v[j as int] == (items@[j as int].0@, items@[j as int].1@));
            lemma_pool_take_bound(items_v, j as int);
        }
        let klen = items[j].0.len();
        let vlen = items[j].1.len();
        let ghost otab0 = otab@;
        let ghost ttab0 = ttab@;
        let mut w = u32_to_le_bytes(klen as u32);
        otab.append(&mut w);
        let mut w = u32_to_le_bytes((base + pos) as u32);
        otab.append(&mut w);
        let mut w = u32_to_le_bytes(vlen as u32);
        ttab.append(&mut w);
        let mut w = u32_to_le_bytes((base + pos + klen + 1) as u32);
        ttab.append(&mut w);
        proof {
            assert(items_v[j as int].0.len() == klen);
            assert(items_v[j as int].1.len() == vlen);
            assert(val_pool_off(items_v, j as int) == pos + klen + 1);
            assert(table_bytes(items_v, true, j as int) == spec_u32_to_le_bytes(klen as u32)
                + spec_u32_to_le_bytes((base + pos) as u32) + table_bytes(
                items_v,
                true,
                j as int + 1,
            ));
            assert(otab@ =~= otab0 + spec_u32_to_le_bytes(klen as u32) + spec_u32_to_le_bytes(
                (base + pos) as u32,
            ));
            assert(table_bytes(items_v, true, 0) == otab@ + table_bytes(items_v, true, j as int
                + 1));
            assert(table_bytes(items_v, false, j as int) == spec_u32_to_le_bytes(vlen as u32)
                + spec_u32_to_le_bytes((base + pos + klen + 1) as u32) + table_bytes(
                items_v,
                false,
                j as int + 1,
            ));
            assert(ttab@ =~= ttab0 + spec_u32_to_le_bytes(vlen as u32) + spec_u32_to_le_bytes(
                (base + pos + klen + 1) as u32,
            ));
            assert(table_bytes(items_v, false, 0) == ttab@ + table_bytes(items_v, false, j as int
                + 1));
            lemma_pool_take_snoc(items_v, j as int);
        }
        pos = pos + klen + 1 + vlen + 1;
        j = j + 1;
    }
    proof {
        assert(table_bytes(items_v, true, n as int) =~= Seq::<u8>::empty());
        assert(table_bytes(items_v, false, n as int) =~= Seq::<u8>::empty());
        assert(otab@ =~= table_bytes(items_v, true, 0));
        assert(ttab@ =~= table_bytes(items_v, false, 0));
    }
    (otab, ttab)
}

/// Serializes a catalog to MO bytes. The entries are emitted sorted by
/// source text (header pseudo-entry first); encoding fails exactly when
/// the file would outgrow its 32-bit offsets.
pub fn encode_mo(c: Catalog) -> (r: Result<Vec<u8>, CatalogError>)
    ensures
        match r {
            Ok(bytes) => mo_encode_ok(c.header_view(), c.evs(), bytes@),
            Err(e) => e == (CatalogError::Format { line: 0 }) && mo_overflows(
                c.header_view(),
                c.evs(),
            ),
        },
{
    let ghost hv = c.header_view();
    let ghost evs0 = c.evs();
    let header = c.header;
    let sorted = sort_entries(c.entries);
    let ghost es = views(sorted@);
    let ghost items_v = mo_items(hv, es);

    let items = build_mo_items(&header, &sorted);
    let pool = build_mo_pool(&items);
    let n = items.len();

    // 32-bit size check.
    let max32 = u32::MAX as usize;
    if n > (max32 - 28) / 16 || pool.len() > max32 - (28 + 16 * n) {
        proof {
            assert(!mo_fits(items_v));
        }
        proof {
            assert(mo_overflows(hv, evs0));
            assert(hv == c.header_view());
            assert(evs0 == c.evs());
            assert(mo_overflows(c.header_view(), c.evs()));
        }
        return Err(CatalogError::Format { line: 0 });
    }
    proof {
        assert(mo_fits(items_v));
    }

    let mut out: Vec<u8> = Vec::new();
    let mut w = u32_to_le_bytes(MO_MAGIC);
    out.append(&mut w);
    let mut w = u32_to_le_bytes(0u32);
    out.append(&mut w);
    let mut w = u32_to_le_bytes(n as u32);
    out.append(&mut w);
    let mut w = u32_to_le_bytes(28u32);
    out.append(&mut w);
    let mut w = u32_to_le_bytes((28 + 8 * n) as u32);
    out.append(&mut w);
    let mut w = u32_to_le_bytes(0u32);
    out.append(&mut w);
    let mut w = u32_to_le_bytes(0u32);
    out.append(&mut w);

    let (mut otab, mut ttab) = build_mo_tables(&items);
    let mut pool = pool;
    out.append(&mut otab);
    out.append(&mut ttab);
    out.append(&mut pool);
    proof {
        assert(out@ =~= spec_encode_mo(items_v));
        assert(mo_encodes(c.header_view(), c.evs(), out@, es));
        assert(mo_encode_ok(c.header_view(), c.evs(), out@));
    }
    Ok(out)
}

/// Little-endian 32-bit read at byte offset `off`.
pub open spec fn spec_read_u32(b: Seq<u8>, off: int) -> u32 {
    spec_u32_from_le_bytes(b.subrange(off, off + 4))
}

/// The file is long enough for a header and opens with the magic number.
pub open spec fn mo_header_ok(b: Seq<u8>) -> bool {
    b.len() >= 20 && spec_read_u32(b, 0) == MO_MAGIC
}

/// The declared string count.
pub open spec fn mo_n(b: Seq<u8>) -> u32 {
    spec_read_u32(b, 8)
}

/// The declared offset of the originals table.
pub open spec fn mo_ot(b: Seq<u8>) -> u32 {
    spec_read_u32(b, 12)
}

/// The declared offset of the translations table.
pub open spec fn mo_tt(b: Seq<u8>) -> u32 {
    spec_read_u32(b, 16)
}

/// First index of the context separator byte 0x04, or the length.
pub open spec fn first_sep(b: Seq<u8>) -> int
    decreases b.len(),
{
    if b.len() == 0 {
        0
    } else if b[0] == 4u8 {
        0
    } else {
        1 + first_sep(b.skip(1))
    }
}

pub proof fn lemma_first_sep(b: Seq<u8>)
    ensures
        0 <= first_sep(b) <= b.len(),
        first_sep(b) < b.len() ==> b[first_sep(b)] == 4u8,
        forall|k: int| 0 <= k < first_sep(b) ==> b[k] != 4u8,
    decreases b.len(),
{
    if b.len() > 0 && b[0] != 4u8 {
        lemma_first_sep(b.skip(1));
        assert forall|k: int| 0 <= k < first_sep(b) implies b[k] != 4u8 by {
            if k > 0 {
                assert(b.skip(1)[k - 1] == b[k]);
            }
        }
    }
}

/// The raw (key, value) byte strings of item `i`, when every offset is
/// inside the buffer.
pub open spec fn spec_item_bytes(b: Seq<u8>, ot: int, tt: int, i: int) -> Option<(
    Seq<u8>,
    Seq<u8>,
)> {
    if ot + 8 * i + 8 > b.len() || tt + 8 * i + 8 > b.len() {
        None
    } else {
        let klen = spec_read_u32(b, ot + 8 * i) as int;
        let koff = spec_read_u32(b, ot + 8 * i + 4) as int;
        let vlen = spec_read_u32(b, tt + 8 * i) as int;
        let voff = spec_read_u32(b, tt + 8 * i + 4) as int;
        if koff + klen > b.len() || voff + vlen > b.len() {
            None
        } else {
            Some((b.subrange(koff, koff + klen), b.subrange(voff, voff + vlen)))
        }
    }
}

/// Decodes one (key, value) byte pair: split the key at the first 0x04
/// into context and source, and read all parts as UTF-8.
pub open spec fn spec_decode_pair(kb: Seq<u8>, vb: Seq<u8>) -> Option<EntryV> {
    if !valid_utf8(vb) {
        None
    } else {
        let j = first_sep(kb);
        if j == kb.len() {
            if valid_utf8(kb) {
                Some(decoded_entry(None, decode_utf8(kb), decode_utf8(vb)))
            } else {
                None
            }
        } else {
            let cb = kb.subrange(0, j);
            let sb = kb.skip(j + 1);
            if valid_utf8(cb) && valid_utf8(sb) {
                Some(decoded_entry(Some(decode_utf8(cb)), decode_utf8(sb), decode_utf8(vb)))
            } else {
                None
            }
        }
    }
}

/// A freshly decoded entry: no comments, flags or provenance.
pub open spec fn decoded_entry(
    context: Option<Seq<char>>,
    source: Seq<char>,
    translated: Seq<char>,
) -> EntryV {
    EntryV {
        context,
        source,
        translated,
        comments: Seq::empty(),
        fuzzy: false,
        from_main: false,
        line: 0,
    }
}

/// The decoded entry at index `i`, or `None` on any malformation there.
pub open spec fn spec_decode_entry(b: Seq<u8>, ot: int, tt: int, i: int) -> Option<EntryV> {
    match spec_item_bytes(b, ot, tt, i) {
        None => None,
        Some((kb, vb)) => spec_decode_pair(kb, vb),
    }
}

/// Every entry of the file decodes.
pub open spec fn mo_decode_ok(b: Seq<u8>) -> bool {
    &&& mo_header_ok(b)
    &&& forall|i: int|
        0 <= i < mo_n(b) ==> (#[trigger] spec_decode_entry(
            b,
            mo_ot(b) as int,
            mo_tt(b) as int,
            i,
        )) is Some
}

/// The decoded entries of a well-formed file, in file order.
pub open spec fn decoded_items(b: Seq<u8>) -> Seq<EntryV> {
    Seq::new(
        mo_n(b) as nat,
        |i: int| spec_decode_entry(b, mo_ot(b) as int, mo_tt(b) as int, i).unwrap(),
    )
}

/// Relies on String::from_utf8: succeeds exactly on valid UTF-8 and
/// decodes it.
#[verifier::external_body]
fn string_from_utf8(v: Vec<u8>) -> (r: Option<String>)
    ensures
        match r {
            Some(s) => valid_utf8(v@) && s@ == decode_utf8(v@),
            None => !valid_utf8(v@),
        },
{
    String::from_utf8(v).ok()
}

/// Little-endian 32-bit read from the buffer.
fn read_u32_at(buf: &Vec<u8>, off: usize) -> (x: u32)
    requires
        off + 4 <= buf@.len(),
    ensures
        x == spec_read_u32(buf@, off as int),
{
    let n = buf.len();
    proof {
        assert(off + 4 <= n);
    }
    let s = vstd::slice::slice_subrange(buf.as_slice(), off, off + 4);
    vstd::bytes::u32_from_le_bytes(s)
}

/// Decodes the entry at index `i` of the buffer.
pub fn decode_entry(buf: &Vec<u8>, i: u32, ot: u32, tt: u32) -> (r: Result<Entry, CatalogError>)
    ensures
        match r {
            Ok(e) => spec_decode_entry(buf@, ot as int, tt as int, i as int) == Some(e@),
            Err(err) => {
                &&& spec_decode_entry(buf@, ot as int, tt as int, i as int) is None
                &&& err == (CatalogError::Format { line: 0 })
            },
        },
{
    let len64 = buf.len() as u64;
    let o64 = ot as u64 + 8u64 * (i as u64);
    let t64 = tt as u64 + 8u64 * (i as u64);
    if o64 + 8 > len64 || t64 + 8 > len64 {
        return Err(CatalogError::Format { line: 0 });
    }
    let o = o64 as usize;
    let t = t64 as usize;
    let klen = read_u32_at(buf, o) as usize;
    let koff = read_u32_at(buf, o + 4) as usize;
    let vlen = read_u32_at(buf, t) as usize;
    let voff = read_u32_at(buf, t + 4) as usize;
    if koff as u64 + klen as u64 > len64 || voff as u64 + vlen as u64 > len64 {
        return Err(CatalogError::Format { line: 0 });
    }
    let kb = vstd::slice::slice_to_vec(
        vstd::slice::slice_subrange(buf.as_slice(), koff, koff + klen),
    );
    let vb = vstd::slice::slice_to_vec(
        vstd::slice::slice_subrange(buf.as_slice(), voff, voff + vlen),
    );
    let ghost kbs = kb@;
    let ghost vbs = vb@;

    let translated = match string_from_utf8(vb) {
        Some(s) => s,
        None => {
            return Err(CatalogError::Format { line: 0 });
        },
    };

    // Split the key at the first separator byte.
    let mut j: usize = 0;
    let kn = kb.len();
    while j < kn && kb[j] != 4u8
        invariant
            j <= kn,
            kn == kb@.len(),
            forall|k: int| 0 <= k < j ==> kb@[k] != 4u8,
        decreases kn - j,
    {
        j = j + 1;
    }
    proof {
        lemma_first_sep(kbs);
        if j < kn {
            assert(first_sep(kbs) == j) by {
                lemma_first_sep(kbs);
                if first_sep(kbs) < j {
                    assert(kbs[first_sep(kbs)] == 4u8);
                }
            }
        } else {
            if first_sep(kbs) < kbs.len() {
                assert(kbs[first_sep(kbs)] == 4u8);
            }
        }
        assert(first_sep(kbs) == j);
    }
    if j == kn {
        let source = match string_from_utf8(kb) {
            Some(s) => s,
            None => {
                return Err(CatalogError::Format { line: 0 });
            },
        };
        let e = Entry {
            context: None,
            source_text: source,
            translated_text: translated,
            comments: Vec::new(),
            is_fuzzy: false,
            from_main: false,
            line_number: 0,
        };
        proof {
            assert(e@.comments =~= Seq::<Seq<char>>::empty());
            assert(e@ =~= decoded_entry(None, decode_utf8(kbs), decode_utf8(vbs)));
        }
        Ok(e)
    } else {
        let cb = vstd::slice::slice_to_vec(vstd::slice::slice_subrange(kb.as_slice(), 0, j));
        let sb = vstd::slice::slice_to_vec(vstd::slice::slice_subrange(kb.as_slice(), j + 1, kn));
        proof {
            assert(cb@ == kbs.subrange(0, j as int));
            assert(sb@ =~= kbs.skip(j as int + 1));
        }
        let context = match string_from_utf8(cb) {
            Some(s) => s,
            None => {
                return Err(CatalogError::Format { line: 0 });
            },
        };
        let source = match string_from_utf8(sb) {
            Some(s) => s,
            None => {
                return Err(CatalogError::Format { line: 0 });
            },
        };
        let e = Entry {
            context: Some(context),
            source_text: source,
            translated_text: translated,
            comments: Vec::new(),
            is_fuzzy: false,
            from_main: false,
            line_number: 0,
        };
        proof {
            assert(e@.comments =~= Seq::<Seq<char>>::empty());
            assert(e@ =~= decoded_entry(
                Some(decode_utf8(kbs.subrange(0, j as int))),
                decode_utf8(kbs.skip(j as int + 1)),
                decode_utf8(vbs),
            ));
        }
        Ok(e)
    }
}

/// Relies on rayon: an indexed parallel map over `0..n`, collected into
/// `Result<Vec<_>, _>`, yields every index's result in index order, or
/// one of the raised errors (which one is unspecified).
#[verifier::external_body]
fn decode_entries_parallel(buf: &Vec<u8>, n: u32, ot: u32, tt: u32) -> (r: Result<
    Vec<Entry>,
    CatalogError,
>)
    ensures
        match r {
            Ok(v) => v@.len() == n && forall|i: int|
                0 <= i < n ==> #[trigger] spec_decode_entry(buf@, ot as int, tt as int, i) == Some(
                    v@[i]@,
                ),
            Err(e) => {
                &&& e == (CatalogError::Format { line: 0 })
                &&& exists|i: int|
                    0 <= i < n && #[trigger] spec_decode_entry(buf@, ot as int, tt as int, i)
                        is None
            },
        },
{
    (0..n).into_par_iter().map(|i| decode_entry(buf, i, ot, tt)).collect()
}

/// Parses MO bytes into a catalog: the first empty-source string becomes
/// the header, every other pair one entry (among equal keys the last
/// wins). Fails exactly on a short buffer, a wrong magic number, an
/// offset outside the buffer, or invalid UTF-8 in a string.
pub fn decode_mo(bytes: &Vec<u8>) -> (r: Result<Catalog, CatalogError>)
    ensures
        match r {
            Ok(c) => {
                &&& mo_decode_ok(bytes@)
                &&& ({
                    let (h, acc) = spec_collect(decoded_items(bytes@), None, Seq::empty());
                    c.header_view() == h && c.evs() == acc
                })
                &&& c.wf()
            },
            Err(e) => !mo_decode_ok(bytes@) && e == (CatalogError::Format { line: 0 }),
        },
{
    if bytes.len() < 20 {
        return Err(CatalogError::Format { line: 0 });
    }
    let magic = read_u32_at(bytes, 0);
    if magic != MO_MAGIC {
        return Err(CatalogError::Format { line: 0 });
    }
    let n = read_u32_at(bytes, 8);
    let ot = read_u32_at(bytes, 12);
    let tt = read_u32_at(bytes, 16);
    match decode_entries_parallel(bytes, n, ot, tt) {
        Ok(v) => {
            proof {
                assert(views(v@) =~= decoded_items(bytes@));
            }
            let c = collect_catalog(v);
            Ok(c)
        },
        Err(e) => {
            proof {
                let i = choose|i: int|
                    0 <= i < n && #[trigger] spec_decode_entry(
                        bytes@,
                        ot as int,
                        tt as int,
                        i,
                    ) is None;
                assert(!mo_decode_ok(bytes@));
            }
            Err(e)
        },
    }
}

/// The length of one offset table.
proof fn lemma_table_len(items: Seq<(Seq<u8>, Seq<u8>)>, keys: bool, i: int)
    requires
        0 <= i <= items.len(),
    ensures
        table_bytes(items, keys, i).len() == 8 * (items.len() - i),
    decreases items.len() - i,
{
    vstd::bytes::lemma_auto_spec_u32_to_from_le_bytes();
    if i < items.len() {
        lemma_table_len(items, keys, i + 1);
    }
}

/// The pool of concatenated item lists is the concatenation of the pools.
proof fn lemma_pool_concat(a: Seq<(Seq<u8>, Seq<u8>)>, b: Seq<(Seq<u8>, Seq<u8>)>)
    ensures
        pool_bytes(a + b) == pool_bytes(a) + pool_bytes(b),
    decreases b.len(),
{
    if b.len() == 0 {
        assert(a + b =~= a);
        assert(pool_bytes(a) + pool_bytes(b) =~= pool_bytes(a));
    } else {
        assert((a + b).drop_last() =~= a + b.drop_last());
        assert((a + b).last() == b.last());
        lemma_pool_concat(a, b.drop_last());
        assert(pool_bytes(a + b) =~= pool_bytes(a) + pool_bytes(b));
    }
}

/// The two table words of item `i`, read back out of the table bytes.
proof fn lemma_table_entry(items: Seq<(Seq<u8>, Seq<u8>)>, keys: bool, j: int, i: int)
    requires
        0 <= j <= i < items.len(),
    ensures
        table_bytes(items, keys, j).subrange(8 * (i - j), 8 * (i - j) + 4) == spec_u32_to_le_bytes(
            tbl_len(items, keys, i) as u32,
        ),
        table_bytes(items, keys, j).subrange(8 * (i - j) + 4, 8 * (i - j) + 8)
            == spec_u32_to_le_bytes(tbl_off(items, keys, i) as u32),
    decreases i - j,
{
    vstd::bytes::lemma_auto_spec_u32_to_from_le_bytes();
    lemma_table_len(items, keys, j + 1);
    let t = table_bytes(items, keys, j);
    let w1 = spec_u32_to_le_bytes(tbl_len(items, keys, j) as u32);
    let w2 = spec_u32_to_le_bytes(tbl_off(items, keys, j) as u32);
    let rest = table_bytes(items, keys, j + 1);
    assert(t == w1 + w2 + rest);
    if j == i {
        assert(t.subrange(0, 4) =~= w1);
        assert(t.subrange(4, 8) =~= w2);
    } else {
        lemma_table_entry(items, keys, j + 1, i);
        assert(t.subrange(8 * (i - j), 8 * (i - j) + 4) =~= rest.subrange(
            8 * (i - j - 1),
            8 * (i - j - 1) + 4,
        ));
        assert(t.subrange(8 * (i - j) + 4, 8 * (i - j) + 8) =~= rest.subrange(
            8 * (i - j - 1) + 4,
            8 * (i - j - 1) + 8,
        ));
    }
}

/// The raw item bytes of an encoded file are the serialized pairs.
proof fn lemma_mo_item_bytes(items: Seq<(Seq<u8>, Seq<u8>)>, i: int)
    requires
        0 <= i < items.len(),
        mo_fits(items),
    ensures
        spec_item_bytes(
            spec_encode_mo(items),
            28,
            28 + 8 * (items.len() as int),
            i,
        ) == Some((items[i].0, items[i].1)),
{
    vstd::bytes::lemma_auto_spec_u32_to_from_le_bytes();
    let n = items.len() as int;
    let b = spec_encode_mo(items);
    let head = spec_u32_to_le_bytes(MO_MAGIC) + spec_u32_to_le_bytes(0u32) + spec_u32_to_le_bytes(
        items.len() as u32,
    ) + spec_u32_to_le_bytes(28u32) + spec_u32_to_le_bytes((28 + 8 * items.len()) as u32)
        + spec_u32_to_le_bytes(0u32) + spec_u32_to_le_bytes(0u32);
    let ot = table_bytes(items, true, 0);
    let tt = table_bytes(items, false, 0);
    let pool = pool_bytes(items);
    lemma_table_len(items, true, 0);
    lemma_table_len(items, false, 0);
    assert(head.len() == 28);
    assert(b =~= head + ot + tt + pool);
    assert(b.len() == 28 + 16 * n + pool.len());
    lemma_pool_take_bound(items, i);
    lemma_table_entry(items, true, 0, i);
    lemma_table_entry(items, false, 0, i);

    // Read the originals table words.
    assert(b.subrange(28 + 8 * i, 28 + 8 * i + 4) =~= ot.subrange(8 * i, 8 * i + 4));
    assert(b.subrange(28 + 8 * i + 4, 28 + 8 * i + 8) =~= ot.subrange(8 * i + 4, 8 * i + 8));
    // Read the translations table words.
    assert(b.subrange(28 + 8 * n + 8 * i, 28 + 8 * n + 8 * i + 4) =~= tt.subrange(
        8 * i,
        8 * i + 4,
    ));
    assert(b.subrange(28 + 8 * n + 8 * i + 4, 28 + 8 * n + 8 * i + 8) =~= tt.subrange(
        8 * i + 4,
        8 * i + 8,
    ));
    let klen = items[i].0.len() as int;
    let vlen = items[i].1.len() as int;
    let koff = 28 + 16 * n + key_pool_off(items, i);
    let voff = 28 + 16 * n + val_pool_off(items, i);
    assert(spec_read_u32(b, 28 + 8 * i) == (tbl_len(items, true, i) as u32));
    assert(spec_read_u32(b, 28 + 8 * i + 4) == (tbl_off(items, true, i) as u32));
    assert(spec_read_u32(b, 28 + 8 * n + 8 * i) == (tbl_len(items, false, i) as u32));
    assert(spec_read_u32(b, 28 + 8 * n + 8 * i + 4) == (tbl_off(items, false, i) as u32));
    assert(0 <= key_pool_off(items, i));
    assert((tbl_len(items, true, i) as u32) as int == klen);
    assert((tbl_off(items, true, i) as u32) as int == koff);
    assert((tbl_len(items, false, i) as u32) as int == vlen);
    assert((tbl_off(items, false, i) as u32) as int == voff);

    // Slice the pool.
    assert(items =~= items.take(i + 1) + items.skip(i + 1));
    lemma_pool_concat(items.take(i + 1), items.skip(i + 1));
    lemma_pool_take_snoc(items, i);
    assert(pool == (pool_bytes(items.take(i)) + items[i].0 + seq![0u8] + items[i].1 + seq![0u8])
        + pool_bytes(items.skip(i + 1)));
    assert(b.subrange(koff, koff + klen) =~= items[i].0);
    assert(b.subrange(voff, voff + vlen) =~= items[i].1);
}

/// Encoded UTF-8 of text without the separator character holds no
/// separator byte.
proof fn lemma_utf8_no_sep(s: Seq<char>)
    requires
        !s.contains('\u{4}'),
    ensures
        !encode_utf8(s).contains(4u8),
    decreases s.len(),
{
    if s.len() > 0 {
        let c = s[0];
        let u = c as u32;
        assert(!s.drop_first().contains('\u{4}')) by {
            if s.drop_first().contains('\u{4}') {
                let k = choose|k: int|
                    0 <= k < s.drop_first().len() && s.drop_first()[k] == '\u{4}';
                assert(s[k + 1] == '\u{4}');
            }
        }
        lemma_utf8_no_sep(s.drop_first());
        assert(c != '\u{4}');
        vstd::utf8::char_u32_cast(c, u);
        assert(u != 4) by {
            if u == 4 {
                vstd::utf8::char_u32_cast('\u{4}', 4);
            }
        }
        let e = vstd::utf8::encode_scalar(u);
        assert(!e.contains(4u8)) by {
            if vstd::utf8::has_width_1_encoding(u) {
                assert(vstd::utf8::leading_byte_width_1(u) != 4u8) by {
                    assert(u & 0x7F == u && u != 4 ==> ((u & 0x7F) as u8) != 4u8) by (bit_vector);
                    assert(u & 0x7F == u) by (bit_vector)
                        requires vstd::utf8::has_width_1_encoding(u);
                }
            } else {
                assert(forall|k: int| 0 <= k < e.len() ==> e[k] != 4u8) by {
                    assert((0xC0u8 | ((u >> 6) & 0x1F) as u8) != 4u8) by (bit_vector);
                    assert((0xE0u8 | ((u >> 12) & 0x0F) as u8) != 4u8) by (bit_vector);
                    assert((0xF0u8 | ((u >> 18) & 0x07) as u8) != 4u8) by (bit_vector);
                    assert((0x80u8 | (u & 0x3F) as u8) != 4u8) by (bit_vector);
                    assert((0x80u8 | ((u >> 6) & 0x3F) as u8) != 4u8) by (bit_vector);
                    assert((0x80u8 | ((u >> 12) & 0x3F) as u8) != 4u8) by (bit_vector);
                }
            }
        }
        assert(encode_utf8(s) == e + encode_utf8(s.drop_first()));
        if encode_utf8(s).contains(4u8) {
            let k = choose|k: int|
                0 <= k < encode_utf8(s).len() && encode_utf8(s)[k] == 4u8;
            if k < e.len() {
                assert(e[k] == 4u8);
            } else {
                assert(encode_utf8(s.drop_first())[k - e.len()] == 4u8);
            }
        }
    }
}

/// Index of the first separator byte in a separator-free prefix closed by
/// the separator.
proof fn lemma_first_sep_prefix(a: Seq<u8>, rest: Seq<u8>)
    requires
        !a.contains(4u8),
    ensures
        first_sep((a + seq![4u8]) + rest) == a.len(),
    decreases a.len(),
{
    let s = (a + seq![4u8]) + rest;
    if a.len() == 0 {
        assert(s[0] == 4u8);
    } else {
        assert(s[0] == a[0]);
        assert(a[0] != 4u8);
        assert(!a.skip(1).contains(4u8)) by {
            if a.skip(1).contains(4u8) {
                let k = choose|k: int| 0 <= k < a.skip(1).len() && a.skip(1)[k] == 4u8;
                assert(a[k + 1] == 4u8);
            }
        }
        lemma_first_sep_prefix(a.skip(1), rest);
        assert(s.skip(1) =~= (a.skip(1) + seq![4u8]) + rest);
    }
}

proof fn lemma_first_sep_absent(a: Seq<u8>)
    requires
        !a.contains(4u8),
    ensures
        first_sep(a) == a.len(),
    decreases a.len(),
{
    if a.len() > 0 {
        assert(a[0] != 4u8);
        assert(!a.skip(1).contains(4u8)) by {
            if a.skip(1).contains(4u8) {
                let k = choose|k: int| 0 <= k < a.skip(1).len() && a.skip(1)[k] == 4u8;
                assert(a[k + 1] == 4u8);
            }
        }
        lemma_first_sep_absent(a.skip(1));
    }
}

/// An entry's serialized pair decodes back to the entry's context, source
/// and translation, when neither context nor source holds the separator
/// character.
proof fn lemma_mo_pair_decode(e: EntryV)
    requires
        !e.source.contains('\u{4}'),
        match e.context {
            Some(c) => !c.contains('\u{4}'),
            None => true,
        },
    ensures
        spec_decode_pair(mo_key_bytes(e), mo_val_bytes(e)) == Some(
            decoded_entry(e.context, e.source, e.translated),
        ),
{
    broadcast use vstd::utf8::encode_utf8_valid_utf8;
    broadcast use vstd::utf8::encode_utf8_decode_utf8;

    let kb = mo_key_bytes(e);
    let vb = mo_val_bytes(e);
    assert(valid_utf8(vb));
    match e.context {
        None => {
            lemma_utf8_no_sep(e.source);
            lemma_first_sep_absent(kb);
            assert(valid_utf8(kb));
            assert(decode_utf8(kb) == e.source);
            assert(decode_utf8(vb) == e.translated);
        },
        Some(c) => {
            lemma_utf8_no_sep(c);
            let cb = encode_utf8(c);
            let sb = encode_utf8(e.source);
            assert(kb == (cb + seq![4u8]) + sb) by {
                assert(cb + seq![4u8] + sb =~= (cb + seq![4u8]) + sb);
            }
            lemma_first_sep_prefix(cb, sb);
            let j = first_sep(kb);
            assert(j == cb.len());
            assert(j < kb.len());
            assert(kb.subrange(0, j) =~= cb);
            assert(kb.skip(j + 1) =~= sb);
            assert(valid_utf8(cb));
            assert(valid_utf8(sb));
            assert(decode_utf8(cb) == c);
            assert(decode_utf8(sb) == e.source);
            assert(decode_utf8(vb) == e.translated);
        },
    }
}

/// The entry as it comes back out of an MO file: same identity and
/// translation, no comments, flags or provenance.
pub open spec fn stripped(e: EntryV) -> EntryV {
    decoded_entry(e.context, e.source, e.translated)
}

/// Folding entries whose keys are fresh and whose sources are nonempty
/// just appends them.
proof fn lemma_collect_unique(ds: Seq<EntryV>, h: Option<Seq<char>>, acc: Seq<EntryV>)
    requires
        nonempty_sources(ds),
        unique_keys(ds),
        forall|p: int, q: int|
            0 <= p < acc.len() && 0 <= q < ds.len() ==> (#[trigger] acc[p]).key()
                != (#[trigger] ds[q]).key(),
    ensures
        spec_collect(ds, h, acc) == (h, acc + ds),
    decreases ds.len(),
{
    if ds.len() == 0 {
        assert(acc + ds =~= acc);
    } else {
        let e = ds[0];
        assert(e.source.len() > 0);
        crate::entry::lemma_key_index(acc, e.key());
        assert(crate::entry::key_index(acc, e.key()) < 0) by {
            if crate::entry::key_index(acc, e.key()) >= 0 {
                assert(acc[crate::entry::key_index(acc, e.key())].key() == e.key());
            }
        }
        assert(spec_upsert(acc, e) == acc.push(e));
        assert(nonempty_sources(ds.skip(1)) && unique_keys(ds.skip(1))) by {
            assert(forall|q: int|
                0 <= q < ds.skip(1).len() ==> #[trigger] ds.skip(1)[q] == ds[q + 1]);
        }
        assert(forall|p: int, q: int|
            0 <= p < acc.push(e).len() && 0 <= q < ds.skip(1).len() ==> (
            #[trigger] acc.push(e)[p]).key() != (#[trigger] ds.skip(1)[q]).key()) by {
            assert(forall|q: int|
                0 <= q < ds.skip(1).len() ==> #[trigger] ds.skip(1)[q] == ds[q + 1]);
        }
        lemma_collect_unique(ds.skip(1), h, acc.push(e));
        assert(acc.push(e) + ds.skip(1) =~= acc + ds);
    }
}

/// Stripping comments and flags keeps the key-to-translation mapping.
proof fn lemma_entries_map_stripped(es: Seq<EntryV>)
    ensures
        entries_map(es.map_values(|e: EntryV| stripped(e))) == entries_map(es),
    decreases es.len(),
{
    let ses = es.map_values(|e: EntryV| stripped(e));
    if es.len() > 0 {
        lemma_entries_map_stripped(es.drop_last());
        assert(ses.drop_last() =~= es.drop_last().map_values(|e: EntryV| stripped(e)));
        assert(ses.last() == stripped(es.last()));
        assert(entries_map(ses) =~= entries_map(es));
    } else {
        assert(ses =~= es);
    }
}

/// MO round trip: decoding an encoded catalog recovers the header and
/// exactly the catalog's key-to-translation mapping, for every catalog
/// whose context and source texts avoid the separator character 0x04 and
/// that fits the 32-bit offsets.
pub proof fn lemma_mo_round_trip(hv: Option<Seq<char>>, es: Seq<EntryV>)
    requires
        unique_keys(es),
        nonempty_sources(es),
        forall|i: int| 0 <= i < es.len() ==> !(#[trigger] es[i]).source.contains('\u{4}'),
        forall|i: int|
            0 <= i < es.len() ==> match (#[trigger] es[i]).context {
                Some(c) => !c.contains('\u{4}'),
                None => true,
            },
        mo_fits(mo_items(hv, es)),
    ensures
        ({
            let b = spec_encode_mo(mo_items(hv, es));
            &&& mo_decode_ok(b)
            &&& spec_collect(decoded_items(b), None, Seq::empty()).0 == hv
            &&& entries_map(spec_collect(decoded_items(b), None, Seq::empty()).1) == entries_map(
                es,
            )
        }),
{
    broadcast use vstd::utf8::encode_utf8_valid_utf8;
    broadcast use vstd::utf8::encode_utf8_decode_utf8;

    vstd::bytes::lemma_auto_spec_u32_to_from_le_bytes();
    let items = mo_items(hv, es);
    let n = items.len() as int;
    let b = spec_encode_mo(items);
    let head = spec_u32_to_le_bytes(MO_MAGIC) + spec_u32_to_le_bytes(0u32) + spec_u32_to_le_bytes(
        items.len() as u32,
    ) + spec_u32_to_le_bytes(28u32) + spec_u32_to_le_bytes((28 + 8 * items.len()) as u32)
        + spec_u32_to_le_bytes(0u32) + spec_u32_to_le_bytes(0u32);
    let ot = table_bytes(items, true, 0);
    let tt = table_bytes(items, false, 0);
    let pool = pool_bytes(items);
    lemma_table_len(items, true, 0);
    lemma_table_len(items, false, 0);
    assert(head.len() == 28);
    assert(b =~= head + ot + tt + pool);
    assert(b.len() == 28 + 16 * n + pool.len());

    // The header words read back.
    assert(b.subrange(0, 4) =~= spec_u32_to_le_bytes(MO_MAGIC));
    assert(spec_read_u32(b, 0) == MO_MAGIC);
    assert(b.subrange(8, 12) =~= spec_u32_to_le_bytes(items.len() as u32));
    assert(spec_read_u32(b, 8) == (items.len() as u32));
    assert(b.subrange(12, 16) =~= spec_u32_to_le_bytes(28u32));
    assert(spec_read_u32(b, 12) == 28u32);
    assert(b.subrange(16, 20) =~= spec_u32_to_le_bytes((28 + 8 * items.len()) as u32));
    assert(spec_read_u32(b, 16) == ((28 + 8 * items.len()) as u32));
    assert(mo_header_ok(b));
    assert(mo_n(b) as int == n);
    assert(mo_ot(b) as int == 28);
    assert(mo_tt(b) as int == 28 + 8 * n);

    // What every item decodes to.
    let h0: int = match hv {
        Some(_) => 1,
        None => 0,
    };
    let ses = es.map_values(|e: EntryV| stripped(e));
    let hd: Seq<EntryV> = match hv {
        Some(h) => seq![decoded_entry(None, Seq::empty(), h)],
        None => Seq::empty(),
    };
    let expect = hd + ses;
    assert(expect.len() == n);
    assert forall|i: int| 0 <= i < n implies #[trigger] spec_decode_entry(
        b,
        28,
        28 + 8 * n,
        i,
    ) == Some(expect[i]) by {
        lemma_mo_item_bytes(items, i);
        if i < h0 {
            let h = hv.unwrap();
            assert(items[0] == (Seq::<u8>::empty(), encode_utf8(h)));
            assert(encode_utf8(Seq::<char>::empty()) =~= Seq::<u8>::empty());
            assert(valid_utf8(Seq::<u8>::empty()));
            assert(decode_utf8(Seq::<u8>::empty()) == Seq::<char>::empty());
            assert(first_sep(Seq::<u8>::empty()) == 0);
            assert(spec_decode_pair(Seq::<u8>::empty(), encode_utf8(h)) == Some(
                decoded_entry(None, Seq::empty(), h),
            ));
            assert(expect[0] == decoded_entry(None, Seq::empty(), h));
        } else {
            let e = es[i - h0];
            assert(items[i] == (mo_key_bytes(e), mo_val_bytes(e))) by {
                assert(es.map_values(
                    |x: EntryV| (mo_key_bytes(x), mo_val_bytes(x)),
                )[i - h0] == (mo_key_bytes(e), mo_val_bytes(e)));
            }
            lemma_mo_pair_decode(e);
            assert(expect[i] == stripped(e));
        }
    }
    assert(mo_decode_ok(b));
    assert(decoded_items(b) =~= expect);

    // Collecting the decoded stream.
    assert(nonempty_sources(ses) && unique_keys(ses)) by {
        assert(forall|q: int| 0 <= q < es.len() ==> #[trigger] ses[q] == stripped(es[q]));
        assert(forall|q: int| 0 <= q < es.len() ==> (#[trigger] ses[q]).key() == es[q].key());
        assert(forall|q: int|
            0 <= q < es.len() ==> (#[trigger] ses[q]).source.len() == es[q].source.len());
    }
    match hv {
        Some(h) => {
            let hdr = decoded_entry(None, Seq::empty(), h);
            assert(expect[0] == hdr);
            assert(hdr.source.len() == 0);
            assert(expect.skip(1) =~= ses);
            assert(spec_collect(expect, None, Seq::empty()) == spec_collect(
                ses,
                Some(h),
                Seq::empty(),
            ));
            lemma_collect_unique(ses, Some(h), Seq::empty());
            assert(Seq::<EntryV>::empty() + ses =~= ses);
        },
        None => {
            assert(expect =~= ses);
            lemma_collect_unique(ses, None, Seq::empty());
            assert(Seq::<EntryV>::empty() + ses =~= ses);
        },
    }
    assert(spec_collect(decoded_items(b), None, Seq::empty()).1 == ses);
    lemma_entries_map_stripped(es);
}

/// MO round trip over whole catalogs: any MO encoding of a well-formed
/// catalog (as `encode_mo` produces) decodes back to the same header and
/// the same key-to-translation mapping, provided no context or source
/// text holds the separator character 0x04.
pub proof fn lemma_mo_round_trip_catalog(
    hv: Option<Seq<char>>,
    evs: Seq<EntryV>,
    bytes: Seq<u8>,
    es: Seq<EntryV>,
)
    requires
        unique_keys(evs),
        nonempty_sources(evs),
        forall|i: int| 0 <= i < evs.len() ==> !(#[trigger] evs[i]).source.contains('\u{4}'),
        forall|i: int|
            0 <= i < evs.len() ==> match (#[trigger] evs[i]).context {
                Some(c) => !c.contains('\u{4}'),
                None => true,
            },
        mo_encodes(hv, evs, bytes, es),
    ensures
        mo_decode_ok(bytes),
        spec_collect(decoded_items(bytes), None, Seq::empty()).0 == hv,
        entries_map(spec_collect(decoded_items(bytes), None, Seq::empty()).1) == entries_map(evs),
{
    lemma_entries_map_perm(evs, es);
    lemma_seq_multiset_elems(evs, es);
    assert forall|i: int| 0 <= i < es.len() implies !(#[trigger] es[i]).source.contains('\u{4}')
        && match es[i].context {
        Some(c) => !c.contains('\u{4}'),
        None => true,
    } by {
        assert(evs.contains(es[i]));
        let j = choose|j: int| 0 <= j < evs.len() && evs[j] == es[i];
        assert(!evs[j].source.contains('\u{4}'));
    }
    lemma_mo_round_trip(hv, es);
}

} // verus!
