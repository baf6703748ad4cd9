//! The catalog model: one translatable entry, and a catalog as a header
//! plus entries with pairwise distinct (context, source text) keys.

use vstd::prelude::*;
use vstd::relations::sorted_by;
use crate::text::lex_le;

verus! {

/// One translatable unit of a catalog.
#[derive(Debug, PartialEq, Eq)]
pub struct Entry {
    /// Optional disambiguation context; absent means the default context.
    pub context: Option<String>,
    /// The original-language string (msgid); empty is reserved for the
    /// catalog header pseudo-entry, which the `Catalog` type keeps apart.
    pub source_text: String,
    /// The target-language string (msgstr); may be empty.
    pub translated_text: String,
    /// Raw comment lines preceding the entry, each starting with `#`.
    pub comments: Vec<String>,
    /// Whether any flag comment carries the token `fuzzy`.
    pub is_fuzzy: bool,
    /// Provenance: whether the entry came from the main (first) source.
    pub from_main: bool,
    /// Provenance: the input line on which the entry's block started.
    pub line_number: usize,
}

/// The mathematical image of an entry.
#[verifier::ext_equal]
pub struct EntryV {
    pub context: Option<Seq<char>>,
    pub source: Seq<char>,
    pub translated: Seq<char>,
    pub comments: Seq<Seq<char>>,
    pub fuzzy: bool,
    pub from_main: bool,
    pub line: nat,
}

impl View for Entry {
    type V = EntryV;

    open spec fn view(&self) -> EntryV {
        EntryV {
            context: match self.context {
                Some(c) => Some(c@),
                None => None,
            },
            source: self.source_text@,
            translated: self.translated_text@,
            comments: self.comments@.map_values(|c: String| c@),
            fuzzy: self.is_fuzzy,
            from_main: self.from_main,
            line: self.line_number as nat,
        }
    }
}

impl EntryV {
    /// The identity of an entry within a catalog.
    pub open spec fn key(self) -> (Option<Seq<char>>, Seq<char>) {
        (self.context, self.source)
    }
}

/// The view of a vector of entries.
pub open spec fn views(es: Seq<Entry>) -> Seq<EntryV> {
    es.map_values(|e: Entry| e@)
}

/// All keys pairwise distinct.
pub open spec fn unique_keys(es: Seq<EntryV>) -> bool {
    forall|i: int, j: int|
        0 <= i < j < es.len() ==> (#[trigger] es[i]).key() != (#[trigger] es[j]).key()
}

/// Every entry has a nonempty source text (the header never sits among
/// the entries).
pub open spec fn nonempty_sources(es: Seq<EntryV>) -> bool {
    forall|i: int| 0 <= i < es.len() ==> (#[trigger] es[i]).source.len() > 0
}

/// What a sequence of entries says: the mapping from keys to translations,
/// later entries overriding earlier ones.
pub open spec fn entries_map(es: Seq<EntryV>) -> Map<(Option<Seq<char>>, Seq<char>), Seq<char>>
    decreases es.len(),
{
    if es.len() == 0 {
        Map::empty()
    } else {
        entries_map(es.drop_last()).insert(es.last().key(), es.last().translated)
    }
}

/// A full set of translation entries plus header metadata.
///
/// The header is the translated text of the pseudo-entry with empty
/// source text; it is kept as a field of its own so that filtering or
/// re-ordering entries cannot lose it.
#[derive(Debug, PartialEq, Eq)]
pub struct Catalog {
    pub header: Option<String>,
    pub entries: Vec<Entry>,
}

impl Catalog {
    /// The views of the entries, in order.
    pub open spec fn evs(self) -> Seq<EntryV> {
        views(self.entries@)
    }

    /// The header metadata text, if present.
    pub open spec fn header_view(self) -> Option<Seq<char>> {
        match self.header {
            Some(h) => Some(h@),
            None => None,
        }
    }

    /// Catalog well-formedness: entry keys are unique and no entry
    /// impersonates the header.
    pub open spec fn wf(self) -> bool {
        unique_keys(self.evs()) && nonempty_sources(self.evs())
    }

    /// The mapping this catalog denotes.
    pub open spec fn to_map(self) -> Map<(Option<Seq<char>>, Seq<char>), Seq<char>> {
        entries_map(self.evs())
    }
}

/// Whether two entries have the same (context, source text) key.
pub fn same_key(a: &Entry, b: &Entry) -> (r: bool)
    ensures
        r == (a@.key() == b@.key()),
{
    let src_eq = a.source_text == b.source_text;
    let ctx_eq = match (&a.context, &b.context) {
        (Option::None, Option::None) => true,
        (Option::Some(x), Option::Some(y)) => *x == *y,
        _ => false,
    };
    proof {
        assert(ctx_eq == (a@.context == b@.context));
        assert(src_eq == (a@.source == b@.source));
        assert((a@.key() == b@.key()) == (a@.context == b@.context && a@.source == b@.source));
    }
    src_eq && ctx_eq
}

/// First index in `es` holding key `k`, or -1.
pub open spec fn key_index(es: Seq<EntryV>, k: (Option<Seq<char>>, Seq<char>)) -> int
    decreases es.len(),
{
    if es.len() == 0 {
        -1
    } else if es[0].key() == k {
        0
    } else {
        let r = key_index(es.skip(1), k);
        if r < 0 {
            -1
        } else {
            1 + r
        }
    }
}

pub proof fn lemma_key_index(es: Seq<EntryV>, k: (Option<Seq<char>>, Seq<char>))
    ensures
        key_index(es, k) >= 0 ==> key_index(es, k) < es.len() && es[key_index(es, k)].key() == k,
        key_index(es, k) < 0 ==> forall|i: int| 0 <= i < es.len() ==> (#[trigger] es[i]).key() != k,
        forall|i: int| 0 <= i < key_index(es, k) ==> (#[trigger] es[i]).key() != k,
    decreases es.len(),
{
    if es.len() > 0 && es[0].key() != k {
        lemma_key_index(es.skip(1), k);
        assert forall|i: int| 1 <= i < es.len() implies es.skip(1)[i - 1] == es[i] by {}
    }
}

/// Keyed insertion: replaces the entry with the same key in place, or
/// appends at the end.
pub open spec fn spec_upsert(es: Seq<EntryV>, e: EntryV) -> Seq<EntryV> {
    let i = key_index(es, e.key());
    if i >= 0 {
        es.update(i, e)
    } else {
        es.push(e)
    }
}

/// Inserts `e` into `entries`, last write winning for an existing key.
pub fn upsert_entry(entries: &mut Vec<Entry>, e: Entry)
    ensures
        views(final(entries)@) == spec_upsert(views(old(entries)@), e@),
{
    let ghost evs0 = views(old(entries)@);
    proof {
        lemma_key_index(evs0, e@.key());
    }
    let n = entries.len();
    let mut i: usize = 0;
    while i < n
        invariant
            i <= n,
            n == entries@.len(),
            entries@ == old(entries)@,
            evs0 == views(entries@),
            forall|q: int| 0 <= q < i ==> (#[trigger] evs0[q]).key() != e@.key(),
        decreases n - i,
    {
        if same_key(&entries[i], &e) {
            proof {
                assert(evs0[i as int] == entries@[i as int]@);
                assert(key_index(evs0, e@.key()) == i) by {
                    lemma_key_index_first(evs0, e@.key(), i as int);
                }
            }
            let _old = entries.remove(i);
            entries.insert(i, e);
            proof {
                assert(views(entries@) =~= spec_upsert(evs0, e@)) by {
                    assert(entries@ =~= old(entries)@.update(i as int, e));
                    assert forall|q: int| 0 <= q < entries@.len() implies views(entries@)[q]
                        == spec_upsert(evs0, e@)[q] by {}
                }
            }
            return;
        }
        proof {
            assert(evs0[i as int] == entries@[i as int]@);
        }
        i = i + 1;
    }
    proof {
        assert(key_index(evs0, e@.key()) < 0) by {
            lemma_key_index(evs0, e@.key());
            if key_index(evs0, e@.key()) >= 0 {
                assert(evs0[key_index(evs0, e@.key())].key() == e@.key());
            }
        }
    }
    entries.push(e);
    proof {
        assert(views(entries@) =~= spec_upsert(evs0, e@));
    }
}

/// If all keys before `i` differ from `k` and `es[i]` has key `k`, then
/// `i` is the first index with key `k`.
pub proof fn lemma_key_index_first(es: Seq<EntryV>, k: (Option<Seq<char>>, Seq<char>), i: int)
    requires
        0 <= i < es.len(),
        es[i].key() == k,
        forall|q: int| 0 <= q < i ==> (#[trigger] es[q]).key() != k,
    ensures
        key_index(es, k) == i,
    decreases i,
{
    if i == 0 {
    } else {
        assert(es[0].key() != k);
        assert forall|q: int| 0 <= q < i - 1 implies (#[trigger] es.skip(1)[q]).key() != k by {
            assert(es.skip(1)[q] == es[q + 1]);
        }
        assert(es.skip(1)[i - 1] == es[i]);
        lemma_key_index_first(es.skip(1), k, i - 1);
    }
}

/// Upserting preserves key uniqueness and nonempty sources.
pub proof fn lemma_upsert_wf(es: Seq<EntryV>, e: EntryV)
    requires
        unique_keys(es),
    ensures
        unique_keys(spec_upsert(es, e)),
        nonempty_sources(es) && e.source.len() > 0 ==> nonempty_sources(spec_upsert(es, e)),
        entries_map(spec_upsert(es, e)) == entries_map(es).insert(e.key(), e.translated),
{
    lemma_key_index(es, e.key());
    let i = key_index(es, e.key());
    if i >= 0 {
        lemma_entries_map_update(es, i, e);
    } else {
        assert(spec_upsert(es, e) == es.push(e));
        assert(entries_map(es.push(e)) == entries_map(es.push(e).drop_last()).insert(
            e.key(),
            e.translated,
        ));
        assert(es.push(e).drop_last() =~= es);
    }
}

/// Updating the unique position of a key rewrites just that key's value.
proof fn lemma_entries_map_update(es: Seq<EntryV>, i: int, e: EntryV)
    requires
        unique_keys(es),
        0 <= i < es.len(),
        es[i].key() == e.key(),
    ensures
        unique_keys(es.update(i, e)),
        entries_map(es.update(i, e)) == entries_map(es).insert(e.key(), e.translated),
        nonempty_sources(es) && e.source.len() > 0 ==> nonempty_sources(es.update(i, e)),
    decreases es.len(),
{
    let es2 = es.update(i, e);
    assert forall|p: int, q: int| 0 <= p < q < es2.len() implies (#[trigger] es2[p]).key()
        != (#[trigger] es2[q]).key() by {
        assert(es[p].key() != es[q].key());
    }
    if i == es.len() - 1 {
        assert(es2.drop_last() =~= es.drop_last());
        assert(entries_map(es2) == entries_map(es.drop_last()).insert(e.key(), e.translated));
        assert(entries_map(es) == entries_map(es.drop_last()).insert(
            es[i].key(),
            es[i].translated,
        ));
        assert(entries_map(es).insert(e.key(), e.translated) =~= entries_map(
            es.drop_last(),
        ).insert(e.key(), e.translated));
    } else {
        assert(es2.drop_last() =~= es.drop_last().update(i, e));
        assert forall|p: int, q: int|
            0 <= p < q < es.drop_last().len() implies (#[trigger] es.drop_last()[p]).key()
            != (#[trigger] es.drop_last()[q]).key() by {
            assert(es.drop_last()[p] == es[p]);
            assert(es.drop_last()[q] == es[q]);
        }
        assert(es.drop_last()[i].key() == e.key());
        lemma_entries_map_update(es.drop_last(), i, e);
        assert(es2.last() == es.last());
        assert(es.last().key() != e.key()) by {
            assert(es[i].key() == e.key());
        }
        assert(entries_map(es2) == entries_map(es.drop_last()).insert(
            e.key(),
            e.translated,
        ).insert(es.last().key(), es.last().translated));
        assert(entries_map(es2) =~= entries_map(es).insert(e.key(), e.translated));
    }
}

/// Context order: the default context sorts before every named one.
pub open spec fn ctx_le(a: Option<Seq<char>>, b: Option<Seq<char>>) -> bool {
    match (a, b) {
        (Option::None, _) => true,
        (Option::Some(_), Option::None) => false,
        (Option::Some(x), Option::Some(y)) => lex_le(x, y),
    }
}

/// Output order of entries: source text ascending in codepoint order,
/// ties broken by context.
pub open spec fn entry_le(a: EntryV, b: EntryV) -> bool {
    if a.source == b.source {
        ctx_le(a.context, b.context)
    } else {
        lex_le(a.source, b.source)
    }
}

/// The entry order as a first-class relation.
pub open spec fn entry_le_rel() -> spec_fn(EntryV, EntryV) -> bool {
    |x: EntryV, y: EntryV| entry_le(x, y)
}

pub proof fn lemma_entry_le_total(a: EntryV, b: EntryV)
    ensures
        entry_le(a, b) || entry_le(b, a),
{
    lemma_lex_le_total_pair(a.source, b.source);
    if a.source == b.source {
        match (a.context, b.context) {
            (Option::Some(x), Option::Some(y)) => {
                lemma_lex_le_total_pair(x, y);
            },
            _ => {},
        }
    }
}

proof fn lemma_lex_le_total_pair(a: Seq<char>, b: Seq<char>)
    ensures
        lex_le(a, b) || lex_le(b, a),
        lex_le(a, b) && lex_le(b, a) ==> a == b,
{
    crate::text::lemma_lex_le_total(a, b);
}

pub proof fn lemma_entry_le_trans(a: EntryV, b: EntryV, c: EntryV)
    requires
        entry_le(a, b),
        entry_le(b, c),
    ensures
        entry_le(a, c),
{
    lemma_lex_le_total_pair(a.source, b.source);
    lemma_lex_le_total_pair(b.source, c.source);
    lemma_lex_le_total_pair(a.source, c.source);
    if a.source == b.source && b.source == c.source {
        match (a.context, b.context, c.context) {
            (Option::Some(x), Option::Some(y), Option::Some(z)) => {
                crate::text::lemma_lex_le_trans(x, y, z);
            },
            _ => {},
        }
    } else if a.source == b.source {
        assert(lex_le(b.source, c.source));
        assert(lex_le(a.source, c.source));
        if a.source == c.source {
            assert(b.source == c.source);
        }
    } else if b.source == c.source {
        assert(lex_le(a.source, c.source));
        if a.source == c.source {
            assert(a.source == b.source);
        }
    } else {
        crate::text::lemma_lex_le_trans(a.source, b.source, c.source);
        if a.source == c.source {
            assert(lex_le(c.source, b.source));
            assert(a.source == b.source);
        }
    }
}

/// Order comparison on entries.
pub fn entry_le_exec(a: &Entry, b: &Entry) -> (r: bool)
    ensures
        r == entry_le(a@, b@),
{
    if a.source_text == b.source_text {
        match (&a.context, &b.context) {
            (Option::None, _) => true,
            (Option::Some(_), Option::None) => false,
            (Option::Some(x), Option::Some(y)) => crate::text::str_lex_le(x.as_str(), y.as_str()),
        }
    } else {
        crate::text::str_lex_le(a.source_text.as_str(), b.source_text.as_str())
    }
}

/// Sorts entries into output order (selection sort; the result is the
/// unique sorted permutation when keys are unique).
pub fn sort_entries(v: Vec<Entry>) -> (r: Vec<Entry>)
    ensures
        sorted_by(views(r@), entry_le_rel()),
        views(r@).to_multiset() == views(v@).to_multiset(),
{
    broadcast use vstd::seq_lib::group_to_multiset_ensures;
    broadcast use vstd::multiset::group_multiset_axioms;

    let ghost orig = views(v@);
    let ghost le = entry_le_rel();
    let mut rest = v;
    let mut out: Vec<Entry> = Vec::new();
    proof {
        assert(views(out@) =~= Seq::<EntryV>::empty());
        assert(views(out@).to_multiset().add(views(rest@).to_multiset()) =~= orig.to_multiset());
    }
    while rest.len() > 0
        invariant
            sorted_by(views(out@), le),
            le == entry_le_rel(),
            views(out@).to_multiset().add(views(rest@).to_multiset()) == orig.to_multiset(),
            forall|p: int, q: int|
                0 <= p < views(out@).len() && 0 <= q < views(rest@).len() ==> entry_le(
                    #[trigger] views(out@)[p],
                    #[trigger] views(rest@)[q],
                ),
        decreases rest.len(),
    {
        let n = rest.len();
        let mut m: usize = 0;
        let mut i: usize = 1;
        proof {
            lemma_entry_le_total(views(rest@)[0], views(rest@)[0]);
        }
        while i < n
            invariant
                m < i <= n,
                n == rest@.len(),
                forall|q: int| 0 <= q < i ==> entry_le(views(rest@)[m as int], #[trigger] views(
                    rest@,
                )[q]),
            decreases n - i,
        {
            if entry_le_exec(&rest[i], &rest[m]) {
                proof {
                    assert(views(rest@)[i as int] == rest@[i as int]@);
                    assert(views(rest@)[m as int] == rest@[m as int]@);
                    assert forall|q: int| 0 <= q < i + 1 implies entry_le(
                        views(rest@)[i as int],
                        #[trigger] views(rest@)[q],
                    ) by {
                        if q < i {
                            lemma_entry_le_trans(
                                views(rest@)[i as int],
                                views(rest@)[m as int],
                                views(rest@)[q],
                            );
                        } else {
                            lemma_entry_le_total(views(rest@)[i as int], views(rest@)[i as int]);
                        }
                    }
                }
                m = i;
            } else {
                proof {
                    lemma_entry_le_total(views(rest@)[m as int], views(rest@)[i as int]);
                    assert(views(rest@)[i as int] == rest@[i as int]@);
                    assert(views(rest@)[m as int] == rest@[m as int]@);
                    assert(entry_le(views(rest@)[m as int], views(rest@)[i as int]));
                }
            }
            i = i + 1;
        }
        let ghost out0 = views(out@);
        let ghost rest0 = views(rest@);
        let e = rest.remove(m);
        proof {
            assert(views(rest@) =~= rest0.remove(m as int));
            assert(e@ == rest0[m as int]);
        }
        out.push(e);
        proof {
            assert(views(out@) =~= out0.push(e@));
            assert(sorted_by(views(out@), le)) by {
                assert forall|p: int, q: int|
                    0 <= p < q < views(out@).len() implies le(views(out@)[p], views(out@)[q]) by {
                    if q < out0.len() {
                        assert(views(out@)[p] == out0[p]);
                        assert(views(out@)[q] == out0[q]);
                    } else {
                        assert(views(out@)[q] == e@);
                        if p < out0.len() {
                            assert(views(out@)[p] == out0[p]);
                            assert(entry_le(out0[p], rest0[m as int]));
                        }
                    }
                }
            }
            vstd::seq_lib::to_multiset_build(out0, e@);
            vstd::seq_lib::to_multiset_remove(rest0, m as int);
            vstd::seq_lib::to_multiset_contains(rest0, e@);
            assert(views(out@).to_multiset() == out0.to_multiset().insert(e@));
            assert(views(rest@).to_multiset() == rest0.to_multiset().remove(e@));
            assert(rest0.contains(rest0[m as int]));
            assert(rest0.to_multiset().count(e@) > 0);
            assert(views(out@).to_multiset().add(views(rest@).to_multiset())
                =~= orig.to_multiset());
            assert forall|p: int, q: int|
                0 <= p < views(out@).len() && 0 <= q < views(rest@).len() implies entry_le(
                #[trigger] views(out@)[p],
                #[trigger] views(rest@)[q],
            ) by {
                let rq = views(rest@)[q];
                assert(rq == if q < m { rest0[q] } else { rest0[q + 1] });
                if p < out0.len() {
                    assert(views(out@)[p] == out0[p]);
                } else {
                    assert(views(out@)[p] == e@);
                    assert(entry_le(rest0[m as int], rq));
                }
            }
        }
    }
    proof {
        assert(views(rest@) =~= Seq::<EntryV>::empty());
        vstd::seq_lib::to_multiset_len(views(rest@));
        assert(views(out@).to_multiset() =~= orig.to_multiset());
    }
    out
}

/// The view of an optional string.
pub open spec fn opt_view(h: Option<String>) -> Option<Seq<char>> {
    match h {
        Some(s) => Some(s@),
        None => None,
    }
}

/// Keyed insertion of each entry in turn, last write winning.
pub open spec fn upsert_all(acc: Seq<EntryV>, es: Seq<EntryV>) -> Seq<EntryV>
    decreases es.len(),
{
    if es.len() == 0 {
        acc
    } else {
        upsert_all(spec_upsert(acc, es[0]), es.skip(1))
    }
}

pub proof fn lemma_upsert_all_wf(acc: Seq<EntryV>, es: Seq<EntryV>)
    requires
        unique_keys(acc),
        nonempty_sources(acc),
        nonempty_sources(es),
    ensures
        unique_keys(upsert_all(acc, es)),
        nonempty_sources(upsert_all(acc, es)),
    decreases es.len(),
{
    if es.len() > 0 {
        lemma_upsert_wf(acc, es[0]);
        assert(es[0].source.len() > 0);
        assert(nonempty_sources(es.skip(1))) by {
            assert forall|i: int| 0 <= i < es.skip(1).len() implies (#[trigger] es.skip(
                1,
            )[i]).source.len() > 0 by {
                assert(es.skip(1)[i] == es[i + 1]);
            }
        }
        lemma_upsert_all_wf(spec_upsert(acc, es[0]), es.skip(1));
    }
}

/// Builds a catalog with the given header from parsed entries, later
/// entries with an existing key replacing earlier ones.
pub fn catalog_from_entries(header: Option<String>, entries: Vec<Entry>) -> (c: Catalog)
    requires
        nonempty_sources(views(entries@)),
    ensures
        c.header_view() == opt_view(header),
        c.evs() == upsert_all(Seq::empty(), views(entries@)),
        c.wf(),
{
    let ghost all = views(entries@);
    let mut rest = entries;
    let mut out: Vec<Entry> = Vec::new();
    proof {
        assert(views(out@) =~= Seq::<EntryV>::empty());
        assert(views(rest@) =~= all);
    }
    while rest.len() > 0
        invariant
            nonempty_sources(views(rest@)),
            unique_keys(views(out@)),
            nonempty_sources(views(out@)),
            upsert_all(Seq::empty(), all) == upsert_all(views(out@), views(rest@)),
        decreases rest.len(),
    {
        let ghost rest0 = views(rest@);
        let ghost out0 = views(out@);
        let e = rest.remove(0);
        proof {
            assert(views(rest@) =~= rest0.skip(1));
            assert(e@ == rest0[0]);
            lemma_upsert_wf(out0, e@);
            assert(nonempty_sources(views(rest@))) by {
                assert forall|i: int| 0 <= i < rest0.skip(1).len() implies (#[trigger] rest0.skip(
                    1,
                )[i]).source.len() > 0 by {
                    assert(rest0.skip(1)[i] == rest0[i + 1]);
                }
            }
        }
        upsert_entry(&mut out, e);
    }
    proof {
        assert(views(rest@) =~= Seq::<EntryV>::empty());
    }
    let c = Catalog { header, entries: out };
    c
}

/// Sequences equal key-for-key and translation-for-translation denote
/// the same mapping.
pub proof fn lemma_entries_map_like(a: Seq<EntryV>, b: Seq<EntryV>)
    requires
        a.len() == b.len(),
        forall|i: int|
            0 <= i < a.len() ==> (#[trigger] a[i]).key() == b[i].key() && a[i].translated
                == b[i].translated,
    ensures
        entries_map(a) == entries_map(b),
    decreases a.len(),
{
    if a.len() > 0 {
        assert(forall|i: int|
            0 <= i < a.drop_last().len() ==> (#[trigger] a.drop_last()[i]) == a[i]);
        assert(forall|i: int|
            0 <= i < b.drop_last().len() ==> (#[trigger] b.drop_last()[i]) == b[i]);
        lemma_entries_map_like(a.drop_last(), b.drop_last());
        assert(a.last().key() == b.last().key() && a.last().translated == b.last().translated);
    }
}

/// Replacing a prefix by a map-equal one keeps the whole map.
pub proof fn lemma_entries_map_prefix_eq(x: Seq<EntryV>, y: Seq<EntryV>, rest: Seq<EntryV>)
    requires
        entries_map(x) == entries_map(y),
    ensures
        entries_map(x + rest) == entries_map(y + rest),
    decreases rest.len(),
{
    if rest.len() == 0 {
        assert(x + rest =~= x);
        assert(y + rest =~= y);
    } else {
        lemma_entries_map_prefix_eq(x, y, rest.drop_last());
        assert((x + rest).drop_last() =~= x + rest.drop_last());
        assert((y + rest).drop_last() =~= y + rest.drop_last());
        assert((x + rest).last() == rest.last());
        assert((y + rest).last() == rest.last());
    }
}

/// Keyed insertion of a stream denotes the same mapping as appending it.
pub proof fn lemma_upsert_all_map(acc: Seq<EntryV>, es: Seq<EntryV>)
    requires
        unique_keys(acc),
    ensures
        entries_map(upsert_all(acc, es)) == entries_map(acc + es),
    decreases es.len(),
{
    if es.len() == 0 {
        assert(acc + es =~= acc);
    } else {
        let e = es[0];
        lemma_upsert_wf(acc, e);
        assert(entries_map(spec_upsert(acc, e)) == entries_map(acc).insert(e.key(), e.translated));
        assert(entries_map(acc.push(e)) == entries_map(acc).insert(e.key(), e.translated)) by {
            assert(acc.push(e).drop_last() =~= acc);
            assert(acc.push(e).last() == e);
        }
        lemma_upsert_all_map(spec_upsert(acc, e), es.skip(1));
        lemma_entries_map_prefix_eq(spec_upsert(acc, e), acc.push(e), es.skip(1));
        assert(acc.push(e) + es.skip(1) =~= acc + es);
    }
}

/// Every element of `b` also stands somewhere in `a` when the two hold
/// the same multiset.
pub proof fn lemma_seq_multiset_elems(a: Seq<EntryV>, b: Seq<EntryV>)
    requires
        a.to_multiset() == b.to_multiset(),
    ensures
        forall|j: int| 0 <= j < b.len() ==> a.contains(#[trigger] b[j]),
{
    broadcast use vstd::seq_lib::group_to_multiset_ensures;

    assert forall|j: int| 0 <= j < b.len() implies a.contains(#[trigger] b[j]) by {
        assert(b.contains(b[j]));
        assert(b.to_multiset().count(b[j]) > 0);
        assert(a.to_multiset().count(b[j]) > 0);
    }
}

/// Where each key appears once, the mapping reads off the entries.
proof fn lemma_entries_map_char(s: Seq<EntryV>)
    requires
        unique_keys(s),
    ensures
        forall|i: int|
            0 <= i < s.len() ==> entries_map(s).contains_key((#[trigger] s[i]).key())
                && entries_map(s)[s[i].key()] == s[i].translated,
        forall|k: (Option<Seq<char>>, Seq<char>)|
            entries_map(s).dom().contains(k) ==> exists|i: int|
                0 <= i < s.len() && (#[trigger] s[i]).key() == k,
    decreases s.len(),
{
    if s.len() > 0 {
        assert(forall|i: int| 0 <= i < s.drop_last().len() ==> #[trigger] s.drop_last()[i] == s[i]);
        lemma_entries_map_char(s.drop_last());
        assert forall|i: int|
            0 <= i < s.len() implies entries_map(s).contains_key((#[trigger] s[i]).key())
            && entries_map(s)[s[i].key()] == s[i].translated by {
            if i < s.len() - 1 {
                assert(s[i].key() != s.last().key());
                assert(s.drop_last()[i] == s[i]);
            }
        }
        assert forall|k: (Option<Seq<char>>, Seq<char>)|
            entries_map(s).dom().contains(k) implies exists|i: int|
            0 <= i < s.len() && (#[trigger] s[i]).key() == k by {
            if k != s.last().key() {
                assert(entries_map(s.drop_last()).dom().contains(k));
                let i = choose|i: int| 0 <= i < s.drop_last().len() && (#[trigger] s.drop_last()[i]).key() == k;
                assert(s[i].key() == k);
            } else {
                assert(s[s.len() - 1].key() == k);
            }
        }
    }
}

/// Rearranging entries with pairwise distinct keys keeps key uniqueness,
/// nonempty sources, and the denoted mapping.
pub proof fn lemma_entries_map_perm(a: Seq<EntryV>, b: Seq<EntryV>)
    requires
        a.to_multiset() == b.to_multiset(),
        unique_keys(a),
    ensures
        unique_keys(b),
        nonempty_sources(a) ==> nonempty_sources(b),
        entries_map(a) == entries_map(b),
{
    broadcast use vstd::seq_lib::group_to_multiset_ensures;

    lemma_seq_multiset_elems(a, b);
    lemma_seq_multiset_elems(b, a);
    assert(a.no_duplicates()) by {
        assert forall|i: int, j: int|
            0 <= i < a.len() && 0 <= j < a.len() && i != j implies a[i] != a[j] by {
            if i < j {
                assert(a[i].key() != a[j].key());
            } else {
                assert(a[j].key() != a[i].key());
            }
        }
    }
    a.lemma_multiset_has_no_duplicates();
    b.lemma_multiset_has_no_duplicates_conv();
    assert(unique_keys(b)) by {
        assert forall|p: int, q: int|
            0 <= p < q < b.len() implies (#[trigger] b[p]).key() != (#[trigger] b[q]).key() by {
            if b[p].key() == b[q].key() {
                assert(b[p] != b[q]);
                let i1 = choose|i: int| 0 <= i < a.len() && a[i] == b[p];
                let i2 = choose|i: int| 0 <= i < a.len() && a[i] == b[q];
                assert(i1 != i2);
                if i1 < i2 {
                    assert(a[i1].key() != a[i2].key());
                } else {
                    assert(a[i2].key() != a[i1].key());
                }
            }
        }
    }
    if nonempty_sources(a) {
        assert forall|j: int| 0 <= j < b.len() implies (#[trigger] b[j]).source.len() > 0 by {
            let i = choose|i: int| 0 <= i < a.len() && a[i] == b[j];
            assert(a[i].source.len() > 0);
        }
    }
    lemma_entries_map_char(a);
    lemma_entries_map_char(b);
    assert forall|k: (Option<Seq<char>>, Seq<char>)| #![auto]
        entries_map(a).dom().contains(k) <==> entries_map(b).dom().contains(k) by {
        if entries_map(a).dom().contains(k) {
            let i = choose|i: int| 0 <= i < a.len() && (#[trigger] a[i]).key() == k;
            let j = choose|j: int| 0 <= j < b.len() && b[j] == a[i];
            assert(b[j].key() == k);
        }
        if entries_map(b).dom().contains(k) {
            let j = choose|j: int| 0 <= j < b.len() && (#[trigger] b[j]).key() == k;
            let i = choose|i: int| 0 <= i < a.len() && a[i] == b[j];
            assert(a[i].key() == k);
        }
    }
    assert forall|k: (Option<Seq<char>>, Seq<char>)| #![auto]
        entries_map(a).dom().contains(k) implies entries_map(a)[k] == entries_map(b)[k] by {
        let i = choose|i: int| 0 <= i < a.len() && (#[trigger] a[i]).key() == k;
        let j = choose|j: int| 0 <= j < b.len() && b[j] == a[i];
        assert(entries_map(a)[k] == a[i].translated);
        assert(entries_map(b)[b[j].key()] == b[j].translated);
    }
    assert(entries_map(a) =~= entries_map(b));
}

/// Folds a stream of decoded entries into header and entry table: the
/// first empty-source entry becomes the header, later empty-source
/// entries are dropped, and among entries with one key the last wins.
pub open spec fn spec_collect(es: Seq<EntryV>, h: Option<Seq<char>>, acc: Seq<EntryV>) -> (
    Option<Seq<char>>,
    Seq<EntryV>,
)
    decreases es.len(),
{
    if es.len() == 0 {
        (h, acc)
    } else {
        let e = es[0];
        if e.source.len() == 0 {
            spec_collect(
                es.skip(1),
                if h is None {
                    Some(e.translated)
                } else {
                    h
                },
                acc,
            )
        } else {
            spec_collect(es.skip(1), h, spec_upsert(acc, e))
        }
    }
}

/// Builds a catalog from decoded entries, as `spec_collect` describes.
pub fn collect_catalog(entries: Vec<Entry>) -> (c: Catalog)
    ensures
        ({
            let (h, acc) = spec_collect(views(entries@), None, Seq::empty());
            &&& c.header_view() == h
            &&& c.evs() == acc
            &&& c.wf()
        }),
{
    let ghost all = views(entries@);
    let mut rest = entries;
    let mut c = Catalog { header: None, entries: Vec::new() };
    proof {
        assert(views(c.entries@) =~= Seq::<EntryV>::empty());
        assert(views(rest@) =~= all);
    }
    while rest.len() > 0
        invariant
            spec_collect(all, None, Seq::empty()) == spec_collect(
                views(rest@),
                c.header_view(),
                c.evs(),
            ),
            unique_keys(c.evs()),
            nonempty_sources(c.evs()),
        decreases rest.len(),
    {
        let ghost rest0 = views(rest@);
        let e = rest.remove(0);
        proof {
            assert(views(rest@) =~= rest0.skip(1));
            assert(e@ == rest0[0]);
        }
        if e.source_text.as_str().is_empty() {
            match &c.header {
                Option::None => {
                    let t = e.translated_text;
                    c = Catalog { header: Some(t), entries: c.entries };
                },
                Option::Some(_) => {},
            }
        } else {
            proof {
                lemma_upsert_wf(c.evs(), e@);
            }
            let ghost evs0 = c.evs();
            upsert_entry(&mut c.entries, e);
            proof {
                assert(c.evs() == spec_upsert(evs0, e@));
            }
        }
    }
    proof {
        assert(views(rest@) =~= Seq::<EntryV>::empty());
    }
    c
}

} // verus!
