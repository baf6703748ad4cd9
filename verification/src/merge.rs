//! The priority merge over several PO catalogs.
//!
//! Sources are folded in input order; the first source is the main one
//! and supplies the header. For an existing key the incoming entry is
//! discarded when `ignore_main_entries` protects a main-source entry;
//! otherwise it replaces the existing one when it comes from the main
//! source or the existing one is not fuzzy, and is discarded when the
//! existing one is fuzzy. This is the literal fold rule of the engine:
//! a later source overrides an earlier one except where a fuzzy entry or
//! `ignore_main_entries` blocks it.

use vstd::prelude::*;
use crate::entry::{
    key_index, lemma_key_index, nonempty_sources, opt_view, unique_keys, views, Catalog, Entry,
    EntryV, same_key,
};
use crate::errors::CatalogError;
use crate::po::{
    encode_po, lemma_po_run_nonempty, parse_po_entries, po_encode_ok, po_init, po_run,
    spec_po_entries, spec_validate, validate_po_text,
};
use crate::text::spec_lines;

verus! {

/// The merge fold step for one incoming entry.
pub open spec fn spec_store(acc: Seq<EntryV>, e: EntryV, ignore_main: bool) -> Seq<EntryV> {
    let i = key_index(acc, e.key());
    if i < 0 {
        acc.push(e)
    } else {
        let ex = acc[i];
        if ignore_main && ex.from_main {
            acc
        } else if e.from_main || !ex.fuzzy {
            acc.update(i, e)
        } else {
            acc
        }
    }
}

/// The fold of one source's entries, in order.
pub open spec fn store_all(acc: Seq<EntryV>, es: Seq<EntryV>, ignore_main: bool) -> Seq<EntryV>
    decreases es.len(),
{
    if es.len() == 0 {
        acc
    } else {
        store_all(spec_store(acc, es[0], ignore_main), es.skip(1), ignore_main)
    }
}

/// Storing preserves key uniqueness and nonempty sources.
pub proof fn lemma_store_wf(acc: Seq<EntryV>, e: EntryV, ignore_main: bool)
    requires
        unique_keys(acc),
        nonempty_sources(acc),
        e.source.len() > 0,
    ensures
        unique_keys(spec_store(acc, e, ignore_main)),
        nonempty_sources(spec_store(acc, e, ignore_main)),
{
    lemma_key_index(acc, e.key());
    let i = key_index(acc, e.key());
    let r = spec_store(acc, e, ignore_main);
    if i < 0 {
        assert forall|p: int, q: int| 0 <= p < q < r.len() implies (#[trigger] r[p]).key()
            != (#[trigger] r[q]).key() by {
            if q < acc.len() {
            } else {
                assert(r[q] == e);
                assert(r[p] == acc[p]);
            }
        }
    } else if !(ignore_main && acc[i].from_main) && (e.from_main || !acc[i].fuzzy) {
        assert forall|p: int, q: int| 0 <= p < q < r.len() implies (#[trigger] r[p]).key()
            != (#[trigger] r[q]).key() by {
            assert(acc[p].key() != acc[q].key());
        }
    }
}

/// Folds one incoming entry into the merge table, as `spec_store` says.
pub fn store_entry(entries: &mut Vec<Entry>, e: Entry, ignore_main_entries: bool)
    ensures
        views(final(entries)@) == spec_store(views(old(entries)@), e@, ignore_main_entries),
{
    let ghost evs0 = views(old(entries)@);
    proof {
        lemma_key_index(evs0, e@.key());
    }
    let n = entries.len();
    let mut i: usize = 0;
    while i < n
        invariant
            i <= n,
            n == entries@.len(),
            entries@ == old(entries)@,
            evs0 == views(entries@),
            forall|q: int| 0 <= q < i ==> (#[trigger] evs0[q]).key() != e@.key(),
        decreases n - i,
    {
        if same_key(&entries[i], &e) {
            proof {
                assert(evs0[i as int] == entries@[i as int]@);
                crate::entry::lemma_key_index_first(evs0, e@.key(), i as int);
                assert(key_index(evs0, e@.key()) == i);
            }
            let keep = (ignore_main_entries && entries[i].from_main) || (!e.from_main
                && entries[i].is_fuzzy);
            if keep {
                proof {
                    assert(views(entries@) =~= spec_store(evs0, e@, ignore_main_entries));
                }
                return;
            }
            let _old = entries.remove(i);
            entries.insert(i, e);
            proof {
                assert(entries@ =~= old(entries)@.update(i as int, e));
                assert(views(entries@) =~= spec_store(evs0, e@, ignore_main_entries));
            }
            return;
        }
        proof {
            assert(evs0[i as int] == entries@[i as int]@);
        }
        i = i + 1;
    }
    proof {
        assert(key_index(evs0, e@.key()) < 0) by {
            if key_index(evs0, e@.key()) >= 0 {
                assert(evs0[key_index(evs0, e@.key())].key() == e@.key());
            }
        }
    }
    entries.push(e);
    proof {
        assert(views(entries@) =~= spec_store(evs0, e@, ignore_main_entries));
    }
}

/// The merged entries of the sources from index `i` on, or the failing
/// line of the first source that does not parse.
pub open spec fn spec_merge_entries(
    texts: Seq<Seq<char>>,
    i: int,
    acc: Seq<EntryV>,
    ignore_main: bool,
) -> Result<Seq<EntryV>, nat>
    decreases texts.len() - i,
    when 0 <= i <= texts.len()
{
    if i >= texts.len() {
        Ok(acc)
    } else {
        match spec_po_entries(texts[i], i == 0) {
            Err(l) => Err(l),
            Ok((h, es)) => spec_merge_entries(texts, i + 1, store_all(acc, es, ignore_main), ignore_main),
        }
    }
}

/// The merged catalog's header: the main source's, if any.
pub open spec fn spec_merge_header(texts: Seq<Seq<char>>) -> Option<Seq<char>> {
    if texts.len() == 0 {
        None
    } else {
        match spec_po_entries(texts[0], true) {
            Err(_) => None,
            Ok((h, _)) => h,
        }
    }
}

/// Merges several PO catalog texts, highest priority first, into one PO
/// text, and re-validates the written text before returning it.
pub fn merge_po_files(texts: &Vec<String>, ignore_main_entries: bool) -> (r: Result<
    String,
    CatalogError,
>)
    ensures
        ({
            let tv = texts@.map_values(|t: String| t@);
            match r {
                Ok(out) => {
                    &&& texts@.len() > 0
                    &&& spec_merge_entries(tv, 0, Seq::empty(), ignore_main_entries) is Ok
                    &&& po_encode_ok(
                        spec_merge_header(tv),
                        spec_merge_entries(tv, 0, Seq::empty(), ignore_main_entries)->Ok_0,
                        out@,
                    )
                    &&& spec_validate(out@) is None
                },
                Err(CatalogError::EmptyInput) => texts@.len() == 0,
                Err(CatalogError::Format { line }) => {
                    &&& texts@.len() > 0
                    &&& spec_merge_entries(tv, 0, Seq::empty(), ignore_main_entries) == Err::<
                        Seq<EntryV>,
                        nat,
                    >(line as nat)
                },
                Err(CatalogError::Validation { line }) => {
                    &&& texts@.len() > 0
                    &&& spec_merge_entries(tv, 0, Seq::empty(), ignore_main_entries) is Ok
                    &&& exists|t: Seq<char>|
                        {
                            &&& #[trigger] po_encode_ok(
                                spec_merge_header(tv),
                                spec_merge_entries(
                                    tv,
                                    0,
                                    Seq::empty(),
                                    ignore_main_entries,
                                )->Ok_0,
                                t,
                            )
                            &&& spec_validate(t) == Some(line as nat)
                        }
                },
            }
        }),
{
    let ghost tv = texts@.map_values(|t: String| t@);
    let n = texts.len();
    if n == 0 {
        return Err(CatalogError::EmptyInput);
    }
    let mut merged: Vec<Entry> = Vec::new();
    let mut header: Option<String> = None;
    let mut i: usize = 0;
    proof {
        assert(views(merged@) =~= Seq::<EntryV>::empty());
    }
    while i < n
        invariant
            i <= n,
            0 < n == texts@.len(),
            tv == texts@.map_values(|t: String| t@),
            unique_keys(views(merged@)),
            nonempty_sources(views(merged@)),
            spec_merge_entries(tv, 0, Seq::empty(), ignore_main_entries) == spec_merge_entries(
                tv,
                i as int,
                views(merged@),
                ignore_main_entries,
            ),
            i > 0 ==> opt_view(header) == spec_merge_header(tv),
        decreases n - i,
    {
        proof {
            assert(tv[i as int] == texts@[i as int]@);
        }
        let from_main = i == 0;
        match parse_po_entries(texts[i].as_str(), from_main) {
            Err(e) => {
                proof {
                    let l = spec_po_entries(tv[i as int], from_main)->Err_0;
                    assert(spec_merge_entries(tv, i as int, views(merged@), ignore_main_entries)
                        == Err::<Seq<EntryV>, nat>(l));
                    assert(spec_merge_entries(tv, 0, Seq::empty(), ignore_main_entries) == Err::<
                        Seq<EntryV>,
                        nat,
                    >(l));
                    assert(l as usize as nat == l);
                }
                return Err(e);
            },
            Ok((h, entries)) => {
                proof {
                    lemma_po_run_nonempty(
                        spec_lines(tv[i as int]),
                        po_init(),
                        1,
                        from_main,
                    );
                }
                let ghost es = views(entries@);
                let ghost acc0 = views(merged@);
                proof {
                    assert(spec_po_entries(tv[i as int], from_main) == Ok::<_, nat>(
                        (opt_view(h), es),
                    ));
                    assert(nonempty_sources(es));
                    if i == 0 {
                        assert(opt_view(h) == spec_merge_header(tv));
                    }
                }
                let header_set = i == 0;
                if header_set {
                    header = h;
                }
                let mut rest = entries;
                while rest.len() > 0
                    invariant
                        unique_keys(views(merged@)),
                        nonempty_sources(views(merged@)),
                        nonempty_sources(views(rest@)),
                        store_all(acc0, es, ignore_main_entries) == store_all(
                            views(merged@),
                            views(rest@),
                            ignore_main_entries,
                        ),
                    decreases rest.len(),
                {
                    let ghost rest0 = views(rest@);
                    let e = rest.remove(0);
                    proof {
                        assert(views(rest@) =~= rest0.skip(1));
                        assert(e@ == rest0[0]);
                        lemma_store_wf(views(merged@), e@, ignore_main_entries);
                        assert(nonempty_sources(views(rest@))) by {
                            assert forall|q: int|
                                0 <= q < rest0.skip(1).len() implies (#[trigger] rest0.skip(
                                1,
                            )[q]).source.len() > 0 by {
                                assert(rest0.skip(1)[q] == rest0[q + 1]);
                            }
                        }
                    }
                    store_entry(&mut merged, e, ignore_main_entries);
                }
                proof {
                    assert(views(rest@) =~= Seq::<EntryV>::empty());
                    assert(store_all(acc0, es, ignore_main_entries) == views(merged@));
                    assert(spec_merge_entries(tv, i as int, acc0, ignore_main_entries)
                        == spec_merge_entries(
                        tv,
                        i as int + 1,
                        views(merged@),
                        ignore_main_entries,
                    ));
                }
            },
        }
        i = i + 1;
    }
    proof {
        assert(spec_merge_entries(tv, n as int, views(merged@), ignore_main_entries) == Ok::<
            Seq<EntryV>,
            nat,
        >(views(merged@)));
    }
    let ghost merged_v = views(merged@);
    let ghost hv = opt_view(header);
    let c = Catalog { header, entries: merged };
    proof {
        assert(c.header_view() == hv);
        assert(c.evs() == merged_v);
    }
    let out = encode_po(c);
    proof {
        assert(po_encode_ok(hv, merged_v, out@));
        assert(hv == spec_merge_header(tv));
        assert(po_encode_ok(spec_merge_header(tv), merged_v, out@));
        assert(spec_merge_entries(tv, 0, Seq::empty(), ignore_main_entries) == Ok::<
            Seq<EntryV>,
            nat,
        >(merged_v));
    }
    match validate_po_text(out.as_str()) {
        Ok(()) => {
            proof {
                assert(texts@.len() > 0);
                assert(spec_merge_entries(tv, 0, Seq::empty(), ignore_main_entries) is Ok);
                assert(po_encode_ok(
                    spec_merge_header(tv),
                    spec_merge_entries(tv, 0, Seq::empty(), ignore_main_entries)->Ok_0,
                    out@,
                ));
                assert(spec_validate(out@) is None);
            }
            Ok(out)
        },
        Err(e) => {
            proof {
                let line = spec_validate(out@).unwrap() as usize;
                assert(line as nat == spec_validate(out@).unwrap());
                assert(po_encode_ok(
                    spec_merge_header(tv),
                    spec_merge_entries(tv, 0, Seq::empty(), ignore_main_entries)->Ok_0,
                    out@,
                ) && spec_validate(out@) == Some(line as nat));
                assert(exists|t: Seq<char>|
                    {
                        &&& #[trigger] po_encode_ok(
                            spec_merge_header(tv),
                            spec_merge_entries(tv, 0, Seq::empty(), ignore_main_entries)->Ok_0,
                            t,
                        )
                        &&& spec_validate(t) == Some(line as nat)
                    });
            }
            Err(e)
        },
    }
}

} // verus!
