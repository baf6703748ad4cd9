//! The textual PO catalog codec.
//!
//! Decoding is a line-oriented state machine: comment lines accumulate on
//! the entry being built, `msgctxt` / `msgid` / `msgstr` open fields with a
//! quoted string, a bare quoted line continues the last opened field, and
//! a blank line commits the entry. The first block with an empty msgid is
//! the header. Encoding writes each entry as its comments, fields and one
//! closing blank line, with long or multi-line strings split over
//! continuation lines.

use vstd::prelude::*;
use vstd::relations::sorted_by;
use crate::entry::{
    catalog_from_entries, entries_map, entry_le_rel, lemma_entries_map_perm,
    lemma_seq_multiset_elems, nonempty_sources, opt_view, sort_entries, unique_keys, upsert_all,
    views, Catalog,
    Entry, EntryV,
};
use crate::errors::CatalogError;
use crate::escape::{escape_range, spec_escape, spec_parse_quoted, parse_quoted_range};
use crate::text::{
    chars_vec, contains_char, spec_has_sub, spec_lines, spec_starts_with, spec_trim, split_lines,
    starts_with_lit, string_of, trim_chars, has_sub,
};

verus! {

/// Which field the last keyword line opened.
#[derive(PartialEq, Eq, Structural, Clone, Copy, Debug)]
pub enum PoField {
    Start,
    Comment,
    Ctxt,
    Id,
    Str,
}

/// The full parser state: the entry being accumulated, the header found
/// so far, and the committed entries in input order.
#[verifier::ext_equal]
pub struct PoSt {
    pub field: PoField,
    pub ctx: Option<Seq<char>>,
    pub id: Seq<char>,
    pub msg: Seq<char>,
    pub comments: Seq<Seq<char>>,
    pub fuzzy: bool,
    pub seen_id: bool,
    pub start_line: nat,
    pub header: Option<Seq<char>>,
    pub out: Seq<EntryV>,
}

/// The state before any line.
pub open spec fn po_init() -> PoSt {
    PoSt {
        field: PoField::Start,
        ctx: None,
        id: Seq::empty(),
        msg: Seq::empty(),
        comments: Seq::empty(),
        fuzzy: false,
        seen_id: false,
        start_line: 0,
        header: None,
        out: Seq::empty(),
    }
}

/// The entry that a commit of the current block yields.
pub open spec fn cur_entry(st: PoSt, from_main: bool) -> EntryV {
    EntryV {
        context: st.ctx,
        source: st.id,
        translated: st.msg,
        comments: st.comments,
        fuzzy: st.fuzzy,
        from_main,
        line: st.start_line,
    }
}

/// A blank line (or the end of input) commits the accumulated block: an
/// empty msgid feeds the header (first such block only), a nonempty one
/// appends an entry, a block that never opened msgid is dropped.
pub open spec fn po_commit(st: PoSt, from_main: bool) -> PoSt {
    let header = if st.seen_id && st.id.len() == 0 && st.header is None {
        Some(st.msg)
    } else {
        st.header
    };
    let out = if st.seen_id && st.id.len() > 0 {
        st.out.push(cur_entry(st, from_main))
    } else {
        st.out
    };
    PoSt {
        field: PoField::Start,
        ctx: None,
        id: Seq::empty(),
        msg: Seq::empty(),
        comments: Seq::empty(),
        fuzzy: false,
        seen_id: false,
        start_line: 0,
        header,
        out,
    }
}

/// One line of input applied to the state; `None` is a syntax error.
pub open spec fn po_step(st: PoSt, raw: Seq<char>, lineno: nat, from_main: bool) -> Option<PoSt> {
    let l = spec_trim(raw);
    if l.len() == 0 {
        Some(po_commit(st, from_main))
    } else {
        let st1 = if st.field is Start {
            PoSt { start_line: lineno, ..st }
        } else {
            st
        };
        if l[0] == '#' {
            Some(
                PoSt {
                    field: PoField::Comment,
                    comments: st1.comments.push(l),
                    fuzzy: st1.fuzzy || spec_has_sub(l, "fuzzy"@),
                    ..st1
                },
            )
        } else if spec_starts_with(l, "msgctxt "@) {
            match spec_parse_quoted(l.skip("msgctxt "@.len() as int)) {
                Some(v) => Some(PoSt { field: PoField::Ctxt, ctx: Some(v), ..st1 }),
                None => None,
            }
        } else if spec_starts_with(l, "msgid "@) {
            match spec_parse_quoted(l.skip("msgid "@.len() as int)) {
                Some(v) => Some(PoSt { field: PoField::Id, id: v, seen_id: true, ..st1 }),
                None => None,
            }
        } else if spec_starts_with(l, "msgstr "@) {
            match spec_parse_quoted(l.skip("msgstr "@.len() as int)) {
                Some(v) => Some(PoSt { field: PoField::Str, msg: v, ..st1 }),
                None => None,
            }
        } else if l[0] == '"' {
            match spec_parse_quoted(l) {
                Some(v) => match st1.field {
                    PoField::Ctxt => Some(
                        PoSt {
                            ctx: match st1.ctx {
                                Some(c) => Some(c + v),
                                None => st1.ctx,
                            },
                            ..st1
                        },
                    ),
                    PoField::Id => Some(PoSt { id: st1.id + v, ..st1 }),
                    PoField::Str => Some(PoSt { msg: st1.msg + v, ..st1 }),
                    _ => None,
                },
                None => None,
            }
        } else {
            None
        }
    }
}

/// Runs the parser over the lines, numbering them from `lineno`; an error
/// carries the offending line number.
pub open spec fn po_run(lines: Seq<Seq<char>>, st: PoSt, lineno: nat, from_main: bool) -> Result<
    PoSt,
    nat,
>
    decreases lines.len(),
{
    if lines.len() == 0 {
        Ok(st)
    } else {
        match po_step(st, lines[0], lineno, from_main) {
            None => Err(lineno),
            Some(st2) => po_run(lines.skip(1), st2, (lineno + 1) as nat, from_main),
        }
    }
}

/// The parse of a whole text: run all lines, then commit what is open.
pub open spec fn spec_po_entries(text: Seq<char>, from_main: bool) -> Result<
    (Option<Seq<char>>, Seq<EntryV>),
    nat,
> {
    match po_run(spec_lines(text), po_init(), 1, from_main) {
        Err(l) => Err(l),
        Ok(st) => {
            let fin = po_commit(st, from_main);
            Ok((fin.header, fin.out))
        },
    }
}

/// The executable accumulator mirroring `PoSt`.
struct PoAcc {
    field: PoField,
    ctx: Option<String>,
    id: String,
    msg: String,
    comments: Vec<String>,
    fuzzy: bool,
    seen_id: bool,
    start_line: usize,
    header: Option<String>,
    out: Vec<Entry>,
}

impl View for PoAcc {
    type V = PoSt;

    closed spec fn view(&self) -> PoSt {
        PoSt {
            field: self.field,
            ctx: match self.ctx {
                Some(c) => Some(c@),
                None => None,
            },
            id: self.id@,
            msg: self.msg@,
            comments: self.comments@.map_values(|c: String| c@),
            fuzzy: self.fuzzy,
            seen_id: self.seen_id,
            start_line: self.start_line as nat,
            header: match self.header {
                Some(h) => Some(h@),
                None => None,
            },
            out: views(self.out@),
        }
    }
}

impl PoAcc {
    fn init() -> (r: PoAcc)
        ensures
            r@ == po_init(),
    {
        let r = PoAcc {
            field: PoField::Start,
            ctx: None,
            id: String::new(),
            msg: String::new(),
            comments: Vec::new(),
            fuzzy: false,
            seen_id: false,
            start_line: 0,
            header: None,
            out: Vec::new(),
        };
        proof {
            assert(r@ =~= po_init());
        }
        r
    }

    /// Commits the open block, as a blank line or the end of input does.
    fn commit(self, from_main: bool) -> (r: PoAcc)
        ensures
            r@ == po_commit(self@, from_main),
    {
        let ghost st = self@;
        let PoAcc { field, ctx, id, msg, comments, fuzzy, seen_id, start_line, header, mut out } =
            self;
        let header = if seen_id && id.as_str().is_empty() && header.is_none() {
            Some(msg.clone())
        } else {
            header
        };
        if seen_id && !id.as_str().is_empty() {
            let e = Entry {
                context: ctx,
                source_text: id,
                translated_text: msg,
                comments,
                is_fuzzy: fuzzy,
                from_main,
                line_number: start_line,
            };
            proof {
                assert(e@ =~= cur_entry(st, from_main));
            }
            out.push(e);
            proof {
                assert(views(out@) =~= po_commit(st, from_main).out);
            }
        }
        let r = PoAcc {
            field: PoField::Start,
            ctx: None,
            id: String::new(),
            msg: String::new(),
            comments: Vec::new(),
            fuzzy: false,
            seen_id: false,
            start_line: 0,
            header,
            out,
        };
        proof {
            assert(r@ =~= po_commit(st, from_main));
        }
        r
    }

    /// Applies one raw input line.
    fn step(self, raw: &Vec<char>, lineno: usize, from_main: bool) -> (r: Result<
        PoAcc,
        CatalogError,
    >)
        ensures
            match r {
                Ok(a2) => po_step(self@, raw@, lineno as nat, from_main) == Some(a2@),
                Err(e) => {
                    &&& po_step(self@, raw@, lineno as nat, from_main) is None
                    &&& e == (CatalogError::Format { line: lineno })
                },
            },
    {
        let ghost st0 = self@;
        let l = trim_chars(raw);
        if l.len() == 0 {
            let r = self.commit(from_main);
            return Ok(r);
        }
        let mut acc = self;
        if matches!(acc.field, PoField::Start) {
            acc.start_line = lineno;
        }
        let ghost st1 = acc@;
        proof {
            assert(st1 == if st0.field is Start {
                PoSt { start_line: lineno as nat, ..st0 }
            } else {
                st0
            }) by {
                if st0.field is Start {
                    assert(st1 =~= PoSt { start_line: lineno as nat, ..st0 });
                } else {
                    assert(st1 =~= st0);
                }
            }
        }
        if l[0] == '#' {
            let is_fuzzy_line = has_sub(&l, "fuzzy");
            let line_str = string_of(&l);
            acc.comments.push(line_str);
            acc.fuzzy = acc.fuzzy || is_fuzzy_line;
            acc.field = PoField::Comment;
            proof {
                assert(acc@.comments =~= st1.comments.push(spec_trim(raw@)));
                assert(acc@ =~= (PoSt {
                    field: PoField::Comment,
                    comments: st1.comments.push(spec_trim(raw@)),
                    fuzzy: st1.fuzzy || spec_has_sub(spec_trim(raw@), "fuzzy"@),
                    ..st1
                }));
            }
            Ok(acc)
        } else if starts_with_lit(&l, "msgctxt ") {
            proof {
                reveal_strlit("msgctxt ");
            }
            match parse_quoted_range(&l, 8, l.len()) {
                Some(v) => {
                    proof {
                        assert(l@.subrange(8, l@.len() as int) =~= l@.skip("msgctxt "@.len() as int));
                    }
                    acc.ctx = Some(v);
                    acc.field = PoField::Ctxt;
                    proof {
                        assert(acc@ =~= (PoSt {
                            field: PoField::Ctxt,
                            ctx: Some(
                                spec_parse_quoted(
                                    spec_trim(raw@).skip("msgctxt "@.len() as int),
                                ).unwrap(),
                            ),
                            ..st1
                        }));
                    }
                    Ok(acc)
                },
                None => {
                    proof {
                        assert(l@.subrange(8, l@.len() as int) =~= l@.skip("msgctxt "@.len() as int));
                    }
                    Err(CatalogError::Format { line: lineno })
                },
            }
        } else if starts_with_lit(&l, "msgid ") {
            proof {
                reveal_strlit("msgid ");
            }
            match parse_quoted_range(&l, 6, l.len()) {
                Some(v) => {
                    proof {
                        assert(l@.subrange(6, l@.len() as int) =~= l@.skip("msgid "@.len() as int));
                    }
                    acc.id = v;
                    acc.seen_id = true;
                    acc.field = PoField::Id;
                    proof {
                        assert(acc@ =~= (PoSt {
                            field: PoField::Id,
                            id: spec_parse_quoted(
                                spec_trim(raw@).skip("msgid "@.len() as int),
                            ).unwrap(),
                            seen_id: true,
                            ..st1
                        }));
                    }
                    Ok(acc)
                },
                None => {
                    proof {
                        assert(l@.subrange(6, l@.len() as int) =~= l@.skip("msgid "@.len() as int));
                    }
                    Err(CatalogError::Format { line: lineno })
                },
            }
        } else if starts_with_lit(&l, "msgstr ") {
            proof {
                reveal_strlit("msgstr ");
            }
            match parse_quoted_range(&l, 7, l.len()) {
                Some(v) => {
                    proof {
                        assert(l@.subrange(7, l@.len() as int) =~= l@.skip("msgstr "@.len() as int));
                    }
                    acc.msg = v;
                    acc.field = PoField::Str;
                    proof {
                        assert(acc@ =~= (PoSt {
                            field: PoField::Str,
                            msg: spec_parse_quoted(
                                spec_trim(raw@).skip("msgstr "@.len() as int),
                            ).unwrap(),
                            ..st1
                        }));
                    }
                    Ok(acc)
                },
                None => {
                    proof {
                        assert(l@.subrange(7, l@.len() as int) =~= l@.skip("msgstr "@.len() as int));
                    }
                    Err(CatalogError::Format { line: lineno })
                },
            }
        } else if l[0] == '"' {
            proof {
                assert(l@.subrange(0, l@.len() as int) =~= l@);
            }
            match parse_quoted_range(&l, 0, l.len()) {
                Some(v) => {
                    match acc.field {
                        PoField::Ctxt => {
                            let ctx = acc.ctx.take();
                            match ctx {
                                Some(mut c) => {
                                    c.append(v.as_str());
                                    acc.ctx = Some(c);
                                },
                                None => {
                                    acc.ctx = None;
                                },
                            }
                            proof {
                                assert(acc@ =~= (PoSt {
                                    ctx: match st1.ctx {
                                        Some(c) => Some(c + spec_parse_quoted(spec_trim(raw@)).unwrap()),
                                        None => st1.ctx,
                                    },
                                    ..st1
                                }));
                            }
                            Ok(acc)
                        },
                        PoField::Id => {
                            acc.id.append(v.as_str());
                            proof {
                                assert(acc@ =~= (PoSt {
                                    id: st1.id + spec_parse_quoted(spec_trim(raw@)).unwrap(),
                                    ..st1
                                }));
                            }
                            Ok(acc)
                        },
                        PoField::Str => {
                            acc.msg.append(v.as_str());
                            proof {
                                assert(acc@ =~= (PoSt {
                                    msg: st1.msg + spec_parse_quoted(spec_trim(raw@)).unwrap(),
                                    ..st1
                                }));
                            }
                            Ok(acc)
                        },
                        _ => Err(CatalogError::Format { line: lineno }),
                    }
                },
                None => Err(CatalogError::Format { line: lineno }),
            }
        } else {
            Err(CatalogError::Format { line: lineno })
        }
    }
}

/// Parses PO text into its header (the first empty-msgid block) and the
/// committed entries in input order, every entry tagged `from_main`.
/// Fails with the line number of the first syntax violation.
pub fn parse_po_entries(text: &str, from_main: bool) -> (r: Result<
    (Option<String>, Vec<Entry>),
    CatalogError,
>)
    ensures
        match r {
            Ok((h, es)) => spec_po_entries(text@, from_main) == Ok::<_, nat>(
                (
                    match h {
                        Some(hh) => Some(hh@),
                        None => None,
                    },
                    views(es@),
                ),
            ),
            Err(e) => {
                &&& spec_po_entries(text@, from_main) is Err
                &&& spec_po_entries(text@, from_main)->Err_0 <= usize::MAX
                &&& e == (CatalogError::Format {
                    line: spec_po_entries(text@, from_main)->Err_0 as usize,
                })
            },
        },
{
    let chars = chars_vec(text);
    let lines = split_lines(&chars);
    let ghost lines_v = spec_lines(text@);
    let mut acc = PoAcc::init();
    let n = lines.len();
    let mut i: usize = 0;
    proof {
        assert(lines@.map_values(|l: Vec<char>| l@).skip(0) =~= lines_v);
    }
    while i < n
        invariant
            i <= n,
            n == lines@.len(),
            lines_v == spec_lines(text@),
            lines@.map_values(|l: Vec<char>| l@) == lines_v,
            po_run(lines_v, po_init(), 1, from_main) == po_run(
                lines_v.skip(i as int),
                acc@,
                (i + 1) as nat,
                from_main,
            ),
        decreases n - i,
    {
        proof {
            assert(lines_v[i as int] == lines@[i as int]@);
            assert(lines_v.skip(i as int)[0] == lines_v[i as int]);
            assert(lines_v.skip(i as int).skip(1) =~= lines_v.skip(i as int + 1));
        }
        let line = &lines[i];
        match acc.step(line, i + 1, from_main) {
            Ok(a2) => {
                acc = a2;
            },
            Err(e) => {
                proof {
                    assert(po_run(lines_v.skip(i as int), acc@, (i + 1) as nat, from_main)
                        == Err::<PoSt, nat>((i + 1) as nat));
                    assert(lines_v == spec_lines(text@));
                    assert(po_run(spec_lines(text@), po_init(), 1, from_main) == Err::<PoSt, nat>(
                        (i + 1) as nat,
                    ));
                    assert(spec_po_entries(text@, from_main) == Err::<
                        (Option<Seq<char>>, Seq<EntryV>),
                        nat,
                    >((i + 1) as nat));
                    assert(spec_po_entries(text@, from_main)->Err_0 as usize == i + 1);
                }
                return Err(e);
            },
        }
        i = i + 1;
    }
    proof {
        assert(lines_v.skip(n as int) =~= Seq::<Seq<char>>::empty());
    }
    let fin = acc.commit(from_main);
    let PoAcc { header, out, .. } = fin;
    proof {
        assert(spec_po_entries(text@, from_main) == Ok::<_, nat>(
            (
                match header {
                    Some(hh) => Some(hh@),
                    None => None,
                },
                views(out@),
            ),
        ));
    }
    Ok((header, out))
}

/// Entries committed by the parser always carry a nonempty source.
pub proof fn lemma_po_run_nonempty(lines: Seq<Seq<char>>, st: PoSt, lineno: nat, from_main: bool)
    requires
        nonempty_sources(st.out),
    ensures
        po_run(lines, st, lineno, from_main) matches Ok(st2) ==> nonempty_sources(
            po_commit(st2, from_main).out,
        ),
    decreases lines.len(),
{
    lemma_po_commit_nonempty(st, from_main);
    if lines.len() > 0 {
        match po_step(st, lines[0], lineno, from_main) {
            None => {},
            Some(st2) => {
                assert(nonempty_sources(st2.out)) by {
                    lemma_po_commit_nonempty(st, from_main);
                    lemma_po_step_out(st, lines[0], lineno, from_main);
                }
                lemma_po_run_nonempty(lines.skip(1), st2, (lineno + 1) as nat, from_main);
            },
        }
    }
}

/// One step either keeps the committed entries or commits one block.
proof fn lemma_po_step_out(st: PoSt, raw: Seq<char>, lineno: nat, from_main: bool)
    requires
        po_step(st, raw, lineno, from_main) is Some,
        nonempty_sources(st.out),
    ensures
        nonempty_sources(po_step(st, raw, lineno, from_main).unwrap().out),
{
    let st2 = po_step(st, raw, lineno, from_main).unwrap();
    let l = spec_trim(raw);
    if l.len() == 0 {
        lemma_po_commit_nonempty(st, from_main);
    } else {
        assert(st2.out == st.out);
    }
}

proof fn lemma_po_commit_nonempty(st: PoSt, from_main: bool)
    requires
        nonempty_sources(st.out),
    ensures
        nonempty_sources(po_commit(st, from_main).out),
{
    let out2 = po_commit(st, from_main).out;
    if st.seen_id && st.id.len() > 0 {
        assert forall|i: int| 0 <= i < out2.len() implies (#[trigger] out2[i]).source.len()
            > 0 by {
            if i < st.out.len() {
                assert(out2[i] == st.out[i]);
            } else {
                assert(out2[i] == cur_entry(st, from_main));
            }
        }
    }
}

/// Parses PO text into a catalog: entries keyed by (context, source
/// text), last write winning, the first empty-msgid block as header.
pub fn parse_po_text(text: &str, from_main: bool) -> (r: Result<Catalog, CatalogError>)
    ensures
        match r {
            Ok(c) => {
                &&& spec_po_entries(text@, from_main) is Ok
                &&& ({
                    let (h, es) = spec_po_entries(text@, from_main)->Ok_0;
                    c.header_view() == h && c.evs() == upsert_all(Seq::empty(), es)
                })
                &&& c.wf()
            },
            Err(e) => {
                &&& spec_po_entries(text@, from_main) is Err
                &&& e == (CatalogError::Format {
                    line: spec_po_entries(text@, from_main)->Err_0 as usize,
                })
            },
        },
{
    match parse_po_entries(text, from_main) {
        Ok((header, entries)) => {
            proof {
                lemma_po_run_nonempty(spec_lines(text@), po_init(), 1, from_main);
                assert(nonempty_sources(po_init().out));
            }
            let c = catalog_from_entries(header, entries);
            Ok(c)
        },
        Err(e) => Err(e),
    }
}

/// How one field is written: short single-line values inline, values with
/// a newline or longer than 80 characters as `key ""` plus one quoted
/// continuation line per segment, each closed by a literal `\n`.
pub open spec fn spec_field_text(key: Seq<char>, v: Seq<char>) -> Seq<char> {
    if !v.contains('\n') && v.len() <= 80 {
        key + " \""@ + spec_escape(v) + "\"\n"@
    } else {
        key + " \"\"\n"@ + seg_lines_text(spec_lines(v))
    }
}

/// The continuation lines of a long or multi-line value.
pub open spec fn seg_lines_text(segs: Seq<Seq<char>>) -> Seq<char>
    decreases segs.len(),
{
    if segs.len() == 0 {
        Seq::empty()
    } else {
        "\""@ + spec_escape(segs[0]) + "\\n\"\n"@ + seg_lines_text(segs.skip(1))
    }
}

/// Comment lines are written back verbatim.
pub open spec fn comments_text(cs: Seq<Seq<char>>) -> Seq<char>
    decreases cs.len(),
{
    if cs.len() == 0 {
        Seq::empty()
    } else {
        cs[0] + "\n"@ + comments_text(cs.skip(1))
    }
}

/// One encoded entry: comments, optional context, source, translation,
/// and the closing blank line.
pub open spec fn spec_entry_block(e: EntryV) -> Seq<char> {
    comments_text(e.comments) + (match e.context {
        Some(c) => spec_field_text("msgctxt"@, c),
        None => Seq::empty(),
    }) + spec_field_text("msgid"@, e.source) + spec_field_text("msgstr"@, e.translated) + "\n"@
}

/// The header block: empty msgid, the metadata as msgstr.
pub open spec fn spec_header_block(h: Seq<char>) -> Seq<char> {
    spec_field_text("msgid"@, Seq::empty()) + spec_field_text("msgstr"@, h) + "\n"@
}

/// The minimal self-describing header synthesized when a catalog has none.
pub open spec fn default_header_text() -> Seq<char> {
    "Content-Type: text/plain; charset=UTF-8\nContent-Transfer-Encoding: 8bit\nPlural-Forms: nplurals=2; plural=(n != 1);\n"@
}

/// The concatenated blocks of the entries, in the given order.
pub open spec fn blocks_text(es: Seq<EntryV>) -> Seq<char>
    decreases es.len(),
{
    if es.len() == 0 {
        Seq::empty()
    } else {
        spec_entry_block(es[0]) + blocks_text(es.skip(1))
    }
}

/// The whole encoded text for a header and an entry order.
pub open spec fn spec_encode_po(hv: Option<Seq<char>>, es: Seq<EntryV>) -> Seq<char> {
    spec_header_block(
        match hv {
            Some(h) => h,
            None => default_header_text(),
        },
    ) + blocks_text(es)
}

/// `text` encodes the catalog with header `hv` and entries `evs`, through
/// the sorted output order `es`.
pub open spec fn po_encodes(
    hv: Option<Seq<char>>,
    evs: Seq<EntryV>,
    text: Seq<char>,
    es: Seq<EntryV>,
) -> bool {
    &&& sorted_by(es, entry_le_rel())
    &&& es.to_multiset() == evs.to_multiset()
    &&& text == spec_encode_po(hv, es)
}

/// Some sorted order of the catalog's entries encodes to `text`.
pub open spec fn po_encode_ok(hv: Option<Seq<char>>, evs: Seq<EntryV>, text: Seq<char>) -> bool {
    exists|es: Seq<EntryV>| #[trigger] po_encodes(hv, evs, text, es)
}

/// The synthesized default header.
pub fn default_po_header() -> (r: String)
    ensures
        r@ == default_header_text(),
{
    String::from_str(
        "Content-Type: text/plain; charset=UTF-8\nContent-Transfer-Encoding: 8bit\nPlural-Forms: nplurals=2; plural=(n != 1);\n",
    )
}

/// Appends one `key "value"` field to `out`, as `spec_field_text` says.
pub fn write_po_string(out: &mut String, key: &str, value: &str)
    ensures
        final(out)@ == old(out)@ + spec_field_text(key@, value@),
{
    let vc = chars_vec(value);
    let has_nl = contains_char(&vc, '\n');
    if !has_nl && vc.len() <= 80 {
        out.append(key);
        out.append(" \"");
        let esc = escape_range(&vc, 0, vc.len());
        proof {
            assert(vc@.subrange(0, vc@.len() as int) =~= vc@);
        }
        out.append(esc.as_str());
        out.append("\"\n");
        proof {
            assert(out@ =~= old(out)@ + spec_field_text(key@, value@));
        }
    } else {
        out.append(key);
        out.append(" \"\"\n");
        let ghost base = old(out)@ + key@ + " \"\"\n"@;
        proof {
            assert(out@ =~= base);
        }
        let segs = split_lines(&vc);
        let ghost segs_v = spec_lines(value@);
        let n = segs.len();
        let mut i: usize = 0;
        proof {
            assert(segs@.map_values(|l: Vec<char>| l@).skip(0) =~= segs_v);
            assert(segs_v.skip(0) =~= segs_v);
        }
        while i < n
            invariant
                i <= n,
                n == segs@.len(),
                segs_v == spec_lines(value@),
                segs@.map_values(|l: Vec<char>| l@) == segs_v,
                base == old(out)@ + key@ + " \"\"\n"@,
                out@ + seg_lines_text(segs_v.skip(i as int)) == base + seg_lines_text(segs_v),
            decreases n - i,
        {
            let ghost o0 = out@;
            proof {
                assert(segs_v[i as int] == segs@[i as int]@);
                assert(segs_v.skip(i as int)[0] == segs_v[i as int]);
                assert(segs_v.skip(i as int).skip(1) =~= segs_v.skip(i as int + 1));
            }
            let seg = &segs[i];
            out.append("\"");
            let esc = escape_range(seg, 0, seg.len());
            proof {
                assert(seg@.subrange(0, seg@.len() as int) =~= seg@);
            }
            out.append(esc.as_str());
            out.append("\\n\"\n");
            proof {
                assert(out@ =~= o0 + ("\""@ + spec_escape(segs_v[i as int]) + "\\n\"\n"@));
                assert(o0 + (("\""@ + spec_escape(segs_v[i as int]) + "\\n\"\n"@)
                    + seg_lines_text(segs_v.skip(i as int + 1))) =~= out@ + seg_lines_text(
                    segs_v.skip(i as int + 1),
                ));
            }
            i = i + 1;
        }
        proof {
            assert(segs_v.skip(n as int) =~= Seq::<Seq<char>>::empty());
            assert(out@ + Seq::<char>::empty() =~= out@);
            assert(out@ =~= old(out)@ + spec_field_text(key@, value@));
        }
    }
}

/// Appends one whole entry block to `out`.
pub fn write_po_entry(out: &mut String, e: &Entry)
    ensures
        final(out)@ == old(out)@ + spec_entry_block(e@),
{
    let n = e.comments.len();
    let mut i: usize = 0;
    let ghost cs = e@.comments;
    proof {
        assert(cs.skip(0) =~= cs);
        assert(out@ == old(out)@);
    }
    while i < n
        invariant
            i <= n,
            n == e.comments@.len(),
            cs == e@.comments,
            out@ + comments_text(cs.skip(i as int)) == old(out)@ + comments_text(cs),
        decreases n - i,
    {
        let ghost o0 = out@;
        proof {
            assert(cs[i as int] == e.comments@[i as int]@);
            assert(cs.skip(i as int)[0] == cs[i as int]);
            assert(cs.skip(i as int).skip(1) =~= cs.skip(i as int + 1));
        }
        out.append(e.comments[i].as_str());
        out.append("\n");
        proof {
            assert(out@ =~= o0 + (cs[i as int] + "\n"@));
            assert(o0 + ((cs[i as int] + "\n"@) + comments_text(cs.skip(i as int + 1))) =~= out@
                + comments_text(cs.skip(i as int + 1)));
        }
        i = i + 1;
    }
    proof {
        assert(cs.skip(n as int) =~= Seq::<Seq<char>>::empty());
        assert(out@ + Seq::<char>::empty() =~= out@);
        assert(out@ =~= old(out)@ + comments_text(cs));
    }
    let ghost o1 = out@;
    match &e.context {
        Some(c) => {
            write_po_string(out, "msgctxt", c.as_str());
        },
        None => {},
    }
    let ghost o2 = out@;
    write_po_string(out, "msgid", e.source_text.as_str());
    write_po_string(out, "msgstr", e.translated_text.as_str());
    out.append("\n");
    proof {
        assert(out@ =~= old(out)@ + spec_entry_block(e@));
    }
}

/// Serializes a catalog to PO text: the header block first (a minimal
/// default is synthesized when the catalog has none), then the entries
/// sorted by source text.
pub fn encode_po(c: Catalog) -> (t: String)
    ensures
        po_encode_ok(c.header_view(), c.evs(), t@),
{
    let ghost hv = c.header_view();
    let ghost evs0 = c.evs();
    let header = c.header;
    let sorted = sort_entries(c.entries);
    let ghost es = views(sorted@);
    let mut out = String::new();
    let h = match header {
        Some(h) => h,
        None => default_po_header(),
    };
    write_po_string(&mut out, "msgid", "");
    write_po_string(&mut out, "msgstr", h.as_str());
    out.append("\n");
    proof {
        reveal_strlit("");
        assert(""@ =~= Seq::<char>::empty());
        assert(out@ =~= spec_header_block(
            match hv {
                Some(x) => x,
                None => default_header_text(),
            },
        ));
    }
    let ghost hblock = out@;
    let n = sorted.len();
    let mut i: usize = 0;
    proof {
        assert(es.skip(0) =~= es);
        assert(out@ == hblock);
    }
    while i < n
        invariant
            i <= n,
            n == sorted@.len(),
            es == views(sorted@),
            out@ + blocks_text(es.skip(i as int)) == hblock + blocks_text(es),
        decreases n - i,
    {
        let ghost o0 = out@;
        proof {
            assert(es[i as int] == sorted@[i as int]@);
            assert(es.skip(i as int)[0] == es[i as int]);
            assert(es.skip(i as int).skip(1) =~= es.skip(i as int + 1));
        }
        write_po_entry(&mut out, &sorted[i]);
        proof {
            assert(o0 + (spec_entry_block(es[i as int]) + blocks_text(es.skip(i as int + 1)))
                =~= out@ + blocks_text(es.skip(i as int + 1)));
        }
        i = i + 1;
    }
    proof {
        assert(es.skip(n as int) =~= Seq::<EntryV>::empty());
        assert(out@ + Seq::<char>::empty() =~= out@);
        assert(out@ =~= spec_encode_po(hv, es));
        assert(po_encodes(hv, evs0, out@, es));
        assert(po_encode_ok(c.header_view(), c.evs(), out@));
    }
    out
}

/// The validation scanner's state.
pub struct ValSt {
    pub in_entry: bool,
    pub has_id: bool,
    pub has_str: bool,
}

/// One line of the self-check: a blank line demands a complete block,
/// `msgid` opens one, `msgstr` demands a preceding `msgid`.
pub open spec fn val_step(st: ValSt, raw: Seq<char>) -> Option<ValSt> {
    let l = spec_trim(raw);
    if l.len() == 0 {
        if st.in_entry && !(st.has_id && st.has_str) {
            None
        } else {
            Some(ValSt { in_entry: false, has_id: false, has_str: false })
        }
    } else if spec_starts_with(l, "msgid "@) {
        Some(ValSt { in_entry: true, has_id: true, has_str: st.has_str })
    } else if spec_starts_with(l, "msgstr "@) {
        if !st.has_id {
            None
        } else {
            Some(ValSt { in_entry: st.in_entry, has_id: st.has_id, has_str: true })
        }
    } else {
        Some(st)
    }
}

/// The first failing line, 0 for an incomplete block at the end, or
/// `None` when the text passes.
pub open spec fn val_run(lines: Seq<Seq<char>>, st: ValSt, lineno: nat) -> Option<nat>
    decreases lines.len(),
{
    if lines.len() == 0 {
        if st.in_entry && !(st.has_id && st.has_str) {
            Some(0)
        } else {
            None
        }
    } else {
        match val_step(st, lines[0]) {
            None => Some(lineno),
            Some(st2) => val_run(lines.skip(1), st2, (lineno + 1) as nat),
        }
    }
}

pub open spec fn spec_validate(text: Seq<char>) -> Option<nat> {
    val_run(spec_lines(text), ValSt { in_entry: false, has_id: false, has_str: false }, 1)
}

/// Scans PO text for entry blocks that lack a paired msgid or msgstr
/// line, or where msgstr precedes msgid. Guards freshly written output
/// against encoder bugs.
pub fn validate_po_text(text: &str) -> (r: Result<(), CatalogError>)
    ensures
        match r {
            Ok(()) => spec_validate(text@) is None,
            Err(e) => {
                &&& spec_validate(text@) is Some
                &&& spec_validate(text@).unwrap() <= usize::MAX
                &&& e == (CatalogError::Validation { line: spec_validate(text@).unwrap() as usize })
            },
        },
{
    let chars = chars_vec(text);
    let lines = split_lines(&chars);
    let ghost lines_v = spec_lines(text@);
    let mut in_entry = false;
    let mut has_id = false;
    let mut has_str = false;
    let n = lines.len();
    let mut i: usize = 0;
    proof {
        assert(lines@.map_values(|l: Vec<char>| l@).skip(0) =~= lines_v);
    }
    while i < n
        invariant
            i <= n,
            n == lines@.len(),
            lines_v == spec_lines(text@),
            lines@.map_values(|l: Vec<char>| l@) == lines_v,
            spec_validate(text@) == val_run(
                lines_v.skip(i as int),
                (ValSt { in_entry, has_id, has_str }),
                (i + 1) as nat,
            ),
        decreases n - i,
    {
        proof {
            assert(lines_v[i as int] == lines@[i as int]@);
            assert(lines_v.skip(i as int)[0] == lines_v[i as int]);
            assert(lines_v.skip(i as int).skip(1) =~= lines_v.skip(i as int + 1));
        }
        let l = trim_chars(&lines[i]);
        if l.len() == 0 {
            if in_entry && !(has_id && has_str) {
                return Err(CatalogError::Validation { line: i + 1 });
            }
            in_entry = false;
            has_id = false;
            has_str = false;
        } else if starts_with_lit(&l, "msgid ") {
            in_entry = true;
            has_id = true;
        } else if starts_with_lit(&l, "msgstr ") {
            if !has_id {
                return Err(CatalogError::Validation { line: i + 1 });
            }
            has_str = true;
        }
        i = i + 1;
    }
    proof {
        assert(lines_v.skip(n as int) =~= Seq::<Seq<char>>::empty());
    }
    if in_entry && !(has_id && has_str) {
        return Err(CatalogError::Validation { line: 0 });
    }
    Ok(())
}

// ---------------------------------------------------------------------
// The PO round trip: decoding an encoded catalog recovers its contents.
// ---------------------------------------------------------------------
/// Lines joined back into text, a newline closing each line.
pub open spec fn join_nl(ls: Seq<Seq<char>>) -> Seq<char>
    decreases ls.len(),
{
    if ls.len() == 0 {
        Seq::empty()
    } else {
        ls[0] + seq!['\n'] + join_nl(ls.skip(1))
    }
}

/// No line of the list holds a newline.
pub open spec fn lines_ok(ls: Seq<Seq<char>>) -> bool {
    forall|i: int| 0 <= i < ls.len() ==> !(#[trigger] ls[i]).contains('\n')
}

proof fn lemma_join_nl_single(l: Seq<char>)
    ensures
        join_nl(seq![l]) == l + seq!['\n'],
{
    assert(seq![l][0] == l);
    assert(seq![l].skip(1) =~= Seq::<Seq<char>>::empty());
    assert(join_nl(Seq::<Seq<char>>::empty()) =~= Seq::<char>::empty());
    assert(join_nl(seq![l]) =~= l + seq!['\n']);
}

proof fn lemma_join_nl_concat(a: Seq<Seq<char>>, b: Seq<Seq<char>>)
    ensures
        join_nl(a + b) == join_nl(a) + join_nl(b),
    decreases a.len(),
{
    if a.len() == 0 {
        assert(a + b =~= b);
        assert(join_nl(a) + join_nl(b) =~= join_nl(b));
    } else {
        assert((a + b)[0] == a[0]);
        assert((a + b).skip(1) =~= a.skip(1) + b);
        lemma_join_nl_concat(a.skip(1), b);
        assert(join_nl(a + b) =~= join_nl(a) + join_nl(b));
    }
}

/// Splitting joined newline-free lines gives the lines back.
proof fn lemma_lines_unjoin(ls: Seq<Seq<char>>, rest: Seq<char>)
    requires
        lines_ok(ls),
    ensures
        spec_lines(join_nl(ls) + rest) == ls + spec_lines(rest),
    decreases ls.len(),
{
    if ls.len() == 0 {
        assert(join_nl(ls) + rest =~= rest);
        assert(ls + spec_lines(rest) =~= spec_lines(rest));
    } else {
        assert(!ls[0].contains('\n'));
        assert(lines_ok(ls.skip(1))) by {
            assert(forall|i: int|
                0 <= i < ls.skip(1).len() ==> #[trigger] ls.skip(1)[i] == ls[i + 1]);
        }
        lemma_lines_unjoin(ls.skip(1), rest);
        crate::text::lemma_lines_head(ls[0], join_nl(ls.skip(1)) + rest);
        assert(join_nl(ls) + rest =~= (ls[0] + seq!['\n']) + (join_nl(ls.skip(1)) + rest));
        assert(seq![ls[0]] + (ls.skip(1) + spec_lines(rest)) =~= ls + spec_lines(rest));
    }
}

/// Newline-terminated text is the join of its lines.
proof fn lemma_join_lines_id(h: Seq<char>)
    requires
        h.len() > 0,
        h.last() == '\n',
    ensures
        join_nl(spec_lines(h)) == h,
    decreases h.len(),
{
    crate::text::lemma_first_nl(h);
    let i = crate::text::first_nl(h);
    assert(i < h.len()) by {
        if i == h.len() {
            assert(h[h.len() - 1] != '\n');
        }
    }
    let l0 = h.subrange(0, i);
    let rest = h.skip(i + 1);
    assert(spec_lines(h) == seq![l0] + spec_lines(rest));
    if rest.len() == 0 {
        assert(i == h.len() - 1);
        assert(spec_lines(rest) =~= Seq::<Seq<char>>::empty());
        assert(seq![l0] + spec_lines(rest) =~= seq![l0]);
        lemma_join_nl_single(l0);
        assert(h[i] == '\n');
        assert(l0 + seq!['\n'] =~= h);
    } else {
        assert(rest.last() == h.last());
        lemma_join_lines_id(rest);
        assert((seq![l0] + spec_lines(rest))[0] == l0);
        assert((seq![l0] + spec_lines(rest)).skip(1) =~= spec_lines(rest));
        assert(join_nl(spec_lines(h)) == l0 + seq!['\n'] + join_nl(spec_lines(rest)));
        assert(h[i] == '\n');
        assert(l0 + seq!['\n'] + rest =~= h);
    }
}

/// The lines of one encoded field.
pub open spec fn field_lines(key: Seq<char>, v: Seq<char>) -> Seq<Seq<char>> {
    if !v.contains('\n') && v.len() <= 80 {
        seq![key + " \""@ + spec_escape(v) + "\""@]
    } else {
        seq![key + " \"\""@] + spec_lines(v).map_values(
            |sg: Seq<char>| "\""@ + spec_escape(sg) + "\\n\""@,
        )
    }
}

/// The field text is its lines joined.
proof fn lemma_field_text_lines(key: Seq<char>, v: Seq<char>)
    ensures
        spec_field_text(key, v) == join_nl(field_lines(key, v)),
{
    proof_strlits();
    if !v.contains('\n') && v.len() <= 80 {
        let l = key + " \""@ + spec_escape(v) + "\""@;
        assert(field_lines(key, v) =~= seq![l]);
        lemma_join_nl_single(l);
        assert(spec_field_text(key, v) =~= l + seq!['\n']);
    } else {
        let head = key + " \"\""@;
        let segs = spec_lines(v);
        let mapped = segs.map_values(|sg: Seq<char>| "\""@ + spec_escape(sg) + "\\n\""@);
        assert(field_lines(key, v) == seq![head] + mapped);
        lemma_join_nl_concat(seq![head], mapped);
        lemma_join_nl_single(head);
        lemma_seg_lines_join(segs);
        assert(spec_field_text(key, v) =~= (head + seq!['\n']) + join_nl(mapped));
    }
}

/// The continuation-line text is the join of the mapped segments.
proof fn lemma_seg_lines_join(segs: Seq<Seq<char>>)
    ensures
        seg_lines_text(segs) == join_nl(
            segs.map_values(|sg: Seq<char>| "\""@ + spec_escape(sg) + "\\n\""@),
        ),
    decreases segs.len(),
{
    proof_strlits();
    let mapped = segs.map_values(|sg: Seq<char>| "\""@ + spec_escape(sg) + "\\n\""@);
    if segs.len() == 0 {
        assert(mapped =~= Seq::<Seq<char>>::empty());
    } else {
        lemma_seg_lines_join(segs.skip(1));
        assert(mapped[0] == "\""@ + spec_escape(segs[0]) + "\\n\""@);
        assert(mapped.skip(1) =~= segs.skip(1).map_values(
            |sg: Seq<char>| "\""@ + spec_escape(sg) + "\\n\""@,
        ));
        assert(seg_lines_text(segs) =~= mapped[0] + seq!['\n'] + join_nl(mapped.skip(1)));
        assert(join_nl(mapped) == mapped[0] + seq!['\n'] + join_nl(mapped.skip(1)));
    }
}

/// Reveals every literal the round-trip proofs take apart.
proof fn proof_strlits()
    ensures
        " \""@ == seq![' ', '"'],
        "\""@ == seq!['"'],
        "\"\n"@ == seq!['"', '\n'],
        " \"\""@ == seq![' ', '"', '"'],
        " \"\"\n"@ == seq![' ', '"', '"', '\n'],
        "\\n\""@ == seq!['\\', 'n', '"'],
        "\\n\"\n"@ == seq!['\\', 'n', '"', '\n'],
        "\n"@ == seq!['\n'],
        "msgctxt "@ == seq!['m', 's', 'g', 'c', 't', 'x', 't', ' '],
        "msgid "@ == seq!['m', 's', 'g', 'i', 'd', ' '],
        "msgstr "@ == seq!['m', 's', 'g', 's', 't', 'r', ' '],
        "msgctxt"@ == seq!['m', 's', 'g', 'c', 't', 'x', 't'],
        "msgid"@ == seq!['m', 's', 'g', 'i', 'd'],
        "msgstr"@ == seq!['m', 's', 'g', 's', 't', 'r'],
{
    reveal_strlit(" \"");
    reveal_strlit("\"");
    reveal_strlit("\"\n");
    reveal_strlit(" \"\"");
    reveal_strlit(" \"\"\n");
    reveal_strlit("\\n\"");
    reveal_strlit("\\n\"\n");
    reveal_strlit("\n");
    reveal_strlit("msgctxt ");
    reveal_strlit("msgid ");
    reveal_strlit("msgstr ");
    reveal_strlit("msgctxt");
    reveal_strlit("msgid");
    reveal_strlit("msgstr");
    assert(" \""@ =~= seq![' ', '"']);
    assert("\""@ =~= seq!['"']);
    assert("\"\n"@ =~= seq!['"', '\n']);
    assert(" \"\""@ =~= seq![' ', '"', '"']);
    assert(" \"\"\n"@ =~= seq![' ', '"', '"', '\n']);
    assert("\\n\""@ =~= seq!['\\', 'n', '"']);
    assert("\\n\"\n"@ =~= seq!['\\', 'n', '"', '\n']);
    assert("\n"@ =~= seq!['\n']);
    assert("msgctxt "@ =~= seq!['m', 's', 'g', 'c', 't', 'x', 't', ' ']);
    assert("msgid "@ =~= seq!['m', 's', 'g', 'i', 'd', ' ']);
    assert("msgstr "@ =~= seq!['m', 's', 'g', 's', 't', 'r', ' ']);
    assert("msgctxt"@ =~= seq!['m', 's', 'g', 'c', 't', 'x', 't']);
    assert("msgid"@ =~= seq!['m', 's', 'g', 'i', 'd']);
    assert("msgstr"@ =~= seq!['m', 's', 'g', 's', 't', 'r']);
}

/// Running the parser over concatenated line lists runs them in turn.
proof fn lemma_po_run_append(a: Seq<Seq<char>>, b: Seq<Seq<char>>, st: PoSt, ln: nat, fm: bool)
    ensures
        po_run(a + b, st, ln, fm) == (match po_run(a, st, ln, fm) {
            Ok(st2) => po_run(b, st2, (ln + a.len()) as nat, fm),
            Err(l) => Err(l),
        }),
    decreases a.len(),
{
    if a.len() == 0 {
        assert(a + b =~= b);
    } else {
        assert((a + b)[0] == a[0]);
        assert((a + b).skip(1) =~= a.skip(1) + b);
        match po_step(st, a[0], ln, fm) {
            None => {},
            Some(st2) => {
                lemma_po_run_append(a.skip(1), b, st2, (ln + 1) as nat, fm);
            },
        }
    }
}

/// Running a single line.
proof fn lemma_po_run_single(l: Seq<char>, st: PoSt, ln: nat, fm: bool)
    requires
        po_step(st, l, ln, fm) is Some,
    ensures
        po_run(seq![l], st, ln, fm) == Ok::<PoSt, nat>(po_step(st, l, ln, fm).unwrap()),
{
    assert(seq![l][0] == l);
    assert(seq![l].skip(1) =~= Seq::<Seq<char>>::empty());
    let st2 = po_step(st, l, ln, fm).unwrap();
    assert(po_run(Seq::<Seq<char>>::empty(), st2, (ln + 1) as nat, fm) == Ok::<PoSt, nat>(st2));
}

/// A quoted escaped body parses back to the body.
proof fn lemma_parse_quoted_esc(v: Seq<char>)
    ensures
        spec_parse_quoted("\""@ + spec_escape(v) + "\""@) == Some(v),
{
    proof_strlits();
    let q = "\""@ + spec_escape(v) + "\""@;
    assert(q.len() >= 2);
    assert(q[0] == '"');
    assert(q.last() == '"');
    assert(q.subrange(1, q.len() - 1) =~= spec_escape(v));
    crate::escape::lemma_unescape_escape(v);
}

/// Every split line is newline-free.
proof fn lemma_spec_lines_no_nl(x: Seq<char>)
    ensures
        lines_ok(spec_lines(x)),
    decreases x.len(),
{
    crate::text::lemma_first_nl(x);
    if x.len() > 0 {
        let i = crate::text::first_nl(x);
        if i == x.len() {
            assert forall|k: int|
                0 <= k < spec_lines(x).len() implies !(#[trigger] spec_lines(x)[k]).contains(
                '\n',
            ) by {
                assert(spec_lines(x)[0] == x);
                if x.contains('\n') {
                    let q = choose|q: int| 0 <= q < x.len() && x[q] == '\n';
                    assert(x[q] != '\n');
                }
            }
        } else {
            let l0 = x.subrange(0, i);
            lemma_spec_lines_no_nl(x.skip(i + 1));
            assert forall|k: int|
                0 <= k < spec_lines(x).len() implies !(#[trigger] spec_lines(x)[k]).contains(
                '\n',
            ) by {
                if k == 0 {
                    assert(spec_lines(x)[0] == l0);
                    if l0.contains('\n') {
                        let q = choose|q: int| 0 <= q < l0.len() && l0[q] == '\n';
                        assert(x[q] == '\n');
                    }
                } else {
                    assert(spec_lines(x)[k] == spec_lines(x.skip(i + 1))[k - 1]);
                }
            }
        }
    }
}

/// A clean inter-block state.
pub open spec fn po_clean(header: Option<Seq<char>>, out: Seq<EntryV>) -> PoSt {
    PoSt {
        field: PoField::Start,
        ctx: None,
        id: Seq::empty(),
        msg: Seq::empty(),
        comments: Seq::empty(),
        fuzzy: false,
        seen_id: false,
        start_line: 0,
        header,
        out,
    }
}

/// The accumulated fuzzy flag after a run of comments.
pub open spec fn fold_fuzzy(fz: bool, cs: Seq<Seq<char>>) -> bool
    decreases cs.len(),
{
    if cs.len() == 0 {
        fz
    } else {
        fold_fuzzy(fz || spec_has_sub(cs[0], "fuzzy"@), cs.skip(1))
    }
}

/// Comment lines the parser reads back as comments: newline-free and
/// `#`-led once trimmed.
pub open spec fn comments_wf(cs: Seq<Seq<char>>) -> bool {
    forall|i: int|
        0 <= i < cs.len() ==> {
            &&& !(#[trigger] cs[i]).contains('\n')
            &&& spec_trim(cs[i]).len() > 0
            &&& spec_trim(cs[i])[0] == '#'
        }
}

/// The comment lines as the parser stores them: trimmed.
pub open spec fn trimmed_all(cs: Seq<Seq<char>>) -> Seq<Seq<char>> {
    cs.map_values(|c: Seq<char>| spec_trim(c))
}

/// Entry strings the single-line encoder form covers.
pub open spec fn single_line_entry(e: EntryV) -> bool {
    &&& !e.source.contains('\n') && e.source.len() <= 80
    &&& !e.translated.contains('\n') && e.translated.len() <= 80
    &&& match e.context {
        Some(c) => !c.contains('\n') && c.len() <= 80,
        None => true,
    }
}

/// What the decoder commits for an encoded entry: same identity and
/// translation, the comments as the parser stores them (trimmed), the
/// fuzzy flag re-derived from them, and fresh provenance.
pub open spec fn committed_entry(e: EntryV, fm: bool, ln: nat) -> EntryV {
    EntryV {
        context: e.context,
        source: e.source,
        translated: e.translated,
        comments: trimmed_all(e.comments),
        fuzzy: fold_fuzzy(false, trimmed_all(e.comments)),
        from_main: fm,
        line: ln,
    }
}

/// One parsed comment line: the trimmed line is stored.
proof fn lemma_step_comment(st: PoSt, c: Seq<char>, ln: nat, fm: bool)
    requires
        spec_trim(c).len() > 0,
        spec_trim(c)[0] == '#',
    ensures
        ({
            let st1 = if st.field is Start {
                PoSt { start_line: ln, ..st }
            } else {
                st
            };
            po_step(st, c, ln, fm) == Some(
                PoSt {
                    field: PoField::Comment,
                    comments: st1.comments.push(spec_trim(c)),
                    fuzzy: st1.fuzzy || spec_has_sub(spec_trim(c), "fuzzy"@),
                    ..st1
                },
            )
        }),
{
}

/// A run of comment lines stores the trimmed lines.
proof fn lemma_po_comments(cs: Seq<Seq<char>>, st: PoSt, ln: nat, fm: bool)
    requires
        comments_wf(cs),
    ensures
        po_run(cs, st, ln, fm) == Ok::<PoSt, nat>(
            PoSt {
                field: if cs.len() > 0 {
                    PoField::Comment
                } else {
                    st.field
                },
                comments: st.comments + trimmed_all(cs),
                fuzzy: fold_fuzzy(st.fuzzy, trimmed_all(cs)),
                start_line: if cs.len() > 0 && st.field is Start {
                    ln
                } else {
                    st.start_line
                },
                ..st
            },
        ),
    decreases cs.len(),
{
    if cs.len() == 0 {
        assert(trimmed_all(cs) =~= Seq::<Seq<char>>::empty());
        assert(st.comments + trimmed_all(cs) =~= st.comments);
        assert(po_run(cs, st, ln, fm) == Ok::<PoSt, nat>(
            PoSt {
                field: st.field,
                comments: st.comments + trimmed_all(cs),
                fuzzy: fold_fuzzy(st.fuzzy, trimmed_all(cs)),
                start_line: st.start_line,
                ..st
            },
        )) by {
            assert(PoSt {
                field: st.field,
                comments: st.comments + trimmed_all(cs),
                fuzzy: fold_fuzzy(st.fuzzy, trimmed_all(cs)),
                start_line: st.start_line,
                ..st
            } =~= st);
        }
    } else {
        lemma_step_comment(st, cs[0], ln, fm);
        let st1 = if st.field is Start {
            PoSt { start_line: ln, ..st }
        } else {
            st
        };
        let st2 = PoSt {
            field: PoField::Comment,
            comments: st1.comments.push(spec_trim(cs[0])),
            fuzzy: st1.fuzzy || spec_has_sub(spec_trim(cs[0]), "fuzzy"@),
            ..st1
        };
        assert(comments_wf(cs.skip(1))) by {
            assert(forall|i: int|
                0 <= i < cs.skip(1).len() ==> #[trigger] cs.skip(1)[i] == cs[i + 1]);
        }
        lemma_po_comments(cs.skip(1), st2, (ln + 1) as nat, fm);
        assert(trimmed_all(cs)[0] == spec_trim(cs[0]));
        assert(trimmed_all(cs).skip(1) =~= trimmed_all(cs.skip(1)));
        assert(st2.comments + trimmed_all(cs.skip(1)) =~= st.comments + trimmed_all(cs));
        assert(fold_fuzzy(st.fuzzy, trimmed_all(cs)) == fold_fuzzy(
            st2.fuzzy,
            trimmed_all(cs.skip(1)),
        )) by {
            assert(fold_fuzzy(st.fuzzy, trimmed_all(cs)) == fold_fuzzy(
                st.fuzzy || spec_has_sub(trimmed_all(cs)[0], "fuzzy"@),
                trimmed_all(cs).skip(1),
            ));
        }
        assert(!(st2.field is Start));
        assert(po_run(cs, st, ln, fm) == po_run(cs.skip(1), st2, (ln + 1) as nat, fm));
        assert(PoSt {
            field: PoField::Comment,
            comments: st2.comments + trimmed_all(cs.skip(1)),
            fuzzy: fold_fuzzy(st2.fuzzy, trimmed_all(cs.skip(1))),
            start_line: st2.start_line,
            ..st2
        } =~= PoSt {
            field: PoField::Comment,
            comments: st.comments + trimmed_all(cs),
            fuzzy: fold_fuzzy(st.fuzzy, trimmed_all(cs)),
            start_line: if st.field is Start {
                ln
            } else {
                st.start_line
            },
            ..st
        });
    }
}

/// One parsed `msgctxt "..."` line.
proof fn lemma_step_msgctxt(st: PoSt, v: Seq<char>, ln: nat, fm: bool)
    requires
        !v.contains('\n'),
    ensures
        ({
            let st1 = if st.field is Start {
                PoSt { start_line: ln, ..st }
            } else {
                st
            };
            po_step(st, "msgctxt"@ + " \""@ + spec_escape(v) + "\""@, ln, fm) == Some(
                PoSt { field: PoField::Ctxt, ctx: Some(v), ..st1 },
            )
        }),
{
    proof_strlits();
    crate::escape::lemma_escape_no_nl(v);
    let l = "msgctxt"@ + " \""@ + spec_escape(v) + "\""@;
    assert(l[0] == 'm');
    assert(l.last() == '"');
    crate::text::lemma_trim_id(l);
    assert(spec_trim(l) == l);
    assert(l[0] != '#');
    assert(spec_starts_with(l, "msgctxt "@)) by {
        assert(l.take(8) =~= "msgctxt "@);
    }
    assert(l.skip(8) =~= "\""@ + spec_escape(v) + "\""@);
    lemma_parse_quoted_esc(v);
}

/// One parsed `msgid "..."` line.
proof fn lemma_step_msgid(st: PoSt, v: Seq<char>, ln: nat, fm: bool)
    requires
        !v.contains('\n'),
    ensures
        ({
            let st1 = if st.field is Start {
                PoSt { start_line: ln, ..st }
            } else {
                st
            };
            po_step(st, "msgid"@ + " \""@ + spec_escape(v) + "\""@, ln, fm) == Some(
                PoSt { field: PoField::Id, id: v, seen_id: true, ..st1 },
            )
        }),
{
    proof_strlits();
    crate::escape::lemma_escape_no_nl(v);
    let l = "msgid"@ + " \""@ + spec_escape(v) + "\""@;
    assert(l[0] == 'm');
    assert(l.last() == '"');
    crate::text::lemma_trim_id(l);
    assert(spec_trim(l) == l);
    assert(l[0] != '#');
    assert(!spec_starts_with(l, "msgctxt "@)) by {
        if spec_starts_with(l, "msgctxt "@) {
            assert(l.take(8)[3] == 'c');
            assert(l[3] == 'i');
        }
    }
    assert(spec_starts_with(l, "msgid "@)) by {
        assert(l.take(6) =~= "msgid "@);
    }
    assert(l.skip(6) =~= "\""@ + spec_escape(v) + "\""@);
    lemma_parse_quoted_esc(v);
}

/// One parsed `msgstr "..."` line.
proof fn lemma_step_msgstr(st: PoSt, v: Seq<char>, ln: nat, fm: bool)
    requires
        !v.contains('\n'),
    ensures
        ({
            let st1 = if st.field is Start {
                PoSt { start_line: ln, ..st }
            } else {
                st
            };
            po_step(st, "msgstr"@ + " \""@ + spec_escape(v) + "\""@, ln, fm) == Some(
                PoSt { field: PoField::Str, msg: v, ..st1 },
            )
        }),
{
    proof_strlits();
    crate::escape::lemma_escape_no_nl(v);
    let l = "msgstr"@ + " \""@ + spec_escape(v) + "\""@;
    assert(l[0] == 'm');
    assert(l.last() == '"');
    crate::text::lemma_trim_id(l);
    assert(spec_trim(l) == l);
    assert(l[0] != '#');
    assert(!spec_starts_with(l, "msgctxt "@)) by {
        if spec_starts_with(l, "msgctxt "@) {
            assert(l.take(8)[3] == 'c');
            assert(l[3] == 's');
        }
    }
    assert(!spec_starts_with(l, "msgid "@)) by {
        if spec_starts_with(l, "msgid "@) {
            assert(l.take(6)[3] == 'i');
            assert(l[3] == 's');
        }
    }
    assert(spec_starts_with(l, "msgstr "@)) by {
        assert(l.take(7) =~= "msgstr "@);
    }
    assert(l.skip(7) =~= "\""@ + spec_escape(v) + "\""@);
    lemma_parse_quoted_esc(v);
}

/// One parsed `msgstr ""` opening line of a multi-line field.
proof fn lemma_step_msgstr_open(st: PoSt, ln: nat, fm: bool)
    ensures
        ({
            let st1 = if st.field is Start {
                PoSt { start_line: ln, ..st }
            } else {
                st
            };
            po_step(st, "msgstr"@ + " \"\""@, ln, fm) == Some(
                PoSt { field: PoField::Str, msg: Seq::empty(), ..st1 },
            )
        }),
{
    proof_strlits();
    let l = "msgstr"@ + " \"\""@;
    assert(l =~= "msgstr"@ + " \""@ + spec_escape(Seq::<char>::empty()) + "\""@);
    lemma_step_msgstr(st, Seq::empty(), ln, fm);
    assert(!Seq::<char>::empty().contains('\n'));
}

/// One parsed continuation line: the msgstr field grows by the segment
/// and a newline.
proof fn lemma_step_cont(st: PoSt, sg: Seq<char>, ln: nat, fm: bool)
    requires
        !sg.contains('\n'),
        st.field is Str,
    ensures
        po_step(st, "\""@ + spec_escape(sg) + "\\n\""@, ln, fm) == Some(
            PoSt { msg: st.msg + sg + seq!['\n'], ..st },
        ),
{
    proof_strlits();
    crate::escape::lemma_escape_no_nl(sg);
    let l = "\""@ + spec_escape(sg) + "\\n\""@;
    assert(l[0] == '"');
    assert(l.last() == '"');
    crate::text::lemma_trim_id(l);
    assert(spec_trim(l) == l);
    assert(l[0] != '#');
    assert(!spec_starts_with(l, "msgctxt "@)) by {
        if spec_starts_with(l, "msgctxt "@) {
            assert(l.take(8)[0] == 'm');
        }
    }
    assert(!spec_starts_with(l, "msgid "@)) by {
        if spec_starts_with(l, "msgid "@) {
            assert(l.take(6)[0] == 'm');
        }
    }
    assert(!spec_starts_with(l, "msgstr "@)) by {
        if spec_starts_with(l, "msgstr "@) {
            assert(l.take(7)[0] == 'm');
        }
    }
    assert(l.subrange(1, l.len() - 1) =~= spec_escape(sg) + seq!['\\', 'n']);
    crate::escape::lemma_unescape_escape_concat(sg, seq!['\\', 'n']);
    assert(crate::escape::spec_unescape(seq!['\\', 'n']) =~= seq!['\n']) by {
        let w = seq!['\\', 'n'];
        assert(w[0] == '\\');
        assert(w[1] == 'n');
        assert(w.skip(2) =~= Seq::<char>::empty());
        assert(crate::escape::spec_unescape(Seq::<char>::empty()) =~= Seq::<char>::empty());
    }
    assert(spec_parse_quoted(l) == Some(sg + seq!['\n'])) by {
        assert(crate::escape::spec_unescape(spec_escape(sg) + seq!['\\', 'n']) == sg
            + crate::escape::spec_unescape(seq!['\\', 'n']));
        assert(sg + seq!['\n'] =~= sg + crate::escape::spec_unescape(seq!['\\', 'n']));
    }
    assert(st.msg + (sg + seq!['\n']) =~= st.msg + sg + seq!['\n']);
}

/// A run of continuation lines appends the joined segments.
proof fn lemma_po_segs(segs: Seq<Seq<char>>, st: PoSt, ln: nat, fm: bool)
    requires
        st.field is Str,
        lines_ok(segs),
    ensures
        po_run(
            segs.map_values(|sg: Seq<char>| "\""@ + spec_escape(sg) + "\\n\""@),
            st,
            ln,
            fm,
        ) == Ok::<PoSt, nat>(PoSt { msg: st.msg + join_nl(segs), ..st }),
    decreases segs.len(),
{
    let mapped = segs.map_values(|sg: Seq<char>| "\""@ + spec_escape(sg) + "\\n\""@);
    if segs.len() == 0 {
        assert(mapped =~= Seq::<Seq<char>>::empty());
        assert(PoSt { msg: st.msg + join_nl(segs), ..st } =~= st) by {
            assert(st.msg + Seq::<char>::empty() =~= st.msg);
        }
    } else {
        assert(mapped[0] == "\""@ + spec_escape(segs[0]) + "\\n\""@);
        lemma_step_cont(st, segs[0], ln, fm);
        let st2 = PoSt { msg: st.msg + segs[0] + seq!['\n'], ..st };
        assert(lines_ok(segs.skip(1))) by {
            assert(forall|i: int|
                0 <= i < segs.skip(1).len() ==> #[trigger] segs.skip(1)[i] == segs[i + 1]);
        }
        lemma_po_segs(segs.skip(1), st2, (ln + 1) as nat, fm);
        assert(mapped.skip(1) =~= segs.skip(1).map_values(
            |sg: Seq<char>| "\""@ + spec_escape(sg) + "\\n\""@,
        ));
        assert(po_run(mapped, st, ln, fm) == po_run(mapped.skip(1), st2, (ln + 1) as nat, fm));
        assert(st2.msg + join_nl(segs.skip(1)) =~= st.msg + join_nl(segs)) by {
            assert(join_nl(segs) == segs[0] + seq!['\n'] + join_nl(segs.skip(1)));
        }
        assert(PoSt { msg: st2.msg + join_nl(segs.skip(1)), ..st2 } =~= PoSt {
            msg: st.msg + join_nl(segs),
            ..st
        });
    }
}

/// The encoded lines of one entry block.
pub open spec fn block_lines(e: EntryV) -> Seq<Seq<char>> {
    e.comments + (match e.context {
        Some(c) => field_lines("msgctxt"@, c),
        None => Seq::<Seq<char>>::empty(),
    }) + field_lines("msgid"@, e.source) + field_lines("msgstr"@, e.translated) + seq![
        Seq::<char>::empty(),
    ]
}

/// Comment text is its lines joined.
proof fn lemma_comments_join(cs: Seq<Seq<char>>)
    ensures
        comments_text(cs) == join_nl(cs),
    decreases cs.len(),
{
    proof_strlits();
    if cs.len() > 0 {
        lemma_comments_join(cs.skip(1));
        assert(comments_text(cs) =~= cs[0] + seq!['\n'] + join_nl(cs.skip(1)));
    }
}

/// An entry block's text is its lines joined.
proof fn lemma_entry_block_join(e: EntryV)
    ensures
        spec_entry_block(e) == join_nl(block_lines(e)),
{
    proof_strlits();
    let ctxp = match e.context {
        Some(c) => field_lines("msgctxt"@, c),
        None => Seq::<Seq<char>>::empty(),
    };
    let idl = field_lines("msgid"@, e.source);
    let strl = field_lines("msgstr"@, e.translated);
    let blank = seq![Seq::<char>::empty()];
    lemma_comments_join(e.comments);
    match e.context {
        Some(c) => {
            lemma_field_text_lines("msgctxt"@, c);
        },
        None => {
            assert(join_nl(ctxp) =~= Seq::<char>::empty());
        },
    }
    lemma_field_text_lines("msgid"@, e.source);
    lemma_field_text_lines("msgstr"@, e.translated);
    lemma_join_nl_single(Seq::<char>::empty());
    assert(join_nl(blank) =~= "\n"@);
    lemma_join_nl_concat(e.comments, ctxp);
    lemma_join_nl_concat(e.comments + ctxp, idl);
    lemma_join_nl_concat(e.comments + ctxp + idl, strl);
    lemma_join_nl_concat(e.comments + ctxp + idl + strl, blank);
    assert(spec_entry_block(e) =~= join_nl(block_lines(e)));
}

/// No line of a single-line entry's block holds a newline.
proof fn lemma_block_lines_ok(e: EntryV)
    requires
        single_line_entry(e),
        comments_wf(e.comments),
    ensures
        lines_ok(block_lines(e)),
{
    proof_strlits();
    let bl = block_lines(e);
    assert forall|i: int| 0 <= i < bl.len() implies !(#[trigger] bl[i]).contains('\n') by {
        let ctxp = match e.context {
            Some(c) => field_lines("msgctxt"@, c),
            None => Seq::<Seq<char>>::empty(),
        };
        let cn = e.comments.len() as int;
        let xn = ctxp.len() as int;
        if i < cn {
            assert(bl[i] == e.comments[i]);
        } else if i < cn + xn {
            let c = e.context.unwrap();
            crate::escape::lemma_escape_no_nl(c);
            assert(bl[i] == "msgctxt"@ + " \""@ + spec_escape(c) + "\""@);
            if bl[i].contains('\n') {
                let k = choose|k: int| 0 <= k < bl[i].len() && bl[i][k] == '\n';
                assert(false);
            }
        } else if i < cn + xn + 1 {
            crate::escape::lemma_escape_no_nl(e.source);
            assert(bl[i] == "msgid"@ + " \""@ + spec_escape(e.source) + "\""@);
            if bl[i].contains('\n') {
                let k = choose|k: int| 0 <= k < bl[i].len() && bl[i][k] == '\n';
                assert(false);
            }
        } else if i < cn + xn + 2 {
            crate::escape::lemma_escape_no_nl(e.translated);
            assert(bl[i] == "msgstr"@ + " \""@ + spec_escape(e.translated) + "\""@);
            if bl[i].contains('\n') {
                let k = choose|k: int| 0 <= k < bl[i].len() && bl[i][k] == '\n';
                assert(false);
            }
        } else {
            assert(bl[i] =~= Seq::<char>::empty());
        }
    }
}

/// Parsing one encoded block from a clean state commits exactly one
/// entry with the block's identity and translation.
proof fn lemma_po_block(e: EntryV, h0: Option<Seq<char>>, out0: Seq<EntryV>, ln: nat, fm: bool)
    requires
        single_line_entry(e),
        comments_wf(e.comments),
        e.source.len() > 0,
    ensures
        po_run(block_lines(e), po_clean(h0, out0), ln, fm) == Ok::<PoSt, nat>(
            po_clean(h0, out0.push(committed_entry(e, fm, ln))),
        ),
{
    proof_strlits();
    let st0 = po_clean(h0, out0);
    let cs = e.comments;
    let ctxp = match e.context {
        Some(c) => field_lines("msgctxt"@, c),
        None => Seq::<Seq<char>>::empty(),
    };
    let idl = field_lines("msgid"@, e.source);
    let strl = field_lines("msgstr"@, e.translated);
    let blank = seq![Seq::<char>::empty()];
    assert(idl =~= seq!["msgid"@ + " \""@ + spec_escape(e.source) + "\""@]);
    assert(strl =~= seq!["msgstr"@ + " \""@ + spec_escape(e.translated) + "\""@]);

    // Comments.
    lemma_po_comments(cs, st0, ln, fm);
    let stA = PoSt {
        field: if cs.len() > 0 {
            PoField::Comment
        } else {
            st0.field
        },
        comments: st0.comments + trimmed_all(cs),
        fuzzy: fold_fuzzy(st0.fuzzy, trimmed_all(cs)),
        start_line: if cs.len() > 0 && st0.field is Start {
            ln
        } else {
            st0.start_line
        },
        ..st0
    };
    assert(stA.comments =~= trimmed_all(cs));
    let ln1 = (ln + cs.len()) as nat;

    // Optional context line.
    let stB = match e.context {
        Some(c) => PoSt {
            field: PoField::Ctxt,
            ctx: Some(c),
            start_line: ln,
            ..stA
        },
        None => stA,
    };
    match e.context {
        Some(c) => {
            assert(ctxp =~= seq!["msgctxt"@ + " \""@ + spec_escape(c) + "\""@]);
            lemma_step_msgctxt(stA, c, ln1, fm);
            lemma_po_run_single("msgctxt"@ + " \""@ + spec_escape(c) + "\""@, stA, ln1, fm);
            assert(po_run(ctxp, stA, ln1, fm) == Ok::<PoSt, nat>(stB)) by {
                if cs.len() > 0 {
                    assert(!(stA.field is Start));
                    assert(PoSt { field: PoField::Ctxt, ctx: Some(c), ..stA } =~= stB);
                } else {
                    assert(stA.field is Start);
                    assert(ln1 == ln);
                    assert(PoSt {
                        field: PoField::Ctxt,
                        ctx: Some(c),
                        ..(PoSt { start_line: ln1, ..stA })
                    } =~= stB);
                }
            }
        },
        None => {
            assert(po_run(ctxp, stA, ln1, fm) == Ok::<PoSt, nat>(stB));
        },
    }
    let ln2 = (ln1 + ctxp.len()) as nat;

    // msgid line.
    lemma_step_msgid(stB, e.source, ln2, fm);
    let stC = if stB.field is Start {
        PoSt {
            field: PoField::Id,
            id: e.source,
            seen_id: true,
            ..(PoSt { start_line: ln2, ..stB })
        }
    } else {
        PoSt { field: PoField::Id, id: e.source, seen_id: true, ..stB }
    };
    lemma_po_run_single("msgid"@ + " \""@ + spec_escape(e.source) + "\""@, stB, ln2, fm);
    assert(po_run(idl, stB, ln2, fm) == Ok::<PoSt, nat>(stC));
    assert(stC.start_line == ln) by {
        if cs.len() == 0 && e.context is None {
            assert(ln2 == ln);
        }
    }
    let ln3 = (ln2 + 1) as nat;

    // msgstr line.
    lemma_step_msgstr(stC, e.translated, ln3, fm);
    let stD = PoSt { field: PoField::Str, msg: e.translated, ..stC };
    lemma_po_run_single("msgstr"@ + " \""@ + spec_escape(e.translated) + "\""@, stC, ln3, fm);
    assert(po_run(strl, stC, ln3, fm) == Ok::<PoSt, nat>(stD)) by {
        assert(!(stC.field is Start));
    }
    let ln4 = (ln3 + 1) as nat;

    // Blank line commits.
    assert(spec_trim(Seq::<char>::empty()) =~= Seq::<char>::empty());
    assert(po_step(stD, Seq::empty(), ln4, fm) == Some(po_commit(stD, fm)));
    lemma_po_run_single(Seq::empty(), stD, ln4, fm);
    assert(po_run(blank, stD, ln4, fm) == Ok::<PoSt, nat>(po_commit(stD, fm)));
    assert(po_commit(stD, fm) =~= po_clean(h0, out0.push(committed_entry(e, fm, ln)))) by {
        assert(stD.seen_id);
        assert(stD.id.len() > 0);
        assert(cur_entry(stD, fm) =~= committed_entry(e, fm, ln));
        assert(stD.out =~= out0);
        assert(stD.header == h0);
    }

    // Chain the pieces.
    lemma_po_run_append(cs, ctxp + idl + strl + blank, st0, ln, fm);
    lemma_po_run_append(ctxp, idl + strl + blank, stA, ln1, fm);
    lemma_po_run_append(idl, strl + blank, stB, ln2, fm);
    lemma_po_run_append(strl, blank, stC, ln3, fm);
    assert(block_lines(e) =~= cs + (ctxp + (idl + (strl + blank))));
    assert(cs + (ctxp + (idl + (strl + blank))) =~= ((((cs + ctxp) + idl) + strl) + blank));
    assert(ctxp + (idl + (strl + blank)) =~= ctxp + idl + strl + blank);
    assert(idl + (strl + blank) =~= idl + strl + blank);
    assert(strl + blank =~= strl + blank);
}

/// The lines of the header block.
pub open spec fn header_block_lines(h: Seq<char>) -> Seq<Seq<char>> {
    field_lines("msgid"@, Seq::empty()) + field_lines("msgstr"@, h) + seq![Seq::<char>::empty()]
}

/// A header survives re-encoding when it is a short single line or ends
/// with a newline.
pub open spec fn header_reencodable(h: Seq<char>) -> bool {
    (!h.contains('\n') && h.len() <= 80) || (h.len() > 0 && h.last() == '\n')
}

/// The header block's text is its lines joined.
proof fn lemma_header_block_join(h: Seq<char>)
    ensures
        spec_header_block(h) == join_nl(header_block_lines(h)),
{
    proof_strlits();
    lemma_field_text_lines("msgid"@, Seq::empty());
    lemma_field_text_lines("msgstr"@, h);
    lemma_join_nl_single(Seq::<char>::empty());
    lemma_join_nl_concat(field_lines("msgid"@, Seq::empty()), field_lines("msgstr"@, h));
    lemma_join_nl_concat(
        field_lines("msgid"@, Seq::empty()) + field_lines("msgstr"@, h),
        seq![Seq::<char>::empty()],
    );
    assert(join_nl(seq![Seq::<char>::empty()]) =~= "\n"@);
    assert(spec_header_block(h) =~= join_nl(header_block_lines(h)));
}

/// No line of a re-encodable header block holds a newline.
proof fn lemma_header_lines_ok(h: Seq<char>)
    ensures
        lines_ok(header_block_lines(h)),
{
    proof_strlits();
    crate::escape::lemma_escape_no_nl(Seq::empty());
    lemma_spec_lines_no_nl(h);
    let hl = header_block_lines(h);
    assert forall|i: int| 0 <= i < hl.len() implies !(#[trigger] hl[i]).contains('\n') by {
        let idl = field_lines("msgid"@, Seq::<char>::empty());
        let strl = field_lines("msgstr"@, h);
        assert(idl =~= seq!["msgid"@ + " \""@ + spec_escape(Seq::<char>::empty()) + "\""@]);
        if i == 0 {
            assert(hl[0] == idl[0]);
            if hl[0].contains('\n') {
                let k = choose|k: int| 0 <= k < hl[0].len() && hl[0][k] == '\n';
                assert(false);
            }
        } else if i < 1 + strl.len() {
            assert(hl[i] == strl[i - 1]);
            if !h.contains('\n') && h.len() <= 80 {
                crate::escape::lemma_escape_no_nl(h);
                assert(strl[0] == "msgstr"@ + " \""@ + spec_escape(h) + "\""@);
                if hl[i].contains('\n') {
                    let k = choose|k: int| 0 <= k < hl[i].len() && hl[i][k] == '\n';
                    assert(false);
                }
            } else {
                let segs = spec_lines(h);
                if i == 1 {
                    assert(strl[0] == "msgstr"@ + " \"\""@);
                    if hl[i].contains('\n') {
                        let k = choose|k: int| 0 <= k < hl[i].len() && hl[i][k] == '\n';
                        assert(false);
                    }
                } else {
                    let sg = segs[i - 2];
                    assert(strl[i - 1] == "\""@ + spec_escape(sg) + "\\n\""@);
                    assert(!sg.contains('\n'));
                    crate::escape::lemma_escape_no_nl(sg);
                    if hl[i].contains('\n') {
                        let k = choose|k: int| 0 <= k < hl[i].len() && hl[i][k] == '\n';
                        assert(false);
                    }
                }
            }
        } else {
            assert(hl[i] =~= Seq::<char>::empty());
        }
    }
}

/// Parsing the header block records the header.
proof fn lemma_po_header_block(h: Seq<char>, fm: bool)
    requires
        header_reencodable(h),
    ensures
        po_run(header_block_lines(h), po_init(), 1, fm) == Ok::<PoSt, nat>(
            po_clean(Some(h), Seq::empty()),
        ),
{
    proof_strlits();
    let st0 = po_init();
    assert(st0 =~= po_clean(None, Seq::empty()));
    let idl = field_lines("msgid"@, Seq::<char>::empty());
    let strl = field_lines("msgstr"@, h);
    let blank = seq![Seq::<char>::empty()];
    assert(idl =~= seq!["msgid"@ + " \""@ + spec_escape(Seq::<char>::empty()) + "\""@]);

    // msgid "" line.
    lemma_step_msgid(st0, Seq::empty(), 1, fm);
    let stC = PoSt {
        field: PoField::Id,
        id: Seq::empty(),
        seen_id: true,
        ..(PoSt { start_line: 1, ..st0 })
    };
    lemma_po_run_single("msgid"@ + " \""@ + spec_escape(Seq::<char>::empty()) + "\""@, st0, 1, fm);
    assert(po_run(idl, st0, 1, fm) == Ok::<PoSt, nat>(stC)) by {
        assert(st0.field is Start);
    }

    // msgstr field.
    let stD = PoSt { field: PoField::Str, msg: h, ..stC };
    if !h.contains('\n') && h.len() <= 80 {
        lemma_step_msgstr(stC, h, 2, fm);
        lemma_po_run_single("msgstr"@ + " \""@ + spec_escape(h) + "\""@, stC, 2, fm);
        assert(po_run(strl, stC, 2, fm) == Ok::<PoSt, nat>(stD)) by {
            assert(strl =~= seq!["msgstr"@ + " \""@ + spec_escape(h) + "\""@]);
            assert(!(stC.field is Start));
        }
    } else {
        assert(h.len() > 0 && h.last() == '\n');
        let segs = spec_lines(h);
        let mapped = segs.map_values(|sg: Seq<char>| "\""@ + spec_escape(sg) + "\\n\""@);
        assert(strl == seq!["msgstr"@ + " \"\""@] + mapped);
        lemma_step_msgstr_open(stC, 2, fm);
        let stM = PoSt { field: PoField::Str, msg: Seq::empty(), ..stC };
        lemma_spec_lines_no_nl(h);
        lemma_po_segs(segs, stM, 3, fm);
        lemma_join_lines_id(h);
        lemma_po_run_append(seq!["msgstr"@ + " \"\""@], mapped, stC, 2, fm);
        lemma_po_run_single("msgstr"@ + " \"\""@, stC, 2, fm);
        assert(po_run(seq!["msgstr"@ + " \"\""@], stC, 2, fm) == Ok::<PoSt, nat>(stM)) by {
            assert(!(stC.field is Start));
        }
        assert(po_run(mapped, stM, 3, fm) == Ok::<PoSt, nat>(
            PoSt { msg: stM.msg + join_nl(segs), ..stM },
        ));
        assert(PoSt { msg: stM.msg + join_nl(segs), ..stM } =~= stD) by {
            assert(stM.msg + join_nl(segs) =~= h);
        }
        assert(po_run(strl, stC, 2, fm) == Ok::<PoSt, nat>(stD));
    }

    // Blank line commits the header.
    let ln4 = (2 + strl.len()) as nat;
    assert(spec_trim(Seq::<char>::empty()) =~= Seq::<char>::empty());
    lemma_po_run_single(Seq::empty(), stD, ln4, fm);
    assert(po_run(blank, stD, ln4, fm) == Ok::<PoSt, nat>(po_commit(stD, fm)));
    assert(po_commit(stD, fm) =~= po_clean(Some(h), Seq::empty())) by {
        assert(stD.seen_id);
        assert(stD.id.len() == 0);
        assert(stD.header is None);
        assert(stD.out =~= Seq::<EntryV>::empty());
    }

    lemma_po_run_append(idl, strl + blank, st0, 1, fm);
    lemma_po_run_append(strl, blank, stC, 2, fm);
    assert(header_block_lines(h) =~= idl + (strl + blank));
    assert(idl + (strl + blank) =~= (idl + strl) + blank);
}

/// The lines of all entry blocks in order.
pub open spec fn blocks_lines(es: Seq<EntryV>) -> Seq<Seq<char>>
    decreases es.len(),
{
    if es.len() == 0 {
        Seq::empty()
    } else {
        block_lines(es[0]) + blocks_lines(es.skip(1))
    }
}

/// The blocks' text is their lines joined.
proof fn lemma_blocks_text_join(es: Seq<EntryV>)
    ensures
        blocks_text(es) == join_nl(blocks_lines(es)),
    decreases es.len(),
{
    if es.len() == 0 {
        assert(join_nl(blocks_lines(es)) =~= Seq::<char>::empty());
    } else {
        lemma_entry_block_join(es[0]);
        lemma_blocks_text_join(es.skip(1));
        lemma_join_nl_concat(block_lines(es[0]), blocks_lines(es.skip(1)));
    }
}

/// No block line holds a newline.
proof fn lemma_blocks_lines_ok(es: Seq<EntryV>)
    requires
        forall|i: int| 0 <= i < es.len() ==> single_line_entry(#[trigger] es[i]),
        forall|i: int| 0 <= i < es.len() ==> comments_wf((#[trigger] es[i]).comments),
    ensures
        lines_ok(blocks_lines(es)),
    decreases es.len(),
{
    if es.len() > 0 {
        lemma_block_lines_ok(es[0]);
        assert(forall|i: int| 0 <= i < es.skip(1).len() ==> #[trigger] es.skip(1)[i] == es[i + 1]);
        lemma_blocks_lines_ok(es.skip(1));
        let a = block_lines(es[0]);
        let b = blocks_lines(es.skip(1));
        assert forall|i: int|
            0 <= i < (a + b).len() implies !(#[trigger] (a + b)[i]).contains('\n') by {
            if i < a.len() {
                assert((a + b)[i] == a[i]);
            } else {
                assert((a + b)[i] == b[i - a.len()]);
            }
        }
    }
}

/// The entries committed while parsing the blocks, in order.
pub open spec fn committed_seq(es: Seq<EntryV>, fm: bool, ln: nat) -> Seq<EntryV>
    decreases es.len(),
{
    if es.len() == 0 {
        Seq::empty()
    } else {
        seq![committed_entry(es[0], fm, ln)] + committed_seq(
            es.skip(1),
            fm,
            (ln + block_lines(es[0]).len()) as nat,
        )
    }
}

/// The committed entries keep every key and translation.
proof fn lemma_committed_seq_like(es: Seq<EntryV>, fm: bool, ln: nat)
    ensures
        committed_seq(es, fm, ln).len() == es.len(),
        forall|i: int|
            0 <= i < es.len() ==> (#[trigger] committed_seq(es, fm, ln)[i]).key() == es[i].key()
                && committed_seq(es, fm, ln)[i].translated == es[i].translated,
    decreases es.len(),
{
    if es.len() > 0 {
        let ln2 = (ln + block_lines(es[0]).len()) as nat;
        lemma_committed_seq_like(es.skip(1), fm, ln2);
        assert forall|i: int|
            0 <= i < es.len() implies (#[trigger] committed_seq(es, fm, ln)[i]).key()
            == es[i].key() && committed_seq(es, fm, ln)[i].translated == es[i].translated by {
            if i == 0 {
                assert(committed_seq(es, fm, ln)[0] == committed_entry(es[0], fm, ln));
            } else {
                assert(committed_seq(es, fm, ln)[i] == committed_seq(es.skip(1), fm, ln2)[i - 1]);
                assert(es.skip(1)[i - 1] == es[i]);
            }
        }
    }
}

/// Parsing all blocks from a clean state commits one entry per block.
proof fn lemma_po_blocks(es: Seq<EntryV>, h0: Option<Seq<char>>, out0: Seq<EntryV>, ln: nat, fm: bool)
    requires
        forall|i: int| 0 <= i < es.len() ==> single_line_entry(#[trigger] es[i]),
        forall|i: int| 0 <= i < es.len() ==> comments_wf((#[trigger] es[i]).comments),
        forall|i: int| 0 <= i < es.len() ==> (#[trigger] es[i]).source.len() > 0,
    ensures
        po_run(blocks_lines(es), po_clean(h0, out0), ln, fm) == Ok::<PoSt, nat>(
            po_clean(h0, out0 + committed_seq(es, fm, ln)),
        ),
    decreases es.len(),
{
    if es.len() == 0 {
        assert(blocks_lines(es) =~= Seq::<Seq<char>>::empty());
        assert(out0 + committed_seq(es, fm, ln) =~= out0);
    } else {
        lemma_po_block(es[0], h0, out0, ln, fm);
        let c0 = committed_entry(es[0], fm, ln);
        let ln2 = (ln + block_lines(es[0]).len()) as nat;
        assert(forall|i: int| 0 <= i < es.skip(1).len() ==> #[trigger] es.skip(1)[i] == es[i + 1]);
        lemma_po_blocks(es.skip(1), h0, out0.push(c0), ln2, fm);
        lemma_po_run_append(block_lines(es[0]), blocks_lines(es.skip(1)), po_clean(h0, out0), ln, fm);
        assert(out0.push(c0) + committed_seq(es.skip(1), fm, ln2) =~= out0 + committed_seq(
            es,
            fm,
            ln,
        ));
    }
}

/// PO round trip: parsing the encoded form of a catalog's header and
/// entry sequence yields exactly the header (the synthesized default when
/// the catalog had none) and an entry stream that denotes the same
/// key-to-translation mapping. Holds for single-line entries of at most
/// 80 characters with well-formed comments, and a header that is empty,
/// short and single-line, or newline-terminated; multi-line or over-long
/// entry strings gain a trailing newline in this format and are left out.
pub proof fn lemma_po_round_trip(hv: Option<Seq<char>>, es: Seq<EntryV>, fm: bool)
    requires
        nonempty_sources(es),
        forall|i: int| 0 <= i < es.len() ==> single_line_entry(#[trigger] es[i]),
        forall|i: int| 0 <= i < es.len() ==> comments_wf((#[trigger] es[i]).comments),
        match hv {
            Some(h) => header_reencodable(h),
            None => true,
        },
    ensures
        ({
            let text = spec_encode_po(hv, es);
            let hh = match hv {
                Some(h) => h,
                None => default_header_text(),
            };
            &&& spec_po_entries(text, fm) is Ok
            &&& spec_po_entries(text, fm)->Ok_0.0 == Some(hh)
            &&& entries_map(upsert_all(Seq::empty(), spec_po_entries(text, fm)->Ok_0.1))
                == entries_map(es)
        }),
{
    let text = spec_encode_po(hv, es);
    let hh = match hv {
        Some(h) => h,
        None => default_header_text(),
    };
    assert(header_reencodable(hh)) by {
        match hv {
            Some(_) => {},
            None => {
                lemma_default_header_text();
            },
        }
    }
    // The text's lines.
    let hbl = header_block_lines(hh);
    let bls = blocks_lines(es);
    lemma_header_block_join(hh);
    lemma_blocks_text_join(es);
    lemma_join_nl_concat(hbl, bls);
    assert(text == join_nl(hbl + bls)) by {
        assert(join_nl(hbl) + join_nl(bls) =~= join_nl(hbl + bls));
    }
    lemma_header_lines_ok(hh);
    lemma_blocks_lines_ok(es);
    assert(lines_ok(hbl + bls)) by {
        assert forall|i: int|
            0 <= i < (hbl + bls).len() implies !(#[trigger] (hbl + bls)[i]).contains('\n') by {
            if i < hbl.len() {
                assert((hbl + bls)[i] == hbl[i]);
            } else {
                assert((hbl + bls)[i] == bls[i - hbl.len()]);
            }
        }
    }
    lemma_lines_unjoin(hbl + bls, Seq::empty());
    assert(join_nl(hbl + bls) + Seq::<char>::empty() =~= join_nl(hbl + bls));
    assert(spec_lines(Seq::<char>::empty()) =~= Seq::<Seq<char>>::empty());
    assert(spec_lines(text) =~= hbl + bls);

    // Run the parser over header block, then the entry blocks.
    lemma_po_header_block(hh, fm);
    lemma_po_blocks(es, Some(hh), Seq::empty(), (1 + hbl.len()) as nat, fm);
    lemma_po_run_append(hbl, bls, po_init(), 1, fm);
    let outs = committed_seq(es, fm, (1 + hbl.len()) as nat);
    assert(Seq::<EntryV>::empty() + outs =~= outs);
    assert(po_run(spec_lines(text), po_init(), 1, fm) == Ok::<PoSt, nat>(po_clean(Some(hh), outs)));

    // The final commit of the clean state changes nothing.
    let fin = po_commit(po_clean(Some(hh), outs), fm);
    assert(fin.header == Some(hh));
    assert(fin.out == outs);
    assert(spec_po_entries(text, fm) == Ok::<(Option<Seq<char>>, Seq<EntryV>), nat>(
        (Some(hh), outs),
    ));

    // The committed stream denotes the catalog's mapping.
    lemma_committed_seq_like(es, fm, (1 + hbl.len()) as nat);
    crate::entry::lemma_entries_map_like(outs, es);
    crate::entry::lemma_upsert_all_map(Seq::empty(), outs);
    assert(Seq::<EntryV>::empty() + outs =~= outs);
}

/// PO round trip over whole catalogs: any PO encoding of a well-formed
/// catalog of single-line entries (as `encode_po` produces) parses back
/// to the same header and the same key-to-translation mapping.
pub proof fn lemma_po_round_trip_catalog(
    hv: Option<Seq<char>>,
    evs: Seq<EntryV>,
    text: Seq<char>,
    es: Seq<EntryV>,
    fm: bool,
)
    requires
        unique_keys(evs),
        nonempty_sources(evs),
        forall|i: int| 0 <= i < evs.len() ==> single_line_entry(#[trigger] evs[i]),
        forall|i: int| 0 <= i < evs.len() ==> comments_wf((#[trigger] evs[i]).comments),
        match hv {
            Some(h) => header_reencodable(h),
            None => true,
        },
        po_encodes(hv, evs, text, es),
    ensures
        ({
            let hh = match hv {
                Some(h) => h,
                None => default_header_text(),
            };
            &&& spec_po_entries(text, fm) is Ok
            &&& spec_po_entries(text, fm)->Ok_0.0 == Some(hh)
            &&& entries_map(upsert_all(Seq::empty(), spec_po_entries(text, fm)->Ok_0.1))
                == entries_map(evs)
        }),
{
    lemma_entries_map_perm(evs, es);
    lemma_seq_multiset_elems(evs, es);
    assert forall|i: int| 0 <= i < es.len() implies single_line_entry(#[trigger] es[i])
        && comments_wf(es[i].comments) by {
        assert(evs.contains(es[i]));
        let j = choose|j: int| 0 <= j < evs.len() && evs[j] == es[i];
        assert(single_line_entry(evs[j]));
    }
    lemma_po_round_trip(hv, es, fm);
}

/// The synthesized default header ends with a newline.
proof fn lemma_default_header_text()
    ensures
        default_header_text().len() > 0,
        default_header_text().last() == '\n',
{
    reveal_strlit(
        "Content-Type: text/plain; charset=UTF-8\nContent-Transfer-Encoding: 8bit\nPlural-Forms: nplurals=2; plural=(n != 1);\n",
    );
}

} // verus!
