//! Best-effort ingestion of two-column delimited spreadsheets into PO
//! text: quoted fields with doubled-quote escapes, fallback splitting on
//! tab, semicolon or pipe, one recognized header row skipped, and rows
//! with an empty first field dropped.

use vstd::prelude::*;
use crate::errors::CatalogError;
use crate::escape::{escape_range, spec_escape};
use crate::text::{
    chars_vec, contains_char, has_sub, spec_has_sub, spec_lines, spec_split_char, spec_trim,
    split_char, split_lines, string_of, trim_chars,
};

verus! {

/// The quote-aware comma split: a doubled quote inside quotes is a
/// literal quote, and commas inside quotes do not separate fields.
pub open spec fn csv_run(s: Seq<char>, cur: Seq<char>, inq: bool) -> Seq<Seq<char>>
    decreases s.len(),
{
    if s.len() == 0 {
        seq![cur]
    } else {
        let c = s[0];
        if c == '"' {
            if inq && s.len() >= 2 && s[1] == '"' {
                csv_run(s.skip(2), cur.push('"'), true)
            } else {
                csv_run(s.skip(1), cur, !inq)
            }
        } else if c == ',' && !inq {
            seq![cur] + csv_run(s.skip(1), Seq::empty(), false)
        } else {
            csv_run(s.skip(1), cur.push(c), inq)
        }
    }
}

/// All fields of one row: the quote-aware comma split, re-split on tab
/// when it yields a single field containing one, and on `;` or `|` when
/// fewer than two fields come out.
pub open spec fn spec_csv_fields(line: Seq<char>) -> Seq<Seq<char>> {
    let base = csv_run(line, Seq::empty(), false);
    if base.len() == 1 && base[0].contains('\t') {
        spec_split_char(base[0], '\t')
    } else if base.len() < 2 {
        if line.contains(';') {
            spec_split_char(line, ';').map_values(|f: Seq<char>| spec_trim(f))
        } else if line.contains('|') {
            spec_split_char(line, '|').map_values(|f: Seq<char>| spec_trim(f))
        } else {
            base
        }
    } else {
        base
    }
}

/// Splits one CSV row into its fields.
pub fn parse_csv_line(line: &str) -> (r: Vec<String>)
    ensures
        r@.map_values(|f: String| f@) == spec_csv_fields(line@),
{
    let v = chars_vec(line);
    let n = v.len();
    let mut fields: Vec<String> = Vec::new();
    let mut cur = String::new();
    let mut inq = false;
    let mut i: usize = 0;
    let ghost fview = |f: String| f@;
    proof {
        assert(v@.skip(0) =~= v@);
        assert(fields@.map_values(fview) =~= Seq::<Seq<char>>::empty());
    }
    while i < n
        invariant
            i <= n,
            n == v@.len(),
            fview == (|f: String| f@),
            csv_run(v@, Seq::empty(), false) == fields@.map_values(fview) + csv_run(
                v@.skip(i as int),
                cur@,
                inq,
            ),
        decreases n - i,
    {
        let c = v[i];
        proof {
            assert(v@.skip(i as int)[0] == v@[i as int]);
            assert(v@.skip(i as int).skip(1) =~= v@.skip(i as int + 1));
        }
        if c == '"' {
            if inq && i + 1 < n && v[i + 1] == '"' {
                proof {
                    assert(v@.skip(i as int)[1] == v@[i as int + 1]);
                    assert(v@.skip(i as int).skip(2) =~= v@.skip(i as int + 2));
                }
                crate::text::push_char(&mut cur, '"');
                i = i + 2;
            } else {
                proof {
                    if inq && v@.skip(i as int).len() >= 2 {
                        assert(v@.skip(i as int)[1] == v@[i as int + 1]);
                    }
                }
                inq = !inq;
                i = i + 1;
            }
        } else if c == ',' && !inq {
            let done = cur;
            cur = String::new();
            proof {
                assert(fields@.push(done).map_values(fview) =~= fields@.map_values(fview).push(
                    done@,
                ));
                assert((fields@.map_values(fview).push(done@)) + csv_run(
                    v@.skip(i as int + 1),
                    Seq::empty(),
                    false,
                ) =~= fields@.map_values(fview) + (seq![done@] + csv_run(
                    v@.skip(i as int + 1),
                    Seq::empty(),
                    false,
                )));
            }
            fields.push(done);
            i = i + 1;
        } else {
            crate::text::push_char(&mut cur, c);
            i = i + 1;
        }
    }
    proof {
        assert(v@.skip(n as int) =~= Seq::<char>::empty());
    }
    let cv = chars_vec(cur.as_str());
    let has_tab = contains_char(&cv, '\t');
    let one_field = fields.len() == 0;
    proof {
        assert(fields@.push(cur).map_values(fview) =~= fields@.map_values(fview).push(cur@));
    }
    let ghost base = csv_run(v@, Seq::empty(), false);
    if one_field && has_tab {
        let parts = split_char(&cv, '\t');
        proof {
            assert(base =~= seq![cur@]);
            assert(base[0] == cur@);
        }
        let mut out: Vec<String> = Vec::new();
        let m = parts.len();
        let mut j: usize = 0;
        while j < m
            invariant
                j <= m,
                m == parts@.len(),
                fview == (|f: String| f@),
                parts@.map_values(|l: Vec<char>| l@) == spec_split_char(cv@, '\t'),
                out@.map_values(fview) == spec_split_char(cv@, '\t').take(j as int),
            decreases m - j,
        {
            proof {
                assert(parts@[j as int]@ == spec_split_char(cv@, '\t')[j as int]);
            }
            let fs = string_of(&parts[j]);
            let ghost m0 = out@.map_values(fview);
            out.push(fs);
            proof {
                assert(out@.map_values(fview) =~= m0.push(fs@));
                assert(out@.map_values(fview) =~= spec_split_char(cv@, '\t').take(j as int + 1));
            }
            j = j + 1;
        }
        proof {
            assert(spec_split_char(cv@, '\t').take(m as int) =~= spec_split_char(cv@, '\t'));
        }
        return out;
    }
    fields.push(cur);
    if fields.len() < 2 {
        let semi = contains_char(&v, ';');
        let pipe = contains_char(&v, '|');
        let sep = if semi {
            ';'
        } else {
            '|'
        };
        if semi || pipe {
            let parts = split_char(&v, sep);
            let ghost sv = spec_split_char(v@, sep).map_values(|f: Seq<char>| spec_trim(f));
            let mut out: Vec<String> = Vec::new();
            let m = parts.len();
            let mut j: usize = 0;
            while j < m
                invariant
                    j <= m,
                    m == parts@.len(),
                    fview == (|f: String| f@),
                    sv == spec_split_char(v@, sep).map_values(|f: Seq<char>| spec_trim(f)),
                    parts@.map_values(|l: Vec<char>| l@) == spec_split_char(v@, sep),
                    out@.map_values(fview) == sv.take(j as int),
                decreases m - j,
            {
                proof {
                    assert(parts@[j as int]@ == spec_split_char(v@, sep)[j as int]);
                    assert(sv[j as int] == spec_trim(spec_split_char(v@, sep)[j as int]));
                }
                let t = trim_chars(&parts[j]);
                let fs = string_of(&t);
                let ghost m0 = out@.map_values(fview);
                out.push(fs);
                proof {
                    assert(out@.map_values(fview) =~= m0.push(fs@));
                    assert(out@.map_values(fview) =~= sv.take(j as int + 1));
                }
                j = j + 1;
            }
            proof {
                assert(sv.take(m as int) =~= sv);
            }
            return out;
        }
    }
    fields
}

/// The recognition vocabulary for a header row: the first field names a
/// source column, or the second a translation column.
pub open spec fn csv_header_match(f0: Seq<char>, f1: Seq<char>) -> bool {
    ||| spec_has_sub(f0, "\u{6e90}\u{8bed}\u{8a00}"@)
    ||| spec_has_sub(f0, "\u{539f}\u{6587}"@)
    ||| spec_has_sub(f0, "msgid"@)
    ||| spec_has_sub(f0, "ID"@)
    ||| spec_has_sub(f1, "\u{7ffb}\u{8bd1}"@)
    ||| spec_has_sub(f1, "\u{76ee}\u{6807}"@)
    ||| spec_has_sub(f1, "\u{8bd1}\u{6587}"@)
    ||| spec_has_sub(f1, "msgstr"@)
}

/// One emitted PO block for a row: msgid, msgstr, blank line.
pub open spec fn csv_pair_text(a: Seq<char>, b: Seq<char>) -> Seq<char> {
    "msgid \""@ + spec_escape(a) + "\"\nmsgstr \""@ + spec_escape(b) + "\"\n\n"@
}

/// A line as read from a file: without a trailing carriage return.
pub open spec fn strip_cr(l: Seq<char>) -> Seq<char> {
    if l.len() > 0 && l.last() == '\r' {
        l.drop_last()
    } else {
        l
    }
}

/// The first line without a leading byte-order mark.
pub open spec fn strip_bom(l: Seq<char>) -> Seq<char> {
    if l.len() > 0 && l[0] == '\u{feff}' {
        l.skip(1)
    } else {
        l
    }
}

/// The rows folded into emitted blocks and a count of emitted entries.
pub open spec fn csv_fold(lines: Seq<Seq<char>>, has_header: bool, body: Seq<char>, cnt: nat) -> (
    Seq<char>,
    nat,
)
    decreases lines.len(),
{
    if lines.len() == 0 {
        (body, cnt)
    } else {
        let line = strip_cr(lines[0]);
        let rest = lines.skip(1);
        if spec_trim(line).len() == 0 {
            csv_fold(rest, has_header, body, cnt)
        } else {
            let fields = spec_csv_fields(line);
            if fields.len() < 2 {
                csv_fold(rest, has_header, body, cnt)
            } else if !has_header && csv_header_match(fields[0], fields[1]) {
                csv_fold(rest, true, body, cnt)
            } else if spec_trim(fields[0]).len() == 0 {
                csv_fold(rest, has_header, body, cnt)
            } else {
                csv_fold(
                    rest,
                    has_header,
                    body + csv_pair_text(fields[0], fields[1]),
                    (cnt + 1) as nat,
                )
            }
        }
    }
}

/// The lines of the input, with the byte-order mark stripped from the
/// first.
pub open spec fn csv_lines(text: Seq<char>) -> Seq<Seq<char>> {
    let ls = spec_lines(text);
    if ls.len() > 0 {
        ls.update(0, strip_bom(ls[0]))
    } else {
        ls
    }
}

/// The PO header written before converted CSV rows.
pub open spec fn csv_header_text(date: Seq<char>) -> Seq<char> {
    "msgid \"\"\nmsgstr \"\"\n\"Project-Id-Version: BLMM Converted CSV\\n\"\n\"POT-Creation-Date: "@
        + date
        + "\\n\"\n\"PO-Revision-Date: "@
        + date
        + "\\n\"\n\"Language: zh_CN\\n\"\n\"MIME-Version: 1.0\\n\"\n\"Content-Type: text/plain; charset=UTF-8\\n\"\n\"Content-Transfer-Encoding: 8bit\\n\"\n\"Converted-From-CSV: true\\n\"\n\n"@
}

/// The whole conversion: header, then one block per usable row.
pub open spec fn spec_csv_po(text: Seq<char>, date: Seq<char>) -> Result<Seq<char>, ()> {
    let (body, cnt) = csv_fold(csv_lines(text), false, Seq::empty(), 0);
    if cnt == 0 {
        Err(())
    } else {
        Ok(csv_header_text(date) + body)
    }
}

/// Relies on chrono: the current local time, formatted as
/// `%Y-%m-%d %H:%M%z`. The result depends on the clock and the machine's
/// time zone, so nothing is promised of it.
#[verifier::external_body]
fn local_timestamp() -> (r: String) {
    chrono::Local::now().format("%Y-%m-%d %H:%M%z").to_string()
}

/// The PO header for converted CSV rows, carrying the given date.
fn csv_header(date: &str) -> (r: String)
    ensures
        r@ == csv_header_text(date@),
{
    let mut out = String::from_str(
        "msgid \"\"\nmsgstr \"\"\n\"Project-Id-Version: BLMM Converted CSV\\n\"\n\"POT-Creation-Date: ",
    );
    out.append(date);
    out.append("\\n\"\n\"PO-Revision-Date: ");
    out.append(date);
    out.append(
        "\\n\"\n\"Language: zh_CN\\n\"\n\"MIME-Version: 1.0\\n\"\n\"Content-Type: text/plain; charset=UTF-8\\n\"\n\"Content-Transfer-Encoding: 8bit\\n\"\n\"Converted-From-CSV: true\\n\"\n\n",
    );
    proof {
        assert(out@ =~= csv_header_text(date@));
    }
    out
}

/// Converts two-column delimited text into a PO catalog text.
pub struct CsvConverter;

impl CsvConverter {
    /// The conversion with an explicit date for the header fields.
    /// Fails exactly when no usable row is found.
    pub fn convert_csv_to_po_dated(input: &str, date: &str) -> (r: Result<String, CatalogError>)
        ensures
            match r {
                Ok(t) => spec_csv_po(input@, date@) == Ok::<Seq<char>, ()>(t@),
                Err(e) => {
                    &&& e == CatalogError::EmptyInput
                    &&& spec_csv_po(input@, date@) is Err
                },
            },
    {
        let chars = chars_vec(input);
        let mut lines = split_lines(&chars);
        let ghost lines_v = csv_lines(input@);
        if lines.len() > 0 {
            let bom = lines[0].len() > 0 && lines[0][0] == '\u{feff}';
            if bom {
                let l0 = lines.remove(0);
                let mut l0b: Vec<char> = Vec::new();
                let m = l0.len();
                let mut j: usize = 1;
                while j < m
                    invariant
                        1 <= j <= m,
                        m == l0@.len(),
                        l0b@ == l0@.subrange(1, j as int),
                    decreases m - j,
                {
                    l0b.push(l0[j]);
                    proof {
                        assert(l0b@ =~= l0@.subrange(1, j as int + 1));
                    }
                    j = j + 1;
                }
                proof {
                    assert(l0b@ =~= l0@.skip(1));
                }
                lines.insert(0, l0b);
            }
            proof {
                assert(lines@.map_values(|l: Vec<char>| l@) =~= lines_v);
            }
        } else {
            proof {
                assert(lines@.map_values(|l: Vec<char>| l@) =~= lines_v);
            }
        }
        let n = lines.len();
        let mut has_header = false;
        let mut cnt: usize = 0;
        let mut body = String::new();
        let mut i: usize = 0;
        proof {
            assert(lines_v.skip(0) =~= lines_v);
        }
        while i < n
            invariant
                i <= n,
                cnt <= i,
                n == lines@.len(),
                lines_v == csv_lines(input@),
                lines@.map_values(|l: Vec<char>| l@) == lines_v,
                csv_fold(lines_v, false, Seq::empty(), 0) == csv_fold(
                    lines_v.skip(i as int),
                    has_header,
                    body@,
                    cnt as nat,
                ),
            decreases n - i,
        {
            proof {
                assert(lines_v[i as int] == lines@[i as int]@);
                assert(lines_v.skip(i as int)[0] == lines_v[i as int]);
                assert(lines_v.skip(i as int).skip(1) =~= lines_v.skip(i as int + 1));
            }
            let raw = &lines[i];
            let rn = raw.len();
            let mut line: Vec<char> = Vec::new();
            let stop = if rn > 0 && raw[rn - 1] == '\r' {
                rn - 1
            } else {
                rn
            };
            let mut j: usize = 0;
            while j < stop
                invariant
                    j <= stop <= raw@.len(),
                    line@ == raw@.subrange(0, j as int),
                decreases stop - j,
            {
                line.push(raw[j]);
                proof {
                    assert(line@ =~= raw@.subrange(0, j as int + 1));
                }
                j = j + 1;
            }
            proof {
                if rn > 0 && raw@.last() == '\r' {
                    assert(line@ =~= strip_cr(raw@));
                } else {
                    assert(raw@.subrange(0, rn as int) =~= raw@);
                    assert(line@ =~= strip_cr(raw@));
                }
            }
            let tl = trim_chars(&line);
            if tl.len() == 0 {
                i = i + 1;
                continue;
            }
            let line_s = string_of(&line);
            let fields = parse_csv_line(line_s.as_str());
            proof {
                assert(fields@.map_values(|f: String| f@) == spec_csv_fields(line@));
            }
            if fields.len() < 2 {
                i = i + 1;
                continue;
            }
            proof {
                assert(fields@[0]@ == spec_csv_fields(line@)[0]);
                assert(fields@[1]@ == spec_csv_fields(line@)[1]);
            }
            let f0 = chars_vec(fields[0].as_str());
            let f1 = chars_vec(fields[1].as_str());
            if !has_header {
                let is_header = has_sub(&f0, "\u{6e90}\u{8bed}\u{8a00}") || has_sub(
                    &f0,
                    "\u{539f}\u{6587}",
                ) || has_sub(&f0, "msgid") || has_sub(&f0, "ID") || has_sub(
                    &f1,
                    "\u{7ffb}\u{8bd1}",
                ) || has_sub(&f1, "\u{76ee}\u{6807}") || has_sub(&f1, "\u{8bd1}\u{6587}")
                    || has_sub(&f1, "msgstr");
                if is_header {
                    has_header = true;
                    i = i + 1;
                    continue;
                }
            }
            let f0t = trim_chars(&f0);
            if f0t.len() == 0 {
                i = i + 1;
                continue;
            }
            let ghost body0 = body@;
            body.append("msgid \"");
            let e0 = escape_range(&f0, 0, f0.len());
            proof {
                assert(f0@.subrange(0, f0@.len() as int) =~= f0@);
            }
            body.append(e0.as_str());
            body.append("\"\nmsgstr \"");
            let e1 = escape_range(&f1, 0, f1.len());
            proof {
                assert(f1@.subrange(0, f1@.len() as int) =~= f1@);
            }
            body.append(e1.as_str());
            body.append("\"\n\n");
            proof {
                assert(body@ =~= body0 + csv_pair_text(f0@, f1@));
            }
            cnt = cnt + 1;
            i = i + 1;
        }
        proof {
            assert(lines_v.skip(n as int) =~= Seq::<Seq<char>>::empty());
        }
        if cnt == 0 {
            return Err(CatalogError::EmptyInput);
        }
        let mut out = csv_header(date);
        out.append(body.as_str());
        Ok(out)
    }

    /// The conversion stamped with the current local time.
    pub fn convert_csv_to_po(input: &str) -> (r: Result<String, CatalogError>)
        ensures
            match r {
                Ok(t) => exists|d: Seq<char>| #[trigger] spec_csv_po(input@, d) == Ok::<
                    Seq<char>,
                    (),
                >(t@),
                Err(e) => {
                    &&& e == CatalogError::EmptyInput
                    &&& forall|d: Seq<char>| #[trigger] spec_csv_po(input@, d) is Err
                },
            },
    {
        let date = local_timestamp();
        let r = Self::convert_csv_to_po_dated(input, date.as_str());
        match &r {
            Ok(_) => {},
            Err(_) => {
                proof {
                    assert forall|d: Seq<char>| #[trigger] spec_csv_po(input@, d) is Err by {
                        assert(spec_csv_po(input@, date@) is Err);
                    }
                }
            },
        }
        r
    }
}

} // verus!
