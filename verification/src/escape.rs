//! PO string escaping: `\`, `"`, newline, carriage return and tab are
//! written as two-character escapes; unescaping reverses them and leaves
//! any unrecognized escape verbatim.

use vstd::prelude::*;

verus! {

/// How one character is written inside a quoted PO string.
pub open spec fn esc_char(c: char) -> Seq<char> {
    if c == '\\' {
        seq!['\\', '\\']
    } else if c == '"' {
        seq!['\\', '"']
    } else if c == '\n' {
        seq!['\\', 'n']
    } else if c == '\r' {
        seq!['\\', 'r']
    } else if c == '\t' {
        seq!['\\', 't']
    } else {
        seq![c]
    }
}

/// The escaped form of a whole string.
pub open spec fn spec_escape(s: Seq<char>) -> Seq<char>
    decreases s.len(),
{
    if s.len() == 0 {
        Seq::empty()
    } else {
        esc_char(s[0]) + spec_escape(s.skip(1))
    }
}

/// The unescaped form: a backslash followed by one of `\ " n r t` becomes
/// the named character, an unrecognized escape keeps both characters, and
/// a trailing lone backslash stays a backslash.
pub open spec fn spec_unescape(s: Seq<char>) -> Seq<char>
    decreases s.len(),
{
    if s.len() == 0 {
        Seq::empty()
    } else if s[0] == '\\' {
        if s.len() == 1 {
            seq!['\\']
        } else {
            let c = s[1];
            let u = if c == 'n' {
                seq!['\n']
            } else if c == 'r' {
                seq!['\r']
            } else if c == 't' {
                seq!['\t']
            } else if c == '\\' {
                seq!['\\']
            } else if c == '"' {
                seq!['"']
            } else {
                seq!['\\', c]
            };
            u + spec_unescape(s.skip(2))
        }
    } else {
        seq![s[0]] + spec_unescape(s.skip(1))
    }
}

/// Escapes the characters of `v` between `from` and `to`.
pub fn escape_range(v: &Vec<char>, from: usize, to: usize) -> (r: String)
    requires
        from <= to <= v@.len(),
    ensures
        r@ == spec_escape(v@.subrange(from as int, to as int)),
{
    let ghost s = v@.subrange(from as int, to as int);
    let mut r = String::new();
    let mut i: usize = from;
    proof {
        assert(s.skip(0) =~= s);
    }
    while i < to
        invariant
            from <= i <= to <= v@.len(),
            s == v@.subrange(from as int, to as int),
            spec_escape(s) == r@ + spec_escape(s.skip(i - from)),
        decreases to - i,
    {
        let c = v[i];
        let ghost r0 = r@;
        proof {
            assert(s.skip(i - from)[0] == s[i - from]);
            assert(s[i - from] == v@[i as int]);
            assert(s.skip(i - from).skip(1) =~= s.skip(i + 1 - from));
        }
        if c == '\\' {
            crate::text::push_char(&mut r, '\\');
            crate::text::push_char(&mut r, '\\');
        } else if c == '"' {
            crate::text::push_char(&mut r, '\\');
            crate::text::push_char(&mut r, '"');
        } else if c == '\n' {
            crate::text::push_char(&mut r, '\\');
            crate::text::push_char(&mut r, 'n');
        } else if c == '\r' {
            crate::text::push_char(&mut r, '\\');
            crate::text::push_char(&mut r, 'r');
        } else if c == '\t' {
            crate::text::push_char(&mut r, '\\');
            crate::text::push_char(&mut r, 't');
        } else {
            crate::text::push_char(&mut r, c);
        }
        proof {
            assert(r@ =~= r0 + esc_char(c));
            assert(r0 + (esc_char(c) + spec_escape(s.skip(i + 1 - from))) =~= r@ + spec_escape(
                s.skip(i + 1 - from),
            ));
            assert(spec_escape(s) == r@ + spec_escape(s.skip(i + 1 - from)));
        }
        i = i + 1;
    }
    proof {
        assert(s.skip(to - from) =~= Seq::<char>::empty());
        assert(r@ + Seq::<char>::empty() =~= r@);
    }
    r
}

/// Escapes a string for inclusion between PO quotes.
pub fn escape_po_string(s: &str) -> (r: String)
    ensures
        r@ == spec_escape(s@),
{
    let v = crate::text::chars_vec(s);
    let r = escape_range(&v, 0, v.len());
    proof {
        assert(v@.subrange(0, v@.len() as int) =~= v@);
    }
    r
}

/// Unescapes the characters of `v` between `from` and `to`.
pub fn unescape_range(v: &Vec<char>, from: usize, to: usize) -> (r: String)
    requires
        from <= to <= v@.len(),
    ensures
        r@ == spec_unescape(v@.subrange(from as int, to as int)),
{
    let ghost s = v@.subrange(from as int, to as int);
    let mut r = String::new();
    let mut i: usize = from;
    proof {
        assert(s.skip(0) =~= s);
    }
    while i < to
        invariant
            from <= i <= to <= v@.len(),
            s == v@.subrange(from as int, to as int),
            spec_unescape(s) == r@ + spec_unescape(s.skip(i - from)),
        decreases to - i,
    {
        let c = v[i];
        let ghost r0 = r@;
        proof {
            assert(s.skip(i - from)[0] == s[i - from]);
            assert(s[i - from] == v@[i as int]);
        }
        if c == '\\' && i + 1 < to {
            let c2 = v[i + 1];
            proof {
                assert(s.skip(i - from)[1] == v@[i as int + 1]);
                assert(s.skip(i - from).skip(2) =~= s.skip(i + 2 - from));
            }
            if c2 == 'n' {
                crate::text::push_char(&mut r, '\n');
            } else if c2 == 'r' {
                crate::text::push_char(&mut r, '\r');
            } else if c2 == 't' {
                crate::text::push_char(&mut r, '\t');
            } else if c2 == '\\' {
                crate::text::push_char(&mut r, '\\');
            } else if c2 == '"' {
                crate::text::push_char(&mut r, '"');
            } else {
                crate::text::push_char(&mut r, '\\');
                crate::text::push_char(&mut r, c2);
            }
            proof {
                assert(r0 + spec_unescape(s.skip(i - from)) =~= r@ + spec_unescape(
                    s.skip(i + 2 - from),
                ));
                assert(spec_unescape(s) == r@ + spec_unescape(s.skip(i + 2 - from)));
            }
            i = i + 2;
        } else {
            proof {
                assert(s.skip(i - from).skip(1) =~= s.skip(i + 1 - from));
                if c == '\\' {
                    assert(s.skip(i - from).len() == 1);
                }
            }
            crate::text::push_char(&mut r, c);
            proof {
                assert(r0 + spec_unescape(s.skip(i - from)) =~= r@ + spec_unescape(
                    s.skip(i + 1 - from),
                ));
                assert(spec_unescape(s) == r@ + spec_unescape(s.skip(i + 1 - from)));
            }
            i = i + 1;
        }
    }
    proof {
        assert(s.skip(to - from) =~= Seq::<char>::empty());
        assert(r@ + Seq::<char>::empty() =~= r@);
    }
    r
}

/// Unescapes a whole string.
pub fn unescape_po_string(s: &str) -> (r: String)
    ensures
        r@ == spec_unescape(s@),
{
    let v = crate::text::chars_vec(s);
    let r = unescape_range(&v, 0, v.len());
    proof {
        assert(v@.subrange(0, v@.len() as int) =~= v@);
    }
    r
}

/// A quoted, escaped PO string: opening and closing quote around an
/// escaped body. `None` when the text is not of that shape.
pub open spec fn spec_parse_quoted(s: Seq<char>) -> Option<Seq<char>> {
    if s.len() >= 2 && s[0] == '"' && s.last() == '"' {
        Some(spec_unescape(s.subrange(1, s.len() - 1)))
    } else {
        None
    }
}

/// Parses the quoted string in `v[from..to]`.
pub fn parse_quoted_range(v: &Vec<char>, from: usize, to: usize) -> (r: Option<String>)
    requires
        from <= to <= v@.len(),
    ensures
        match r {
            Some(out) => spec_parse_quoted(v@.subrange(from as int, to as int)) == Some(out@),
            None => spec_parse_quoted(v@.subrange(from as int, to as int)) is None,
        },
{
    let ghost s = v@.subrange(from as int, to as int);
    if to - from < 2 || v[from] != '"' || v[to - 1] != '"' {
        proof {
            if s.len() >= 2 {
                assert(s[0] == v@[from as int]);
                assert(s.last() == v@[to as int - 1]);
            }
        }
        return None;
    }
    let out = unescape_range(v, from + 1, to - 1);
    proof {
        assert(s[0] == v@[from as int]);
        assert(s.last() == v@[to as int - 1]);
        assert(v@.subrange(from as int + 1, to as int - 1) =~= s.subrange(1, s.len() - 1));
    }
    Some(out)
}

/// Parses a quoted, escaped PO string such as `"a\nb"`.
pub fn parse_po_string(s: &str) -> (r: Option<String>)
    ensures
        match r {
            Some(out) => spec_parse_quoted(s@) == Some(out@),
            None => spec_parse_quoted(s@) is None,
        },
{
    let v = crate::text::chars_vec(s);
    let r = parse_quoted_range(&v, 0, v.len());
    proof {
        assert(v@.subrange(0, v@.len() as int) =~= v@);
    }
    r
}

/// Unescaping an escaped string followed by any tail unescapes them
/// independently.
pub proof fn lemma_unescape_escape_concat(s: Seq<char>, t: Seq<char>)
    ensures
        spec_unescape(spec_escape(s) + t) == s + spec_unescape(t),
    decreases s.len(),
{
    if s.len() == 0 {
        assert(spec_escape(s) + t =~= t);
        assert(s + spec_unescape(t) =~= spec_unescape(t));
    } else {
        let c = s[0];
        let e = esc_char(c);
        let rest = spec_escape(s.skip(1)) + t;
        lemma_unescape_escape_concat(s.skip(1), t);
        assert(spec_escape(s) + t =~= e + rest);
        if c == '\\' || c == '"' || c == '\n' || c == '\r' || c == '\t' {
            assert(e.len() == 2);
            assert((e + rest)[0] == e[0]);
            assert((e + rest)[0] == '\\');
            assert((e + rest)[1] == e[1]);
            assert((e + rest).skip(2) =~= rest);
            assert(spec_unescape(e + rest) =~= seq![c] + (s.skip(1) + spec_unescape(t)));
            assert(seq![c] + (s.skip(1) + spec_unescape(t)) =~= s + spec_unescape(t));
        } else {
            assert(e.len() == 1);
            assert((e + rest)[0] == c);
            assert(c != '\\');
            assert((e + rest).skip(1) =~= rest);
            assert(spec_unescape(e + rest) =~= seq![c] + (s.skip(1) + spec_unescape(t)));
            assert(seq![c] + (s.skip(1) + spec_unescape(t)) =~= s + spec_unescape(t));
        }
    }
}

/// Unescaping inverts escaping: `spec_unescape(spec_escape(s)) == s`
/// for every string `s`.
pub proof fn lemma_unescape_escape(s: Seq<char>)
    ensures
        spec_unescape(spec_escape(s)) == s,
{
    lemma_unescape_escape_concat(s, Seq::empty());
    assert(spec_escape(s) + Seq::<char>::empty() =~= spec_escape(s));
    assert(spec_unescape(Seq::<char>::empty()) =~= Seq::<char>::empty());
    assert(s + Seq::<char>::empty() =~= s);
}

/// The escaped form of any string contains no newline and does not end
/// in whitespace unless the string was empty; its length is at least the
/// string's own.
pub proof fn lemma_escape_no_nl(s: Seq<char>)
    ensures
        !spec_escape(s).contains('\n'),
        spec_escape(s).len() >= s.len(),
    decreases s.len(),
{
    if s.len() > 0 {
        lemma_escape_no_nl(s.skip(1));
        let e = esc_char(s[0]);
        let rest = spec_escape(s.skip(1));
        if (e + rest).contains('\n') {
            let k = choose|k: int| 0 <= k < (e + rest).len() && (e + rest)[k] == '\n';
            if k < e.len() {
                assert(e[k] == '\n');
            } else {
                assert(rest[k - e.len()] == '\n');
            }
        }
    }
}

} // verus!
