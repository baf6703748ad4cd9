//! Character-level text utilities shared by the codecs: trimming,
//! line splitting, prefix and substring tests, and string building.

use vstd::prelude::*;

verus! {

/// Whitespace stripped from the ends of a line (space, tab, carriage return).
pub open spec fn is_line_ws(c: char) -> bool {
    c == ' ' || c == '\t' || c == '\r'
}

pub open spec fn spec_trim_start(s: Seq<char>) -> Seq<char>
    decreases s.len(),
{
    if s.len() > 0 && is_line_ws(s[0]) {
        spec_trim_start(s.skip(1))
    } else {
        s
    }
}

pub open spec fn spec_trim_end(s: Seq<char>) -> Seq<char>
    decreases s.len(),
{
    if s.len() > 0 && is_line_ws(s.last()) {
        spec_trim_end(s.drop_last())
    } else {
        s
    }
}

/// A line with surrounding whitespace removed.
pub open spec fn spec_trim(s: Seq<char>) -> Seq<char> {
    spec_trim_end(spec_trim_start(s))
}

fn is_ws(c: char) -> (r: bool)
    ensures
        r == is_line_ws(c),
{
    c == ' ' || c == '\t' || c == '\r'
}

/// Relies on String::push: appends exactly one character to the string.
#[verifier::external_body]
pub(crate) fn push_char(s: &mut String, c: char)
    ensures
        final(s)@ == old(s)@.push(c),
{
    s.push(c);
}

/// The characters of a string, as an indexable vector.
pub fn chars_vec(s: &str) -> (r: Vec<char>)
    ensures
        r@ == s@,
{
    let n = s.unicode_len();
    let mut r: Vec<char> = Vec::new();
    let mut i: usize = 0;
    while i < n
        invariant
            i <= n,
            n == s@.len(),
            r@ == s@.take(i as int),
        decreases n - i,
    {
        r.push(s.get_char(i));
        i = i + 1;
        assert(r@ =~= s@.take(i as int));
    }
    assert(r@ =~= s@);
    r
}

/// The substring of `v` between `from` and `to`, as an owned string.
pub fn string_range(v: &Vec<char>, from: usize, to: usize) -> (r: String)
    requires
        from <= to <= v@.len(),
    ensures
        r@ == v@.subrange(from as int, to as int),
{
    let mut r = String::new();
    let mut i: usize = from;
    while i < to
        invariant
            from <= i <= to <= v@.len(),
            r@ == v@.subrange(from as int, i as int),
        decreases to - i,
    {
        push_char(&mut r, v[i]);
        i = i + 1;
        assert(r@ =~= v@.subrange(from as int, i as int));
    }
    r
}

/// The whole vector as an owned string.
pub fn string_of(v: &Vec<char>) -> (r: String)
    ensures
        r@ == v@,
{
    let r = string_range(v, 0, v.len());
    assert(v@.subrange(0, v@.len() as int) =~= v@);
    r
}

/// `v` with surrounding whitespace removed.
pub fn trim_chars(v: &Vec<char>) -> (r: Vec<char>)
    ensures
        r@ == spec_trim(v@),
{
    let n = v.len();
    let mut lo: usize = 0;
    proof {
        assert(v@.skip(0) =~= v@);
    }
    while lo < n && is_ws(v[lo])
        invariant
            lo <= n,
            n == v@.len(),
            spec_trim_start(v@) == spec_trim_start(v@.skip(lo as int)),
        decreases n - lo,
    {
        assert(v@.skip(lo as int).skip(1) =~= v@.skip(lo as int + 1));
        lo = lo + 1;
    }
    proof {
        if lo == n {
            assert(v@.skip(lo as int) =~= Seq::<char>::empty());
        }
        assert(spec_trim_start(v@) == v@.skip(lo as int));
        assert(v@.skip(lo as int) =~= v@.subrange(lo as int, n as int));
    }
    let mut hi: usize = n;
    while hi > lo && is_ws(v[hi - 1])
        invariant
            lo <= hi <= n,
            n == v@.len(),
            spec_trim_end(v@.subrange(lo as int, n as int)) == spec_trim_end(
                v@.subrange(lo as int, hi as int),
            ),
        decreases hi,
    {
        assert(v@.subrange(lo as int, hi as int).drop_last() =~= v@.subrange(
            lo as int,
            hi as int - 1,
        ));
        hi = hi - 1;
    }
    proof {
        if hi == lo {
            assert(v@.subrange(lo as int, hi as int) =~= Seq::<char>::empty());
        }
        assert(spec_trim_end(v@.subrange(lo as int, n as int)) == v@.subrange(
            lo as int,
            hi as int,
        ));
    }
    let mut r: Vec<char> = Vec::new();
    let mut i: usize = lo;
    while i < hi
        invariant
            lo <= i <= hi <= n,
            n == v@.len(),
            r@ == v@.subrange(lo as int, i as int),
        decreases hi - i,
    {
        r.push(v[i]);
        i = i + 1;
        assert(r@ =~= v@.subrange(lo as int, i as int));
    }
    r
}

/// A line that neither starts nor ends in whitespace trims to itself.
pub proof fn lemma_trim_id(l: Seq<char>)
    requires
        l.len() == 0 || (!is_line_ws(l[0]) && !is_line_ws(l.last())),
    ensures
        spec_trim(l) == l,
{
}

/// `s` starts with the pattern `p`.
pub open spec fn spec_starts_with(s: Seq<char>, p: Seq<char>) -> bool {
    s.len() >= p.len() && s.take(p.len() as int) == p
}

pub fn starts_with_lit(v: &Vec<char>, pat: &str) -> (r: bool)
    ensures
        r == spec_starts_with(v@, pat@),
{
    let m = pat.unicode_len();
    if v.len() < m {
        proof {
            assert(!spec_starts_with(v@, pat@));
        }
        return false;
    }
    let mut j: usize = 0;
    while j < m
        invariant
            j <= m,
            m == pat@.len(),
            v@.len() >= m,
            forall|k: int| 0 <= k < j ==> v@[k] == pat@[k],
        decreases m - j,
    {
        if v[j] != pat.get_char(j) {
            proof {
                assert(v@.take(m as int)[j as int] != pat@[j as int]);
            }
            return false;
        }
        j = j + 1;
    }
    proof {
        assert(v@.take(m as int) =~= pat@);
    }
    true
}

/// `p` occurs as a contiguous subsequence of `s`.
pub open spec fn spec_has_sub(s: Seq<char>, p: Seq<char>) -> bool {
    exists|k: int| 0 <= k && k + p.len() <= s.len() && #[trigger] s.subrange(k, k + p.len()) == p
}

pub fn has_sub(v: &Vec<char>, pat: &str) -> (r: bool)
    ensures
        r == spec_has_sub(v@, pat@),
{
    let m = pat.unicode_len();
    let n = v.len();
    if n < m {
        return false;
    }
    let mut k: usize = 0;
    while k <= n - m
        invariant
            k <= n - m + 1,
            m <= n,
            n == v@.len(),
            m == pat@.len(),
            forall|q: int| 0 <= q < k ==> #[trigger] v@.subrange(q, q + m) != pat@,
        decreases n - m - k + 1,
    {
        let mut j: usize = 0;
        let mut ok = true;
        while j < m
            invariant
                j <= m,
                k + m <= n,
                n == v@.len(),
                m == pat@.len(),
                ok == (forall|q: int| 0 <= q < j ==> v@[k + q] == #[trigger] pat@[q]),
            decreases m - j,
        {
            if v[k + j] != pat.get_char(j) {
                ok = false;
                j = m;
            } else {
                j = j + 1;
            }
        }
        if ok {
            proof {
                assert(v@.subrange(k as int, k as int + m) =~= pat@);
            }
            return true;
        }
        proof {
            assert(v@.subrange(k as int, k as int + m) != pat@) by {
                assert(exists|q: int|
                    0 <= q < m && v@[k as int + q] != pat@[q]);
                let q = choose|q: int| 0 <= q < m && v@[k as int + q] != pat@[q];
                assert(v@.subrange(k as int, k as int + m)[q] == v@[k as int + q]);
            }
        }
        k = k + 1;
    }
    false
}

/// Whether `v` holds the character `c`.
pub fn contains_char(v: &Vec<char>, c: char) -> (r: bool)
    ensures
        r == v@.contains(c),
{
    let n = v.len();
    let mut i: usize = 0;
    while i < n
        invariant
            i <= n,
            n == v@.len(),
            forall|k: int| 0 <= k < i ==> v@[k] != c,
        decreases n - i,
    {
        if v[i] == c {
            return true;
        }
        i = i + 1;
    }
    false
}

/// Index of the first newline in `s`, or `s.len()` if there is none.
pub open spec fn first_nl(s: Seq<char>) -> int
    decreases s.len(),
{
    if s.len() == 0 {
        0
    } else if s[0] == '\n' {
        0
    } else {
        1 + first_nl(s.skip(1))
    }
}

pub proof fn lemma_first_nl(s: Seq<char>)
    ensures
        0 <= first_nl(s) <= s.len(),
        first_nl(s) < s.len() ==> s[first_nl(s)] == '\n',
        forall|k: int| 0 <= k < first_nl(s) ==> s[k] != '\n',
    decreases s.len(),
{
    if s.len() > 0 && s[0] != '\n' {
        lemma_first_nl(s.skip(1));
        assert forall|k: int| 0 <= k < first_nl(s) implies s[k] != '\n' by {
            if k > 0 {
                assert(s.skip(1)[k - 1] == s[k]);
            }
        }
    }
}

/// The lines of `s`: maximal stretches between newlines, where a trailing
/// newline closes the last line rather than opening an empty one.
pub open spec fn spec_lines(s: Seq<char>) -> Seq<Seq<char>>
    decreases s.len(),
    via spec_lines_decreases
{
    if s.len() == 0 {
        Seq::empty()
    } else {
        let i = first_nl(s);
        if i == s.len() {
            seq![s]
        } else {
            seq![s.subrange(0, i)] + spec_lines(s.skip(i + 1))
        }
    }
}

#[via_fn]
proof fn spec_lines_decreases(s: Seq<char>) {
    lemma_first_nl(s);
}

/// Splits `v` at newlines, as `spec_lines` describes.
pub fn split_lines(v: &Vec<char>) -> (r: Vec<Vec<char>>)
    ensures
        r@.map_values(|l: Vec<char>| l@) == spec_lines(v@),
{
    let n = v.len();
    let mut r: Vec<Vec<char>> = Vec::new();
    let mut cur: Vec<char> = Vec::new();
    let mut i: usize = 0;
    proof {
        assert(r@.map_values(|l: Vec<char>| l@) =~= Seq::<Seq<char>>::empty());
        assert(cur@ + v@.skip(0) =~= v@);
    }
    while i < n
        invariant
            i <= n,
            n == v@.len(),
            !cur@.contains('\n'),
            spec_lines(v@) == r@.map_values(|l: Vec<char>| l@) + spec_lines(
                cur@ + v@.skip(i as int),
            ),
        decreases n - i,
    {
        let c = v[i];
        if c == '\n' {
            proof {
                lemma_lines_head(cur@, v@.skip(i as int + 1));
                assert(cur@ + v@.skip(i as int) =~= (cur@ + seq!['\n']) + v@.skip(i as int + 1));
                assert(r@.push(cur).map_values(|l: Vec<char>| l@) =~= r@.map_values(
                    |l: Vec<char>| l@,
                ).push(cur@));
            }
            r.push(cur);
            cur = Vec::new();
            proof {
                assert(cur@ + v@.skip(i as int + 1) =~= v@.skip(i as int + 1));
            }
        } else {
            proof {
                assert((cur@ + v@.skip(i as int)) =~= (cur@.push(c) + v@.skip(i as int + 1)));
            }
            cur.push(c);
        }
        i = i + 1;
    }
    proof {
        assert(v@.skip(n as int) =~= Seq::<char>::empty());
        assert(cur@ + Seq::<char>::empty() =~= cur@);
    }
    if cur.len() > 0 {
        proof {
            lemma_lines_single(cur@);
            assert(r@.push(cur).map_values(|l: Vec<char>| l@) =~= r@.map_values(
                |l: Vec<char>| l@,
            ).push(cur@));
        }
        r.push(cur);
    }
    r
}

/// A nonempty newline-free sequence is one whole line.
proof fn lemma_lines_single(a: Seq<char>)
    ensures
        !a.contains('\n') && a.len() > 0 ==> spec_lines(a) == seq![a],
{
    if !a.contains('\n') && a.len() > 0 {
        lemma_first_nl_no_nl(a);
    }
}

proof fn lemma_first_nl_no_nl(a: Seq<char>)
    requires
        !a.contains('\n'),
    ensures
        first_nl(a) == a.len(),
    decreases a.len(),
{
    if a.len() > 0 {
        assert(a[0] != '\n');
        assert(!a.skip(1).contains('\n')) by {
            if a.skip(1).contains('\n') {
                let k = choose|k: int| 0 <= k < a.skip(1).len() && a.skip(1)[k] == '\n';
                assert(a[k + 1] == '\n');
            }
        }
        lemma_first_nl_no_nl(a.skip(1));
    }
}

/// Splitting text that starts with a newline-free line `a` closed by a
/// newline yields `a` followed by the lines of the rest.
pub proof fn lemma_lines_head(a: Seq<char>, rest: Seq<char>)
    requires
        !a.contains('\n'),
    ensures
        spec_lines((a + seq!['\n']) + rest) == seq![a] + spec_lines(rest),
{
    let s = (a + seq!['\n']) + rest;
    assert(s.len() > 0);
    lemma_first_nl_prefix(a, rest);
    assert(first_nl(s) == a.len());
    assert(s.subrange(0, a.len() as int) =~= a);
    assert(s.skip(a.len() as int + 1) =~= rest);
}

proof fn lemma_first_nl_prefix(a: Seq<char>, rest: Seq<char>)
    requires
        !a.contains('\n'),
    ensures
        first_nl((a + seq!['\n']) + rest) == a.len(),
    decreases a.len(),
{
    let s = (a + seq!['\n']) + rest;
    if a.len() == 0 {
        assert(s[0] == '\n');
    } else {
        assert(s[0] == a[0]);
        assert(a[0] != '\n');
        assert(!a.skip(1).contains('\n')) by {
            if a.skip(1).contains('\n') {
                let k = choose|k: int| 0 <= k < a.skip(1).len() && a.skip(1)[k] == '\n';
                assert(a[k + 1] == '\n');
            }
        }
        lemma_first_nl_prefix(a.skip(1), rest);
        assert(s.skip(1) =~= (a.skip(1) + seq!['\n']) + rest);
    }
}

/// Index of the first occurrence of `c` in `s`, or `s.len()`.
pub open spec fn first_at(s: Seq<char>, c: char) -> int
    decreases s.len(),
{
    if s.len() == 0 {
        0
    } else if s[0] == c {
        0
    } else {
        1 + first_at(s.skip(1), c)
    }
}

pub proof fn lemma_first_at(s: Seq<char>, c: char)
    ensures
        0 <= first_at(s, c) <= s.len(),
        first_at(s, c) < s.len() ==> s[first_at(s, c)] == c,
        forall|k: int| 0 <= k < first_at(s, c) ==> s[k] != c,
    decreases s.len(),
{
    if s.len() > 0 && s[0] != c {
        lemma_first_at(s.skip(1), c);
        assert forall|k: int| 0 <= k < first_at(s, c) implies s[k] != c by {
            if k > 0 {
                assert(s.skip(1)[k - 1] == s[k]);
            }
        }
    }
}

/// Splits `s` at every occurrence of `c`, keeping empty pieces (so one
/// trailing separator yields one trailing empty field).
pub open spec fn spec_split_char(s: Seq<char>, c: char) -> Seq<Seq<char>>
    decreases s.len(),
    via spec_split_char_decreases
{
    let i = first_at(s, c);
    if i == s.len() {
        seq![s]
    } else {
        seq![s.subrange(0, i)] + spec_split_char(s.skip(i + 1), c)
    }
}

#[via_fn]
proof fn spec_split_char_decreases(s: Seq<char>, c: char) {
    lemma_first_at(s, c);
}

/// Splits `v` at every occurrence of `c`, as `spec_split_char` says.
pub fn split_char(v: &Vec<char>, c: char) -> (r: Vec<Vec<char>>)
    ensures
        r@.map_values(|l: Vec<char>| l@) == spec_split_char(v@, c),
{
    let n = v.len();
    let mut r: Vec<Vec<char>> = Vec::new();
    let mut cur: Vec<char> = Vec::new();
    let mut i: usize = 0;
    proof {
        assert(r@.map_values(|l: Vec<char>| l@) =~= Seq::<Seq<char>>::empty());
        assert(cur@ + v@.skip(0) =~= v@);
    }
    while i < n
        invariant
            i <= n,
            n == v@.len(),
            !cur@.contains(c),
            spec_split_char(v@, c) == r@.map_values(|l: Vec<char>| l@) + spec_split_char(
                cur@ + v@.skip(i as int),
                c,
            ),
        decreases n - i,
    {
        let ch = v[i];
        if ch == c {
            proof {
                lemma_split_char_head(cur@, v@.skip(i as int + 1), c);
                assert(cur@ + v@.skip(i as int) =~= (cur@ + seq![c]) + v@.skip(i as int + 1));
                assert(r@.push(cur).map_values(|l: Vec<char>| l@) =~= r@.map_values(
                    |l: Vec<char>| l@,
                ).push(cur@));
            }
            r.push(cur);
            cur = Vec::new();
            proof {
                assert(cur@ + v@.skip(i as int + 1) =~= v@.skip(i as int + 1));
            }
        } else {
            proof {
                assert((cur@ + v@.skip(i as int)) =~= (cur@.push(ch) + v@.skip(i as int + 1)));
            }
            cur.push(ch);
        }
        i = i + 1;
    }
    proof {
        assert(v@.skip(n as int) =~= Seq::<char>::empty());
        assert(cur@ + Seq::<char>::empty() =~= cur@);
        lemma_first_at_absent(cur@, c);
        assert(r@.push(cur).map_values(|l: Vec<char>| l@) =~= r@.map_values(
            |l: Vec<char>| l@,
        ).push(cur@));
    }
    r.push(cur);
    r
}

proof fn lemma_first_at_absent(a: Seq<char>, c: char)
    requires
        !a.contains(c),
    ensures
        first_at(a, c) == a.len(),
        spec_split_char(a, c) == seq![a],
    decreases a.len(),
{
    if a.len() > 0 {
        assert(a[0] != c);
        assert(!a.skip(1).contains(c)) by {
            if a.skip(1).contains(c) {
                let k = choose|k: int| 0 <= k < a.skip(1).len() && a.skip(1)[k] == c;
                assert(a[k + 1] == c);
            }
        }
        lemma_first_at_absent(a.skip(1), c);
    }
}

/// Splitting text that opens with a `c`-free piece closed by `c` yields
/// that piece and then the split of the rest.
proof fn lemma_split_char_head(a: Seq<char>, rest: Seq<char>, c: char)
    requires
        !a.contains(c),
    ensures
        spec_split_char((a + seq![c]) + rest, c) == seq![a] + spec_split_char(rest, c),
{
    let s = (a + seq![c]) + rest;
    lemma_first_at_prefix(a, rest, c);
    assert(first_at(s, c) == a.len());
    lemma_first_at(s, c);
    assert(first_at(s, c) < s.len());
    assert(s.subrange(0, a.len() as int) =~= a);
    assert(s.skip(a.len() as int + 1) =~= rest);
}

proof fn lemma_first_at_prefix(a: Seq<char>, rest: Seq<char>, c: char)
    requires
        !a.contains(c),
    ensures
        first_at((a + seq![c]) + rest, c) == a.len(),
    decreases a.len(),
{
    let s = (a + seq![c]) + rest;
    if a.len() == 0 {
        assert(s[0] == c);
    } else {
        assert(s[0] == a[0]);
        assert(a[0] != c);
        assert(!a.skip(1).contains(c)) by {
            if a.skip(1).contains(c) {
                let k = choose|k: int| 0 <= k < a.skip(1).len() && a.skip(1)[k] == c;
                assert(a[k + 1] == c);
            }
        }
        lemma_first_at_prefix(a.skip(1), rest, c);
        assert(s.skip(1) =~= (a.skip(1) + seq![c]) + rest);
    }
}

/// `a` precedes `b` in codepoint order (lexicographic on characters).
pub open spec fn lex_le(a: Seq<char>, b: Seq<char>) -> bool
    decreases a.len(),
{
    if a.len() == 0 {
        true
    } else if b.len() == 0 {
        false
    } else if (a[0] as u32) < (b[0] as u32) {
        true
    } else if (b[0] as u32) < (a[0] as u32) {
        false
    } else {
        lex_le(a.skip(1), b.skip(1))
    }
}

pub proof fn lemma_lex_le_total(a: Seq<char>, b: Seq<char>)
    ensures
        lex_le(a, b) || lex_le(b, a),
        lex_le(a, b) && lex_le(b, a) ==> a == b,
    decreases a.len(),
{
    if a.len() == 0 {
        if lex_le(b, a) {
            assert(b.len() == 0);
            assert(a =~= b);
        }
    } else if b.len() == 0 {
    } else if (a[0] as u32) == (b[0] as u32) {
        vstd::utf8::char_u32_cast(a[0], a[0] as u32);
        vstd::utf8::char_u32_cast(b[0], b[0] as u32);
        assert(a[0] == b[0]);
        lemma_lex_le_total(a.skip(1), b.skip(1));
        if lex_le(a, b) && lex_le(b, a) {
            assert(a.skip(1) == b.skip(1));
            assert(a =~= Seq::empty().push(a[0]) + a.skip(1));
            assert(b =~= Seq::empty().push(b[0]) + b.skip(1));
        }
    }
}

pub proof fn lemma_lex_le_trans(a: Seq<char>, b: Seq<char>, c: Seq<char>)
    requires
        lex_le(a, b),
        lex_le(b, c),
    ensures
        lex_le(a, c),
    decreases a.len(),
{
    if a.len() > 0 && b.len() > 0 && c.len() > 0 && (a[0] as u32) == (b[0] as u32) && (b[0] as u32)
        == (c[0] as u32) {
        lemma_lex_le_trans(a.skip(1), b.skip(1), c.skip(1));
    }
}

/// Codepoint-order comparison of two strings.
pub fn str_lex_le(a: &str, b: &str) -> (r: bool)
    ensures
        r == lex_le(a@, b@),
{
    let na = a.unicode_len();
    let nb = b.unicode_len();
    let mut i: usize = 0;
    proof {
        assert(a@.skip(0) =~= a@);
        assert(b@.skip(0) =~= b@);
    }
    loop
        invariant
            i <= na,
            i <= nb,
            na == a@.len(),
            nb == b@.len(),
            forall|k: int| 0 <= k < i ==> a@[k] == b@[k],
            lex_le(a@, b@) == lex_le(a@.skip(i as int), b@.skip(i as int)),
        decreases na - i,
    {
        if i == na {
            proof {
                assert(a@.skip(i as int) =~= Seq::<char>::empty());
            }
            return true;
        }
        if i == nb {
            proof {
                assert(b@.skip(i as int) =~= Seq::<char>::empty());
                assert(a@.skip(i as int).len() > 0);
            }
            return false;
        }
        let ca = a.get_char(i);
        let cb = b.get_char(i);
        proof {
            assert(a@.skip(i as int)[0] == a@[i as int]);
            assert(b@.skip(i as int)[0] == b@[i as int]);
        }
        if (ca as u32) < (cb as u32) {
            return true;
        }
        if (cb as u32) < (ca as u32) {
            return false;
        }
        proof {
            assert(a@.skip(i as int).skip(1) =~= a@.skip(i as int + 1));
            assert(b@.skip(i as int).skip(1) =~= b@.skip(i as int + 1));
        }
        i = i + 1;
    }
}

} // verus!
