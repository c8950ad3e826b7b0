//! A Logos-style preprocessor for tweak sources: `KSYM("name")` becomes a
//! symbol lookup, `%hookf(ret, target, params...) { body }` becomes an
//! original-function pointer, a hook function and a constructor that
//! installs it (with `%orig` forwarding the arguments), and `%ctor` /
//! `%init` become constructor scaffolding.
//!
//! The preprocessor copies source text byte by byte, so it takes ASCII text
//! (outside `KSYM` arguments); positions here are character positions.

use vstd::prelude::*;

use crate::text::{
    chars_of, extend, find_sub, find_sub_from, split_str_from, lemma_find_sub_after, lines, lines_of, occurs_at, slice, string_of, trim,
    trim_chars,
};

verus! {

pub open spec fn is_ascii_text(s: Seq<char>) -> bool {
    forall|i: int| 0 <= i < s.len() ==> (s[i] as u32) < 128
}

/// Scans for the delimiter closing a nesting opened before `i`, honoring
/// string literals (a `"` toggles them).
pub open spec fn scan_delim(s: Seq<char>, i: int, depth: int, in_str: bool, open: char, close: char) -> Option<int>
    decreases s.len() - i,
{
    if i < 0 || i >= s.len() {
        None
    } else if s[i] == '"' {
        scan_delim(s, i + 1, depth, !in_str, open, close)
    } else if s[i] == open && !in_str {
        scan_delim(s, i + 1, depth + 1, in_str, open, close)
    } else if s[i] == close && !in_str {
        if depth - 1 == 0 { Some(i) } else { scan_delim(s, i + 1, depth - 1, in_str, open, close) }
    } else {
        scan_delim(s, i + 1, depth, in_str, open, close)
    }
}

/// Index of the delimiter matching the `open` at `open_at`.
pub open spec fn matching(s: Seq<char>, open_at: int, open: char, close: char) -> Option<int> {
    if 0 <= open_at < s.len() && s[open_at] == open {
        scan_delim(s, open_at, 0, false, open, close)
    } else {
        None
    }
}

proof fn lemma_scan_after(s: Seq<char>, i: int, depth: int, in_str: bool, open: char, close: char)
    ensures
        scan_delim(s, i, depth, in_str, open, close) matches Some(k) ==> i <= k < s.len(),
    decreases s.len() - i,
{
    if 0 <= i < s.len() {
        lemma_scan_after(s, i + 1, depth, !in_str, open, close);
        lemma_scan_after(s, i + 1, depth + 1, in_str, open, close);
        lemma_scan_after(s, i + 1, depth - 1, in_str, open, close);
        lemma_scan_after(s, i + 1, depth, in_str, open, close);
    }
}

pub proof fn lemma_matching_after(s: Seq<char>, open_at: int, open: char, close: char)
    ensures
        matching(s, open_at, open, close) matches Some(k) ==> open_at <= k < s.len(),
        open != close && open != '"' ==> (matching(s, open_at, open, close) matches Some(k) ==> open_at < k),
{
    lemma_scan_after(s, open_at, 0, false, open, close);
    lemma_scan_after(s, open_at + 1, 1, false, open, close);
}

/// Index of the delimiter matching the `open` at `open_at`, honoring string
/// literals.
pub fn matching_delim(s: &[char], open_at: usize, open: char, close: char) -> (r: Option<usize>)
    requires
        open != '"',
        close != '"',
    ensures
        r matches Some(k) ==> matching(s@, open_at as int, open, close) == Some(k as int),
        r is None ==> matching(s@, open_at as int, open, close) is None,
{
    if open_at >= s.len() || s[open_at] != open {
        return None;
    }
    let mut depth: i128 = 0;
    let mut in_str = false;
    let mut i = open_at;
    while i < s.len()
        invariant
            open_at <= i <= s@.len(),
            -(i as int - open_at as int) <= depth <= i - open_at,
            s@[open_at as int] == open,
            scan_delim(s@, open_at as int, 0, false, open, close) == scan_delim(s@, i as int, depth as int, in_str, open, close),
        decreases s@.len() - i,
    {
        let c = s[i];
        if c == '"' {
            in_str = !in_str;
        } else if c == open && !in_str {
            depth += 1;
        } else if c == close && !in_str {
            depth -= 1;
            if depth == 0 {
                return Some(i);
            }
        }
        i += 1;
    }
    None
}

/// The first index at or after `i` holding `c`.
pub open spec fn find_char_from(s: Seq<char>, c: char, i: int) -> Option<int>
    decreases s.len() - i,
{
    if i < 0 || i >= s.len() {
        None
    } else if s[i] == c {
        Some(i)
    } else {
        find_char_from(s, c, i + 1)
    }
}

pub proof fn lemma_find_char_after(s: Seq<char>, c: char, i: int)
    ensures
        find_char_from(s, c, i) matches Some(k) ==> i <= k < s.len(),
    decreases s.len() - i,
{
    if 0 <= i < s.len() && s[i] != c {
        lemma_find_char_after(s, c, i + 1);
    }
}

/// The first index at or after `from` holding `c`.
pub fn find_char_at(s: &[char], c: char, from: usize) -> (r: Option<usize>)
    ensures
        r matches Some(k) ==> find_char_from(s@, c, from as int) == Some(k as int),
        r is None ==> find_char_from(s@, c, from as int) is None,
{
    let mut i = from;
    while i < s.len()
        invariant
            from <= i,
            find_char_from(s@, c, from as int) == find_char_from(s@, c, i as int),
        decreases s@.len() - i,
    {
        if s[i] == c {
            return Some(i);
        }
        i += 1;
    }
    None
}

/// `str::replace(pat, rep)` from index `i`: every non-overlapping
/// occurrence of `pat`, left to right, replaced by `rep`.
pub open spec fn replace_from(s: Seq<char>, i: int, pat: Seq<char>, rep: Seq<char>) -> Seq<char>
    decreases s.len() - i,
{
    if i < 0 || i > s.len() || pat.len() == 0 {
        s.subrange(i, s.len() as int)
    } else {
        match find_sub_from(s, pat, i) {
            None => s.subrange(i, s.len() as int),
            Some(j) => {
                proof {
                    lemma_find_sub_after(s, pat, i);
                }
                s.subrange(i, j) + rep + replace_from(s, j + pat.len(), pat, rep)
            },
        }
    }
}

pub open spec fn replace_all(s: Seq<char>, pat: Seq<char>, rep: Seq<char>) -> Seq<char> {
    replace_from(s, 0, pat, rep)
}

/// The pieces `ps` joined with `sep` between each two.
pub open spec fn join_with(ps: Seq<Seq<char>>, sep: Seq<char>) -> Seq<char>
    decreases ps.len(),
{
    if ps.len() == 0 {
        Seq::empty()
    } else if ps.len() == 1 {
        ps[0]
    } else {
        ps[0] + sep + join_with(ps.drop_first(), sep)
    }
}

/// Replacing is splitting and joining again: replacing `pat` by `rep` in `s`
/// cuts `s` at every non-overlapping occurrence of `pat`, left to right (as
/// `str::split` does), and joins the pieces with `rep`. So a text with `k`
/// occurrences comes out with `k` copies of `rep` and no occurrence of `pat`
/// left between the pieces.
pub proof fn law_replace_is_split_then_join(s: Seq<char>, pat: Seq<char>, rep: Seq<char>)
    requires
        pat.len() > 0,
    ensures
        replace_all(s, pat, rep) == join_with(split_str_from(s, pat, 0), rep),
{
    lemma_replace_from_join(s, pat, rep, 0);
}

proof fn lemma_replace_from_join(s: Seq<char>, pat: Seq<char>, rep: Seq<char>, i: int)
    requires
        pat.len() > 0,
        0 <= i <= s.len(),
    ensures
        replace_from(s, i, pat, rep) == join_with(split_str_from(s, pat, i), rep),
    decreases s.len() - i,
{
    match find_sub_from(s, pat, i) {
        None => {},
        Some(j) => {
            lemma_find_sub_after(s, pat, i);
            lemma_replace_from_join(s, pat, rep, j + pat.len());
            let rest = split_str_from(s, pat, j + pat.len());
            lemma_split_nonempty(s, pat, j + pat.len());
            let ps = seq![s.subrange(i, j)] + rest;
            assert(ps.drop_first() =~= rest);
            assert(ps[0] == s.subrange(i, j));
        },
    }
}

proof fn lemma_split_nonempty(s: Seq<char>, pat: Seq<char>, i: int)
    ensures
        split_str_from(s, pat, i).len() >= 1,
    decreases s.len() + 1 - i,
{
    if !(i < 0 || i > s.len() || pat.len() == 0) {
        match find_sub_from(s, pat, i) {
            None => {},
            Some(j) => {
                lemma_find_sub_after(s, pat, i);
                lemma_split_nonempty(s, pat, j + pat.len());
            },
        }
    }
}

/// `str::replace`.
pub fn replace(s: &[char], pat: &[char], rep: &[char]) -> (r: Vec<char>)
    requires
        pat@.len() > 0,
    ensures
        r@ == replace_all(s@, pat@, rep@),
{
    let mut out: Vec<char> = Vec::new();
    let mut i: usize = 0;
    let n = s.len();
    assert(out@ + replace_from(s@, 0, pat@, rep@) =~= replace_all(s@, pat@, rep@));
    loop
        invariant
            n == s@.len(),
            i <= s@.len(),
            pat@.len() > 0,
            out@ + replace_from(s@, i as int, pat@, rep@) == replace_all(s@, pat@, rep@),
        decreases s@.len() + 1 - i,
    {
        match find_sub(s, pat, i) {
            None => {
                let tail = slice(s, i, s.len());
                extend(&mut out, tail.as_slice());
                return out;
            },
            Some(j) => {
                proof {
                    lemma_find_sub_after(s@, pat@, i as int);
                }
                assert(j + pat@.len() <= s@.len());
                let ghost before = out@;
                let mid = slice(s, i, j);
                extend(&mut out, mid.as_slice());
                extend(&mut out, rep);
                assert(before + replace_from(s@, i as int, pat@, rep@) =~= out@ + replace_from(s@, (j + pat@.len()) as int, pat@, rep@));
                i = j + pat.len();
            },
        }
    }
}

/// `KSYM("name")` at `i`: the index of its closing `)`.
pub open spec fn ksym_at(s: Seq<char>, i: int) -> Option<int> {
    if 0 <= i && i + 5 <= s.len() && s.subrange(i, i + 5) == "KSYM("@ {
        matching(s, i + 4, '(', ')')
    } else {
        None
    }
}

/// The text from `i` on with each `KSYM(arg)` replaced by
/// `kh_find_symbol(0, arg)` (the argument trimmed).
pub open spec fn ksym_from(s: Seq<char>, i: int) -> Seq<char>
    decreases s.len() - i,
{
    if i < 0 || i >= s.len() {
        Seq::empty()
    } else {
        match ksym_at(s, i) {
            Some(close) => {
                proof {
                    lemma_matching_after(s, i + 4, '(', ')');
                }
                "kh_find_symbol(0, "@ + trim(s.subrange(i + 5, close)) + ")"@ + ksym_from(s, close + 1)
            },
            None => seq![s[i]] + ksym_from(s, i + 1),
        }
    }
}

/// Whether every character copied unchanged from `i` on is ASCII: the
/// preprocessor copies byte by byte and cannot take any other character
/// outside a `KSYM` argument.
pub open spec fn ksym_ok(s: Seq<char>, i: int) -> bool
    decreases s.len() - i,
{
    if i < 0 || i >= s.len() {
        true
    } else {
        match ksym_at(s, i) {
            Some(close) => {
                proof {
                    lemma_matching_after(s, i + 4, '(', ')');
                }
                ksym_ok(s, close + 1)
            },
            None => (s[i] as u32) < 128 && ksym_ok(s, i + 1),
        }
    }
}

pub proof fn lemma_ascii_ksym_ok(s: Seq<char>, i: int)
    requires
        is_ascii_text(s),
    ensures
        ksym_ok(s, i),
    decreases s.len() - i,
{
    if 0 <= i < s.len() {
        lemma_matching_after(s, i + 4, '(', ')');
        match ksym_at(s, i) {
            Some(close) => lemma_ascii_ksym_ok(s, close + 1),
            None => lemma_ascii_ksym_ok(s, i + 1),
        }
    }
}

/// Whether `expand_ksym` and `preprocess` accept `input`: every character
/// outside a `KSYM(...)` argument is ASCII.
pub fn ksym_input_ok(input: &str) -> (b: bool)
    ensures
        b == ksym_ok(input@, 0),
{
    let s = chars_of(input);
    let pat = chars_of("KSYM(");
    proof {
        reveal_strlit("KSYM(");
    }
    let n = s.len();
    let mut i: usize = 0;
    while i < n
        invariant
            n == s@.len(),
            s@ == input@,
            i <= n,
            pat@ == "KSYM("@,
            pat@.len() == 5,
            pat@[4] == '(',
            ksym_ok(s@, 0) == ksym_ok(s@, i as int),
        decreases n - i,
    {
        let mut skipped = false;
        if occurs_at(s.as_slice(), i, pat.as_slice()) {
            assert(s@[i + 4] == s@.subrange(i as int, i + 5)[4]);
            match matching_delim(s.as_slice(), i + 4, '(', ')') {
                Some(close) => {
                    proof {
                        lemma_matching_after(s@, i + 4, '(', ')');
                    }
                    assert(ksym_at(s@, i as int) == Some(close as int));
                    i = close + 1;
                    skipped = true;
                },
                None => {},
            }
        }
        if !skipped {
            assert(ksym_at(s@, i as int) is None);
            if (s[i] as u32) >= 128 {
                return false;
            }
            i += 1;
        }
    }
    true
}

fn ksym_chars(s: &[char]) -> (r: Vec<char>)
    ensures
        r@ == ksym_from(s@, 0),
{
    let pat = chars_of("KSYM(");
    let head = chars_of("kh_find_symbol(0, ");
    proof {
        reveal_strlit("KSYM(");
    }
    let n = s.len();
    let mut out: Vec<char> = Vec::new();
    let mut i: usize = 0;
    while i < n
        invariant
            n == s@.len(),
            i <= n,
            pat@ == "KSYM("@,
            pat@.len() == 5,
            pat@[4] == '(',
            head@ == "kh_find_symbol(0, "@,
            out@ + ksym_from(s@, i as int) == ksym_from(s@, 0),
        decreases n - i,
    {
        let ghost before = out@;
        let mut expanded = false;
        if occurs_at(s, i, pat.as_slice()) {
            assert(s@[i + 4] == s@.subrange(i as int, i + 5)[4]);
            match matching_delim(s, i + 4, '(', ')') {
                Some(close) => {
                    proof {
                        lemma_matching_after(s@, i + 4, '(', ')');
                    }
                    let arg = slice(s, i + 5, close);
                    let arg = trim_chars(arg.as_slice());
                    extend(&mut out, head.as_slice());
                    extend(&mut out, arg.as_slice());
                    out.push(')');
                    proof {
                        reveal_strlit(")");
                    }
                    assert(ksym_at(s@, i as int) == Some(close as int));
                    assert(ksym_from(s@, i as int) == "kh_find_symbol(0, "@ + trim(s@.subrange(i + 5, close as int)) + ")"@
                        + ksym_from(s@, close + 1));
                    assert(out@ + ksym_from(s@, close + 1) =~= before + ksym_from(s@, i as int));
                    i = close + 1;
                    expanded = true;
                },
                None => {},
            }
        }
        if !expanded {
            out.push(s[i]);
            assert(out@ + ksym_from(s@, i + 1) =~= before + ksym_from(s@, i as int));
            i += 1;
        }
    }
    assert(ksym_from(s@, n as int) =~= Seq::<char>::empty());
    assert(out@ =~= ksym_from(s@, 0));
    out
}

/// Expands each `KSYM("name")` into `kh_find_symbol(0, "name")`.
pub fn expand_ksym(input: &str) -> (r: String)
    requires
        ksym_ok(input@, 0),
    ensures
        r@ == ksym_from(input@, 0),
{
    let s = chars_of(input);
    let out = ksym_chars(s.as_slice());
    string_of(out.as_slice())
}

/// The state of `split_top_level` from `i` on, and the parts it ends with.
pub open spec fn stl_from(
    s: Seq<char>,
    delim: char,
    i: int,
    depth: int,
    in_str: bool,
    cur: Seq<char>,
    parts: Seq<Seq<char>>,
) -> Seq<Seq<char>>
    decreases s.len() - i,
{
    if i < 0 || i >= s.len() {
        if trim(cur).len() > 0 { parts.push(cur) } else { parts }
    } else {
        let c = s[i];
        if c == '"' {
            stl_from(s, delim, i + 1, depth, !in_str, cur.push(c), parts)
        } else if (c == '(' || c == '[' || c == '{') && !in_str {
            stl_from(s, delim, i + 1, depth + 1, in_str, cur.push(c), parts)
        } else if (c == ')' || c == ']' || c == '}') && !in_str {
            stl_from(s, delim, i + 1, depth - 1, in_str, cur.push(c), parts)
        } else if c == delim && depth == 0 && !in_str {
            stl_from(s, delim, i + 1, depth, in_str, Seq::empty(), parts.push(cur))
        } else {
            stl_from(s, delim, i + 1, depth, in_str, cur.push(c), parts)
        }
    }
}

/// The parts of `s` between `delim`s at the top nesting level (outside
/// brackets and string literals); a final blank part is dropped.
pub open spec fn split_top(s: Seq<char>, delim: char) -> Seq<Seq<char>> {
    stl_from(s, delim, 0, 0, false, Seq::empty(), Seq::empty())
}

pub open spec fn views(v: Seq<Vec<char>>) -> Seq<Seq<char>> {
    v.map_values(|x: Vec<char>| x@)
}

/// Splits on `delim` at the top nesting level.
pub fn split_top_level(input: &[char], delim: char) -> (parts: Vec<Vec<char>>)
    ensures
        views(parts@) == split_top(input@, delim),
{
    let n = input.len();
    let mut parts: Vec<Vec<char>> = Vec::new();
    let mut depth: i128 = 0;
    let mut in_str = false;
    let mut cur: Vec<char> = Vec::new();
    let mut i: usize = 0;
    assert(views(parts@) =~= Seq::<Seq<char>>::empty());
    while i < n
        invariant
            n == input@.len(),
            i <= n,
            -(i as int) <= depth <= i,
            split_top(input@, delim) == stl_from(input@, delim, i as int, depth as int, in_str, cur@, views(parts@)),
        decreases n - i,
    {
        let c = input[i];
        if c == '"' {
            in_str = !in_str;
            cur.push(c);
        } else if (c == '(' || c == '[' || c == '{') && !in_str {
            depth += 1;
            cur.push(c);
        } else if (c == ')' || c == ']' || c == '}') && !in_str {
            depth -= 1;
            cur.push(c);
        } else if c == delim && depth == 0 && !in_str {
            let ghost pv = views(parts@);
            let mut fresh: Vec<char> = Vec::new();
            std::mem::swap(&mut fresh, &mut cur);
            parts.push(fresh);
            assert(views(parts@) =~= pv.push(fresh@));
        } else {
            cur.push(c);
        }
        i += 1;
    }
    let t = trim_chars(cur.as_slice());
    if t.len() > 0 {
        let ghost pv = views(parts@);
        parts.push(cur);
        assert(views(parts@) =~= pv.push(cur@));
    }
    parts
}

pub open spec fn is_ident_char(c: char) -> bool {
    ('0' <= c <= '9') || ('a' <= c <= 'z') || ('A' <= c <= 'Z') || c == '_'
}

/// The last index below `k` holding an identifier character.
pub open spec fn last_ident(p: Seq<char>, k: int) -> Option<int>
    decreases k,
{
    if k <= 0 {
        None
    } else if is_ident_char(p[k - 1]) {
        Some(k - 1)
    } else {
        last_ident(p, k - 1)
    }
}

/// The last index below `k` holding a character that is no identifier
/// character.
pub open spec fn last_non_ident(p: Seq<char>, k: int) -> Option<int>
    decreases k,
{
    if k <= 0 {
        None
    } else if !is_ident_char(p[k - 1]) {
        Some(k - 1)
    } else {
        last_non_ident(p, k - 1)
    }
}

/// `const char *path` as (`const char *`, `path`): the name is the last
/// identifier, the type what precedes it; nothing for `void`, a blank
/// parameter, or a parameter without a type.
pub open spec fn split_param_spec(param: Seq<char>) -> Option<(Seq<char>, Seq<char>)> {
    let p = trim(param);
    if p.len() == 0 || p == "void"@ {
        None
    } else {
        match last_ident(p, p.len() as int) {
            None => None,
            Some(end) => {
                let start = match last_non_ident(p, end + 1) {
                    Some(j) => j + 1,
                    None => 0,
                };
                let ty = trim(p.subrange(0, start));
                if ty.len() == 0 { None } else { Some((ty, p.subrange(start, end + 1))) }
            },
        }
    }
}

fn ident_char(c: char) -> (b: bool)
    ensures
        b == is_ident_char(c),
{
    ('0' <= c && c <= '9') || ('a' <= c && c <= 'z') || ('A' <= c && c <= 'Z') || c == '_'
}

proof fn lemma_last_ident_bound(p: Seq<char>, k: int)
    ensures
        last_ident(p, k) matches Some(j) ==> 0 <= j < k && is_ident_char(p[j]),
        last_non_ident(p, k) matches Some(j) ==> 0 <= j < k,
    decreases k,
{
    if k > 0 {
        lemma_last_ident_bound(p, k - 1);
    }
}

/// Splits a parameter declaration into its type and name.
pub fn split_param_chars(param: &[char]) -> (r: Option<(Vec<char>, Vec<char>)>)
    ensures
        match split_param_spec(param@) {
            Some((ty, name)) => r matches Some((t, n)) && t@ == ty && n@ == name,
            None => r is None,
        },
{
    let p = trim_chars(param);
    let void = chars_of("void");
    proof {
        reveal_strlit("void");
    }
    if p.len() == 0 || (p.len() == 4 && occurs_at(p.as_slice(), 0, void.as_slice())) {
        proof {
            if p@.len() == 4 && p@.subrange(0, 4) == "void"@ {
                assert(p@ =~= p@.subrange(0, 4));
            }
        }
        return None;
    }
    proof {
        if p@ == "void"@ {
            assert(p@.subrange(0, 4) =~= p@);
        }
    }
    let mut k = p.len();
    while k > 0 && !ident_char(p[k - 1])
        invariant
            k <= p@.len(),
            last_ident(p@, p@.len() as int) == last_ident(p@, k as int),
        decreases k,
    {
        k -= 1;
    }
    if k == 0 {
        return None;
    }
    let end = k - 1;
    let mut j = end + 1;
    while j > 0 && ident_char(p[j - 1])
        invariant
            j <= end + 1,
            end < p@.len(),
            last_non_ident(p@, end + 1) == last_non_ident(p@, j as int),
        decreases j,
    {
        j -= 1;
    }
    let start = j;
    let ty = slice(p.as_slice(), 0, start);
    let ty = trim_chars(ty.as_slice());
    if ty.len() == 0 {
        return None;
    }
    let name = slice(p.as_slice(), start, end + 1);
    Some((ty, name))
}

/// Splits `const char *path` into ("const char *", "path").
pub fn split_param(param: &str) -> (r: Option<(String, String)>)
    ensures
        match split_param_spec(param@) {
            Some((ty, name)) => r matches Some((t, n)) && t@ == ty && n@ == name,
            None => r is None,
        },
{
    let v = chars_of(param);
    match split_param_chars(v.as_slice()) {
        Some((t, n)) => Some((string_of(t.as_slice()), string_of(n.as_slice()))),
        None => None,
    }
}

pub open spec fn digit_char(d: nat) -> char {
    ((d + 48) as u8) as char
}

/// `n` in decimal.
pub open spec fn dec(n: nat) -> Seq<char>
    decreases n,
{
    if n < 10 {
        seq![digit_char(n)]
    } else {
        dec(n / 10).push(digit_char(n % 10))
    }
}

fn push_dec(out: &mut Vec<char>, n: usize)
    ensures
        final(out)@ == old(out)@ + dec(n as nat),
    decreases n,
{
    if n >= 10 {
        push_dec(out, n / 10);
    }
    let d = n % 10;
    let c: char = ((d + 48) as u8) as char;
    out.push(c);
    assert(final(out)@ =~= old(out)@ + dec(n as nat)) by {
        if n >= 10 {
            assert(old(out)@ + dec((n / 10) as nat) + seq![c] =~= old(out)@ + dec((n / 10) as nat).push(c));
        }
    }
}

/// The parameters among `parts`, as (type, name); parts that declare none
/// are skipped.
pub open spec fn params_of(parts: Seq<Seq<char>>) -> Seq<(Seq<char>, Seq<char>)>
    decreases parts.len(),
{
    if parts.len() == 0 {
        Seq::empty()
    } else {
        let rest = params_of(parts.drop_last());
        match split_param_spec(trim(parts.last())) {
            Some(p) => rest.push(p),
            None => rest,
        }
    }
}

/// `items` joined with `sep` between them.
pub open spec fn join(items: Seq<Seq<char>>, sep: Seq<char>) -> Seq<char>
    decreases items.len(),
{
    if items.len() == 0 {
        Seq::empty()
    } else if items.len() == 1 {
        items[0]
    } else {
        join(items.drop_last(), sep) + sep + items.last()
    }
}

pub open spec fn or_void(s: Seq<char>) -> Seq<char> {
    if s.len() == 0 { "void"@ } else { s }
}

pub open spec fn types_of(ps: Seq<(Seq<char>, Seq<char>)>) -> Seq<Seq<char>> {
    ps.map_values(|p: (Seq<char>, Seq<char>)| p.0)
}

pub open spec fn decls_of(ps: Seq<(Seq<char>, Seq<char>)>) -> Seq<Seq<char>> {
    ps.map_values(|p: (Seq<char>, Seq<char>)| p.0 + " "@ + p.1)
}

pub open spec fn names_of(ps: Seq<(Seq<char>, Seq<char>)>) -> Seq<Seq<char>> {
    ps.map_values(|p: (Seq<char>, Seq<char>)| p.1)
}

/// The code for the `n`th `%hookf`: the original-function pointer, the hook
/// (its body with `%orig` calling the original with the hook's arguments),
/// and a constructor that installs the hook on the target.
pub open spec fn emit_spec(n: nat, sig: Seq<char>, body: Seq<char>) -> Seq<char> {
    let parts = split_top(sig, ',');
    if parts.len() < 2 {
        "/* ksub-logos: malformed %hookf signature: "@ + sig + " */"@
    } else {
        let ret = trim(parts[0]);
        let target = trim(parts[1]);
        let ps = params_of(parts.subrange(2, parts.len() as int));
        let k = dec(n);
        let orig_call = "ksub_orig_"@ + k + "("@ + join(names_of(ps), ", "@) + ")"@;
        let b = replace_all(body, "%orig"@, orig_call);
        "static "@ + ret + " (*ksub_orig_"@ + k + ")("@ + or_void(join(types_of(ps), ", "@)) + ");\n"@ + "static "@ + ret
            + " ksub_hook_"@ + k + "("@ + or_void(join(decls_of(ps), ", "@)) + ") {"@ + b + "}\n"@
            + "__attribute__((constructor)) static void ksub_ctor_"@ + k + "(void) {\n"@ + "void *ksub_target_"@ + k
            + " = (void *)("@ + target + ");\n"@ + "kh_hook_function(ksub_target_"@ + k + ", (void *)ksub_hook_"@ + k
            + ", (void **)&ksub_orig_"@ + k + ");\n"@ + "}\n"@
    }
}

fn push_lit(out: &mut Vec<char>, t: &str)
    ensures
        final(out)@ == old(out)@ + t@,
{
    let v = chars_of(t);
    extend(out, v.as_slice());
}

fn join_vecs(items: &Vec<Vec<char>>, sep: &str) -> (r: Vec<char>)
    ensures
        r@ == join(views(items@), sep@),
{
    let mut r: Vec<char> = Vec::new();
    let mut i: usize = 0;
    while i < items.len()
        invariant
            i <= items@.len(),
            r@ == join(views(items@).subrange(0, i as int), sep@),
        decreases items@.len() - i,
    {
        let ghost before = r@;
        if i > 0 {
            push_lit(&mut r, sep);
        }
        extend(&mut r, items[i].as_slice());
        let ghost sub = views(items@).subrange(0, i + 1);
        assert(sub.drop_last() =~= views(items@).subrange(0, i as int));
        if i == 0 {
            assert(r@ =~= join(sub, sep@));
        } else {
            assert(r@ =~= join(sub, sep@));
        }
        i += 1;
    }
    assert(views(items@).subrange(0, items@.len() as int) =~= views(items@));
    r
}

/// Emits the code for the `n`th `%hookf`.
pub fn emit_hookf(n: usize, signature: &[char], body: &[char]) -> (r: Vec<char>)
    ensures
        r@ == emit_spec(n as nat, signature@, body@),
{
    let parts = split_top_level(signature, ',');
    let mut out: Vec<char> = Vec::new();
    if parts.len() < 2 {
        push_lit(&mut out, "/* ksub-logos: malformed %hookf signature: ");
        extend(&mut out, signature);
        push_lit(&mut out, " */");
        return out;
    }
    let ghost pv = views(parts@);
    let ret = trim_chars(parts[0].as_slice());
    let target = trim_chars(parts[1].as_slice());
    let mut types: Vec<Vec<char>> = Vec::new();
    let mut decls: Vec<Vec<char>> = Vec::new();
    let mut names: Vec<Vec<char>> = Vec::new();
    let ghost mut ps: Seq<(Seq<char>, Seq<char>)> = Seq::empty();
    let mut i: usize = 2;
    assert(pv.subrange(2, 2) =~= Seq::<Seq<char>>::empty());
    while i < parts.len()
        invariant
            2 <= i <= parts@.len(),
            pv == views(parts@),
            ps == params_of(pv.subrange(2, i as int)),
            views(types@) == types_of(ps),
            views(decls@) == decls_of(ps),
            views(names@) == names_of(ps),
        decreases parts@.len() - i,
    {
        let t = trim_chars(parts[i].as_slice());
        assert(pv.subrange(2, i + 1).drop_last() =~= pv.subrange(2, i as int));
        match split_param_chars(t.as_slice()) {
            Some((ty, name)) => {
                let mut d = ty.clone();
                proof {
                    assert(d@ == ty@);
                }
                d.push(' ');
                extend(&mut d, name.as_slice());
                proof {
                    reveal_strlit(" ");
                }
                let ghost p = (ty@, name@);
                let ghost dval = d@;
                let ghost old_ps = ps;
                let ghost tv = views(types@);
                let ghost dv = views(decls@);
                let ghost nv = views(names@);
                types.push(ty);
                decls.push(d);
                names.push(name);
                assert(views(types@) =~= tv.push(p.0));
                assert(views(decls@) =~= dv.push(dval));
                assert(views(names@) =~= nv.push(p.1));
                proof {
                    ps = ps.push(p);
                    assert(dval == p.0 + " "@ + p.1);
                    assert forall|k: int| 0 <= k < ps.len() implies views(types@)[k] == types_of(ps)[k] by {
                        if k < old_ps.len() {
                            assert(tv[k] == types_of(old_ps)[k]);
                        }
                    }
                    assert forall|k: int| 0 <= k < ps.len() implies views(decls@)[k] == decls_of(ps)[k] by {
                        if k < old_ps.len() {
                            assert(dv[k] == decls_of(old_ps)[k]);
                        }
                    }
                    assert forall|k: int| 0 <= k < ps.len() implies views(names@)[k] == names_of(ps)[k] by {
                        if k < old_ps.len() {
                            assert(nv[k] == names_of(old_ps)[k]);
                        }
                    }
                }
                assert(views(types@) =~= types_of(ps));
                assert(views(decls@) =~= decls_of(ps));
                assert(views(names@) =~= names_of(ps));
            },
            None => {},
        }
        i += 1;
    }
    assert(pv.subrange(2, pv.len() as int) == pv.subrange(2, i as int));
    let types = join_vecs(&types, ", ");
    let decls = join_vecs(&decls, ", ");
    let args = join_vecs(&names, ", ");
    let mut orig_call: Vec<char> = Vec::new();
    push_lit(&mut orig_call, "ksub_orig_");
    push_dec(&mut orig_call, n);
    push_lit(&mut orig_call, "(");
    extend(&mut orig_call, args.as_slice());
    push_lit(&mut orig_call, ")");
    let pat = chars_of("%orig");
    proof {
        reveal_strlit("%orig");
    }
    let b = replace(body, pat.as_slice(), orig_call.as_slice());
    push_lit(&mut out, "static ");
    extend(&mut out, ret.as_slice());
    push_lit(&mut out, " (*ksub_orig_");
    push_dec(&mut out, n);
    push_lit(&mut out, ")(");
    if types.len() == 0 {
        push_lit(&mut out, "void");
    } else {
        extend(&mut out, types.as_slice());
    }
    push_lit(&mut out, ");\n");
    push_lit(&mut out, "static ");
    extend(&mut out, ret.as_slice());
    push_lit(&mut out, " ksub_hook_");
    push_dec(&mut out, n);
    push_lit(&mut out, "(");
    if decls.len() == 0 {
        push_lit(&mut out, "void");
    } else {
        extend(&mut out, decls.as_slice());
    }
    push_lit(&mut out, ") {");
    extend(&mut out, b.as_slice());
    push_lit(&mut out, "}\n");
    push_lit(&mut out, "__attribute__((constructor)) static void ksub_ctor_");
    push_dec(&mut out, n);
    push_lit(&mut out, "(void) {\n");
    push_lit(&mut out, "void *ksub_target_");
    push_dec(&mut out, n);
    push_lit(&mut out, " = (void *)(");
    extend(&mut out, target.as_slice());
    push_lit(&mut out, ");\n");
    push_lit(&mut out, "kh_hook_function(ksub_target_");
    push_dec(&mut out, n);
    push_lit(&mut out, ", (void *)ksub_hook_");
    push_dec(&mut out, n);
    push_lit(&mut out, ", (void **)&ksub_orig_");
    push_dec(&mut out, n);
    push_lit(&mut out, ");\n");
    push_lit(&mut out, "}\n");
    assert(out@ =~= emit_spec(n as nat, signature@, body@));
    out
}

/// The text from `i` on with each complete `%hookf(...) { ... }` replaced
/// by its generated code; `n` hooks were emitted before `i`. A `%hookf`
/// without a `(`, or whose signature has no body after it, is kept as it
/// is; an unclosed signature or body ends the expansion there.
pub open spec fn hookf_from(s: Seq<char>, i: int, n: nat) -> Seq<char>
    decreases s.len() - i,
{
    if i < 0 || i > s.len() {
        Seq::empty()
    } else {
        match find_sub_from(s, "%hookf"@, i) {
            None => s.subrange(i, s.len() as int),
            Some(pos) => {
                proof {
                    lemma_find_sub_after(s, "%hookf"@, i);
                    reveal_strlit("%hookf");
                }
                let a = pos + 6;
                match find_char_from(s, '(', a) {
                    None => s.subrange(i, a) + hookf_from(s, a, n),
                    Some(op) => {
                        proof {
                            lemma_find_char_after(s, '(', a);
                        }
                        match matching(s, op, '(', ')') {
                            None => s.subrange(i, s.len() as int),
                            Some(sc) => {
                                proof {
                                    lemma_matching_after(s, op, '(', ')');
                                }
                                match find_char_from(s, '{', sc + 1) {
                                    None => s.subrange(i, sc + 1) + hookf_from(s, sc + 1, n),
                                    Some(bo) => {
                                        proof {
                                            lemma_find_char_after(s, '{', sc + 1);
                                        }
                                        match matching(s, bo, '{', '}') {
                                            None => s.subrange(i, s.len() as int),
                                            Some(bc) => {
                                                proof {
                                                    lemma_matching_after(s, bo, '{', '}');
                                                }
                                                s.subrange(i, pos) + emit_spec(
                                                    n + 1,
                                                    s.subrange(op + 1, sc),
                                                    s.subrange(bo + 1, bc),
                                                ) + hookf_from(s, bc + 1, n + 1)
                                            },
                                        }
                                    },
                                }
                            },
                        }
                    },
                }
            },
        }
    }
}

fn hookf_chars(s: &[char]) -> (r: Vec<char>)
    ensures
        r@ == hookf_from(s@, 0, 0),
{
    let pat = chars_of("%hookf");
    proof {
        reveal_strlit("%hookf");
    }
    let len = s.len();
    let mut out: Vec<char> = Vec::new();
    let mut i: usize = 0;
    let mut n: usize = 0;
    assert(out@ + hookf_from(s@, 0, 0) =~= hookf_from(s@, 0, 0));
    loop
        invariant
            len == s@.len(),
            i <= len,
            n <= i,
            pat@ == "%hookf"@,
            pat@.len() == 6,
            out@ + hookf_from(s@, i as int, n as nat) == hookf_from(s@, 0, 0),
        decreases len - i,
    {
        let ghost before = out@;
        match find_sub(s, pat.as_slice(), i) {
            None => {
                let tail = slice(s, i, len);
                extend(&mut out, tail.as_slice());
                return out;
            },
            Some(pos) => {
                proof {
                    lemma_find_sub_after(s@, pat@, i as int);
                }
                let a = pos + 6;
                match find_char_at(s, '(', a) {
                    None => {
                        let seg = slice(s, i, a);
                        extend(&mut out, seg.as_slice());
                        assert(out@ + hookf_from(s@, a as int, n as nat) =~= before + hookf_from(s@, i as int, n as nat));
                        i = a;
                    },
                    Some(op) => {
                        proof {
                            lemma_find_char_after(s@, '(', a as int);
                        }
                        match matching_delim(s, op, '(', ')') {
                            None => {
                                let tail = slice(s, i, len);
                                extend(&mut out, tail.as_slice());
                                return out;
                            },
                            Some(sc) => {
                                proof {
                                    lemma_matching_after(s@, op as int, '(', ')');
                                }
                                match find_char_at(s, '{', sc + 1) {
                                    None => {
                                        let seg = slice(s, i, sc + 1);
                                        extend(&mut out, seg.as_slice());
                                        assert(out@ + hookf_from(s@, sc + 1, n as nat) =~= before + hookf_from(
                                            s@,
                                            i as int,
                                            n as nat,
                                        ));
                                        i = sc + 1;
                                    },
                                    Some(bo) => {
                                        proof {
                                            lemma_find_char_after(s@, '{', sc + 1);
                                        }
                                        match matching_delim(s, bo, '{', '}') {
                                            None => {
                                                let tail = slice(s, i, len);
                                                extend(&mut out, tail.as_slice());
                                                return out;
                                            },
                                            Some(bc) => {
                                                proof {
                                                    lemma_matching_after(s@, bo as int, '{', '}');
                                                }
                                                let seg = slice(s, i, pos);
                                                extend(&mut out, seg.as_slice());
                                                let sig = slice(s, op + 1, sc);
                                                let body = slice(s, bo + 1, bc);
                                                let code = emit_hookf(n + 1, sig.as_slice(), body.as_slice());
                                                extend(&mut out, code.as_slice());
                                                assert(out@ + hookf_from(s@, bc + 1, (n + 1) as nat) =~= before
                                                    + hookf_from(s@, i as int, n as nat));
                                                i = bc + 1;
                                                n = n + 1;
                                            },
                                        }
                                    },
                                }
                            },
                        }
                    },
                }
            },
        }
    }
}

/// Expands each `%hookf(ret, target, params...) { body }`.
pub fn expand_hookf(input: &str) -> (r: String)
    ensures
        r@ == hookf_from(input@, 0, 0),
{
    let s = chars_of(input);
    let out = hookf_chars(s.as_slice());
    string_of(out.as_slice())
}

/// One output line: `%ctor` and `%init` replaced by the constructor
/// scaffolding.
pub open spec fn scaffold_line(l: Seq<char>) -> Seq<char> {
    replace_all(
        replace_all(l, "%ctor"@, "__attribute__((constructor)) static void ksubstrate_tweak_ctor(void)"@),
        "%init"@,
        "/* ksub-logos init */"@,
    )
}

pub open spec fn scaffold_lines(ls: Seq<Seq<char>>) -> Seq<char>
    decreases ls.len(),
{
    if ls.len() == 0 {
        Seq::empty()
    } else {
        scaffold_lines(ls.drop_last()) + scaffold_line(ls.last()) + "\n"@
    }
}

/// The preprocessed tweak source: the Substrate include, then each line of
/// the `KSYM`- and `%hookf`-expanded input with its scaffolding, each ended
/// by a newline.
pub open spec fn preprocess_spec(input: Seq<char>) -> Seq<char> {
    "#include <ksubstrate.h>\n"@ + scaffold_lines(lines(hookf_from(ksym_from(input, 0), 0, 0)))
}

/// Preprocesses a tweak source.
pub fn preprocess(input: &str) -> (r: String)
    requires
        ksym_ok(input@, 0),
    ensures
        r@ == preprocess_spec(input@),
{
    let s = chars_of(input);
    let k = ksym_chars(s.as_slice());
    let h = hookf_chars(k.as_slice());
    let ls = lines_of(h.as_slice());
    let ctor = chars_of("%ctor");
    let init = chars_of("%init");
    let ctor_rep = chars_of("__attribute__((constructor)) static void ksubstrate_tweak_ctor(void)");
    let init_rep = chars_of("/* ksub-logos init */");
    proof {
        reveal_strlit("%ctor");
        reveal_strlit("%init");
    }
    let mut out: Vec<char> = Vec::new();
    push_lit(&mut out, "#include <ksubstrate.h>\n");
    let ghost head = out@;
    let ghost lv = views(ls@);
    assert(lv == lines(h@));
    let mut i: usize = 0;
    assert(lv.subrange(0, 0) =~= Seq::<Seq<char>>::empty());
    while i < ls.len()
        invariant
            i <= ls@.len(),
            lv == views(ls@),
            ctor@ == "%ctor"@,
            ctor@.len() == 5,
            init@ == "%init"@,
            init@.len() == 5,
            ctor_rep@ == "__attribute__((constructor)) static void ksubstrate_tweak_ctor(void)"@,
            init_rep@ == "/* ksub-logos init */"@,
            out@ == head + scaffold_lines(lv.subrange(0, i as int)),
        decreases ls@.len() - i,
    {
        let a = replace(ls[i].as_slice(), ctor.as_slice(), ctor_rep.as_slice());
        let b = replace(a.as_slice(), init.as_slice(), init_rep.as_slice());
        extend(&mut out, b.as_slice());
        out.push('\n');
        proof {
            reveal_strlit("\n");
        }
        assert(lv.subrange(0, i + 1).drop_last() =~= lv.subrange(0, i as int));
        assert(out@ =~= head + scaffold_lines(lv.subrange(0, i + 1)));
        i += 1;
    }
    assert(lv.subrange(0, lv.len() as int) =~= lv);
    string_of(out.as_slice())
}

} // verus!
