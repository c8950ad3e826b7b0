//! Character-level text handling shared by the parsers: lines, trimming,
//! prefixes, splitting at a character, and integer parsing, each stated over
//! `Seq<char>` with the meaning Rust's `str` gives it.

use vstd::prelude::*;
use vstd::string::StrSliceExecFns;

verus! {

/// Unicode `White_Space`, as `char::is_whitespace` tests it.
pub open spec fn is_ws(c: char) -> bool {
    ||| '\t' <= c <= '\r'
    ||| c == ' '
    ||| c == '\u{85}'
    ||| c == '\u{a0}'
    ||| c == '\u{1680}'
    ||| '\u{2000}' <= c <= '\u{200a}'
    ||| c == '\u{2028}'
    ||| c == '\u{2029}'
    ||| c == '\u{202f}'
    ||| c == '\u{205f}'
    ||| c == '\u{3000}'
}

pub fn is_whitespace(c: char) -> (b: bool)
    ensures
        b == is_ws(c),
{
    ('\t' <= c && c <= '\r') || c == ' ' || c == '\u{85}' || c == '\u{a0}' || c == '\u{1680}' || ('\u{2000}' <= c
        && c <= '\u{200a}') || c == '\u{2028}' || c == '\u{2029}' || c == '\u{202f}' || c == '\u{205f}' || c
        == '\u{3000}'
}

pub open spec fn trim_start(s: Seq<char>) -> Seq<char>
    decreases s.len(),
{
    if s.len() > 0 && is_ws(s[0]) {
        trim_start(s.drop_first())
    } else {
        s
    }
}

pub open spec fn trim_end(s: Seq<char>) -> Seq<char>
    decreases s.len(),
{
    if s.len() > 0 && is_ws(s.last()) {
        trim_end(s.drop_last())
    } else {
        s
    }
}

/// `str::trim`: without leading and trailing whitespace.
pub open spec fn trim(s: Seq<char>) -> Seq<char> {
    trim_end(trim_start(s))
}

pub open spec fn starts_with(s: Seq<char>, p: Seq<char>) -> bool {
    p.len() <= s.len() && s.subrange(0, p.len() as int) == p
}

pub open spec fn ends_with(s: Seq<char>, p: Seq<char>) -> bool {
    p.len() <= s.len() && s.subrange(s.len() - p.len(), s.len() as int) == p
}

/// What follows the prefix `p` of `s`.
pub open spec fn after(s: Seq<char>, p: Seq<char>) -> Seq<char> {
    s.subrange(p.len() as int, s.len() as int)
}

/// Index of the first `c` in `s`, if any.
pub open spec fn find_char(s: Seq<char>, c: char) -> Option<int>
    decreases s.len(),
{
    if s.len() == 0 {
        None
    } else {
        match find_char(s.drop_last(), c) {
            Some(i) => Some(i),
            None => if s.last() == c { Some(s.len() - 1) } else { None },
        }
    }
}

/// `str::split_once(c)`: the parts before and after the first `c`.
pub open spec fn split_once(s: Seq<char>, c: char) -> Option<(Seq<char>, Seq<char>)> {
    match find_char(s, c) {
        Some(i) => Some((s.subrange(0, i), s.subrange(i + 1, s.len() as int))),
        None => None,
    }
}

/// The pieces of `s` between occurrences of `c` (`str::split`): one more
/// piece than there are separators.
pub open spec fn split_on(s: Seq<char>, c: char) -> Seq<Seq<char>>
    decreases s.len(),
{
    if s.len() == 0 {
        seq![Seq::empty()]
    } else {
        let p = split_on(s.drop_last(), c);
        if s.last() == c {
            p.push(Seq::empty())
        } else {
            p.update(p.len() - 1, p.last().push(s.last()))
        }
    }
}

pub open spec fn strip_cr(l: Seq<char>) -> Seq<char> {
    if l.len() > 0 && l.last() == '\r' { l.drop_last() } else { l }
}

/// `str::lines`: the pieces between `\n`s, each ended one without a
/// trailing `\r`; a final empty piece is no line.
pub open spec fn lines(s: Seq<char>) -> Seq<Seq<char>> {
    let p = split_on(s, '\n');
    let body = p.drop_last().map_values(|l: Seq<char>| strip_cr(l));
    if p.last().len() == 0 { body } else { body.push(p.last()) }
}

/// Whether `s` is the string `lit`.
pub open spec fn is(s: Seq<char>, lit: &str) -> bool {
    s == lit@
}

pub proof fn lemma_split_on_len(s: Seq<char>, c: char)
    ensures
        split_on(s, c).len() >= 1,
    decreases s.len(),
{
    if s.len() > 0 {
        lemma_split_on_len(s.drop_last(), c);
    }
}

/// Whether two strings are equal, character by character.
pub fn str_eq(a: &str, b: &str) -> (r: bool)
    ensures
        r == (a@ == b@),
{
    let n = a.unicode_len();
    if n != b.unicode_len() {
        return false;
    }
    let mut i: usize = 0;
    while i < n
        invariant
            n == a@.len() == b@.len(),
            i <= n,
            forall|k: int| 0 <= k < i ==> a@[k] == b@[k],
        decreases n - i,
    {
        if a.get_char(i) != b.get_char(i) {
            return false;
        }
        i += 1;
    }
    assert(a@ =~= b@);
    true
}

/// The characters of `s`.
pub fn chars_of(s: &str) -> (v: Vec<char>)
    ensures
        v@ == s@,
{
    let n = s.unicode_len();
    let mut v: Vec<char> = Vec::new();
    let mut i: usize = 0;
    while i < n
        invariant
            n == s@.len(),
            i <= n,
            v@ == s@.subrange(0, i as int),
        decreases n - i,
    {
        v.push(s.get_char(i));
        i += 1;
        assert(v@ =~= s@.subrange(0, i as int));
    }
    assert(s@.subrange(0, n as int) =~= s@);
    v
}

/// Appends one character to `s` (`String::push`).
#[verifier::external_body]
pub(crate) fn push_char(s: &mut String, c: char)
    ensures
        final(s)@ == old(s)@.push(c),
{
    s.push(c);
}

/// Appends the characters of `t`.
pub fn push_chars(s: &mut String, t: &[char])
    ensures
        final(s)@ == old(s)@ + t@,
{
    let mut i: usize = 0;
    while i < t.len()
        invariant
            i <= t@.len(),
            s@ == old(s)@ + t@.subrange(0, i as int),
        decreases t@.len() - i,
    {
        push_char(s, t[i]);
        i += 1;
        assert(s@ =~= old(s)@ + t@.subrange(0, i as int));
    }
    assert(t@.subrange(0, t@.len() as int) =~= t@);
}

/// Appends the characters of `t`.
pub fn push_str(s: &mut String, t: &str)
    ensures
        final(s)@ == old(s)@ + t@,
{
    let v = chars_of(t);
    push_chars(s, v.as_slice());
}

/// A string of the characters `v`.
pub fn string_of(v: &[char]) -> (s: String)
    ensures
        s@ == v@,
{
    let mut s = String::new();
    push_chars(&mut s, v);
    assert(s@ =~= v@);
    s
}

/// The characters `from..to` of `s`.
pub fn slice(s: &[char], from: usize, to: usize) -> (r: Vec<char>)
    requires
        from <= to <= s@.len(),
    ensures
        r@ == s@.subrange(from as int, to as int),
{
    let mut r: Vec<char> = Vec::new();
    let mut i = from;
    while i < to
        invariant
            from <= i <= to <= s@.len(),
            r@ == s@.subrange(from as int, i as int),
        decreases to - i,
    {
        r.push(s[i]);
        i += 1;
        assert(r@ =~= s@.subrange(from as int, i as int));
    }
    r
}

/// Whether `s` starts with the characters of `p`.
pub fn has_prefix(s: &[char], p: &str) -> (b: bool)
    ensures
        b == starts_with(s@, p@),
{
    let n = p.unicode_len();
    if n > s.len() {
        return false;
    }
    let mut i: usize = 0;
    while i < n
        invariant
            n == p@.len() <= s@.len(),
            i <= n,
            forall|k: int| 0 <= k < i ==> s@[k] == p@[k],
        decreases n - i,
    {
        if s[i] != p.get_char(i) {
            assert(s@.subrange(0, n as int)[i as int] != p@[i as int]);
            return false;
        }
        i += 1;
    }
    assert(s@.subrange(0, n as int) =~= p@);
    true
}

/// Whether `s` is exactly the characters of `p`.
pub fn equals(s: &[char], p: &str) -> (b: bool)
    ensures
        b == (s@ == p@),
{
    let r = s.len() == p.unicode_len() && has_prefix(s, p);
    proof {
        if r {
            assert(s@.subrange(0, s@.len() as int) =~= s@);
        }
        if s@ == p@ {
            assert(s@.subrange(0, p@.len() as int) =~= p@);
        }
    }
    r
}

/// What follows the prefix `p`, which `s` starts with.
pub fn strip_prefix(s: &[char], p: &str) -> (r: Vec<char>)
    requires
        starts_with(s@, p@),
    ensures
        r@ == after(s@, p@),
{
    slice(s, p.unicode_len(), s.len())
}

proof fn lemma_trim_start_at(s: Seq<char>, i: int)
    requires
        0 <= i <= s.len(),
        forall|k: int| 0 <= k < i ==> is_ws(s[k]),
        i < s.len() ==> !is_ws(s[i]),
    ensures
        trim_start(s) == s.subrange(i, s.len() as int),
    decreases i,
{
    if i == 0 {
        assert(s.subrange(0, s.len() as int) =~= s);
    } else {
        let d = s.drop_first();
        assert forall|k: int| 0 <= k < i - 1 implies is_ws(d[k]) by {
            assert(d[k] == s[k + 1]);
        }
        if i < s.len() {
            assert(d[i - 1] == s[i]);
        }
        lemma_trim_start_at(d, i - 1);
        assert(d.subrange(i - 1, d.len() as int) =~= s.subrange(i, s.len() as int));
    }
}

proof fn lemma_trim_end_at(s: Seq<char>, j: int)
    requires
        0 <= j <= s.len(),
        forall|k: int| j <= k < s.len() ==> is_ws(s[k]),
        j > 0 ==> !is_ws(s[j - 1]),
    ensures
        trim_end(s) == s.subrange(0, j),
    decreases s.len() - j,
{
    if j == s.len() {
        assert(s.subrange(0, j) =~= s);
    } else {
        let d = s.drop_last();
        assert forall|k: int| j <= k < d.len() implies is_ws(d[k]) by {
            assert(d[k] == s[k]);
        }
        if j > 0 {
            assert(d[j - 1] == s[j - 1]);
        }
        lemma_trim_end_at(d, j);
        assert(d.subrange(0, j) =~= s.subrange(0, j));
    }
}

/// `str::trim`.
pub fn trim_chars(s: &[char]) -> (r: Vec<char>)
    ensures
        r@ == trim(s@),
{
    let n = s.len();
    let mut i: usize = 0;
    while i < n && is_whitespace(s[i])
        invariant
            i <= n == s@.len(),
            forall|k: int| 0 <= k < i ==> is_ws(s@[k]),
        decreases n - i,
    {
        i += 1;
    }
    let mut j: usize = n;
    while j > i && is_whitespace(s[j - 1])
        invariant
            i <= j <= n == s@.len(),
            forall|k: int| j <= k < n ==> is_ws(s@[k]),
        decreases j,
    {
        j -= 1;
    }
    proof {
        lemma_trim_start_at(s@, i as int);
        let t = s@.subrange(i as int, n as int);
        assert forall|k: int| j - i <= k < t.len() implies is_ws(t[k]) by {
            assert(t[k] == s@[k + i]);
        }
        if j > i {
            assert(t[j - i - 1] == s@[j - 1]);
        }
        lemma_trim_end_at(t, j - i);
        assert(t.subrange(0, j - i) =~= s@.subrange(i as int, j as int));
    }
    slice(s, i, j)
}

proof fn lemma_find_char_none_extend(s: Seq<char>, k: int, c: char)
    requires
        0 <= k < s.len(),
        find_char(s.subrange(0, k), c) is None,
        s[k] != c,
    ensures
        find_char(s.subrange(0, k + 1), c) is None,
{
    assert(s.subrange(0, k + 1).drop_last() =~= s.subrange(0, k));
}

proof fn lemma_find_char_found(s: Seq<char>, k: int, c: char)
    requires
        0 <= k < s.len(),
        find_char(s.subrange(0, k), c) is None,
        s[k] == c,
    ensures
        find_char(s, c) == Some(k),
    decreases s.len() - k,
{
    assert(s.subrange(0, k + 1).drop_last() =~= s.subrange(0, k));
    lemma_find_char_keep(s, k + 1, c, k);
}

proof fn lemma_find_char_keep(s: Seq<char>, m: int, c: char, k: int)
    requires
        0 < m <= s.len(),
        find_char(s.subrange(0, m), c) == Some(k),
    ensures
        find_char(s, c) == Some(k),
    decreases s.len() - m,
{
    if m == s.len() {
        assert(s.subrange(0, m) =~= s);
    } else {
        assert(s.subrange(0, m + 1).drop_last() =~= s.subrange(0, m));
        lemma_find_char_keep(s, m + 1, c, k);
    }
}

/// The index of the first `c` in `s`.
pub fn find(s: &[char], c: char) -> (r: Option<usize>)
    ensures
        r matches Some(i) ==> find_char(s@, c) == Some(i as int) && i < s@.len(),
        r is None ==> find_char(s@, c) is None,
{
    let mut i: usize = 0;
    assert(s@.subrange(0, 0) =~= Seq::<char>::empty());
    while i < s.len()
        invariant
            i <= s@.len(),
            find_char(s@.subrange(0, i as int), c) is None,
        decreases s@.len() - i,
    {
        if s[i] == c {
            proof {
                lemma_find_char_found(s@, i as int, c);
            }
            return Some(i);
        }
        proof {
            lemma_find_char_none_extend(s@, i as int, c);
        }
        i += 1;
    }
    assert(s@.subrange(0, s@.len() as int) =~= s@);
    None
}

/// `str::lines`.
pub fn lines_of(s: &[char]) -> (ls: Vec<Vec<char>>)
    ensures
        ls@.map_values(|l: Vec<char>| l@) == lines(s@),
{
    let mut done: Vec<Vec<char>> = Vec::new();
    let mut cur: Vec<char> = Vec::new();
    let ghost mut raw: Seq<Seq<char>> = Seq::empty();
    let mut i: usize = 0;
    assert(s@.subrange(0, 0) =~= Seq::<char>::empty());
    while i < s.len()
        invariant
            i <= s@.len(),
            split_on(s@.subrange(0, i as int), '\n') == raw.push(cur@),
            done@.map_values(|l: Vec<char>| l@) == raw.map_values(|l: Seq<char>| strip_cr(l)),
            done@.len() == raw.len(),
        decreases s@.len() - i,
    {
        let c = s[i];
        let ghost pre = s@.subrange(0, i as int);
        assert(s@.subrange(0, i + 1).drop_last() =~= pre);
        if c == '\n' {
            let n = cur.len();
            let line = if n > 0 && cur[n - 1] == '\r' { slice(cur.as_slice(), 0, n - 1) } else { slice(cur.as_slice(), 0, n) };
            assert(line@ == strip_cr(cur@)) by {
                if n > 0 && cur@[n - 1] == '\r' {
                    assert(cur@.drop_last() =~= cur@.subrange(0, n - 1));
                } else {
                    assert(cur@.subrange(0, n as int) =~= cur@);
                }
            }
            let ghost old_done = done@;
            let ghost old_raw = raw;
            let ghost old_cur = cur@;
            let ghost line_v = line@;
            proof {
                raw = raw.push(cur@);
            }
            done.push(line);
            cur = Vec::new();
            assert forall|k: int| 0 <= k < done@.len() implies #[trigger] done@[k]@ == strip_cr(raw[k]) by {
                if k < old_done.len() {
                    assert(old_done.map_values(|l: Vec<char>| l@)[k] == old_raw.map_values(|l: Seq<char>| strip_cr(l))[k]);
                } else {
                    assert(done@[k]@ == line_v);
                    assert(raw[k] == old_cur);
                }
            }
            assert(done@.map_values(|l: Vec<char>| l@) =~= raw.map_values(|l: Seq<char>| strip_cr(l)));
            assert(split_on(s@.subrange(0, i + 1), '\n') =~= raw.push(cur@));
        } else {
            cur.push(c);
            assert(split_on(s@.subrange(0, i + 1), '\n') =~= raw.push(cur@));
        }
        i += 1;
    }
    assert(s@.subrange(0, s@.len() as int) =~= s@);
    let ghost p = split_on(s@, '\n');
    assert(p.drop_last() =~= raw);
    if cur.len() > 0 {
        done.push(cur);
        assert(done@.map_values(|l: Vec<char>| l@) =~= lines(s@));
    } else {
        assert(done@.map_values(|l: Vec<char>| l@) =~= lines(s@));
    }
    done
}

/// Why an integer did not parse (`core::num::IntErrorKind`).
#[derive(Debug, Clone, Copy, PartialEq, Eq, Structural)]
pub enum IntErrorKind {
    Empty,
    InvalidDigit,
    PosOverflow,
}

impl IntErrorKind {
    /// The message `ParseIntError` displays for this kind.
    pub open spec fn message_spec(self) -> Seq<char> {
        match self {
            IntErrorKind::Empty => "cannot parse integer from empty string"@,
            IntErrorKind::InvalidDigit => "invalid digit found in string"@,
            IntErrorKind::PosOverflow => "number too large to fit in target type"@,
        }
    }

    pub fn message(&self) -> (s: String)
        ensures
            s@ == self.message_spec(),
    {
        match self {
            IntErrorKind::Empty => String::from_str("cannot parse integer from empty string"),
            IntErrorKind::InvalidDigit => String::from_str("invalid digit found in string"),
            IntErrorKind::PosOverflow => String::from_str("number too large to fit in target type"),
        }
    }
}

/// The value of `c` as a digit in `radix` (`char::to_digit`, radix 10 or 16).
pub open spec fn digit_value(c: char, radix: u64) -> Option<u64> {
    if '0' <= c <= '9' && (c as int) - ('0' as int) < radix {
        Some(((c as int) - ('0' as int)) as u64)
    } else if radix == 16 && 'a' <= c <= 'f' {
        Some(((c as int) - ('a' as int) + 10) as u64)
    } else if radix == 16 && 'A' <= c <= 'F' {
        Some(((c as int) - ('A' as int) + 10) as u64)
    } else {
        None
    }
}

/// The digits of `d` read left to right; the first bad digit or overflow
/// decides the error.
pub open spec fn digits_value(d: Seq<char>, radix: u64) -> Result<u64, IntErrorKind>
    decreases d.len(),
{
    if d.len() == 0 {
        Ok(0)
    } else {
        match digits_value(d.drop_last(), radix) {
            Err(e) => Err(e),
            Ok(v) => match digit_value(d.last(), radix) {
                None => Err(IntErrorKind::InvalidDigit),
                Some(x) => if v * radix + x > u64::MAX {
                    Err(IntErrorKind::PosOverflow)
                } else {
                    Ok((v * radix + x) as u64)
                },
            },
        }
    }
}

/// `u64::from_str_radix(s, radix)`: an optional `+`, then at least one
/// digit.
pub open spec fn parse_u64_spec(s: Seq<char>, radix: u64) -> Result<u64, IntErrorKind> {
    if s.len() == 0 {
        Err(IntErrorKind::Empty)
    } else if s.len() == 1 && (s[0] == '+' || s[0] == '-') {
        Err(IntErrorKind::InvalidDigit)
    } else if s[0] == '+' {
        digits_value(s.drop_first(), radix)
    } else {
        digits_value(s, radix)
    }
}

fn digit(c: char, radix: u64) -> (r: Option<u64>)
    requires
        radix == 10 || radix == 16,
    ensures
        r == digit_value(c, radix),
{
    if '0' <= c && c <= '9' {
        Some(c as u64 - '0' as u64)
    } else if radix == 16 && 'a' <= c && c <= 'f' {
        Some(c as u64 - 'a' as u64 + 10)
    } else if radix == 16 && 'A' <= c && c <= 'F' {
        Some(c as u64 - 'A' as u64 + 10)
    } else {
        None
    }
}

proof fn lemma_digits_err_stays(d: Seq<char>, k: int, radix: u64)
    requires
        0 <= k <= d.len(),
        digits_value(d.subrange(0, k), radix) is Err,
    ensures
        digits_value(d, radix) == digits_value(d.subrange(0, k), radix),
    decreases d.len() - k,
{
    if k == d.len() {
        assert(d.subrange(0, k) =~= d);
    } else {
        assert(d.subrange(0, k + 1).drop_last() =~= d.subrange(0, k));
        lemma_digits_err_stays(d, k + 1, radix);
    }
}

/// `u64::from_str_radix` for radix 10 or 16.
pub fn parse_u64_radix(s: &[char], radix: u64) -> (r: Result<u64, IntErrorKind>)
    requires
        radix == 10 || radix == 16,
    ensures
        r == parse_u64_spec(s@, radix),
{
    let n = s.len();
    if n == 0 {
        return Err(IntErrorKind::Empty);
    }
    if n == 1 && (s[0] == '+' || s[0] == '-') {
        return Err(IntErrorKind::InvalidDigit);
    }
    let start: usize = if s[0] == '+' { 1 } else { 0 };
    let ghost d = s@.subrange(start as int, n as int);
    proof {
        if start == 1 {
            assert(d =~= s@.drop_first());
        } else {
            assert(d =~= s@);
        }
    }
    let mut v: u64 = 0;
    let mut i = start;
    assert(d.subrange(0, 0) =~= Seq::<char>::empty());
    while i < n
        invariant
            start <= i <= n == s@.len(),
            radix == 10 || radix == 16,
            d == s@.subrange(start as int, n as int),
            digits_value(d.subrange(0, i - start), radix) == Ok::<u64, IntErrorKind>(v),
            start <= 1,
            n > 0,
            !(n == 1 && (s@[0] == '+' || s@[0] == '-')),
            start == 1 ==> s@[0] == '+' && d == s@.drop_first(),
            start == 0 ==> s@[0] != '+' && d == s@,
        decreases n - i,
    {
        let k = i - start;
        assert(d.subrange(0, k + 1).drop_last() =~= d.subrange(0, k as int));
        assert(d.subrange(0, k + 1).last() == s@[i as int]);
        match digit(s[i], radix) {
            None => {
                proof {
                    lemma_digits_err_stays(d, k + 1, radix);
                }
                return Err(IntErrorKind::InvalidDigit);
            },
            Some(x) => {
                match v.checked_mul(radix) {
                    None => {
                        proof {
                            lemma_digits_err_stays(d, k + 1, radix);
                        }
                        return Err(IntErrorKind::PosOverflow);
                    },
                    Some(m) => match m.checked_add(x) {
                        None => {
                            proof {
                                lemma_digits_err_stays(d, k + 1, radix);
                            }
                            return Err(IntErrorKind::PosOverflow);
                        },
                        Some(w) => {
                            v = w;
                        },
                    },
                }
            },
        }
        i += 1;
    }
    assert(d.subrange(0, n - start) =~= d);
    Ok(v)
}

/// The first index at or after `i` where `p` occurs in `s`.
pub open spec fn find_sub_from(s: Seq<char>, p: Seq<char>, i: int) -> Option<int>
    decreases s.len() + 1 - i,
{
    if i < 0 || i + p.len() > s.len() {
        None
    } else if s.subrange(i, i + p.len()) == p {
        Some(i)
    } else {
        find_sub_from(s, p, i + 1)
    }
}

pub proof fn lemma_find_sub_after(s: Seq<char>, p: Seq<char>, i: int)
    ensures
        find_sub_from(s, p, i) matches Some(k) ==> i <= k && k + p.len() <= s.len(),
    decreases s.len() + 1 - i,
{
    if i >= 0 && i + p.len() <= s.len() && s.subrange(i, i + p.len()) != p {
        lemma_find_sub_after(s, p, i + 1);
    }
}

/// Whether `p` occurs in `s` at `i`.
pub fn occurs_at(s: &[char], i: usize, p: &[char]) -> (b: bool)
    requires
        i <= s@.len(),
    ensures
        b == (i + p@.len() <= s@.len() && s@.subrange(i as int, i + p@.len()) == p@),
{
    let n = s.len();
    if p.len() > n - i {
        return false;
    }
    let mut k: usize = 0;
    while k < p.len()
        invariant
            n == s@.len(),
            k <= p@.len(),
            i + p@.len() <= s@.len(),
            forall|m: int| 0 <= m < k ==> s@[i + m] == p@[m],
        decreases p@.len() - k,
    {
        assert(i + k < s@.len());
        let idx: usize = i + k;
        if s[idx] != p[k] {
            assert(s@.subrange(i as int, i + p@.len())[k as int] != p@[k as int]);
            return false;
        }
        k += 1;
    }
    assert(s@.subrange(i as int, i + p@.len()) =~= p@);
    true
}

/// The first index at or after `from` where `p` occurs in `s`.
pub fn find_sub(s: &[char], p: &[char], from: usize) -> (r: Option<usize>)
    requires
        from <= s@.len(),
    ensures
        r matches Some(k) ==> find_sub_from(s@, p@, from as int) == Some(k as int),
        r is None ==> find_sub_from(s@, p@, from as int) is None,
{
    let mut i = from;
    while i <= s.len()
        invariant
            from <= i <= s@.len(),
            find_sub_from(s@, p@, from as int) == find_sub_from(s@, p@, i as int),
        decreases s@.len() + 1 - i,
    {
        if p.len() > s.len() - i {
            return None;
        }
        if occurs_at(s, i, p) {
            return Some(i);
        }
        if i == s.len() {
            assert(find_sub_from(s@, p@, i + 1) is None);
            return None;
        }
        i += 1;
    }
    None
}

/// Appends the characters `x` to `out`.
pub fn extend(out: &mut Vec<char>, x: &[char])
    ensures
        final(out)@ == old(out)@ + x@,
{
    let mut i: usize = 0;
    while i < x.len()
        invariant
            i <= x@.len(),
            out@ == old(out)@ + x@.subrange(0, i as int),
        decreases x@.len() - i,
    {
        out.push(x[i]);
        i += 1;
        assert(out@ =~= old(out)@ + x@.subrange(0, i as int));
    }
    assert(x@.subrange(0, x@.len() as int) =~= x@);
}

/// `str::split(sep)` from index `i`: the pieces between non-overlapping
/// occurrences of `sep`, left to right.
pub open spec fn split_str_from(s: Seq<char>, sep: Seq<char>, i: int) -> Seq<Seq<char>>
    decreases s.len() + 1 - i,
{
    if i < 0 || i > s.len() || sep.len() == 0 {
        seq![s.subrange(i, s.len() as int)]
    } else {
        match find_sub_from(s, sep, i) {
            None => seq![s.subrange(i, s.len() as int)],
            Some(j) => {
                proof {
                    lemma_find_sub_after(s, sep, i);
                }
                seq![s.subrange(i, j)] + split_str_from(s, sep, j + sep.len())
            },
        }
    }
}

pub open spec fn vec_views(v: Seq<Vec<char>>) -> Seq<Seq<char>> {
    v.map_values(|x: Vec<char>| x@)
}

/// `str::split(sep)`.
pub fn split_str(s: &[char], sep: &[char]) -> (parts: Vec<Vec<char>>)
    requires
        sep@.len() > 0,
    ensures
        vec_views(parts@) == split_str_from(s@, sep@, 0),
{
    let n = s.len();
    let mut parts: Vec<Vec<char>> = Vec::new();
    let mut i: usize = 0;
    assert(vec_views(parts@) + split_str_from(s@, sep@, 0) =~= split_str_from(s@, sep@, 0));
    loop
        invariant
            n == s@.len(),
            i <= n,
            sep@.len() > 0,
            vec_views(parts@) + split_str_from(s@, sep@, i as int) == split_str_from(s@, sep@, 0),
        decreases n + 1 - i,
    {
        let ghost before = vec_views(parts@);
        match find_sub(s, sep, i) {
            None => {
                let piece = slice(s, i, n);
                parts.push(piece);
                assert(vec_views(parts@) =~= before + split_str_from(s@, sep@, i as int));
                return parts;
            },
            Some(j) => {
                proof {
                    lemma_find_sub_after(s@, sep@, i as int);
                }
                let piece = slice(s, i, j);
                parts.push(piece);
                assert(vec_views(parts@) + split_str_from(s@, sep@, (j + sep@.len()) as int) =~= before
                    + split_str_from(s@, sep@, i as int));
                i = j + sep.len();
            },
        }
    }
}

/// The end of the run of non-whitespace starting at `i`.
pub open spec fn word_end(s: Seq<char>, i: int) -> int
    decreases s.len() - i,
{
    if i < 0 || i >= s.len() || is_ws(s[i]) {
        i
    } else {
        word_end(s, i + 1)
    }
}

pub proof fn lemma_word_end(s: Seq<char>, i: int)
    requires
        0 <= i <= s.len(),
    ensures
        i <= word_end(s, i) <= s.len(),
        i < s.len() && !is_ws(s[i]) ==> i < word_end(s, i),
        forall|k: int| i <= k < word_end(s, i) ==> !is_ws(s[k]),
        word_end(s, i) < s.len() ==> is_ws(s[word_end(s, i)]),
    decreases s.len() - i,
{
    if i < s.len() && !is_ws(s[i]) {
        lemma_word_end(s, i + 1);
    }
}

/// `str::split_whitespace` from index `i`.
pub open spec fn words_from(s: Seq<char>, i: int) -> Seq<Seq<char>>
    decreases s.len() - i,
{
    if i < 0 || i >= s.len() {
        Seq::empty()
    } else if is_ws(s[i]) {
        words_from(s, i + 1)
    } else {
        proof {
            lemma_word_end(s, i);
        }
        seq![s.subrange(i, word_end(s, i))] + words_from(s, word_end(s, i))
    }
}

proof fn lemma_word_end_shift(s: Seq<char>, i: int, t: Seq<char>, j: int)
    requires
        0 <= i <= s.len(),
        0 <= j <= t.len(),
        s.subrange(i, s.len() as int) == t.subrange(j, t.len() as int),
    ensures
        word_end(s, i) - i == word_end(t, j) - j,
    decreases s.len() - i,
{
    assert(s.len() - i == t.len() - j) by {
        let sa = s.subrange(i, s.len() as int);
        let ta = t.subrange(j, t.len() as int);
        assert(sa.len() == s.len() - i);
        assert(ta.len() == t.len() - j);
        assert(sa.len() == ta.len());
    }
    if i < s.len() {
        assert(s[i] == s.subrange(i, s.len() as int)[0]);
        assert(t[j] == t.subrange(j, t.len() as int)[0]);
        if !is_ws(s[i]) {
            assert(s.subrange(i + 1, s.len() as int) =~= s.subrange(i, s.len() as int).drop_first());
            assert(t.subrange(j + 1, t.len() as int) =~= t.subrange(j, t.len() as int).drop_first());
            lemma_word_end_shift(s, i + 1, t, j + 1);
        }
    }
}

/// `split_whitespace` of a text depends only on the text from `i` on.
pub proof fn lemma_words_shift(s: Seq<char>, i: int, t: Seq<char>, j: int)
    requires
        0 <= i <= s.len(),
        0 <= j <= t.len(),
        s.subrange(i, s.len() as int) == t.subrange(j, t.len() as int),
    ensures
        words_from(s, i) == words_from(t, j),
    decreases s.len() - i,
{
    assert(s.len() - i == t.len() - j) by {
        let sa = s.subrange(i, s.len() as int);
        let ta = t.subrange(j, t.len() as int);
        assert(sa.len() == s.len() - i);
        assert(ta.len() == t.len() - j);
        assert(sa.len() == ta.len());
    }
    if i < s.len() {
        assert(s[i] == s.subrange(i, s.len() as int)[0]);
        assert(t[j] == t.subrange(j, t.len() as int)[0]);
        if is_ws(s[i]) {
            assert(s.subrange(i + 1, s.len() as int) =~= s.subrange(i, s.len() as int).drop_first());
            assert(t.subrange(j + 1, t.len() as int) =~= t.subrange(j, t.len() as int).drop_first());
            lemma_words_shift(s, i + 1, t, j + 1);
        } else {
            lemma_word_end(s, i);
            lemma_word_end(t, j);
            lemma_word_end_shift(s, i, t, j);
            let e = word_end(s, i);
            let f = word_end(t, j);
            assert(s.subrange(i, e) =~= t.subrange(j, f)) by {
                assert forall|m: int| 0 <= m < e - i implies s.subrange(i, e)[m] == t.subrange(j, f)[m] by {
                    assert(s[i + m] == s.subrange(i, s.len() as int)[m]);
                    assert(t[j + m] == t.subrange(j, t.len() as int)[m]);
                }
            }
            assert(s.subrange(e, s.len() as int) =~= t.subrange(f, t.len() as int)) by {
                assert forall|m: int| 0 <= m < s.len() - e implies s.subrange(e, s.len() as int)[m] == t.subrange(
                    f,
                    t.len() as int,
                )[m] by {
                    assert(s[e + m] == s.subrange(i, s.len() as int)[e - i + m]);
                    assert(t[f + m] == t.subrange(j, t.len() as int)[f - j + m]);
                }
            }
            lemma_words_shift(s, e, t, f);
        }
    }
}

/// A word followed by whitespace is the first word, and the rest are the
/// words of what follows.
pub proof fn lemma_words_cons(a: Seq<char>, sp: char, rest: Seq<char>)
    requires
        a.len() > 0,
        forall|k: int| 0 <= k < a.len() ==> !is_ws(#[trigger] a[k]),
        is_ws(sp),
    ensures
        words_from(a + seq![sp] + rest, 0) == seq![a] + words_from(rest, 0),
{
    let x = a + seq![sp] + rest;
    lemma_word_end(x, 0);
    let e = word_end(x, 0);
    assert(x[a.len() as int] == sp);
    if e < a.len() {
        assert(x[e] == a[e]);
    }
    if e > a.len() {
        assert(!is_ws(x[a.len() as int]));
    }
    assert(e == a.len());
    assert(x[0] == a[0]);
    assert(x.subrange(0, e) =~= a);
    assert(x.subrange(e + 1, x.len() as int) =~= rest.subrange(0, rest.len() as int));
    lemma_words_shift(x, e + 1, rest, 0);
    assert(is_ws(x[e]));
    assert(words_from(x, e) == words_from(x, e + 1));
    assert(!is_ws(x[0]));
    assert(words_from(x, 0) == seq![x.subrange(0, e)] + words_from(x, e));
}

/// A single word is its own only word.
pub proof fn lemma_words_single(a: Seq<char>)
    requires
        a.len() > 0,
        forall|k: int| 0 <= k < a.len() ==> !is_ws(#[trigger] a[k]),
    ensures
        words_from(a, 0) == seq![a],
{
    lemma_word_end(a, 0);
    assert(!is_ws(a[0]));
    assert(a.subrange(0, word_end(a, 0)) =~= a);
    assert(words_from(a, a.len() as int) == Seq::<Seq<char>>::empty());
    assert(words_from(a, 0) == seq![a.subrange(0, word_end(a, 0))] + words_from(a, word_end(a, 0)));
    assert(words_from(a, 0) =~= seq![a]);
}

/// `str::split_whitespace`.
pub fn words(s: &[char]) -> (ws: Vec<Vec<char>>)
    ensures
        vec_views(ws@) == words_from(s@, 0),
{
    let n = s.len();
    let mut ws: Vec<Vec<char>> = Vec::new();
    let mut i: usize = 0;
    assert(vec_views(ws@) + words_from(s@, 0) =~= words_from(s@, 0));
    while i < n
        invariant
            n == s@.len(),
            i <= n,
            vec_views(ws@) + words_from(s@, i as int) == words_from(s@, 0),
        decreases n - i,
    {
        let ghost before = vec_views(ws@);
        if is_whitespace(s[i]) {
            i += 1;
        } else {
            let mut j = i;
            while j < n && !is_whitespace(s[j])
                invariant
                    i <= j <= n == s@.len(),
                    word_end(s@, i as int) == word_end(s@, j as int),
                decreases n - j,
            {
                j += 1;
            }
            proof {
                lemma_word_end(s@, i as int);
            }
            let w = slice(s, i, j);
            ws.push(w);
            assert(vec_views(ws@) + words_from(s@, j as int) =~= before + words_from(s@, i as int));
            i = j;
        }
    }
    assert(vec_views(ws@) =~= words_from(s@, 0));
    ws
}

} // verus!
