//! Firmware symbol databases: a small YAML-like text format listing, per
//! firmware version, symbols with their image, RVA and expected prologue;
//! lookup by name; and generation of a C header embedding the table.

use vstd::prelude::*;

use crate::text::{
    after, chars_of, equals, find, has_prefix, lines, lines_of, parse_u64_radix, parse_u64_spec, push_char, push_chars,
    push_str, slice, split_once, starts_with, str_eq, string_of, strip_prefix, trim, trim_chars,
};

verus! {

/// One symbol of a firmware image.
pub struct Symbol {
    pub name: String,
    pub image: String,
    pub rva: u64,
    pub prologue: Option<String>,
    pub source: String,
}

/// The symbols known for one firmware version.
pub struct SymbolDb {
    pub firmware: String,
    pub symbols: Vec<Symbol>,
}

/// A symbol as plain text values.
pub struct SymbolView {
    pub name: Seq<char>,
    pub image: Seq<char>,
    pub rva: u64,
    pub prologue: Option<Seq<char>>,
    pub source: Seq<char>,
}

impl View for Symbol {
    type V = SymbolView;

    open spec fn view(&self) -> SymbolView {
        SymbolView {
            name: self.name@,
            image: self.image@,
            rva: self.rva,
            prologue: match self.prologue {
                Some(p) => Some(p@),
                None => None,
            },
            source: self.source@,
        }
    }
}

pub open spec fn symbols_view(v: Seq<Symbol>) -> Seq<SymbolView> {
    v.map_values(|s: Symbol| s@)
}

/// `s` without one pair of surrounding double quotes.
pub open spec fn unquoted(s: Seq<char>) -> Seq<char> {
    if s.len() >= 2 && s[0] == '"' && s.last() == '"' {
        s.subrange(1, s.len() - 1)
    } else {
        s
    }
}

/// `s` escaped for a C string literal: each `\` and `"` gets a `\` before it.
pub open spec fn c_escaped(s: Seq<char>) -> Seq<char>
    decreases s.len(),
{
    if s.len() == 0 {
        s
    } else {
        let e = c_escaped(s.drop_last());
        if s.last() == '\\' || s.last() == '"' {
            e.push('\\').push(s.last())
        } else {
            e.push(s.last())
        }
    }
}

/// An RVA: hexadecimal after `0x`, decimal otherwise; the error message
/// names the text and the reason.
pub open spec fn parse_rva(value: Seq<char>) -> Result<u64, Seq<char>> {
    if starts_with(value, "0x"@) {
        match parse_u64_spec(after(value, "0x"@), 16) {
            Ok(v) => Ok(v),
            Err(e) => Err("invalid hex rva "@ + value + ": "@ + e.message_spec()),
        }
    } else {
        match parse_u64_spec(value, 10) {
            Ok(v) => Ok(v),
            Err(e) => Err("invalid rva "@ + value + ": "@ + e.message_spec()),
        }
    }
}

/// What the parser holds between lines.
pub struct ParseState {
    pub firmware: Seq<char>,
    pub symbols: Seq<SymbolView>,
    /// The symbol whose fields are being read.
    pub current: Option<SymbolView>,
}

pub open spec fn start_state() -> ParseState {
    ParseState { firmware: Seq::empty(), symbols: Seq::empty(), current: None }
}

/// The finished symbols, with the current one closed.
pub open spec fn closed(st: ParseState) -> Seq<SymbolView> {
    match st.current {
        Some(c) => st.symbols.push(c),
        None => st.symbols,
    }
}

pub open spec fn new_symbol(name: Seq<char>) -> SymbolView {
    SymbolView { name, image: Seq::empty(), rva: 0, prologue: None, source: "unknown"@ }
}

/// One `key: value` line applied to the current symbol.
pub open spec fn apply_field(sym: SymbolView, key: Seq<char>, value: Seq<char>) -> Result<SymbolView, Seq<char>> {
    if key == "image"@ {
        Ok(SymbolView { image: value, ..sym })
    } else if key == "rva"@ {
        match parse_rva(value) {
            Ok(v) => Ok(SymbolView { rva: v, ..sym }),
            Err(e) => Err(e),
        }
    } else if key == "prologue"@ {
        Ok(SymbolView { prologue: Some(value), ..sym })
    } else if key == "source"@ {
        Ok(SymbolView { source: value, ..sym })
    } else {
        Ok(sym)
    }
}

/// One line of the database. Blank lines, `#` comments, `-` and `symbols:`
/// are skipped; `firmware:` sets the version; `- name:` starts a symbol;
/// other lines must be `key: value` and set a field of the current symbol
/// (there being none, they are skipped).
pub open spec fn step(st: ParseState, raw: Seq<char>) -> Result<ParseState, Seq<char>> {
    let line = trim(raw);
    if line.len() == 0 || line[0] == '#' {
        Ok(st)
    } else if starts_with(line, "firmware:"@) {
        Ok(ParseState { firmware: unquoted(trim(after(line, "firmware:"@))), ..st })
    } else if line == "-"@ || line == "symbols:"@ {
        Ok(st)
    } else if starts_with(line, "- name:"@) {
        Ok(ParseState { symbols: closed(st), current: Some(new_symbol(unquoted(trim(after(line, "- name:"@))))), ..st })
    } else {
        match split_once(line, ':') {
            None => Err("invalid symbol db line: "@ + line),
            Some((key, value)) => match st.current {
                None => Ok(st),
                Some(sym) => match apply_field(sym, trim(key), unquoted(trim(value))) {
                    Ok(s2) => Ok(ParseState { current: Some(s2), ..st }),
                    Err(e) => Err(e),
                },
            },
        }
    }
}

/// The state after the lines `ls`, or the first error.
pub open spec fn run(ls: Seq<Seq<char>>) -> Result<ParseState, Seq<char>>
    decreases ls.len(),
{
    if ls.len() == 0 {
        Ok(start_state())
    } else {
        match run(ls.drop_last()) {
            Ok(st) => step(st, ls.last()),
            Err(e) => Err(e),
        }
    }
}

/// The database that `input` describes, as (firmware, symbols), or the
/// error message.
pub open spec fn parse_db_spec(input: Seq<char>) -> Result<(Seq<char>, Seq<SymbolView>), Seq<char>> {
    match run(lines(input)) {
        Err(e) => Err(e),
        Ok(st) => if st.firmware.len() == 0 {
            Err("missing firmware field"@)
        } else {
            Ok((st.firmware, closed(st)))
        },
    }
}

/// The string of `v`, without one pair of surrounding quotes.
pub fn unquote(v: &[char]) -> (r: Vec<char>)
    ensures
        r@ == unquoted(v@),
{
    let n = v.len();
    if n >= 2 && v[0] == '"' && v[n - 1] == '"' {
        slice(v, 1, n - 1)
    } else {
        slice(v, 0, n)
    }
}

/// Escapes `\` and `"` for a C string literal.
pub fn escape_c(value: &[char]) -> (r: Vec<char>)
    ensures
        r@ == c_escaped(value@),
{
    let mut r: Vec<char> = Vec::new();
    let mut i: usize = 0;
    while i < value.len()
        invariant
            i <= value@.len(),
            r@ == c_escaped(value@.subrange(0, i as int)),
        decreases value@.len() - i,
    {
        let c = value[i];
        assert(value@.subrange(0, i + 1).drop_last() =~= value@.subrange(0, i as int));
        if c == '\\' || c == '"' {
            r.push('\\');
        }
        r.push(c);
        i += 1;
    }
    assert(value@.subrange(0, value@.len() as int) =~= value@);
    r
}

/// Parses an RVA (`0x`-prefixed hexadecimal, or decimal).
pub fn parse_u64(value: &[char]) -> (r: Result<u64, String>)
    ensures
        r matches Ok(v) ==> parse_rva(value@) == Ok::<u64, Seq<char>>(v),
        r matches Err(e) ==> parse_rva(value@) == Err::<u64, Seq<char>>(e@),
{
    if has_prefix(value, "0x") {
        let hex = strip_prefix(value, "0x");
        match parse_u64_radix(hex.as_slice(), 16) {
            Ok(v) => Ok(v),
            Err(e) => {
                let mut m = String::from_str("invalid hex rva ");
                push_chars(&mut m, value);
                push_str(&mut m, ": ");
                let reason = e.message();
                push_str(&mut m, reason.as_str());
                Err(m)
            },
        }
    } else {
        match parse_u64_radix(value, 10) {
            Ok(v) => Ok(v),
            Err(e) => {
                let mut m = String::from_str("invalid rva ");
                push_chars(&mut m, value);
                push_str(&mut m, ": ");
                let reason = e.message();
                push_str(&mut m, reason.as_str());
                Err(m)
            },
        }
    }
}

/// The parser between lines: the firmware seen so far, the finished
/// symbols, and the one being read.
pub struct Parser {
    pub firmware: Vec<char>,
    pub symbols: Vec<Symbol>,
    pub current: Option<Symbol>,
}

impl View for Parser {
    type V = ParseState;

    open spec fn view(&self) -> ParseState {
        ParseState {
            firmware: self.firmware@,
            symbols: symbols_view(self.symbols@),
            current: match self.current {
                Some(c) => Some(c@),
                None => None,
            },
        }
    }
}

fn make_symbol(name: Vec<char>) -> (s: Symbol)
    ensures
        s@ == new_symbol(name@),
{
    Symbol { name: string_of(name.as_slice()), image: String::new(), rva: 0, prologue: None, source: String::from_str("unknown") }
}

fn set_field(sym: Symbol, key: &[char], value: Vec<char>) -> (r: Result<Symbol, String>)
    ensures
        r matches Ok(s2) ==> apply_field(sym@, key@, value@) == Ok::<SymbolView, Seq<char>>(s2@),
        r matches Err(e) ==> apply_field(sym@, key@, value@) == Err::<SymbolView, Seq<char>>(e@),
{
    let mut sym = sym;
    if equals(key, "image") {
        sym.image = string_of(value.as_slice());
        Ok(sym)
    } else if equals(key, "rva") {
        match parse_u64(value.as_slice()) {
            Ok(v) => {
                sym.rva = v;
                Ok(sym)
            },
            Err(e) => Err(e),
        }
    } else if equals(key, "prologue") {
        sym.prologue = Some(string_of(value.as_slice()));
        Ok(sym)
    } else if equals(key, "source") {
        sym.source = string_of(value.as_slice());
        Ok(sym)
    } else {
        Ok(sym)
    }
}

impl Parser {
    pub fn new() -> (p: Parser)
        ensures
            p@ == start_state(),
    {
        let p = Parser { firmware: Vec::new(), symbols: Vec::new(), current: None };
        assert(p@.symbols =~= Seq::<SymbolView>::empty());
        p
    }

    /// Moves the current symbol, if any, to the finished ones.
    pub fn close_current(&mut self)
        ensures
            final(self)@.symbols == closed(old(self)@),
            final(self)@.current is None,
            final(self)@.firmware == old(self)@.firmware,
    {
        let mut cur: Option<Symbol> = None;
        std::mem::swap(&mut cur, &mut self.current);
        match cur {
            Some(sym) => {
                let ghost before = self.symbols@;
                self.symbols.push(sym);
                assert(symbols_view(self.symbols@) =~= symbols_view(before).push(sym@));
            },
            None => {},
        }
    }

    /// Applies one line; see `step`.
    pub fn parse_line(&mut self, raw: &[char]) -> (r: Result<(), String>)
        ensures
            r is Ok ==> step(old(self)@, raw@) == Ok::<ParseState, Seq<char>>(final(self)@),
            r matches Err(e) ==> step(old(self)@, raw@) == Err::<ParseState, Seq<char>>(e@),
    {
        let line = trim_chars(raw);
        if line.len() == 0 || line[0] == '#' {
            return Ok(());
        }
        if has_prefix(line.as_slice(), "firmware:") {
            let rest = strip_prefix(line.as_slice(), "firmware:");
            let t = trim_chars(rest.as_slice());
            self.firmware = unquote(t.as_slice());
            return Ok(());
        }
        if equals(line.as_slice(), "-") || equals(line.as_slice(), "symbols:") {
            return Ok(());
        }
        if has_prefix(line.as_slice(), "- name:") {
            let rest = strip_prefix(line.as_slice(), "- name:");
            let t = trim_chars(rest.as_slice());
            let name = unquote(t.as_slice());
            self.close_current();
            self.current = Some(make_symbol(name));
            return Ok(());
        }
        match find(line.as_slice(), ':') {
            None => {
                let mut m = String::from_str("invalid symbol db line: ");
                push_chars(&mut m, line.as_slice());
                Err(m)
            },
            Some(i) => {
                let mut cur: Option<Symbol> = None;
                std::mem::swap(&mut cur, &mut self.current);
                match cur {
                    None => Ok(()),
                    Some(sym) => {
                        let key = slice(line.as_slice(), 0, i);
                        let key = trim_chars(key.as_slice());
                        let value = slice(line.as_slice(), i + 1, line.len());
                        let value = trim_chars(value.as_slice());
                        let value = unquote(value.as_slice());
                        match set_field(sym, key.as_slice(), value) {
                            Ok(s2) => {
                                self.current = Some(s2);
                                Ok(())
                            },
                            Err(e) => Err(e),
                        }
                    },
                }
            },
        }
    }
}

proof fn lemma_run_err_stays(ls: Seq<Seq<char>>, k: int)
    requires
        0 <= k <= ls.len(),
        run(ls.subrange(0, k)) is Err,
    ensures
        run(ls) == run(ls.subrange(0, k)),
    decreases ls.len() - k,
{
    if k == ls.len() {
        assert(ls.subrange(0, k) =~= ls);
    } else {
        assert(ls.subrange(0, k + 1).drop_last() =~= ls.subrange(0, k));
        lemma_run_err_stays(ls, k + 1);
    }
}

/// Parses a symbol database; see `parse_db_spec` for the format and the
/// errors.
pub fn parse_symbol_db(input: &str) -> (r: Result<SymbolDb, String>)
    ensures
        match parse_db_spec(input@) {
            Ok((fw, syms)) => r matches Ok(db) && db.firmware@ == fw && symbols_view(db.symbols@) == syms,
            Err(e) => r matches Err(m) && m@ == e,
        },
{
    let chars = chars_of(input);
    let ls = lines_of(chars.as_slice());
    let ghost lv = ls@.map_values(|l: Vec<char>| l@);
    let mut p = Parser::new();
    let mut i: usize = 0;
    assert(lv.subrange(0, 0) =~= Seq::<Seq<char>>::empty());
    while i < ls.len()
        invariant
            i <= ls@.len(),
            lv == ls@.map_values(|l: Vec<char>| l@),
            lv == lines(input@),
            run(lv.subrange(0, i as int)) == Ok::<ParseState, Seq<char>>(p@),
        decreases ls@.len() - i,
    {
        assert(lv.subrange(0, i + 1).drop_last() =~= lv.subrange(0, i as int));
        assert(lv.subrange(0, i + 1).last() == ls@[i as int]@);
        match p.parse_line(ls[i].as_slice()) {
            Ok(()) => {},
            Err(e) => {
                proof {
                    lemma_run_err_stays(lv, i + 1);
                }
                return Err(e);
            },
        }
        i += 1;
    }
    assert(lv.subrange(0, lv.len() as int) =~= lv);
    let ghost st = p@;
    p.close_current();
    if p.firmware.len() == 0 {
        return Err(String::from_str("missing firmware field"));
    }
    let Parser { firmware, symbols, current: _ } = p;
    Ok(SymbolDb { firmware: string_of(firmware.as_slice()), symbols })
}

/// Index of the first symbol named `name`.
pub open spec fn lookup_index(syms: Seq<SymbolView>, name: Seq<char>) -> Option<int>
    decreases syms.len(),
{
    if syms.len() == 0 {
        None
    } else {
        match lookup_index(syms.drop_last(), name) {
            Some(i) => Some(i),
            None => if syms.last().name == name { Some(syms.len() - 1) } else { None },
        }
    }
}

proof fn lemma_lookup_keep(syms: Seq<SymbolView>, m: int, name: Seq<char>, k: int)
    requires
        0 < m <= syms.len(),
        lookup_index(syms.subrange(0, m), name) == Some(k),
    ensures
        lookup_index(syms, name) == Some(k),
    decreases syms.len() - m,
{
    if m == syms.len() {
        assert(syms.subrange(0, m) =~= syms);
    } else {
        assert(syms.subrange(0, m + 1).drop_last() =~= syms.subrange(0, m));
        lemma_lookup_keep(syms, m + 1, name, k);
    }
}

/// The hexadecimal digit for `d < 16`, lower case.
pub open spec fn hex_digit(d: u64) -> char {
    if d < 10 { ((d + '0' as u64) as u8) as char } else { ((d - 10 + 'a' as u64) as u8) as char }
}

/// `n` in lower-case hexadecimal without leading zeros (`{:x}`).
pub open spec fn hex(n: u64) -> Seq<char>
    decreases n,
{
    if n < 16 {
        seq![hex_digit(n)]
    } else {
        hex(n / 16).push(hex_digit(n % 16))
    }
}

pub open spec fn is_ascii_alnum(c: char) -> bool {
    ('0' <= c <= '9') || ('a' <= c <= 'z') || ('A' <= c <= 'Z')
}

/// Firmware characters in the include guard: ASCII letters and digits in
/// upper case, anything else `_`.
pub open spec fn guard_char(c: char) -> char {
    if 'a' <= c <= 'z' {
        ((c as u32 - 32) as u8) as char
    } else if is_ascii_alnum(c) {
        c
    } else {
        '_'
    }
}

pub open spec fn guard_name(fw: Seq<char>) -> Seq<char> {
    "KSUB_SYMS_"@ + fw.map_values(|c: char| guard_char(c))
}

/// The table entry of one symbol.
pub open spec fn entry_line(s: SymbolView) -> Seq<char> {
    "    {\""@ + c_escaped(s.name) + "\", \""@ + c_escaped(s.image) + "\", 0x"@ + hex(s.rva) + ", \""@ + c_escaped(
        match s.prologue {
            Some(p) => p,
            None => Seq::empty(),
        },
    ) + "\"},\n"@
}

pub open spec fn entry_lines(syms: Seq<SymbolView>) -> Seq<char>
    decreases syms.len(),
{
    if syms.len() == 0 {
        Seq::empty()
    } else {
        entry_lines(syms.drop_last()) + entry_line(syms.last())
    }
}

/// The C header for a database.
pub open spec fn header_spec(fw: Seq<char>, syms: Seq<SymbolView>) -> Seq<char> {
    let g = guard_name(fw);
    "#ifndef "@ + g + "\n"@ + "#define "@ + g + "\n"@ + "\n"@ + "typedef struct ksub_symbol_entry {\n"@
        + "    const char *name;\n"@ + "    const char *image;\n"@ + "    unsigned long rva;\n"@
        + "    const char *prologue;\n"@ + "} ksub_symbol_entry;\n"@ + "\n"@
        + "static const ksub_symbol_entry KSUB_SYMBOLS[] = {\n"@ + entry_lines(syms) + "};\n"@ + "\n"@
        + "#endif\n"@
}

pub fn push_hex(out: &mut String, n: u64)
    ensures
        final(out)@ == old(out)@ + hex(n),
    decreases n,
{
    if n >= 16 {
        push_hex(out, n / 16);
    }
    let d = n % 16;
    let c: char = if d < 10 { ((d + '0' as u64) as u8) as char } else { ((d - 10 + 'a' as u64) as u8) as char };
    push_char(out, c);
    proof {
        if n < 16 {
            assert(n % 16 == n);
        }
    }
    assert(final(out)@ =~= old(out)@ + hex(n)) by {
        if n >= 16 {
            assert(old(out)@ + hex(n / 16) + seq![c] =~= old(out)@ + hex(n / 16).push(c));
        }
    }
}

fn guard_chars(fw: &[char]) -> (g: Vec<char>)
    ensures
        g@ == fw@.map_values(|c: char| guard_char(c)),
{
    let mut g: Vec<char> = Vec::new();
    let mut i: usize = 0;
    while i < fw.len()
        invariant
            i <= fw@.len(),
            g@ == fw@.subrange(0, i as int).map_values(|c: char| guard_char(c)),
        decreases fw@.len() - i,
    {
        let c = fw[i];
        let u: char = if 'a' <= c && c <= 'z' {
            ((c as u32 - 32) as u8) as char
        } else if ('0' <= c && c <= '9') || ('A' <= c && c <= 'Z') {
            c
        } else {
            '_'
        };
        g.push(u);
        i += 1;
        assert(g@ =~= fw@.subrange(0, i as int).map_values(|c: char| guard_char(c)));
    }
    assert(fw@.subrange(0, fw@.len() as int) =~= fw@);
    g
}

impl SymbolDb {
    pub open spec fn firmware_spec(&self) -> Seq<char> {
        self.firmware@
    }

    /// The first symbol named `name`.
    pub fn lookup(&self, name: &str) -> (r: Option<&Symbol>)
        ensures
            match lookup_index(symbols_view(self.symbols@), name@) {
                Some(i) => r matches Some(s) && *s == self.symbols@[i],
                None => r is None,
            },
    {
        let ghost sv = symbols_view(self.symbols@);
        let mut i: usize = 0;
        assert(sv.subrange(0, 0) =~= Seq::<SymbolView>::empty());
        while i < self.symbols.len()
            invariant
                i <= self.symbols@.len(),
                sv == symbols_view(self.symbols@),
                lookup_index(sv.subrange(0, i as int), name@) is None,
            decreases self.symbols@.len() - i,
        {
            assert(sv.subrange(0, i + 1).drop_last() =~= sv.subrange(0, i as int));
            if str_eq(self.symbols[i].name.as_str(), name) {
                proof {
                    lemma_lookup_keep(sv, i + 1, name@, i as int);
                }
                return Some(&self.symbols[i]);
            }
            i += 1;
        }
        assert(sv.subrange(0, sv.len() as int) =~= sv);
        None
    }

    /// A C header embedding the table, guarded by the firmware version.
    pub fn to_header(&self) -> (h: String)
        ensures
            h@ == header_spec(self.firmware@, symbols_view(self.symbols@)),
    {
        let fw = chars_of(self.firmware.as_str());
        let g = guard_chars(fw.as_slice());
        let mut out = String::new();
        push_str(&mut out, "#ifndef ");
        push_str(&mut out, "KSUB_SYMS_");
        push_chars(&mut out, g.as_slice());
        push_str(&mut out, "\n");
        push_str(&mut out, "#define ");
        push_str(&mut out, "KSUB_SYMS_");
        push_chars(&mut out, g.as_slice());
        push_str(&mut out, "\n");
        push_str(&mut out, "\n");
        push_str(&mut out, "typedef struct ksub_symbol_entry {\n");
        push_str(&mut out, "    const char *name;\n");
        push_str(&mut out, "    const char *image;\n");
        push_str(&mut out, "    unsigned long rva;\n");
        push_str(&mut out, "    const char *prologue;\n");
        push_str(&mut out, "} ksub_symbol_entry;\n");
        push_str(&mut out, "\n");
        push_str(&mut out, "static const ksub_symbol_entry KSUB_SYMBOLS[] = {\n");
        let ghost head = out@;
        let ghost sv = symbols_view(self.symbols@);
        let mut i: usize = 0;
        assert(sv.subrange(0, 0) =~= Seq::<SymbolView>::empty());
        while i < self.symbols.len()
            invariant
                i <= self.symbols@.len(),
                sv == symbols_view(self.symbols@),
                out@ == head + entry_lines(sv.subrange(0, i as int)),
            decreases self.symbols@.len() - i,
        {
            let s = &self.symbols[i];
            push_str(&mut out, "    {\"");
            let name = chars_of(s.name.as_str());
            push_chars(&mut out, escape_c(name.as_slice()).as_slice());
            push_str(&mut out, "\", \"");
            let image = chars_of(s.image.as_str());
            push_chars(&mut out, escape_c(image.as_slice()).as_slice());
            push_str(&mut out, "\", 0x");
            push_hex(&mut out, s.rva);
            push_str(&mut out, ", \"");
            let prologue: Vec<char> = match &s.prologue {
                Some(p) => chars_of(p.as_str()),
                None => Vec::new(),
            };
            push_chars(&mut out, escape_c(prologue.as_slice()).as_slice());
            push_str(&mut out, "\"},\n");
            assert(sv.subrange(0, i + 1).drop_last() =~= sv.subrange(0, i as int));
            assert(sv[i as int] == s@);
            assert(out@ =~= head + entry_lines(sv.subrange(0, i + 1)));
            i += 1;
        }
        assert(sv.subrange(0, sv.len() as int) =~= sv);
        push_str(&mut out, "};\n");
        push_str(&mut out, "\n");
        push_str(&mut out, "#endif\n");
        assert(out@ =~= header_spec(self.firmware@, sv));
        out
    }
}

} // verus!
