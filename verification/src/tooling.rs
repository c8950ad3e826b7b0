//! Logic of the `ksub` developer tool: reading `nm` output into symbol
//! records, the symbol-database YAML it writes, the manifests and Cargo
//! manifest of a new tweak project, build targets, and option lookup.

use vstd::prelude::*;

use crate::symbols::{hex, push_hex};
use crate::text::{
    is_ws, lemma_words_cons, lemma_words_single, chars_of, equals, lines, lines_of, parse_u64_radix, parse_u64_spec, push_chars, push_str, str_eq, string_of, vec_views,
    words, words_from,
};

verus! {

/// Whether an `nm` symbol type marks an exported definition: global or weak
/// text (`T`, `W`), read-only data (`R`) or data (`D`).
pub open spec fn exported_kind(k: Seq<char>) -> bool {
    k == "T"@ || k == "W"@ || k == "R"@ || k == "D"@
}

/// One `nm -D --defined-only` line as (name, address), when it is
/// `<hex addr> <type> <name>` with an exported type.
pub open spec fn nm_entry(line: Seq<char>) -> Option<(Seq<char>, u64)> {
    let cols = words_from(line, 0);
    if cols.len() < 3 || !exported_kind(cols[1]) {
        None
    } else {
        match parse_u64_spec(cols[0], 16) {
            Ok(v) => Some((cols[2], v)),
            Err(_) => None,
        }
    }
}

/// A line `<address> <type> <name>` with a hexadecimal address and an
/// exported type (global or weak text `T`/`W`, read-only data `R`, data `D`)
/// gives exactly that symbol: its name, at that address.
pub proof fn law_nm_line_gives_its_symbol(addr: Seq<char>, kind: Seq<char>, name: Seq<char>, image: Seq<char>)
    requires
        addr.len() > 0,
        name.len() > 0,
        forall|k: int| 0 <= k < addr.len() ==> !is_ws(#[trigger] addr[k]),
        forall|k: int| 0 <= k < name.len() ==> !is_ws(#[trigger] name[k]),
        kind == "T"@ || kind == "W"@ || kind == "R"@ || kind == "D"@,
        parse_u64_spec(addr, 16) is Ok,
    ensures
        nm_entry(addr + seq![' '] + kind + seq![' '] + name) == Some((name, parse_u64_spec(addr, 16)->Ok_0)),
        nm_symbols(seq![addr + seq![' '] + kind + seq![' '] + name], image) == seq![(name, image, parse_u64_spec(addr, 16)->Ok_0)],
{
    reveal_strlit("T");
    reveal_strlit("W");
    reveal_strlit("R");
    reveal_strlit("D");
    assert(kind.len() == 1 && !is_ws(kind[0]));
    let line = addr + seq![' '] + kind + seq![' '] + name;
    let tail = kind + seq![' '] + name;
    assert(line =~= addr + seq![' '] + tail);
    lemma_words_cons(addr, ' ', tail);
    lemma_words_cons(kind, ' ', name);
    lemma_words_single(name);
    assert(words_from(line, 0) =~= seq![addr, kind, name]);
    let ls = seq![line];
    assert(ls.drop_last() =~= Seq::<Seq<char>>::empty());
    assert(ls.last() == line);
    assert(nm_symbols(ls.drop_last(), image) == Seq::<(Seq<char>, Seq<char>, u64)>::empty());
    assert(nm_symbols(ls, image) =~= seq![(name, image, parse_u64_spec(addr, 16)->Ok_0)]);
}

/// Every line that gives a symbol gives one, in order: when each line of
/// `ls` is a symbol line, the output has one symbol per line.
pub proof fn law_nm_symbols_one_per_line(ls: Seq<Seq<char>>, image: Seq<char>)
    requires
        forall|j: int| 0 <= j < ls.len() ==> nm_entry(#[trigger] ls[j]) is Some,
    ensures
        nm_symbols(ls, image).len() == ls.len(),
        forall|j: int| 0 <= j < ls.len() ==> match nm_entry(ls[j]) {
            Some((name, v)) => #[trigger] nm_symbols(ls, image)[j] == (name, image, v),
            None => false,
        },
    decreases ls.len(),
{
    if ls.len() > 0 {
        let d = ls.drop_last();
        assert forall|j: int| 0 <= j < d.len() implies nm_entry(#[trigger] d[j]) is Some by {
            assert(d[j] == ls[j]);
        }
        law_nm_symbols_one_per_line(d, image);
        assert(nm_entry(ls[ls.len() - 1]) is Some);
        assert forall|j: int| 0 <= j < ls.len() implies match nm_entry(ls[j]) {
            Some((name, v)) => #[trigger] nm_symbols(ls, image)[j] == (name, image, v),
            None => false,
        } by {
            if j < ls.len() - 1 {
                assert(d[j] == ls[j]);
            }
        }
    }
}

/// The symbols of the lines `ls`, as (name, image, address), in order.
pub open spec fn nm_symbols(ls: Seq<Seq<char>>, image: Seq<char>) -> Seq<(Seq<char>, Seq<char>, u64)>
    decreases ls.len(),
{
    if ls.len() == 0 {
        Seq::empty()
    } else {
        let prev = nm_symbols(ls.drop_last(), image);
        match nm_entry(ls.last()) {
            Some((name, v)) => prev.push((name, image, v)),
            None => prev,
        }
    }
}

pub open spec fn triples_view(v: Seq<(String, String, u64)>) -> Seq<(Seq<char>, Seq<char>, u64)> {
    v.map_values(|t: (String, String, u64)| (t.0@, t.1@, t.2))
}

fn is_exported_kind(k: &[char]) -> (b: bool)
    ensures
        b == exported_kind(k@),
{
    equals(k, "T") || equals(k, "W") || equals(k, "R") || equals(k, "D")
}

/// Parses `nm -D --defined-only` output for the image `image`.
pub fn parse_nm_symbols(output: &str, image: &str) -> (syms: Vec<(String, String, u64)>)
    ensures
        triples_view(syms@) == nm_symbols(lines(output@), image@),
{
    let chars = chars_of(output);
    let ls = lines_of(chars.as_slice());
    let ghost lv = vec_views(ls@);
    assert(lv =~= lines(output@));
    let mut out: Vec<(String, String, u64)> = Vec::new();
    let mut i: usize = 0;
    assert(lv.subrange(0, 0) =~= Seq::<Seq<char>>::empty());
    assert(triples_view(out@) =~= Seq::<(Seq<char>, Seq<char>, u64)>::empty());
    while i < ls.len()
        invariant
            i <= ls@.len(),
            lv == vec_views(ls@),
            triples_view(out@) == nm_symbols(lv.subrange(0, i as int), image@),
        decreases ls@.len() - i,
    {
        assert(lv.subrange(0, i + 1).drop_last() =~= lv.subrange(0, i as int));
        assert(lv.subrange(0, i + 1).last() == ls@[i as int]@);
        let cols = words(ls[i].as_slice());
        let ghost cv = vec_views(cols@);
        if cols.len() >= 3 && is_exported_kind(cols[1].as_slice()) {
            assert(cv[1] == cols@[1]@ && cv[0] == cols@[0]@ && cv[2] == cols@[2]@);
            match parse_u64_radix(cols[0].as_slice(), 16) {
                Ok(v) => {
                    let ghost before = triples_view(out@);
                    out.push((string_of(cols[2].as_slice()), String::from_str(image), v));
                    assert(triples_view(out@) =~= before.push((cv[2], image@, v)));
                },
                Err(_) => {},
            }
        } else {
            proof {
                if cols@.len() >= 3 {
                    assert(cv[1] == cols@[1]@);
                }
            }
        }
        i += 1;
    }
    assert(lv.subrange(0, lv.len() as int) =~= lv);
    out
}

/// The KPM package manifest of a new tweak project.
pub open spec fn package_manifest_spec(name: Seq<char>) -> Seq<char> {
    "{\n  \"id\": \"com.example."@ + name + "\",\n  \"name\": \""@ + name
        + "\",\n  \"version\": \"0.1.0\",\n  \"depends\": [\"com.bd452.ksubstrate\"]\n}\n"@
}

/// The manifest of the tweak payload inside the package.
pub open spec fn tweak_manifest_spec(name: Seq<char>) -> Seq<char> {
    "{\n  \"id\": \"com.example."@ + name + "\",\n  \"name\": \""@ + name
        + "\",\n  \"version\": [0, 1, 0],\n  \"filter\": \"tweak.ksfilter\",\n  \"library\": \"tweak.so\"\n}\n"@
}

pub fn package_manifest_json(name: &str) -> (s: String)
    ensures
        s@ == package_manifest_spec(name@),
{
    let mut s = String::from_str("{\n  \"id\": \"com.example.");
    push_str(&mut s, name);
    push_str(&mut s, "\",\n  \"name\": \"");
    push_str(&mut s, name);
    push_str(&mut s, "\",\n  \"version\": \"0.1.0\",\n  \"depends\": [\"com.bd452.ksubstrate\"]\n}\n");
    s
}

pub fn tweak_manifest_json(name: &str) -> (s: String)
    ensures
        s@ == tweak_manifest_spec(name@),
{
    let mut s = String::from_str("{\n  \"id\": \"com.example.");
    push_str(&mut s, name);
    push_str(&mut s, "\",\n  \"name\": \"");
    push_str(&mut s, name);
    push_str(&mut s, "\",\n  \"version\": [0, 1, 0],\n  \"filter\": \"tweak.ksfilter\",\n  \"library\": \"tweak.so\"\n}\n");
    s
}

/// `name` with each `-` replaced by `_` (a crate name).
pub open spec fn crate_name(name: Seq<char>) -> Seq<char> {
    name.map_values(|c: char| if c == '-' { '_' } else { c })
}

/// The Cargo manifest of a new tweak project.
pub open spec fn cargo_toml_spec(name: Seq<char>) -> Seq<char> {
    "[package]\nname = \""@ + crate_name(name)
        + "\"\nversion = \"0.1.0\"\nedition = \"2021\"\n\n[lib]\ncrate-type = [\"cdylib\"]\n\n[dependencies]\nksubstrate = { path = \"../ksubstrate\" }\n"@
}

pub fn cargo_toml(name: &str) -> (s: String)
    ensures
        s@ == cargo_toml_spec(name@),
{
    let chars = chars_of(name);
    let mut c: Vec<char> = Vec::new();
    let mut i: usize = 0;
    while i < chars.len()
        invariant
            i <= chars@.len(),
            chars@ == name@,
            c@ == crate_name(chars@.subrange(0, i as int)),
        decreases chars@.len() - i,
    {
        c.push(if chars[i] == '-' { '_' } else { chars[i] });
        i += 1;
        assert(c@ =~= crate_name(chars@.subrange(0, i as int)));
    }
    assert(chars@.subrange(0, chars@.len() as int) =~= chars@);
    let mut s = String::from_str("[package]\nname = \"");
    push_chars(&mut s, c.as_slice());
    push_str(
        &mut s,
        "\"\nversion = \"0.1.0\"\nedition = \"2021\"\n\n[lib]\ncrate-type = [\"cdylib\"]\n\n[dependencies]\nksubstrate = { path = \"../ksubstrate\" }\n",
    );
    s
}

/// The value after the first occurrence of the option `name` that has one.
pub open spec fn option_value_spec(args: Seq<Seq<char>>, name: Seq<char>) -> Option<Seq<char>>
    decreases args.len(),
{
    if args.len() < 2 {
        None
    } else if args[0] == name {
        Some(args[1])
    } else {
        option_value_spec(args.drop_first(), name)
    }
}

pub open spec fn strings_view(v: Seq<String>) -> Seq<Seq<char>> {
    v.map_values(|s: String| s@)
}

/// The value given to option `name` (`--name value`).
pub fn option_value(args: &[String], name: &str) -> (r: Option<String>)
    ensures
        match option_value_spec(strings_view(args@), name@) {
            Some(v) => r matches Some(s) && s@ == v,
            None => r is None,
        },
{
    let ghost av = strings_view(args@);
    let mut i: usize = 0;
    assert(av.subrange(0, av.len() as int) =~= av);
    while args.len() - i >= 2
        invariant
            i <= args@.len(),
            av == strings_view(args@),
            option_value_spec(av, name@) == option_value_spec(av.subrange(i as int, av.len() as int), name@),
        decreases args@.len() - i,
    {
        let ghost rest = av.subrange(i as int, av.len() as int);
        assert(rest[0] == args@[i as int]@ && rest[1] == args@[i + 1]@);
        if str_eq(args[i].as_str(), name) {
            return Some(args[i + 1].clone());
        }
        assert(rest.drop_first() =~= av.subrange(i + 1, av.len() as int));
        i += 1;
    }
    None
}

/// The Rust target a `ksub build --platform` builds for: none for `host`,
/// the device triples for `kindlehf` and `kindlepw2`.
pub open spec fn build_target_spec(platform: Seq<char>) -> Result<Option<Seq<char>>, Seq<char>> {
    if platform == "host"@ {
        Ok(None)
    } else if platform == "kindlehf"@ {
        Ok(Some("armv7-unknown-linux-gnueabihf"@))
    } else if platform == "kindlepw2"@ {
        Ok(Some("armv7-unknown-linux-gnueabi"@))
    } else {
        Err("unknown platform: "@ + platform)
    }
}

pub fn build_target(platform: &str) -> (r: Result<Option<String>, String>)
    ensures
        match build_target_spec(platform@) {
            Ok(Some(t)) => r matches Ok(Some(s)) && s@ == t,
            Ok(None) => r matches Ok(None),
            Err(e) => r matches Err(m) && m@ == e,
        },
{
    if str_eq(platform, "host") {
        Ok(None)
    } else if str_eq(platform, "kindlehf") {
        Ok(Some(String::from_str("armv7-unknown-linux-gnueabihf")))
    } else if str_eq(platform, "kindlepw2") {
        Ok(Some(String::from_str("armv7-unknown-linux-gnueabi")))
    } else {
        let mut m = String::from_str("unknown platform: ");
        push_str(&mut m, platform);
        Err(m)
    }
}

/// The entry of one extracted symbol in the symbol-database YAML.
pub open spec fn yaml_entry(t: (Seq<char>, Seq<char>, u64)) -> Seq<char> {
    "  - name: \""@ + t.0 + "\"\n    image: \""@ + t.1 + "\"\n    rva: 0x"@ + hex(t.2)
        + "\n    prologue: \"\"\n    source: \"nm-dynsym\"\n"@
}

pub open spec fn yaml_entries(ts: Seq<(Seq<char>, Seq<char>, u64)>) -> Seq<char>
    decreases ts.len(),
{
    if ts.len() == 0 {
        Seq::empty()
    } else {
        yaml_entries(ts.drop_last()) + yaml_entry(ts.last())
    }
}

/// The symbol database `ksub analyze` writes for the exports found in the
/// directory `input`; a template to fill in by hand when there are none.
pub open spec fn analysis_yaml_spec(input: Seq<char>, firmware: Seq<char>, ts: Seq<(Seq<char>, Seq<char>, u64)>) -> Seq<char> {
    if ts.len() == 0 {
        "# No ELF exports extracted from "@ + input
            + " (nm unavailable or no binaries).\n# Fill in manually: pull binaries with `ksub pull`, or add RVAs from Ghidra.\nfirmware: \""@
            + firmware
            + "\"\nsymbols:\n  - name: \"example.symbol\"\n    image: \"example-binary\"\n    rva: 0x0\n    prologue: \"\"\n    source: \"template\"\n"@
    } else {
        "# Extracted exported symbols from "@ + input + "\nfirmware: \""@ + firmware + "\"\nsymbols:\n"@ + yaml_entries(ts)
    }
}

pub fn analysis_yaml(input: &str, firmware: &str, symbols: &Vec<(String, String, u64)>) -> (y: String)
    ensures
        y@ == analysis_yaml_spec(input@, firmware@, triples_view(symbols@)),
{
    let mut y = String::new();
    if symbols.len() == 0 {
        push_str(&mut y, "# No ELF exports extracted from ");
        push_str(&mut y, input);
        push_str(
            &mut y,
            " (nm unavailable or no binaries).\n# Fill in manually: pull binaries with `ksub pull`, or add RVAs from Ghidra.\nfirmware: \"",
        );
        push_str(&mut y, firmware);
        push_str(
            &mut y,
            "\"\nsymbols:\n  - name: \"example.symbol\"\n    image: \"example-binary\"\n    rva: 0x0\n    prologue: \"\"\n    source: \"template\"\n",
        );
        assert(y@ =~= analysis_yaml_spec(input@, firmware@, triples_view(symbols@)));
        return y;
    }
    push_str(&mut y, "# Extracted exported symbols from ");
    push_str(&mut y, input);
    push_str(&mut y, "\nfirmware: \"");
    push_str(&mut y, firmware);
    push_str(&mut y, "\"\nsymbols:\n");
    let ghost head = y@;
    let ghost tv = triples_view(symbols@);
    let mut i: usize = 0;
    assert(tv.subrange(0, 0) =~= Seq::<(Seq<char>, Seq<char>, u64)>::empty());
    while i < symbols.len()
        invariant
            i <= symbols@.len(),
            tv == triples_view(symbols@),
            y@ == head + yaml_entries(tv.subrange(0, i as int)),
        decreases symbols@.len() - i,
    {
        let (name, image, rva) = &symbols[i];
        push_str(&mut y, "  - name: \"");
        push_str(&mut y, name.as_str());
        push_str(&mut y, "\"\n    image: \"");
        push_str(&mut y, image.as_str());
        push_str(&mut y, "\"\n    rva: 0x");
        push_hex(&mut y, *rva);
        push_str(&mut y, "\n    prologue: \"\"\n    source: \"nm-dynsym\"\n");
        assert(tv.subrange(0, i + 1).drop_last() =~= tv.subrange(0, i as int));
        assert(tv[i as int] == (name@, image@, *rva));
        assert(y@ =~= head + yaml_entries(tv.subrange(0, i + 1)));
        i += 1;
    }
    assert(tv.subrange(0, tv.len() as int) =~= tv);
    y
}

} // verus!
