use signalkit::symbols::{escape_c, parse_symbol_db, parse_u64, unquote};

#[test]
fn parses_and_generates_header() {
    let input = r#"
firmware: "5.16.2"
symbols:
  - name: "Reader::openBook"
    image: "/usr/bin/reader"
    rva: 0x1234
    prologue: "00112233"
    source: "manual"
"#;
    let db = parse_symbol_db(input).unwrap();
    assert_eq!(db.lookup("Reader::openBook").unwrap().rva, 0x1234);
    assert!(db.to_header().contains("Reader::openBook"));
}

#[test]
fn header_lists_entries_under_a_firmware_guard() {
    let input = "firmware: 5.16.2\n- name: a\"b\n  rva: 16\n  image: /bin/x\n- name: c\n";
    let db = parse_symbol_db(input).unwrap();
    assert_eq!(db.symbols.len(), 2);
    assert_eq!(db.symbols[1].source, "unknown");
    assert_eq!(db.symbols[1].prologue, None);
    let h = db.to_header();
    assert!(h.starts_with("#ifndef KSUB_SYMS_5_16_2\n#define KSUB_SYMS_5_16_2\n"));
    assert!(h.contains("    {\"a\\\"b\", \"/bin/x\", 0x10, \"\"},\n"));
    assert!(h.contains("    {\"c\", \"\", 0x0, \"\"},\n"));
    assert!(h.ends_with("};\n\n#endif\n"));
    assert!(db.lookup("zzz").is_none());
}

#[test]
fn symbol_db_errors() {
    assert_eq!(parse_symbol_db("symbols:\n").err().unwrap(), "missing firmware field");
    assert_eq!(parse_symbol_db("firmware: 1\nbogus line\n").err().unwrap(), "invalid symbol db line: bogus line");
    assert_eq!(
        parse_symbol_db("firmware: 1\n- name: f\n  rva: 0xzz\n").err().unwrap(),
        "invalid hex rva 0xzz: invalid digit found in string"
    );
    assert_eq!(
        parse_symbol_db("firmware: 1\n- name: f\n  rva: 99999999999999999999\n").err().unwrap(),
        "invalid rva 99999999999999999999: number too large to fit in target type"
    );
}

#[test]
fn rva_and_quote_helpers() {
    let v: Vec<char> = "0x".chars().collect();
    assert_eq!(parse_u64(&v).err().unwrap(), "invalid hex rva 0x: cannot parse integer from empty string");
    let v: Vec<char> = "+42".chars().collect();
    assert_eq!(parse_u64(&v), Ok(42));
    let q: Vec<char> = "\"x\"".chars().collect();
    assert_eq!(unquote(&q), vec!['x']);
    let one: Vec<char> = "\"".chars().collect();
    assert_eq!(unquote(&one), vec!['"']);
    let e: Vec<char> = "a\\\"".chars().collect();
    assert_eq!(escape_c(&e).into_iter().collect::<String>(), "a\\\\\\\"");
}
