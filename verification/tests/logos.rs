use signalkit::logos::{emit_hookf, expand_hookf, expand_ksym, matching_delim, preprocess, split_param, split_top_level};
use signalkit::logos::ksym_input_ok;

fn chars(s: &str) -> Vec<char> {
    s.chars().collect()
}

fn text(v: &[char]) -> String {
    v.iter().collect()
}

#[test]
fn rewrites_ctor() {
    let output = preprocess("%ctor {\n%init;\n}");
    assert!(output.contains("__attribute__((constructor))"));
    assert!(output.contains("ksub-logos init"));
}

#[test]
fn expands_ksym() {
    let out = expand_ksym("void *p = KSYM(\"Reader::openBook\");");
    assert_eq!(out, "void *p = kh_find_symbol(0, \"Reader::openBook\");");
}

#[test]
fn expands_hookf_with_orig_forwarding() {
    let input = "%hookf(int, KSYM(\"Reader::openBook\"), void *self, const char *path) {\n    return %orig;\n}\n";
    let out = preprocess(input);
    assert!(out.contains("static int (*ksub_orig_1)(void *, const char *);"));
    assert!(out.contains("static int ksub_hook_1(void * self, const char * path)"));
    assert!(out.contains("return ksub_orig_1(self, path);"));
    assert!(out.contains("kh_hook_function(ksub_target_1, (void *)ksub_hook_1, (void **)&ksub_orig_1);"));
    assert!(out.contains("kh_find_symbol(0, \"Reader::openBook\")"));
}

#[test]
fn splits_param_types_and_names() {
    assert_eq!(split_param("const char *path"), Some(("const char *".to_owned(), "path".to_owned())));
    assert_eq!(split_param("int n"), Some(("int".to_owned(), "n".to_owned())));
    assert_eq!(split_param("void"), None);
}

#[test]
fn preprocess_output_is_exact() {
    let out = preprocess("a %init b\r\nc");
    assert_eq!(out, "#include <ksubstrate.h>\na /* ksub-logos init */ b\nc\n");
}

#[test]
fn hookf_without_params_uses_void_and_numbers_hooks() {
    let out = expand_hookf("x %hookf(void, t) {%orig;} %hookf(int, u) {}");
    assert!(out.starts_with("x static void (*ksub_orig_1)(void);\nstatic void ksub_hook_1(void) {ksub_orig_1();}\n"));
    assert!(out.contains("void *ksub_target_1 = (void *)(t);\n"));
    assert!(out.contains("static int (*ksub_orig_2)(void);"));
    assert!(out.ends_with("}\n"));
}

#[test]
fn malformed_and_unclosed_hookf() {
    assert_eq!(
        text(&emit_hookf(3, &chars("onlyret"), &chars(""))),
        "/* ksub-logos: malformed %hookf signature: onlyret */"
    );
    assert_eq!(expand_hookf("%hookf no paren"), "%hookf no paren");
    assert_eq!(expand_hookf("a %hookf(int, t"), "a %hookf(int, t");
    assert_eq!(expand_hookf("%hookf(int, t) ;"), "%hookf(int, t) ;");
}

#[test]
fn delimiters_and_top_level_split() {
    let s = chars("f(a, \")\", (b)) tail");
    assert_eq!(matching_delim(&s, 1, '(', ')'), Some(13));
    assert_eq!(matching_delim(&s, 0, '(', ')'), None);
    let parts = split_top_level(&chars("int, g(a, b), \"x,y\",  "), ',');
    let parts: Vec<String> = parts.iter().map(|p| text(p)).collect();
    assert_eq!(parts, vec!["int", " g(a, b)", " \"x,y\""]);
    assert_eq!(expand_ksym("KSYM(  spaced  ) KSYM(open"), "kh_find_symbol(0, spaced) KSYM(open");
}

#[test]
fn ksym_input_check_matches_what_preprocess_accepts() {
    assert!(ksym_input_ok("void *p = KSYM(\"Reader::openBook\");\n"));
    assert!(ksym_input_ok("KSYM(\"caf\u{e9}\")"));
    assert!(!ksym_input_ok("// caf\u{e9}\n"));
    assert!(ksym_input_ok(""));
}
