use signalkit::filters::{
    add_filter_tokens, comm_token_matches, filter_matches, merge_roots, proc_comm_is, root_path_candidates,
};

#[test]
fn filter_matches_truncated_comm() {
    assert_eq!("ksubstrate-demo-target".len(), 22);
    assert!(comm_token_matches("ksubstrate-demo-target", "ksubstrate-demo"));
    assert!(comm_token_matches("pillow", "pillow"));
    assert!(!comm_token_matches("ksubstrate-demo-target", "ksubstrate-dem"));
    assert!(!comm_token_matches("appmgrd", "pillow"));
}

#[test]
fn filters_ignore_comments_and_match_exact_comm() {
    let contents = "# comment\npillow\n";
    assert!(filter_matches(contents, "pillow"));
    assert!(!filter_matches(contents, "appmgrd"));
}

#[test]
fn wildcard_and_trailing_comment_lines() {
    assert!(filter_matches("  * # everything\n", "anything"));
    assert!(filter_matches("reader # the book reader\n", "reader"));
    assert!(!filter_matches("", "reader"));
    assert!(!comm_token_matches("", ""));
}

#[test]
fn filter_root_names_collects_tokens_excluding_wildcards() {
    let mut names: Vec<String> = Vec::new();
    add_filter_tokens(&mut names, "# comment\ncooltool\n*\ncooltool\n");
    assert_eq!(names, vec!["cooltool".to_owned()]);
    add_filter_tokens(&mut names, "other # x\ncooltool\n");
    assert_eq!(names, vec!["cooltool".to_owned(), "other".to_owned()]);
}

#[test]
fn spawn_root_candidates_and_merge() {
    let c = root_path_candidates("cooltool");
    assert_eq!(c, vec!["/usr/bin/cooltool", "/usr/sbin/cooltool", "/bin/cooltool", "/sbin/cooltool"]);
    let mut roots = vec!["/usr/bin/pillow".to_owned()];
    merge_roots(&mut roots, &vec!["/usr/bin/pillow".to_owned(), "/bin/cooltool".to_owned()]);
    assert_eq!(roots, vec!["/usr/bin/pillow".to_owned(), "/bin/cooltool".to_owned()]);
}

#[test]
fn proc_comm_names_are_cut_to_fifteen_bytes() {
    assert!(proc_comm_is("pillow\n", "pillow"));
    assert!(!proc_comm_is("pillow\n", "appmgrd"));
    assert!(proc_comm_is("ksubstrate-demo\n", "ksubstrate-demo-target"));
    assert!(!proc_comm_is("ksubstrate-dem\n", "ksubstrate-demo-target"));
}
