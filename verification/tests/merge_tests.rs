use envmerge::env_map::EnvMap;
use envmerge::merge::{merge_append_text, compute_new_entries, render_entries};
use envmerge::parse::{read_template, scan_env};

fn v(s: &str) -> Vec<u8> {
    s.as_bytes().to_vec()
}

fn merged(existing: &str, templates: &[&str]) -> Vec<u8> {
    let existing_bytes = v(existing);
    let template_bytes: Vec<Vec<u8>> = templates.iter().map(|t| v(t)).collect();
    let appended = merge_append_text(&existing_bytes, &template_bytes);
    let mut result = existing_bytes;
    result.extend(appended);
    result
}

#[test]
fn appends_only_missing_key() {
    // Destination defines A; template redeclares A and adds B.
    assert_eq!(merged("A=1\n", &["A=2\nB=3\n"]), v("A=1\nB=3\n"));
}

#[test]
fn unterminated_last_line_gets_one_newline() {
    assert_eq!(merged("A=1", &["B=2"]), v("A=1\nB=2\n"));
}

#[test]
fn newline_added_even_without_new_keys() {
    assert_eq!(merged("A=1", &["A=2"]), v("A=1\n"));
}

#[test]
fn second_run_appends_nothing() {
    let templates = ["X=1\n", "Y=2 # note\nZ=3\n"];
    let once = merged("A=1", &templates);
    let once_text = String::from_utf8(once.clone()).unwrap();
    let twice = merged(&once_text, &templates);
    assert_eq!(once, twice);
}

#[test]
fn existing_value_never_rewritten() {
    let after = merged("A=1\n", &["A=999\n"]);
    assert_eq!(after, v("A=1\n"));
    let (vars, _) = scan_env(&after);
    assert_eq!(vars.get(&v("A")), Some(v("1")));
}

#[test]
fn last_template_wins_for_new_key() {
    assert_eq!(merged("", &["A=1\n", "A=2\n"]), v("A=2\n"));
}

#[test]
fn later_line_wins_within_one_template() {
    assert_eq!(merged("", &["A=1\nA=2\n"]), v("A=2\n"));
}

#[test]
fn comment_in_destination_defines_nothing() {
    assert_eq!(merged("#A=1\n", &["A=2\n"]), v("#A=1\nA=2\n"));
}

#[test]
fn destination_scanner_trims_key_and_value() {
    let existing = v("  A = 1 # c\n");
    let (vars, add_line_break) = scan_env(&existing);
    assert!(!add_line_break);
    assert_eq!(vars.get(&v("A")), Some(v("1")));
    assert_eq!(merged("  A = 1 # c\n", &["A=2\n"]), v("  A = 1 # c\n"));
}

#[test]
fn destination_inline_comment_stripped_from_value() {
    let (vars, _) = scan_env(&v("A=1#x\n"));
    assert_eq!(vars.get(&v("A")), Some(v("1")));
}

#[test]
fn scan_env_reports_missing_terminator() {
    assert!(scan_env(&v("A=1")).1);
    assert!(!scan_env(&v("A=1\n")).1);
    assert!(!scan_env(&v("")).1);
}

#[test]
fn empty_destination_and_templates() {
    assert_eq!(merged("", &[]), v(""));
    assert_eq!(merged("", &[""]), v(""));
}

#[test]
fn empty_key_template_line_appends_nothing() {
    assert_eq!(merged("", &["=1\n"]), v(""));
    assert_eq!(merged("A=1\n", &["=2\nB=3\n"]), v("A=1\nB=3\n"));
}

#[test]
fn template_key_kept_verbatim() {
    // The template grammar does not trim keys: the leading space stays.
    assert_eq!(merged("", &[" A=1\n"]), v(" A=1\n"));
}

#[test]
fn empty_template_value_appended() {
    assert_eq!(merged("", &["A=\n"]), v("A=\n"));
}

#[test]
fn compute_new_entries_keeps_template_order() {
    let mut template_vars = EnvMap::new();
    read_template(&v("A=1\nB=2\nC=3\n"), &mut template_vars);
    let mut env_vars = EnvMap::new();
    env_vars.insert(v("B"), v("9"));
    let new_pairs = compute_new_entries(&template_vars, &env_vars);
    assert_eq!(new_pairs.len(), 2);
    assert_eq!(new_pairs[0], (v("A"), v("1")));
    assert_eq!(new_pairs[1], (v("C"), v("3")));
    assert_eq!(render_entries(&new_pairs), v("A=1\nC=3\n"));
}

#[test]
fn env_map_insert_overwrites_in_place() {
    let mut vars = EnvMap::new();
    vars.insert(v("A"), v("1"));
    vars.insert(v("B"), v("2"));
    vars.insert(v("A"), v("3"));
    assert_eq!(vars.len(), 2);
    assert_eq!(vars.key_at(0), &v("A"));
    assert_eq!(vars.value_at(0), &v("3"));
    assert_eq!(vars.get(&v("B")), Some(v("2")));
    assert_eq!(vars.get(&v("C")), None);
    assert!(vars.contains_key(&v("A")));
    assert!(!vars.contains_key(&v("C")));
}
