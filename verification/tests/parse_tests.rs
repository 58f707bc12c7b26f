use envmerge::env_map::EnvMap;
use envmerge::parse::{parse_template_line, parse_env_line, read_template};

fn v(s: &str) -> Vec<u8> {
    s.as_bytes().to_vec()
}

#[test]
fn comment_line_contributes_nothing() {
    // A commented-out declaration defines no variable under either grammar.
    assert_eq!(parse_template_line(&v("# FOO=bar")), None);
    assert_eq!(parse_env_line(&v("# FOO=bar")), None);
    let mut vars = EnvMap::new();
    read_template(&v("# FOO=bar\n"), &mut vars);
    assert!(!vars.contains_key(&v("FOO")));
    assert_eq!(vars.len(), 0);
}

#[test]
fn template_value_cut_at_space_or_hash() {
    assert_eq!(parse_template_line(&v("FOO=baz # note")), Some((v("FOO"), v("baz"))));
    assert_eq!(parse_template_line(&v("FOO=baz#note")), Some((v("FOO"), v("baz"))));
    assert_eq!(parse_template_line(&v("FOO=b c")), Some((v("FOO"), v("b"))));
    assert_eq!(parse_template_line(&v("FOO= x")), Some((v("FOO"), v(""))));
}

#[test]
fn template_key_verbatim_and_split_at_first_equals() {
    assert_eq!(parse_template_line(&v(" A =1")), Some((v(" A "), v("1"))));
    assert_eq!(parse_template_line(&v("A=b=c")), Some((v("A"), v("b=c"))));
}

#[test]
fn template_line_without_equals_skipped() {
    assert_eq!(parse_template_line(&v("JUNK")), None);
    assert_eq!(parse_template_line(&v("")), None);
}

#[test]
fn template_line_with_empty_key_skipped() {
    // A variable name is non-empty: a line starting with `=` declares nothing.
    assert_eq!(parse_template_line(&v("=1")), None);
    let mut vars = EnvMap::new();
    read_template(&v("=1\nA=2\n"), &mut vars);
    assert_eq!(vars.len(), 1);
    assert_eq!(vars.get(&v("A")), Some(v("2")));
}

#[test]
fn template_crlf_terminator_stripped_with_line_feed() {
    // The carriage return of a CRLF terminator goes with the terminator; an
    // unterminated final line keeps a lone trailing carriage return, as a
    // buffered line reader would.
    let mut vars = EnvMap::new();
    read_template(&v("A=b\r\nB=c\r"), &mut vars);
    assert_eq!(vars.get(&v("A")), Some(v("b")));
    assert_eq!(vars.get(&v("B")), Some(v("c\r")));
    // The line parser itself sees lines with terminators already stripped.
    assert_eq!(parse_template_line(&v("A=b\r")), Some((v("A"), v("b\r"))));
}

#[test]
fn env_line_trims_and_strips_inline_comment() {
    assert_eq!(parse_env_line(&v("  A = 1 # c")), Some((v("A"), v("1"))));
    assert_eq!(parse_env_line(&v("A=1\r")), Some((v("A"), v("1"))));
    assert_eq!(parse_env_line(&v("A=b=c")), Some((v("A"), v("b=c"))));
    assert_eq!(parse_env_line(&v("no declaration here")), None);
}

#[test]
fn later_template_line_overwrites_value() {
    let mut vars = EnvMap::new();
    read_template(&v("A=1\nB=2\nA=3\n"), &mut vars);
    assert_eq!(vars.len(), 2);
    assert_eq!(vars.get(&v("A")), Some(v("3")));
    assert_eq!(vars.get(&v("B")), Some(v("2")));
}
