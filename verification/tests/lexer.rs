use mimir::dt_lexer::{lex, DTError, DTInfo};

fn s(x: &str) -> String {
    x.to_string()
}

#[test]
fn lex_empty_source() {
    let events = lex(&s("")).expect("lex");
    assert_eq!(events, vec![DTInfo::EOF]);
}

#[test]
fn lex_unlabeled_node() {
    let events = lex(&s("name { };")).expect("lex");
    assert_eq!(
        events,
        vec![
            DTInfo::Node(None, s("name")),
            DTInfo::NodeEnd,
            DTInfo::EOF
        ]
    );
}

#[test]
fn lex_labeled_node() {
    let events = lex(&s("lbl: node@1 { };")).expect("lex");
    assert_eq!(
        events,
        vec![
            DTInfo::Node(Some(s("lbl")), s("node@1")),
            DTInfo::NodeEnd,
            DTInfo::EOF
        ]
    );
}

#[test]
fn lex_bare_property() {
    let events = lex(&s("a { ranges; };")).expect("lex");
    assert_eq!(
        events,
        vec![
            DTInfo::Node(None, s("a")),
            DTInfo::Property(s("ranges"), None),
            DTInfo::NodeEnd,
            DTInfo::EOF
        ]
    );
}

#[test]
fn lex_angle_value_keeps_delimiters() {
    let events = lex(&s("a { reg = <1 2>; };")).expect("lex");
    assert_eq!(
        events,
        vec![
            DTInfo::Node(None, s("a")),
            DTInfo::Property(s("reg"), Some(s("< 1 2 >"))),
            DTInfo::NodeEnd,
            DTInfo::EOF
        ]
    );
}

#[test]
fn lex_quoted_value_keeps_quotes() {
    let events = lex(&s("a { model = \"m1\"; };")).expect("lex");
    assert_eq!(
        events,
        vec![
            DTInfo::Node(None, s("a")),
            DTInfo::Property(s("model"), Some(s("\" m1 \""))),
            DTInfo::NodeEnd,
            DTInfo::EOF
        ]
    );
}

#[test]
fn lex_reference_in_value() {
    let events = lex(&s("a { clocks = <&ref 1>; };")).expect("lex");
    assert_eq!(
        events,
        vec![
            DTInfo::Node(None, s("a")),
            DTInfo::Property(s("clocks"), Some(s("< &ref 1 >"))),
            DTInfo::NodeEnd,
            DTInfo::EOF
        ]
    );
}

#[test]
fn lex_empty_value_is_empty_string() {
    // A value with no pieces before the `;` joins to the empty string.
    let events = lex(&s("a { foo = ; };")).expect("lex");
    assert_eq!(
        events,
        vec![
            DTInfo::Node(None, s("a")),
            DTInfo::Property(s("foo"), Some(s(""))),
            DTInfo::NodeEnd,
            DTInfo::EOF
        ]
    );
}

#[test]
fn lex_line_comment_skipped() {
    let events = lex(&s("// heading note\na { };")).expect("lex");
    assert_eq!(
        events,
        vec![
            DTInfo::Node(None, s("a")),
            DTInfo::NodeEnd,
            DTInfo::EOF
        ]
    );
}

#[test]
fn lex_block_comment_skipped() {
    let events = lex(&s("/* note { ok */ a { };")).expect("lex");
    assert_eq!(
        events,
        vec![
            DTInfo::Node(None, s("a")),
            DTInfo::NodeEnd,
            DTInfo::EOF
        ]
    );
}

#[test]
fn lex_comment_inside_value() {
    let events = lex(&s("a { v = 1 /* gap */ 2; };")).expect("lex");
    assert_eq!(
        events,
        vec![
            DTInfo::Node(None, s("a")),
            DTInfo::Property(s("v"), Some(s("1 2"))),
            DTInfo::NodeEnd,
            DTInfo::EOF
        ]
    );
}

#[test]
fn lex_import_event() {
    let src = format!("{}nclude \"B\"\na {{ }};", "#i");
    let events = lex(&src).expect("lex");
    assert_eq!(
        events,
        vec![
            DTInfo::Import(s("B")),
            DTInfo::Node(None, s("a")),
            DTInfo::NodeEnd,
            DTInfo::EOF
        ]
    );
}

#[test]
fn lex_import_slash_form_with_angles() {
    let src = format!("/{}nclude/ <sub.dtsi>\n", "i");
    let events = lex(&src).expect("lex");
    assert_eq!(events, vec![DTInfo::Import(s("sub.dtsi")), DTInfo::EOF]);
}

#[test]
fn lex_define() {
    let events = lex(&s("#define FOO 1\n")).expect("lex");
    assert_eq!(events, vec![DTInfo::Define(s("FOO"), s("1")), DTInfo::EOF]);
}

#[test]
fn lex_define_multiword_value() {
    let events = lex(&s("#define GPIO (1 << 2)\n")).expect("lex");
    assert_eq!(
        events,
        vec![DTInfo::Define(s("GPIO"), s("(1 << 2)")), DTInfo::EOF]
    );
}

#[test]
fn lex_define_without_value_fails() {
    let r = lex(&s("#define FOO\n"));
    assert_eq!(r, Err(DTError::BadDefine(11)));
}

#[test]
fn lex_directive_without_target() {
    let events = lex(&s("/dts-v1/;\n")).expect("lex");
    assert_eq!(
        events,
        vec![DTInfo::Directive(s("dts-v1"), None), DTInfo::EOF]
    );
}

#[test]
fn lex_directive_with_reference_target() {
    let events = lex(&s("/delete-node/ &foo;")).expect("lex");
    assert_eq!(
        events,
        vec![DTInfo::Directive(s("delete-node"), Some(s("&foo"))), DTInfo::EOF]
    );
}

#[test]
fn lex_directive_with_path_target() {
    let events = lex(&s("/delete-node/ a/b;")).expect("lex");
    assert_eq!(
        events,
        vec![DTInfo::Directive(s("delete-node"), Some(s("a/b"))), DTInfo::EOF]
    );
}

#[test]
fn lex_memory_reservation_is_an_opaque_directive() {
    let events = lex(&s("/memreserve/ 0x100 0x200;\n")).expect("lex");
    assert_eq!(
        events,
        vec![
            DTInfo::Directive(s("memreserve"), Some(s("0x1000x200"))),
            DTInfo::EOF
        ]
    );
}

#[test]
fn lex_label_head_with_comment() {
    let events = lex(&s("lbl: /* alias */ n { };")).expect("lex");
    assert_eq!(
        events,
        vec![
            DTInfo::Node(Some(s("lbl")), s("n")),
            DTInfo::NodeEnd,
            DTInfo::EOF
        ]
    );
}

#[test]
fn lex_reference_reopen() {
    let events = lex(&s("&lbl { };")).expect("lex");
    assert_eq!(
        events,
        vec![DTInfo::RefNode(s("lbl")), DTInfo::NodeEnd, DTInfo::EOF]
    );
}

#[test]
fn lex_unknown_symbol() {
    let r = lex(&s("$\n"));
    assert_eq!(r, Err(DTError::UnknownSymbol(s("$"), 0)));
}

#[test]
fn lex_unterminated_block_comment() {
    let r = lex(&s("/* open"));
    assert_eq!(r, Err(DTError::UnexpectedEOF(7)));
}

#[test]
fn lex_unterminated_value() {
    let r = lex(&s("a { v = 1"));
    assert_eq!(r, Err(DTError::UnexpectedEOF(9)));
}

#[test]
fn lex_bad_token_after_name() {
    let r = lex(&s("a > b;"));
    assert_eq!(r, Err(DTError::Why(s(">"), 2)));
}

#[test]
fn lex_reference_without_open_brace() {
    let r = lex(&s("&lbl;"));
    assert_eq!(r, Err(DTError::Why(s(";"), 4)));
}
