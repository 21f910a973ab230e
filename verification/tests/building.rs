use mimir::builder::{Builder, StepResult};
use mimir::dt_lexer::lex;
use mimir::root::{Root, RootError};

fn s(x: &str) -> String {
    x.to_string()
}

/// Builds a tree from one source without imports.
fn run(src: &str) -> Result<Root, RootError> {
    let events = lex(&s(src)).expect("lex");
    let mut b = Builder::new(events);
    loop {
        match b.step()? {
            StepResult::Done => return Ok(b.finish()),
            StepResult::Progress => {},
            StepResult::NeedImport(f) => panic!("unexpected import request: {}", f),
        }
    }
}

#[test]
fn build_empty_source() {
    let r = run("").expect("build");
    assert!(r.the_root.is_none());
    assert_eq!(r.defines.len(), 0);
    assert_eq!(r.labels.len(), 0);
}

#[test]
fn build_single_node() {
    // one well-formed declaration gives exactly one node of that name
    let r = run("name { };").expect("build");
    let top = r.the_root.as_ref().unwrap();
    assert_eq!(top.name, s("name"));
    assert_eq!(top.children.len(), 0);
    assert_eq!(top.properties.len(), 0);
}

#[test]
fn build_nested_nodes_and_properties() {
    let r = run("top { a { reg = <1 2>; }; flag; };").expect("build");
    let top = r.the_root.as_ref().unwrap();
    let a = top.get_child(&s("a")).unwrap();
    assert_eq!(a.get_properties(), vec![(s("reg"), Some(s("< 1 2 >")))]);
    assert_eq!(top.get_properties(), vec![(s("flag"), None)]);
}

#[test]
fn build_reopen_merges_and_later_value_wins() {
    let src = "top { a { k = 1; other; }; a { k = 2; }; };";
    let r = run(src).expect("build");
    let top = r.the_root.as_ref().unwrap();
    assert_eq!(top.children.len(), 1);
    let a = top.get_child(&s("a")).unwrap();
    let props = a.get_properties();
    assert_eq!(props.len(), 2);
    assert!(props.contains(&(s("other"), None)));
    assert!(props.contains(&(s("k"), Some(s("2")))));
}

#[test]
fn build_label_reopen_attaches_to_same_node() {
    let src = "top { l: n { a = 1; }; };\n&l { p = \"v\"; };";
    let r = run(src).expect("build");
    let top = r.the_root.as_ref().unwrap();
    assert_eq!(top.children.len(), 1);
    let n = top.get_child(&s("n")).unwrap();
    let props = n.get_properties();
    assert!(props.contains(&(s("a"), Some(s("1")))));
    assert!(props.contains(&(s("p"), Some(s("\" v \"")))));
}

#[test]
fn build_unknown_label_fails() {
    let e = run("top { };\n&nope { };");
    assert_eq!(e.err(), Some(RootError::UnknownLabel));
}

#[test]
fn build_delete_by_label_then_lookup_fails() {
    let src = "top { l: n { a = 1; }; };\n/delete-node/ &l;";
    let r = run(src).expect("build");
    let top = r.the_root.as_ref().unwrap();
    assert!(top.get_child(&s("n")).is_none());
    let mut r = r;
    assert_eq!(r.get_path(s("l")), Err(RootError::UnknownLabel));
}

#[test]
fn build_delete_by_label_then_reference_fails() {
    let src = "top { l: n { }; };\n/delete-node/ &l;\n&l { };";
    let e = run(src);
    assert_eq!(e.err(), Some(RootError::UnknownLabel));
}

#[test]
fn build_unbalanced_close_fails_with_bad_path() {
    let e = run("a { };\n};");
    assert_eq!(e.err(), Some(RootError::BadPath));
}

#[test]
fn build_delete_node_in_scope() {
    // the delete sees the current scope: `sub` goes, `n1` stays childless
    let src = "n1 { sub { x = \"1\"; };\n/delete-node/ sub;\n};";
    let r = run(src).expect("build");
    let n1 = r.the_root.as_ref().unwrap();
    assert_eq!(n1.name, s("n1"));
    assert_eq!(n1.children.len(), 0);
}

#[test]
fn build_delete_node_by_nested_path() {
    let src = "top { a { b { }; }; /delete-node/ a/b; };";
    let r = run(src).expect("build");
    let top = r.the_root.as_ref().unwrap();
    let a = top.get_child(&s("a")).unwrap();
    assert!(a.get_child(&s("b")).is_none());
}

#[test]
fn build_delete_missing_node_fails() {
    let e = run("top { /delete-node/ ghost; };");
    assert_eq!(e.err(), Some(RootError::MissingNode));
}

#[test]
fn build_delete_property_directive() {
    let src = "top { k = 1; /delete-property/ k; };";
    let r = run(src).expect("build");
    assert_eq!(r.the_root.as_ref().unwrap().get_properties().len(), 0);
}

#[test]
fn build_unknown_directive_ignored() {
    let r = run("/dts-v1/;\ntop { };").expect("build");
    assert_eq!(r.the_root.as_ref().unwrap().name, s("top"));
}

#[test]
fn build_defines() {
    let r = run("#define FOO 1\n#define BAR 2\ntop { };").expect("build");
    assert_eq!(r.defines.len(), 2);
    assert!(r.defines.contains(&(s("FOO"), s("1"))));
    assert!(r.defines.contains(&(s("BAR"), s("2"))));
}

#[test]
fn build_redefine_fails() {
    let e = run("#define FOO 1\n#define FOO 2\ntop { };");
    assert_eq!(e.err(), Some(RootError::Redefine));
}

#[test]
fn build_import_spliced_depth_first() {
    // The spliced source's nodes are processed before what follows the
    // import line, so `y` stands before `x` among the children.
    let src_a = format!("top {{\n{}nclude \"B\"\nx {{ }};\n}};", "#i");
    let src_b = "y { yp = 1; };";
    let events = lex(&src_a).expect("lex a");
    let mut b = Builder::new(events);
    let mut asked = false;
    let root = loop {
        match b.step().expect("step") {
            StepResult::Done => break b.finish(),
            StepResult::Progress => {},
            StepResult::NeedImport(f) => {
                assert_eq!(f, s("B"));
                asked = true;
                let evs = lex(&s(src_b)).expect("lex b");
                b.supply_import(evs);
            },
        }
    };
    assert!(asked);
    let top = root.the_root.as_ref().unwrap();
    assert_eq!(top.children.len(), 2);
    assert_eq!(top.children[0].name, s("y"));
    assert_eq!(top.children[1].name, s("x"));
    assert_eq!(
        top.get_child(&s("y")).unwrap().get_properties(),
        vec![(s("yp"), Some(s("1")))]
    );
}

#[test]
fn build_nested_import() {
    // B itself imports C; C's node is finished before B's own, and both
    // before what follows in the top source.
    let src_a = format!("top {{\n{}nclude \"B\"\nx {{ }};\n}};", "#i");
    let src_b = format!("{}nclude \"C\"\ny {{ }};\n", "#i");
    let src_c = "z { };";
    let events = lex(&src_a).expect("lex a");
    let mut b = Builder::new(events);
    let root = loop {
        match b.step().expect("step") {
            StepResult::Done => break b.finish(),
            StepResult::Progress => {},
            StepResult::NeedImport(f) => {
                let evs = if f == s("B") {
                    lex(&src_b).expect("lex b")
                } else {
                    assert_eq!(f, s("C"));
                    lex(&s(src_c)).expect("lex c")
                };
                b.supply_import(evs);
            },
        }
    };
    let top = root.the_root.as_ref().unwrap();
    assert_eq!(top.children.len(), 3);
    assert_eq!(top.children[0].name, s("z"));
    assert_eq!(top.children[1].name, s("y"));
    assert_eq!(top.children[2].name, s("x"));
}

#[test]
fn build_second_top_level_node_fails() {
    let e = run("a { };\nb { };");
    assert_eq!(e.err(), Some(RootError::MissingNode));
}
