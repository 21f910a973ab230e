use mimir::dt_node::DTNode;
use mimir::root::{Root, RootError};

fn s(x: &str) -> String {
    x.to_string()
}

fn path(segs: &[&str]) -> Vec<String> {
    segs.iter().map(|x| x.to_string()).collect()
}

#[test]
fn node_new_is_empty() {
    let n = DTNode::new(s("a"));
    assert_eq!(n.name, s("a"));
    assert_eq!(n.children.len(), 0);
    assert_eq!(n.properties.len(), 0);
}

#[test]
fn node_add_child_and_get_child() {
    let mut a = DTNode::new(s("a"));
    a.add_child(DTNode::new(s("b")));
    assert!(a.get_child(&s("b")).is_some());
    assert!(a.get_child(&s("c")).is_none());
}

#[test]
fn node_add_child_replaces_same_name() {
    let mut a = DTNode::new(s("a"));
    let b1 = DTNode::new(s("b")).add_property(s("old"), None);
    a.add_child(b1);
    a.add_child(DTNode::new(s("b")));
    assert_eq!(a.children.len(), 1);
    assert_eq!(a.get_child(&s("b")).unwrap().properties.len(), 0);
}

#[test]
fn node_properties_overwrite() {
    let mut a = DTNode::new(s("a"));
    a.add_properties((s("k"), Some(s("v1"))));
    a.add_properties((s("k"), Some(s("v2"))));
    let props = a.get_properties();
    assert_eq!(props, vec![(s("k"), Some(s("v2")))]);
}

#[test]
fn node_remove_child() {
    let mut a = DTNode::new(s("a"));
    a.add_child(DTNode::new(s("b")));
    assert_eq!(a.remove(s("b")), Ok(()));
    assert_eq!(a.remove(s("b")), Err(()));
    assert!(a.get_child(&s("b")).is_none());
}

#[test]
fn node_get_node_walks_absolute_path() {
    let mut a = DTNode::new(s("a"));
    let mut b = DTNode::new(s("b"));
    b.add_child(DTNode::new(s("c")));
    a.add_child(b);
    let c = a.get_node(&path(&["a", "b", "c"])).expect("found");
    assert_eq!(c.name, s("c"));
    assert!(a.get_node(&path(&["a", "x"])).is_none());
    assert!(a.get_node(&path(&["b"])).is_none());
}

#[test]
fn node_add_node_at_path() {
    let mut a = DTNode::new(s("a"));
    a.add_child(DTNode::new(s("b")));
    a.add_node(&path(&["a", "b"]), DTNode::new(s("c")));
    assert!(a.get_node(&path(&["a", "b", "c"])).is_some());
    // an unresolved path changes nothing
    a.add_node(&path(&["a", "x"]), DTNode::new(s("d")));
    assert!(a.get_node(&path(&["a", "x", "d"])).is_none());
}

#[test]
fn node_add_node_get_returns_inserted_child() {
    let mut a = DTNode::new(s("a"));
    let c = a
        .add_node_get(&path(&["a"]), DTNode::new(s("b")).add_property(s("k"), None))
        .expect("inserted");
    assert_eq!(c.name, s("b"));
    assert_eq!(c.get_properties(), vec![(s("k"), None)]);
    assert!(a.add_node_get(&path(&["x"]), DTNode::new(s("d"))).is_none());
}

#[test]
fn node_get_or_add_node() {
    let mut a = DTNode::new(s("a"));
    let fresh = a.get_or_add_node(&path(&["a"]), &s("b")).expect("added").name.clone();
    assert_eq!(fresh, s("b"));
    assert!(a.get_child(&s("b")).is_some());
    // asking again finds the same child instead of duplicating it
    a.get_or_add_node(&path(&["a"]), &s("b")).expect("kept");
    assert_eq!(a.children.len(), 1);
    // the addressed node itself when the name is the path's last segment
    let same = a.get_or_add_node(&path(&["a"]), &s("a")).expect("itself");
    assert_eq!(same.name, s("a"));
}

#[test]
fn root_add_define_then_redefine() {
    let r = Root::new();
    let r = r.add_define(s("FOO"), s("1")).expect("first define");
    let e = r.add_define(s("FOO"), s("2"));
    assert!(matches!(e, Err(RootError::Redefine)));
}

#[test]
fn root_two_defines_both_present() {
    let r = Root::new();
    let r = r.add_define(s("FOO"), s("1")).expect("first");
    let r = r.add_define(s("BAR"), s("2")).expect("second");
    assert_eq!(r.defines.len(), 2);
}

#[test]
fn root_add_node_builds_tree() {
    let r = Root::new();
    let r = r.add_node(&path(&[]), &s("top")).expect("root created");
    let r = r.add_node(&path(&["top"]), &s("child")).expect("child added");
    let top = r.the_root.as_ref().unwrap();
    assert!(top.get_child(&s("child")).is_some());
    // a second top-level node cannot be opened
    let e = r.add_node(&path(&[]), &s("other"));
    assert!(matches!(e, Err(RootError::MissingNode)));
}

#[test]
fn root_add_node_merges_on_reopen() {
    let r = Root::new();
    let r = r.add_node(&path(&[]), &s("top")).expect("root");
    let r = r.add_node(&path(&["top"]), &s("child")).expect("child");
    let r = r
        .add_property(&path(&["top", "child"]), (s("k"), Some(s("v"))))
        .expect("prop");
    // re-opening the same child keeps its contents
    let r = r.add_node(&path(&["top"]), &s("child")).expect("reopen");
    let top = r.the_root.as_ref().unwrap();
    let child = top.get_child(&s("child")).unwrap();
    assert_eq!(child.get_properties(), vec![(s("k"), Some(s("v")))]);
}

#[test]
fn root_add_property_needs_resolving_path() {
    let r = Root::new();
    let e = r.add_property(&path(&["top"]), (s("k"), None));
    assert!(matches!(e, Err(RootError::MissingNode)));
}

#[test]
fn root_labels_lookup() {
    let mut r = Root::new();
    r.add_path(s("l"), &path(&["top", "child"]));
    assert_eq!(r.get_path(s("l")), Ok(path(&["top", "child"])));
    assert_eq!(r.get_path(s("m")), Err(RootError::UnknownLabel));
}

#[test]
fn root_delete_from_label_removes_node_and_label() {
    let r = Root::new();
    let r = r.add_node(&path(&[]), &s("top")).expect("root");
    let mut r = r.add_node(&path(&["top"]), &s("child")).expect("child");
    r.add_path(s("l"), &path(&["top", "child"]));
    let mut r = r.delete_from_label(s("l")).expect("deleted");
    assert!(r.the_root.as_ref().unwrap().get_child(&s("child")).is_none());
    // the label itself is unbound afterwards
    assert_eq!(r.get_path(s("l")), Err(RootError::UnknownLabel));
}

#[test]
fn root_delete_from_label_errors() {
    let r = Root::new();
    let e = r.delete_from_label(s("l"));
    assert!(matches!(e, Err(RootError::UnknownLabel)));
    let r = Root::new();
    let mut r = r.add_node(&path(&[]), &s("top")).expect("root");
    r.add_path(s("r"), &path(&["top"]));
    let e = r.delete_from_label(s("r"));
    assert!(matches!(e, Err(RootError::BadPath)));
}

#[test]
fn root_delete_node_by_path() {
    let r = Root::new();
    let r = r.add_node(&path(&[]), &s("top")).expect("root");
    let r = r.add_node(&path(&["top"]), &s("child")).expect("child");
    let r = r.delete_node(path(&["top", "child"])).expect("deleted");
    assert!(r.the_root.as_ref().unwrap().get_child(&s("child")).is_none());
    let e = r.delete_node(path(&["top", "child"]));
    assert!(matches!(e, Err(RootError::MissingNode)));
}

#[test]
fn root_delete_node_needs_parent() {
    let r = Root::new();
    let r = r.add_node(&path(&[]), &s("top")).expect("root");
    let e = r.delete_node(path(&["top"]));
    assert!(matches!(e, Err(RootError::BadPath)));
    let r = Root::new();
    let e = r.delete_node(path(&[]));
    assert!(matches!(e, Err(RootError::BadPath)));
}

#[test]
fn root_delete_property_tolerates_absent() {
    let r = Root::new();
    let r = r.add_node(&path(&[]), &s("top")).expect("root");
    let r = r
        .add_property(&path(&["top"]), (s("k"), Some(s("v"))))
        .expect("prop");
    let r = r.delete_property(&path(&["top"]), s("k")).expect("removed");
    assert_eq!(r.the_root.as_ref().unwrap().get_properties().len(), 0);
    // removing an absent property is a tolerated no-op
    let r = r.delete_property(&path(&["top"]), s("k")).expect("no-op");
    assert!(r.the_root.is_some());
}
