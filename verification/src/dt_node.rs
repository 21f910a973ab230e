//! The tree model: a named node owning uniquely named children and a set of
//! key/value properties. Children and properties live in vectors whose keys
//! are unique, and are abstracted as maps by the node's ghost model.

use vstd::prelude::*;

verus! {

/// One node of the device tree. Child names are unique among the direct
/// children of a node, and property names are unique within a node; see
/// [`DTNode::wf`].
#[derive(Debug)]
pub struct DTNode {
    pub name: String,
    pub children: Vec<DTNode>,
    pub properties: Vec<(String, Option<String>)>,
}

/// The mathematical value of a [`DTNode`]: maps keyed by the character
/// sequences of the names.
pub struct NodeModel {
    pub name: Seq<char>,
    pub children: Map<Seq<char>, NodeModel>,
    pub props: Map<Seq<char>, Option<Seq<char>>>,
}

pub open spec fn opt_str_view(o: Option<String>) -> Option<Seq<char>> {
    match o {
        Some(s) => Some(s@),
        None => None,
    }
}

/// The view of a vector of names: each element as its character sequence.
pub open spec fn strs_view(s: Seq<String>) -> Seq<Seq<char>> {
    s.map_values(|x: String| x@)
}

/// The model of a property vector: the map from each key to the last value
/// written under that key.
pub open spec fn props_model(s: Seq<(String, Option<String>)>) -> Map<Seq<char>, Option<Seq<char>>>
    decreases s.len(),
{
    if s.len() == 0 {
        Map::empty()
    } else {
        props_model(s.drop_last()).insert(s.last().0@, opt_str_view(s.last().1))
    }
}

/// The model of a child vector: the map from each child name to the model of
/// the last child of that name.
pub open spec fn kids_model(s: Seq<DTNode>) -> Map<Seq<char>, NodeModel>
    decreases s,
{
    if s.len() == 0 {
        Map::empty()
    } else {
        kids_model(s.drop_last()).insert(s[s.len() - 1].name@, s[s.len() - 1].model())
    }
}

impl DTNode {
    /// The mathematical value of this node.
    pub open spec fn model(self) -> NodeModel
        decreases self,
    {
        NodeModel {
            name: self.name@,
            children: kids_model(self.children@),
            props: props_model(self.properties@),
        }
    }
}

pub open spec fn props_unique(s: Seq<(String, Option<String>)>) -> bool {
    forall|i: int, j: int| 0 <= i < j < s.len() ==> s[i].0@ != s[j].0@
}

pub open spec fn kids_unique(s: Seq<DTNode>) -> bool {
    forall|i: int, j: int| 0 <= i < j < s.len() ==> s[i].name@ != s[j].name@
}

impl DTNode {
    /// Well-formedness: unique child names, unique property names, recursively.
    pub open spec fn wf(self) -> bool
        decreases self,
    {
        &&& kids_unique(self.children@)
        &&& props_unique(self.properties@)
        &&& forall|i: int|
            0 <= i < self.children@.len() ==> (#[trigger] self.children@[i]).wf()
    }
}

/// The model of an empty node of the given name.
pub open spec fn empty_model(name: Seq<char>) -> NodeModel {
    NodeModel { name: name, children: Map::empty(), props: Map::empty() }
}

/// The keys of `props_model` are exactly the keys occurring in the vector.
proof fn lemma_props_contains(s: Seq<(String, Option<String>)>)
    ensures
        forall|k: Seq<char>|
            #[trigger] props_model(s).contains_key(k) <==> exists|i: int|
                0 <= i < s.len() && s[i].0@ == k,
    decreases s.len(),
{
    if s.len() == 0 {
    } else {
        lemma_props_contains(s.drop_last());
        assert forall|k: Seq<char>| #[trigger] props_model(s).contains_key(k) implies exists|i: int|
            0 <= i < s.len() && s[i].0@ == k by {
            if k == s.last().0@ {
                assert(s[s.len() - 1].0@ == k);
            } else {
                assert(props_model(s.drop_last()).contains_key(k));
                assert(exists|i: int| 0 <= i < s.drop_last().len() && s.drop_last()[i].0@ == k);
                let i = choose|i: int| 0 <= i < s.drop_last().len() && s.drop_last()[i].0@ == k;
                assert(s.drop_last()[i] == s[i]);
                assert(s[i].0@ == k);
            }
        }
        assert forall|k: Seq<char>| (exists|i: int| 0 <= i < s.len() && s[i].0@ == k)
            implies #[trigger] props_model(s).contains_key(k) by {
            let i = choose|i: int| 0 <= i < s.len() && s[i].0@ == k;
            if i < s.len() - 1 {
                assert(s.drop_last()[i].0@ == k);
                assert(exists|a: int| 0 <= a < s.drop_last().len() && s.drop_last()[a].0@ == k);
                assert(props_model(s.drop_last()).contains_key(k));
            }
        }
    }
}

/// Appending a pair inserts its binding into the model.
proof fn lemma_props_push(s: Seq<(String, Option<String>)>, p: (String, Option<String>))
    ensures
        props_model(s.push(p)) == props_model(s).insert(p.0@, opt_str_view(p.1)),
{
    assert(s.push(p).drop_last() =~= s);
    assert(s.push(p).last() == p);
}

/// Removing the pair at a position removes its binding from the model, given
/// unique keys.
proof fn lemma_props_remove(s: Seq<(String, Option<String>)>, j: int)
    requires
        props_unique(s),
        0 <= j < s.len(),
    ensures
        props_model(s.remove(j)) == props_model(s).remove(s[j].0@),
        props_unique(s.remove(j)),
    decreases s.len(),
{
    let k = s[j].0@;
    assert forall|a: int, b: int| 0 <= a < b < s.remove(j).len() implies s.remove(j)[a].0@
        != s.remove(j)[b].0@ by {
        if a < j {
            assert(s.remove(j)[a] == s[a]);
        } else {
            assert(s.remove(j)[a] == s[a + 1]);
        }
        if b < j {
            assert(s.remove(j)[b] == s[b]);
        } else {
            assert(s.remove(j)[b] == s[b + 1]);
        }
    }
    if j == s.len() - 1 {
        assert(s.remove(j) =~= s.drop_last());
        lemma_props_contains(s.drop_last());
        assert(!props_model(s.drop_last()).contains_key(k)) by {
            if props_model(s.drop_last()).contains_key(k) {
                let i = choose|i: int| 0 <= i < s.drop_last().len() && s.drop_last()[i].0@ == k;
                assert(s[i].0@ == k);
            }
        }
        assert(props_model(s).remove(k) =~= props_model(s.drop_last()));
    } else {
        assert(props_unique(s.drop_last()));
        lemma_props_remove(s.drop_last(), j);
        assert(s.remove(j).drop_last() =~= s.drop_last().remove(j));
        assert(s.remove(j).last() == s.last());
        assert(s.drop_last()[j] == s[j]);
        assert(s.last().0@ != k);
        assert(props_model(s.drop_last()).remove(k).insert(s.last().0@, opt_str_view(s.last().1))
            =~= props_model(s.drop_last()).insert(s.last().0@, opt_str_view(s.last().1)).remove(k));
    }
}

/// The keys of `kids_model` are exactly the child names occurring in the vector.
proof fn lemma_kids_contains(s: Seq<DTNode>)
    ensures
        forall|k: Seq<char>|
            #[trigger] kids_model(s).contains_key(k) <==> exists|i: int|
                0 <= i < s.len() && s[i].name@ == k,
    decreases s.len(),
{
    if s.len() == 0 {
    } else {
        lemma_kids_contains(s.drop_last());
        assert forall|k: Seq<char>| #[trigger] kids_model(s).contains_key(k) implies exists|i: int|
            0 <= i < s.len() && s[i].name@ == k by {
            if k == s[s.len() - 1].name@ {
                assert(s[s.len() - 1].name@ == k);
            } else {
                assert(kids_model(s.drop_last()).contains_key(k));
                assert(exists|i: int| 0 <= i < s.drop_last().len() && s.drop_last()[i].name@ == k);
                let i = choose|i: int| 0 <= i < s.drop_last().len() && s.drop_last()[i].name@ == k;
                assert(s.drop_last()[i] == s[i]);
                assert(s[i].name@ == k);
            }
        }
        assert forall|k: Seq<char>| (exists|i: int| 0 <= i < s.len() && s[i].name@ == k)
            implies #[trigger] kids_model(s).contains_key(k) by {
            let i = choose|i: int| 0 <= i < s.len() && s[i].name@ == k;
            if i < s.len() - 1 {
                assert(s.drop_last()[i].name@ == k);
                assert(exists|a: int| 0 <= a < s.drop_last().len() && s.drop_last()[a].name@ == k);
                assert(kids_model(s.drop_last()).contains_key(k));
            }
        }
    }
}

/// Under unique names, the model maps each child's name to that child's model.
proof fn lemma_kids_lookup(s: Seq<DTNode>, j: int)
    requires
        kids_unique(s),
        0 <= j < s.len(),
    ensures
        kids_model(s).contains_key(s[j].name@),
        kids_model(s)[s[j].name@] == s[j].model(),
    decreases s.len(),
{
    if j == s.len() - 1 {
    } else {
        assert(kids_unique(s.drop_last()));
        lemma_kids_lookup(s.drop_last(), j);
        assert(s.drop_last()[j] == s[j]);
        assert(s[s.len() - 1].name@ != s[j].name@);
    }
}

/// Appending a child inserts its binding into the model.
proof fn lemma_kids_push(s: Seq<DTNode>, c: DTNode)
    ensures
        kids_model(s.push(c)) == kids_model(s).insert(c.name@, c.model()),
{
    assert(s.push(c).drop_last() =~= s);
    assert(s.push(c)[s.push(c).len() - 1] == c);
}

/// Replacing the child at a position by one of the same name updates that
/// binding in the model, given unique names.
proof fn lemma_kids_update(s: Seq<DTNode>, j: int, c: DTNode)
    requires
        kids_unique(s),
        0 <= j < s.len(),
        c.name@ == s[j].name@,
    ensures
        kids_model(s.update(j, c)) == kids_model(s).insert(c.name@, c.model()),
        kids_unique(s.update(j, c)),
    decreases s.len(),
{
    let t = s.update(j, c);
    assert forall|a: int, b: int| 0 <= a < b < t.len() implies t[a].name@ != t[b].name@ by {
        assert(s[a].name@ != s[b].name@);
    }
    if j == s.len() - 1 {
        assert(t.drop_last() =~= s.drop_last());
        assert(t[t.len() - 1] == c);
        assert(kids_model(s.drop_last()).insert(s[j].name@, s[j].model()).insert(
            c.name@,
            c.model(),
        ) =~= kids_model(s.drop_last()).insert(c.name@, c.model()));
    } else {
        assert(kids_unique(s.drop_last()));
        assert(s.drop_last()[j] == s[j]);
        lemma_kids_update(s.drop_last(), j, c);
        assert(t.drop_last() =~= s.drop_last().update(j, c));
        assert(t[t.len() - 1] == s[s.len() - 1]);
        assert(s[s.len() - 1].name@ != c.name@);
        assert(kids_model(s.drop_last()).insert(c.name@, c.model()).insert(
            s[s.len() - 1].name@,
            s[s.len() - 1].model(),
        ) =~= kids_model(s.drop_last()).insert(s[s.len() - 1].name@, s[s.len() - 1].model()).insert(
            c.name@,
            c.model(),
        ));
    }
}

/// Removing the child at a position removes its binding from the model, given
/// unique names.
proof fn lemma_kids_remove(s: Seq<DTNode>, j: int)
    requires
        kids_unique(s),
        0 <= j < s.len(),
    ensures
        kids_model(s.remove(j)) == kids_model(s).remove(s[j].name@),
        kids_unique(s.remove(j)),
    decreases s.len(),
{
    let k = s[j].name@;
    assert forall|a: int, b: int| 0 <= a < b < s.remove(j).len() implies s.remove(j)[a].name@
        != s.remove(j)[b].name@ by {
        if a < j {
            assert(s.remove(j)[a] == s[a]);
        } else {
            assert(s.remove(j)[a] == s[a + 1]);
        }
        if b < j {
            assert(s.remove(j)[b] == s[b]);
        } else {
            assert(s.remove(j)[b] == s[b + 1]);
        }
    }
    if j == s.len() - 1 {
        assert(s.remove(j) =~= s.drop_last());
        lemma_kids_contains(s.drop_last());
        assert(!kids_model(s.drop_last()).contains_key(k)) by {
            if kids_model(s.drop_last()).contains_key(k) {
                let i = choose|i: int| 0 <= i < s.drop_last().len() && s.drop_last()[i].name@ == k;
                assert(s[i].name@ == k);
            }
        }
        assert(kids_model(s).remove(k) =~= kids_model(s.drop_last()));
    } else {
        assert(kids_unique(s.drop_last()));
        assert(s.drop_last()[j] == s[j]);
        lemma_kids_remove(s.drop_last(), j);
        assert(s.remove(j).drop_last() =~= s.drop_last().remove(j));
        assert(s.remove(j)[s.remove(j).len() - 1] == s[s.len() - 1]);
        assert(s[s.len() - 1].name@ != k);
        assert(kids_model(s.drop_last()).remove(k).insert(
            s[s.len() - 1].name@,
            s[s.len() - 1].model(),
        ) =~= kids_model(s.drop_last()).insert(s[s.len() - 1].name@, s[s.len() - 1].model()).remove(
            k,
        ));
    }
}

/// An edit applied to the node addressed by a relative path.
pub enum NodeOp {
    /// Keep the existing child of this name, or add an empty one.
    Ensure(String),
    /// Insert or overwrite a property.
    SetProp(String, Option<String>),
    /// Remove the child of this name; fails when absent.
    RemoveChild(String),
    /// Remove the property of this name; a no-op when absent.
    RemoveProp(String),
    /// Insert a child, replacing any existing child of the same name.
    AddChild(DTNode),
}

/// The mathematical value of a [`NodeOp`].
pub enum NodeOpV {
    Ensure(Seq<char>),
    SetProp(Seq<char>, Option<Seq<char>>),
    RemoveChild(Seq<char>),
    RemoveProp(Seq<char>),
    AddChild(NodeModel),
}

impl View for NodeOp {
    type V = NodeOpV;

    open spec fn view(&self) -> NodeOpV {
        match self {
            NodeOp::Ensure(n) => NodeOpV::Ensure(n@),
            NodeOp::SetProp(k, v) => NodeOpV::SetProp(k@, opt_str_view(*v)),
            NodeOp::RemoveChild(n) => NodeOpV::RemoveChild(n@),
            NodeOp::RemoveProp(k) => NodeOpV::RemoveProp(k@),
            NodeOp::AddChild(c) => NodeOpV::AddChild(c.model()),
        }
    }
}

/// The effect of an edit on the node it addresses. `None` is failure.
pub open spec fn m_apply_here(m: NodeModel, op: NodeOpV) -> Option<NodeModel> {
    match op {
        NodeOpV::Ensure(name) => if m.children.contains_key(name) {
            Some(m)
        } else {
            Some(
                NodeModel {
                    name: m.name,
                    children: m.children.insert(name, empty_model(name)),
                    props: m.props,
                },
            )
        },
        NodeOpV::SetProp(k, v) => Some(
            NodeModel { name: m.name, children: m.children, props: m.props.insert(k, v) },
        ),
        NodeOpV::RemoveChild(name) => if m.children.contains_key(name) {
            Some(NodeModel { name: m.name, children: m.children.remove(name), props: m.props })
        } else {
            None
        },
        NodeOpV::RemoveProp(k) => if m.props.contains_key(k) {
            Some(NodeModel { name: m.name, children: m.children, props: m.props.remove(k) })
        } else {
            Some(m)
        },
        NodeOpV::AddChild(c) => Some(
            NodeModel { name: m.name, children: m.children.insert(c.name, c), props: m.props },
        ),
    }
}

/// The effect of an edit on the node a relative path leads to, `None` when the
/// path does not resolve or the edit itself fails.
pub open spec fn m_apply(m: NodeModel, p: Seq<Seq<char>>, op: NodeOpV) -> Option<NodeModel>
    decreases p.len(),
{
    if p.len() == 0 {
        m_apply_here(m, op)
    } else if m.children.contains_key(p[0]) {
        match m_apply(m.children[p[0]], p.skip(1), op) {
            Some(c) => Some(
                NodeModel { name: m.name, children: m.children.insert(p[0], c), props: m.props },
            ),
            None => None,
        }
    } else {
        None
    }
}

/// The node a relative path leads to, `None` when it does not resolve.
pub open spec fn m_get(m: NodeModel, p: Seq<Seq<char>>) -> Option<NodeModel>
    decreases p.len(),
{
    if p.len() == 0 {
        Some(m)
    } else if m.children.contains_key(p[0]) {
        m_get(m.children[p[0]], p.skip(1))
    } else {
        None
    }
}

/// An edit that goes through never changes the name of the node it lands on.
pub proof fn lemma_m_apply_name(m: NodeModel, p: Seq<Seq<char>>, op: NodeOpV)
    requires
        m_apply(m, p, op) is Some,
    ensures
        m_apply(m, p, op)->0.name == m.name,
{
}

/// Edits that cannot themselves fail go through exactly where the path
/// resolves.
pub proof fn lemma_m_apply_some(m: NodeModel, p: Seq<Seq<char>>, op: NodeOpV)
    requires
        !(op is RemoveChild),
    ensures
        m_apply(m, p, op) is Some <==> m_get(m, p) is Some,
    decreases p.len(),
{
    if p.len() == 0 {
    } else if m.children.contains_key(p[0]) {
        lemma_m_apply_some(m.children[p[0]], p.skip(1), op);
    }
}

/// Keeping-or-adding a child is idempotent: a second identical open leaves
/// the tree as the first left it.
pub proof fn lemma_ensure_idempotent(m: NodeModel, p: Seq<Seq<char>>, name: Seq<char>)
    requires
        m_apply(m, p, NodeOpV::Ensure(name)) is Some,
    ensures
        m_apply(m_apply(m, p, NodeOpV::Ensure(name))->0, p, NodeOpV::Ensure(name)) == m_apply(
            m,
            p,
            NodeOpV::Ensure(name),
        ),
    decreases p.len(),
{
    let op = NodeOpV::Ensure(name);
    let m2 = m_apply(m, p, op)->0;
    if p.len() == 0 {
        if m.children.contains_key(name) {
        } else {
            assert(m2.children.contains_key(name));
        }
    } else {
        let c = m.children[p[0]];
        lemma_ensure_idempotent(c, p.skip(1), name);
        let c2 = m_apply(c, p.skip(1), op)->0;
        assert(m2.children.contains_key(p[0]));
        assert(m2.children[p[0]] == c2);
        assert(m2.children.insert(p[0], c2) =~= m2.children);
        assert(m_apply(c2, p.skip(1), op) == Some(c2));
        assert(m_apply(m2, p, op) is Some);
        assert(m_apply(m2, p, op)->0 == m2);
    }
}

/// Resolving one step further down goes through the addressed node's child.
pub proof fn lemma_get_push(m: NodeModel, p: Seq<Seq<char>>, name: Seq<char>)
    ensures
        m_get(m, p.push(name)) == (match m_get(m, p) {
            Some(nd) => if nd.children.contains_key(name) {
                Some(nd.children[name])
            } else {
                None
            },
            None => None,
        }),
    decreases p.len(),
{
    if p.len() == 0 {
        reveal_with_fuel(m_get, 3);
        assert(p.push(name)[0] == name);
        assert(p.push(name).skip(1) =~= Seq::<Seq<char>>::empty());
        assert(p.push(name).skip(1).len() == 0);
    } else {
        assert(p.push(name)[0] == p[0]);
        assert(p.push(name).skip(1) =~= p.skip(1).push(name));
        if m.children.contains_key(p[0]) {
            lemma_get_push(m.children[p[0]], p.skip(1), name);
        }
    }
}

/// After keeping-or-adding a child, the addressed node keeps its name and
/// properties and holds that child: its old one when it existed, an empty one
/// otherwise.
pub proof fn lemma_ensure_get(m: NodeModel, p: Seq<Seq<char>>, name: Seq<char>)
    requires
        m_apply(m, p, NodeOpV::Ensure(name)) is Some,
    ensures
        ({
            let m2 = m_apply(m, p, NodeOpV::Ensure(name))->0;
            &&& m_get(m, p) is Some
            &&& m_get(m2, p) is Some
            &&& m_get(m2, p)->0.name == m_get(m, p)->0.name
            &&& m_get(m2, p)->0.props == m_get(m, p)->0.props
            &&& m_get(m2, p)->0.children == (if m_get(m, p)->0.children.contains_key(name) {
                m_get(m, p)->0.children
            } else {
                m_get(m, p)->0.children.insert(name, empty_model(name))
            })
        }),
    decreases p.len(),
{
    let op = NodeOpV::Ensure(name);
    let m2 = m_apply(m, p, op)->0;
    if p.len() == 0 {
    } else {
        let c = m.children[p[0]];
        lemma_ensure_get(c, p.skip(1), name);
        let c2 = m_apply(c, p.skip(1), op)->0;
        assert(m2.children[p[0]] == c2);
    }
}

/// After inserting a child, the addressed node keeps its name and properties
/// and holds exactly the new child on top of its old ones.
pub proof fn lemma_addchild_get(m: NodeModel, p: Seq<Seq<char>>, c: NodeModel)
    requires
        m_apply(m, p, NodeOpV::AddChild(c)) is Some,
    ensures
        ({
            let m2 = m_apply(m, p, NodeOpV::AddChild(c))->0;
            &&& m_get(m, p) is Some
            &&& m_get(m2, p) is Some
            &&& m_get(m2, p)->0.name == m_get(m, p)->0.name
            &&& m_get(m2, p)->0.props == m_get(m, p)->0.props
            &&& m_get(m2, p)->0.children == m_get(m, p)->0.children.insert(c.name, c)
        }),
    decreases p.len(),
{
    let op = NodeOpV::AddChild(c);
    let m2 = m_apply(m, p, op)->0;
    if p.len() == 0 {
    } else {
        let ch = m.children[p[0]];
        lemma_addchild_get(ch, p.skip(1), c);
        let c2 = m_apply(ch, p.skip(1), op)->0;
        assert(m2.children[p[0]] == c2);
    }
}

/// After a property write, the addressed node holds exactly the new binding
/// on top of its old properties, and keeps its name and children.
pub proof fn lemma_set_prop_get(m: NodeModel, p: Seq<Seq<char>>, k: Seq<char>, v: Option<Seq<char>>)
    requires
        m_apply(m, p, NodeOpV::SetProp(k, v)) is Some,
    ensures
        ({
            let m2 = m_apply(m, p, NodeOpV::SetProp(k, v))->0;
            &&& m_get(m, p) is Some
            &&& m_get(m2, p) is Some
            &&& m_get(m2, p)->0.name == m_get(m, p)->0.name
            &&& m_get(m2, p)->0.children == m_get(m, p)->0.children
            &&& m_get(m2, p)->0.props == m_get(m, p)->0.props.insert(k, v)
        }),
    decreases p.len(),
{
    let op = NodeOpV::SetProp(k, v);
    let m2 = m_apply(m, p, op)->0;
    if p.len() == 0 {
    } else {
        let c = m.children[p[0]];
        lemma_set_prop_get(c, p.skip(1), k, v);
        let c2 = m_apply(c, p.skip(1), op)->0;
        assert(m2.children[p[0]] == c2);
    }
}

/// After a child delete, the addressed parent has lost exactly that child,
/// and the deleted node's own path no longer resolves.
pub proof fn lemma_remove_get(m: NodeModel, p: Seq<Seq<char>>, name: Seq<char>)
    requires
        m_apply(m, p, NodeOpV::RemoveChild(name)) is Some,
    ensures
        ({
            let m2 = m_apply(m, p, NodeOpV::RemoveChild(name))->0;
            &&& m_get(m, p) is Some
            &&& m_get(m2, p) is Some
            &&& m_get(m2, p)->0.name == m_get(m, p)->0.name
            &&& m_get(m2, p)->0.props == m_get(m, p)->0.props
            &&& m_get(m2, p)->0.children == m_get(m, p)->0.children.remove(name)
            &&& m_get(m2, p.push(name)) is None
        }),
    decreases p.len(),
{
    let op = NodeOpV::RemoveChild(name);
    let m2 = m_apply(m, p, op)->0;
    if p.len() == 0 {
        lemma_get_push(m2, p, name);
        assert(!m2.children.contains_key(name));
    } else {
        let c = m.children[p[0]];
        lemma_remove_get(c, p.skip(1), name);
        let c2 = m_apply(c, p.skip(1), op)->0;
        assert(m2.children[p[0]] == c2);
        lemma_get_push(m2, p, name);
        assert(m_get(m2, p)->0.children == m_get(m, p)->0.children.remove(name));
        assert(!m_get(m2, p)->0.children.contains_key(name));
    }
}

impl DTNode {
    /// A fresh node with no children and no properties.
    pub fn new(name: String) -> (r: DTNode)
        ensures
            r.wf(),
            r.model() == empty_model(name@),
    {
        DTNode { name, children: Vec::new(), properties: Vec::new() }
    }

    /// The position of the direct child of the given name, if any.
    fn find_child(&self, name: &String) -> (r: Option<usize>)
        ensures
            match r {
                Some(j) => j < self.children@.len() && self.children@[j as int].name@ == name@,
                None => forall|i: int|
                    0 <= i < self.children@.len() ==> (#[trigger] self.children@[i]).name@
                        != name@,
            },
    {
        let mut j: usize = 0;
        while j < self.children.len()
            invariant
                j <= self.children@.len(),
                forall|i: int|
                    0 <= i < j ==> (#[trigger] self.children@[i]).name@ != name@,
            decreases self.children@.len() - j,
        {
            if self.children[j].name == *name {
                return Some(j);
            }
            j = j + 1;
        }
        None
    }

    /// The position of the property of the given name, if any.
    fn find_prop(&self, key: &String) -> (r: Option<usize>)
        ensures
            match r {
                Some(j) => j < self.properties@.len() && self.properties@[j as int].0@ == key@,
                None => forall|i: int|
                    0 <= i < self.properties@.len() ==> (#[trigger] self.properties@[i]).0@
                        != key@,
            },
    {
        let mut j: usize = 0;
        while j < self.properties.len()
            invariant
                j <= self.properties@.len(),
                forall|i: int|
                    0 <= i < j ==> (#[trigger] self.properties@[i]).0@ != key@,
            decreases self.properties@.len() - j,
        {
            if self.properties[j].0 == *key {
                return Some(j);
            }
            j = j + 1;
        }
        None
    }

    /// Inserts a property, overwriting any previous value under the same key.
    pub fn add_properties(&mut self, key: (String, Option<String>))
        requires
            old(self).wf(),
        ensures
            final(self).wf(),
            final(self).model().name == old(self).model().name,
            final(self).model().children == old(self).model().children,
            final(self).model().props == old(self).model().props.insert(
                key.0@,
                opt_str_view(key.1),
            ),
    {
        let path: Vec<String> = Vec::new();
        let ghost k0 = key.0@;
        let ghost v0 = opt_str_view(key.1);
        let ok = self.apply_at(&path, 0, NodeOp::SetProp(key.0, key.1));
        proof {
            assert(strs_view(path@).skip(0) =~= Seq::<Seq<char>>::empty());
            assert(Some(final(self).model()) == m_apply_here(
                old(self).model(),
                NodeOpV::SetProp(k0, v0),
            ));
        }
    }

    /// Inserts a property and hands the node back, overwriting any previous
    /// value under the same key.
    pub fn add_property(self, label: String, val: Option<String>) -> (r: DTNode)
        requires
            self.wf(),
        ensures
            r.wf(),
            r.model().name == self.model().name,
            r.model().children == self.model().children,
            r.model().props == self.model().props.insert(label@, opt_str_view(val)),
    {
        let mut n = self;
        n.add_properties((label, val));
        n
    }

    /// A copy of the property vector.
    pub fn get_properties(&self) -> (r: Vec<(String, Option<String>)>)
        ensures
            r@ == self.properties@,
    {
        let mut r: Vec<(String, Option<String>)> = Vec::new();
        let mut j: usize = 0;
        while j < self.properties.len()
            invariant
                j <= self.properties@.len(),
                r@ =~= self.properties@.subrange(0, j as int),
            decreases self.properties@.len() - j,
        {
            let k = self.properties[j].0.clone();
            let v = match &self.properties[j].1 {
                Some(s) => Some(s.clone()),
                None => None,
            };
            r.push((k, v));
            proof {
                assert(r@ =~= self.properties@.subrange(0, j as int + 1));
            }
            j = j + 1;
        }
        proof {
            assert(self.properties@.subrange(0, self.properties@.len() as int)
                =~= self.properties@);
        }
        r
    }

    /// Inserts a child, replacing any existing child of the same name.
    pub fn add_child(&mut self, child: DTNode)
        requires
            old(self).wf(),
            child.wf(),
        ensures
            final(self).wf(),
            final(self).model().name == old(self).model().name,
            final(self).model().props == old(self).model().props,
            final(self).model().children == old(self).model().children.insert(
                child.name@,
                child.model(),
            ),
    {
        let ghost nm = child.name@;
        match self.find_child(&child.name) {
            Some(j) => {
                let ghost s0 = self.children@;
                proof {
                    lemma_kids_remove(s0, j as int);
                }
                let _ = self.children.remove(j);
                let ghost s1 = self.children@;
                self.children.push(child);
                proof {
                    lemma_kids_push(s1, child);
                    assert(kids_model(self.children@) =~= kids_model(s0).insert(
                        nm,
                        child.model(),
                    ));
                    assert forall|a: int, b: int|
                        0 <= a < b < self.children@.len() implies self.children@[a].name@
                        != self.children@[b].name@ by {
                        if b < s1.len() {
                            assert(s1[a].name@ != s1[b].name@);
                        } else {
                            if a < j {
                                assert(s1[a] == s0[a]);
                            } else {
                                assert(s1[a] == s0[a + 1]);
                            }
                        }
                    }
                    assert forall|a: int|
                        0 <= a < self.children@.len() implies (
                    #[trigger] self.children@[a]).wf() by {
                        if a < s1.len() {
                            if a < j {
                                assert(s1[a] == s0[a]);
                            } else {
                                assert(s1[a] == s0[a + 1]);
                            }
                        }
                    }
                }
            },
            None => {
                let ghost s0 = self.children@;
                proof {
                    lemma_kids_contains(s0);
                }
                self.children.push(child);
                proof {
                    lemma_kids_push(s0, child);
                    assert forall|a: int, b: int|
                        0 <= a < b < self.children@.len() implies self.children@[a].name@
                        != self.children@[b].name@ by {
                        if b < s0.len() {
                            assert(s0[a].name@ != s0[b].name@);
                        } else {
                            assert(s0[a].name@ != nm);
                        }
                    }
                    assert forall|a: int|
                        0 <= a < self.children@.len() implies (
                    #[trigger] self.children@[a]).wf() by {
                        if a < s0.len() {
                            assert(s0[a].wf());
                        }
                    }
                }
            },
        }
    }

    /// The direct child of the given name, if any.
    pub fn get_child(&self, name: &String) -> (r: Option<&DTNode>)
        requires
            self.wf(),
        ensures
            match r {
                Some(c) => self.model().children.contains_key(name@) && c.model()
                    == self.model().children[name@] && c.wf() && c.name@ == name@,
                None => !self.model().children.contains_key(name@),
            },
    {
        match self.find_child(name) {
            Some(j) => {
                proof {
                    lemma_kids_lookup(self.children@, j as int);
                    assert(self.model().children == kids_model(self.children@));
                    assert(self.children@[j as int].wf());
                }
                Some(&self.children[j])
            },
            None => {
                proof {
                    lemma_kids_contains(self.children@);
                    assert(self.model().children == kids_model(self.children@));
                    assert(!kids_model(self.children@).contains_key(name@));
                }
                None
            },
        }
    }

    /// Removes the direct child of the given name; an error when absent.
    pub fn remove(&mut self, name: String) -> (r: Result<(), ()>)
        requires
            old(self).wf(),
        ensures
            final(self).wf(),
            final(self).model().name == old(self).model().name,
            final(self).model().props == old(self).model().props,
            match r {
                Ok(u) => old(self).model().children.contains_key(name@)
                    && final(self).model().children == old(self).model().children.remove(name@),
                Err(u) => !old(self).model().children.contains_key(name@) && final(self).model()
                    == old(self).model(),
            },
    {
        let path: Vec<String> = Vec::new();
        let ghost nm = name@;
        let ok = self.apply_at(&path, 0, NodeOp::RemoveChild(name));
        proof {
            assert(strs_view(path@).skip(0) =~= Seq::<Seq<char>>::empty());
            if ok {
                assert(Some(final(self).model()) == m_apply_here(
                    old(self).model(),
                    NodeOpV::RemoveChild(nm),
                ));
            } else {
                assert(m_apply_here(old(self).model(), NodeOpV::RemoveChild(nm)) is None);
            }
        }
        if ok {
            Ok(())
        } else {
            Err(())
        }
    }

    /// The node reached by walking `path[i..]` through direct children.
    fn get_rel(&self, path: &Vec<String>, i: usize) -> (r: Option<&DTNode>)
        requires
            self.wf(),
            i <= path@.len(),
        ensures
            match r {
                Some(c) => m_get(self.model(), strs_view(path@).skip(i as int)) == Some(c.model())
                    && c.wf(),
                None => m_get(self.model(), strs_view(path@).skip(i as int)) is None,
            },
        decreases path@.len() - i,
    {
        let ghost p = strs_view(path@).skip(i as int);
        if i == path.len() {
            proof {
                assert(p =~= Seq::<Seq<char>>::empty());
            }
            Some(self)
        } else {
            proof {
                assert(p[0] == path@[i as int]@);
                assert(p.skip(1) =~= strs_view(path@).skip(i as int + 1));
            }
            match self.get_child(&path[i]) {
                None => None,
                Some(c) => c.get_rel(path, i + 1),
            }
        }
    }

    /// The node addressed by an absolute path whose first segment must be this
    /// node's own name.
    pub fn get_node(&self, path: &Vec<String>) -> (r: Option<&DTNode>)
        requires
            self.wf(),
        ensures
            match r {
                Some(c) => path@.len() >= 1 && path@[0]@ == self.name@ && m_get(
                    self.model(),
                    strs_view(path@).skip(1),
                ) == Some(c.model()) && c.wf(),
                None => path@.len() == 0 || path@[0]@ != self.name@ || m_get(
                    self.model(),
                    strs_view(path@).skip(1),
                ) is None,
            },
    {
        if path.len() == 0 {
            return None;
        }
        if self.name == path[0] {
            self.get_rel(path, 1)
        } else {
            None
        }
    }

    /// Inserts a child on the node an absolute path leads to, replacing any
    /// existing child of the same name; a path that does not resolve changes
    /// nothing.
    pub fn add_node(&mut self, path: &Vec<String>, new_node: DTNode)
        requires
            old(self).wf(),
            new_node.wf(),
        ensures
            final(self).wf(),
            ({
                let p = strs_view(path@);
                let op = NodeOpV::AddChild(new_node.model());
                if p.len() >= 1 && p[0] == old(self).name@ && m_get(
                    old(self).model(),
                    p.skip(1),
                ) is Some {
                    Some(final(self).model()) == m_apply(old(self).model(), p.skip(1), op)
                } else {
                    final(self).model() == old(self).model()
                }
            }),
    {
        let ghost p = strs_view(path@);
        let ghost op = NodeOpV::AddChild(new_node.model());
        if path.len() == 0 {
            return ;
        }
        if self.name != path[0] {
            proof {
                assert(p[0] == path@[0]@);
            }
            return ;
        }
        proof {
            assert(p[0] == path@[0]@);
            lemma_m_apply_some(old(self).model(), p.skip(1), op);
        }
        let ok = self.apply_at(path, 1, NodeOp::AddChild(new_node));
    }

    /// Inserts a child on the node an absolute path leads to, replacing any
    /// existing child of the same name, and hands the inserted child back;
    /// `None` when the path does not resolve, in which case nothing changes.
    pub fn add_node_get(&mut self, path: &Vec<String>, new_node: DTNode) -> (r: Option<&DTNode>)
        requires
            old(self).wf(),
            new_node.wf(),
        ensures
            final(self).wf(),
            ({
                let p = strs_view(path@);
                let op = NodeOpV::AddChild(new_node.model());
                if p.len() >= 1 && p[0] == old(self).name@ && m_get(
                    old(self).model(),
                    p.skip(1),
                ) is Some {
                    &&& Some(final(self).model()) == m_apply(old(self).model(), p.skip(1), op)
                    &&& (r matches Some(c) && c.model() == new_node.model())
                } else {
                    final(self).model() == old(self).model() && r is None
                }
            }),
    {
        let ghost p = strs_view(path@);
        let ghost cm = new_node.model();
        let name = new_node.name.clone();
        if path.len() == 0 {
            return None;
        }
        if self.name != path[0] {
            proof {
                assert(p[0] == path@[0]@);
            }
            return None;
        }
        proof {
            assert(p[0] == path@[0]@);
            lemma_m_apply_some(old(self).model(), p.skip(1), NodeOpV::AddChild(cm));
        }
        let ok = self.apply_at(path, 1, NodeOp::AddChild(new_node));
        if !ok {
            return None;
        }
        proof {
            lemma_addchild_get(old(self).model(), p.skip(1), cm);
            assert(cm.name == name@);
        }
        match self.get_rel(path, 1) {
            Some(nd) => nd.get_child(&name),
            None => None,
        }
    }

    /// The child of the given name under the node an absolute path leads to,
    /// added first as an empty node when absent; the node addressed by the
    /// path itself when the name is its last segment. `None` when the path
    /// does not resolve.
    pub fn get_or_add_node(&mut self, path: &Vec<String>, node_name: &String) -> (r: Option<
        &DTNode,
    >)
        requires
            old(self).wf(),
        ensures
            final(self).wf(),
            ({
                let p = strs_view(path@);
                if p.len() >= 1 && p[0] == old(self).name@ && m_get(
                    old(self).model(),
                    p.skip(1),
                ) is Some {
                    let nd0 = m_get(old(self).model(), p.skip(1))->0;
                    if node_name@ == p.last() {
                        &&& final(self).model() == old(self).model()
                        &&& (r matches Some(c) && c.model() == nd0)
                    } else {
                        &&& Some(final(self).model()) == m_apply(
                            old(self).model(),
                            p.skip(1),
                            NodeOpV::Ensure(node_name@),
                        )
                        &&& (r matches Some(c) && c.model() == (
                        if nd0.children.contains_key(node_name@) {
                            nd0.children[node_name@]
                        } else {
                            empty_model(node_name@)
                        }))
                    }
                } else {
                    final(self).model() == old(self).model() && r is None
                }
            }),
    {
        let ghost p = strs_view(path@);
        if path.len() == 0 {
            return None;
        }
        if self.name != path[0] {
            proof {
                assert(p[0] == path@[0]@);
            }
            return None;
        }
        proof {
            assert(p[0] == path@[0]@);
            assert(p.last() == path@[path@.len() - 1]@);
            lemma_m_apply_some(old(self).model(), p.skip(1), NodeOpV::Ensure(node_name@));
        }
        if path[path.len() - 1] == *node_name {
            return self.get_rel(path, 1);
        }
        let ok = self.apply_at(path, 1, NodeOp::Ensure(node_name.clone()));
        if !ok {
            return None;
        }
        let ghost nd0 = m_get(old(self).model(), p.skip(1))->0;
        proof {
            lemma_ensure_get(old(self).model(), p.skip(1), node_name@);
        }
        match self.get_rel(path, 1) {
            Some(nd) => nd.get_child(node_name),
            None => None,
        }
    }

    /// Applies an edit to the node addressed by `path[i..]` below this node.
    /// Returns whether the path resolved and the edit applied.
    pub(crate) fn apply_at(&mut self, path: &Vec<String>, i: usize, op: NodeOp) -> (ok: bool)
        requires
            old(self).wf(),
            i <= path@.len(),
            op matches NodeOp::AddChild(c) ==> c.wf(),
        ensures
            final(self).wf(),
            final(self).name@ == old(self).name@,
            ok <==> m_apply(old(self).model(), strs_view(path@).skip(i as int), op@) is Some,
            ok ==> Some(final(self).model()) == m_apply(
                old(self).model(),
                strs_view(path@).skip(i as int),
                op@,
            ),
            !ok ==> final(self).model() == old(self).model(),
        decreases path@.len() - i,
    {
        let ghost p = strs_view(path@).skip(i as int);
        if i == path.len() {
            proof {
                assert(p =~= Seq::<Seq<char>>::empty());
            }
            match op {
                NodeOp::Ensure(name) => {
                    let ghost nm = name@;
                    match self.find_child(&name) {
                        Some(j) => {
                            proof {
                                lemma_kids_contains(self.children@);
                                assert(op@ == NodeOpV::Ensure(nm));
                                assert(old(self).model().children == kids_model(self.children@));
                                assert(self.children@[j as int].name@ == nm);
                                assert(kids_model(self.children@).contains_key(nm));
                                assert(m_apply_here(old(self).model(), op@) == Some(
                                    old(self).model(),
                                ));
                                assert(p.len() == 0);
                                assert(m_apply(old(self).model(), p, op@) == m_apply_here(
                                    old(self).model(),
                                    op@,
                                ));
                                assert(m_apply(old(self).model(), p, op@) is Some);
                                assert(Some(self.model()) == m_apply(old(self).model(), p, op@));
                            }
                            true
                        },
                        None => {
                            let ghost s0 = self.children@;
                            proof {
                                lemma_kids_contains(s0);
                                assert(op@ == NodeOpV::Ensure(nm));
                                assert(!kids_model(s0).contains_key(nm));
                            }
                            let c = DTNode::new(name);
                            self.children.push(c);
                            proof {
                                lemma_kids_push(s0, c);
                                assert(c.name@ == nm);
                                assert(c.model() == empty_model(nm));
                                assert(kids_model(self.children@) == kids_model(s0).insert(
                                    nm,
                                    empty_model(nm),
                                ));
                                assert(m_apply(old(self).model(), p, op@) == m_apply_here(
                                    old(self).model(),
                                    op@,
                                ));
                                assert(Some(self.model()) == m_apply(old(self).model(), p, op@));
                                assert forall|a: int, b: int|
                                    0 <= a < b < self.children@.len() implies self.children@[a].name@
                                    != self.children@[b].name@ by {
                                    if b < s0.len() {
                                        assert(s0[a].name@ != s0[b].name@);
                                    } else {
                                        assert(s0[a].name@ != nm);
                                    }
                                }
                                assert forall|a: int|
                                    0 <= a < self.children@.len() implies (
                                #[trigger] self.children@[a]).wf() by {
                                    if a < s0.len() {
                                        assert(s0[a].wf());
                                    }
                                }
                            }
                            true
                        },
                    }
                },
                NodeOp::SetProp(k, v) => {
                    let ghost kv = k@;
                    let ghost vv = opt_str_view(v);
                    let ghost s0 = self.properties@;
                    match self.find_prop(&k) {
                        Some(j) => {
                            let _ = self.properties.remove(j);
                            proof {
                                lemma_props_remove(s0, j as int);
                            }
                        },
                        None => {
                            proof {
                                lemma_props_contains(s0);
                            }
                        },
                    }
                    let ghost s1 = self.properties@;
                    let ghost pr: (String, Option<String>) = (k, v);
                    self.properties.push((k, v));
                    proof {
                        assert(op@ == NodeOpV::SetProp(kv, vv));
                        assert(self.properties@ == s1.push(pr));
                        lemma_props_push(s1, pr);
                        assert(props_model(self.properties@) =~= props_model(s0).insert(kv, vv));
                        assert(m_apply(old(self).model(), p, op@) == m_apply_here(
                            old(self).model(),
                            op@,
                        ));
                        assert(Some(self.model()) == m_apply(old(self).model(), p, op@));
                        lemma_props_contains(s1);
                        assert forall|a: int, b: int|
                            0 <= a < b < self.properties@.len() implies self.properties@[a].0@
                            != self.properties@[b].0@ by {
                            if b < s1.len() {
                                assert(s1[a].0@ != s1[b].0@);
                            } else {
                                assert(s1[a].0@ != kv);
                            }
                        }
                    }
                    true
                },
                NodeOp::RemoveChild(name) => {
                    let ghost nm = name@;
                    match self.find_child(&name) {
                        Some(j) => {
                            let ghost s0 = self.children@;
                            proof {
                                lemma_kids_contains(s0);
                                lemma_kids_remove(s0, j as int);
                            }
                            let _ = self.children.remove(j);
                            proof {
                                assert(op@ == NodeOpV::RemoveChild(nm));
                                assert(kids_model(s0).contains_key(nm));
                                assert(kids_model(self.children@) == kids_model(s0).remove(nm));
                                assert(m_apply(old(self).model(), p, op@) == m_apply_here(
                                    old(self).model(),
                                    op@,
                                ));
                                assert(Some(self.model()) == m_apply(old(self).model(), p, op@));
                                assert forall|a: int|
                                    0 <= a < self.children@.len() implies (
                                #[trigger] self.children@[a]).wf() by {
                                    if a < j {
                                        assert(self.children@[a] == s0[a]);
                                    } else {
                                        assert(self.children@[a] == s0[a + 1]);
                                    }
                                }
                            }
                            true
                        },
                        None => {
                            proof {
                                lemma_kids_contains(self.children@);
                                assert(op@ == NodeOpV::RemoveChild(nm));
                                assert(!kids_model(self.children@).contains_key(nm));
                                assert(m_apply(old(self).model(), p, op@) is None);
                            }
                            false
                        },
                    }
                },
                NodeOp::AddChild(c) => {
                    self.add_child(c);
                    proof {
                        assert(m_apply(old(self).model(), p, op@) == m_apply_here(
                            old(self).model(),
                            op@,
                        ));
                        assert(Some(self.model()) == m_apply(old(self).model(), p, op@));
                    }
                    true
                },
                NodeOp::RemoveProp(k) => {
                    let ghost kv = k@;
                    match self.find_prop(&k) {
                        Some(j) => {
                            let ghost s0 = self.properties@;
                            proof {
                                lemma_props_contains(s0);
                                lemma_props_remove(s0, j as int);
                            }
                            let _ = self.properties.remove(j);
                            proof {
                                assert(op@ == NodeOpV::RemoveProp(kv));
                                assert(props_model(s0).contains_key(kv));
                                assert(props_model(self.properties@) == props_model(s0).remove(
                                    kv,
                                ));
                                assert(m_apply(old(self).model(), p, op@) == m_apply_here(
                                    old(self).model(),
                                    op@,
                                ));
                                assert(Some(self.model()) == m_apply(old(self).model(), p, op@));
                            }
                            true
                        },
                        None => {
                            proof {
                                lemma_props_contains(self.properties@);
                                assert(op@ == NodeOpV::RemoveProp(kv));
                                assert(!props_model(self.properties@).contains_key(kv));
                                assert(m_apply(old(self).model(), p, op@) == m_apply_here(
                                    old(self).model(),
                                    op@,
                                ));
                                assert(Some(self.model()) == m_apply(old(self).model(), p, op@));
                            }
                            true
                        },
                    }
                },
            }
        } else {
            proof {
                assert(p[0] == path@[i as int]@);
                assert(p.skip(1) =~= strs_view(path@).skip(i as int + 1));
            }
            match self.find_child(&path[i]) {
                None => {
                    proof {
                        lemma_kids_contains(self.children@);
                        assert(!kids_model(self.children@).contains_key(p[0]));
                        assert(m_apply(old(self).model(), p, op@) is None);
                    }
                    false
                },
                Some(j) => {
                    let ghost s0 = self.children@;
                    let ghost m = self.model();
                    proof {
                        lemma_kids_lookup(s0, j as int);
                        assert(m.children.contains_key(p[0]));
                        assert(m.children[p[0]] == s0[j as int].model());
                    }
                    let mut c = self.children.remove(j);
                    let ghost c0 = c;
                    let ok = c.apply_at(path, i + 1, op);
                    self.children.insert(j, c);
                    proof {
                        assert(self.children@ =~= s0.update(j as int, c));
                        lemma_kids_update(s0, j as int, c);
                        assert(ok <==> m_apply(c0.model(), p.skip(1), op@) is Some);
                        assert(ok <==> m_apply(m, p, op@) is Some);
                        if ok {
                            assert(Some(c.model()) == m_apply(c0.model(), p.skip(1), op@));
                            assert(kids_model(self.children@) =~= kids_model(s0).insert(
                                p[0],
                                c.model(),
                            ));
                            assert(m_apply(m, p, op@) is Some);
                            assert(m_apply(m, p, op@).unwrap().children == m.children.insert(
                                p[0],
                                c.model(),
                            ));
                            assert(Some(self.model()) == m_apply(m, p, op@));
                        } else {
                            assert(c.model() == c0.model());
                            assert(kids_model(self.children@) =~= kids_model(s0));
                            assert(self.model() == m);
                        }
                        assert forall|a: int|
                            0 <= a < self.children@.len() implies (
                        #[trigger] self.children@[a]).wf() by {
                            if a != j {
                                assert(self.children@[a] == s0[a]);
                            }
                        }
                    }
                    ok
                },
            }
        }
    }
}

} // verus!
