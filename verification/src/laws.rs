//! Laws of the build relation: what the tree builder guarantees about whole
//! event sequences, stated over [`apply_event`] and proved once and for all.

use vstd::prelude::*;

use crate::builder::BState;
use crate::builder::apply_event;
use crate::dt_lexer::EventV;
use crate::dt_node::NodeOpV;
use crate::dt_node::empty_model;
use crate::dt_node::lemma_ensure_idempotent;
use crate::dt_node::lemma_m_apply_name;
use crate::dt_node::lemma_m_apply_some;
use crate::dt_node::lemma_remove_get;
use crate::dt_node::lemma_set_prop_get;
use crate::dt_node::m_apply;
use crate::dt_node::m_get;
use crate::root::RootError;
use crate::root::r_apply;
use crate::root::r_get;

verus! {

/// On an empty state, a well-formed `name { };` yields exactly one node: the
/// root carries that name and has no children and no properties, and the
/// cursor is back at the top.
pub proof fn law_single_node(st0: BState, name: Seq<char>)
    requires
        st0.root is None,
        st0.path.len() == 0,
    ensures
        ({
            let r1 = apply_event(st0, EventV::Node(None, name));
            &&& r1 is Ok
            &&& apply_event(r1->Ok_0, EventV::NodeEnd) is Ok
            &&& ({
                let st2 = apply_event(r1->Ok_0, EventV::NodeEnd)->Ok_0;
                &&& st2.root == Some(empty_model(name))
                &&& st2.root->0.name == name
                &&& st2.root->0.children == Map::<Seq<char>, crate::dt_node::NodeModel>::empty()
                &&& st2.root->0.props == Map::<Seq<char>, Option<Seq<char>>>::empty()
                &&& st2.path.len() == 0
            })
        }),
{
    let r1 = apply_event(st0, EventV::Node(None, name));
    assert(r1 is Ok);
    let st1 = r1->Ok_0;
    assert(st1.path == st0.path.push(name));
    assert(st1.path.len() == 1);
    let st2 = apply_event(st1, EventV::NodeEnd)->Ok_0;
    assert(st2.path =~= st0.path);
}

/// Re-opening a node a second time merges into the existing node: after
/// `name { };` at some resolved path, opening the same name there again
/// leaves the whole tree unchanged.
pub proof fn law_reopen_is_merge(st: BState, name: Seq<char>)
    requires
        st.root is Some,
        apply_event(st, EventV::Node(None, name)) is Ok,
    ensures
        ({
            let st1 = apply_event(st, EventV::Node(None, name))->Ok_0;
            let stc = apply_event(st1, EventV::NodeEnd)->Ok_0;
            &&& apply_event(st1, EventV::NodeEnd) is Ok
            &&& apply_event(stc, EventV::Node(None, name)) is Ok
            &&& apply_event(stc, EventV::Node(None, name))->Ok_0.root == st1.root
        }),
{
    let m = st.root->0;
    let st1 = apply_event(st, EventV::Node(None, name))->Ok_0;
    assert(st1.path == st.path.push(name));
    let stc = apply_event(st1, EventV::NodeEnd)->Ok_0;
    assert(stc.path =~= st.path);
    assert(st.path.len() >= 1 && st.path[0] == m.name);
    let m2 = m_apply(m, st.path.skip(1), NodeOpV::Ensure(name))->0;
    lemma_m_apply_name(m, st.path.skip(1), NodeOpV::Ensure(name));
    assert(m2.name == m.name);
    lemma_ensure_idempotent(m, st.path.skip(1), name);
    assert(m_apply(m2, st.path.skip(1), NodeOpV::Ensure(name)) == Some(m2));
}

/// A property assigned after re-opening through a label lands on the labeled
/// node itself, not on a new sibling: the node at the label's path keeps its
/// name and children and gains exactly the assigned property.
pub proof fn law_label_reopen_property(
    st: BState,
    l: Seq<char>,
    k: Seq<char>,
    v: Option<Seq<char>>,
)
    requires
        st.labels.contains_key(l),
        r_get(st.root, st.labels[l]) is Some,
    ensures
        ({
            let st1 = apply_event(st, EventV::RefNode(l))->Ok_0;
            let r2 = apply_event(st1, EventV::Property(k, v));
            &&& apply_event(st, EventV::RefNode(l)) is Ok
            &&& r2 is Ok
            &&& ({
                let nd0 = r_get(st.root, st.labels[l])->0;
                let nd = r_get(r2->Ok_0.root, st.labels[l])->0;
                &&& r_get(r2->Ok_0.root, st.labels[l]) is Some
                &&& nd.name == nd0.name
                &&& nd.children == nd0.children
                &&& nd.props == nd0.props.insert(k, v)
            })
        }),
{
    let st1 = apply_event(st, EventV::RefNode(l))->Ok_0;
    assert(st1.path == st.labels[l]);
    let pth = st.labels[l];
    let m = st.root->0;
    assert(pth.len() >= 1 && pth[0] == m.name);
    lemma_m_apply_some(m, pth.skip(1), NodeOpV::SetProp(k, v));
    assert(m_apply(m, pth.skip(1), NodeOpV::SetProp(k, v)) is Some);
    lemma_set_prop_get(m, pth.skip(1), k, v);
    let m2 = m_apply(m, pth.skip(1), NodeOpV::SetProp(k, v))->0;
    lemma_m_apply_name(m, pth.skip(1), NodeOpV::SetProp(k, v));
    assert(m2.name == m.name);
}

/// Deleting a node through its label removes it from its parent, and unbinds
/// the label, so that a later reference to the label fails as unknown.
pub proof fn law_delete_by_label(st: BState, l: Seq<char>, t: Seq<char>)
    requires
        t.len() > 0,
        t[0] == '&',
        t.skip(1) == l,
        st.labels.contains_key(l),
        st.labels[l].len() >= 2,
        r_apply(
            st.root,
            st.labels[l].drop_last(),
            NodeOpV::RemoveChild(st.labels[l].last()),
        ) is Some,
    ensures
        ({
            let r1 = apply_event(st, EventV::Directive("delete-node"@, Some(t)));
            &&& r1 is Ok
            &&& !r1->Ok_0.labels.contains_key(l)
            &&& apply_event(r1->Ok_0, EventV::RefNode(l)) == Err::<BState, RootError>(
                RootError::UnknownLabel,
            )
            &&& r_get(r1->Ok_0.root, st.labels[l]) is None
            &&& ({
                let parent0 = r_get(st.root, st.labels[l].drop_last())->0;
                let parent = r_get(r1->Ok_0.root, st.labels[l].drop_last())->0;
                &&& r_get(r1->Ok_0.root, st.labels[l].drop_last()) is Some
                &&& parent.children == parent0.children.remove(st.labels[l].last())
            })
        }),
{
    let pth = st.labels[l];
    let parentp = pth.drop_last();
    let nm = pth.last();
    let m = st.root->0;
    assert(parentp.len() >= 1 && parentp[0] == m.name);
    lemma_remove_get(m, parentp.skip(1), nm);
    let m2 = m_apply(m, parentp.skip(1), NodeOpV::RemoveChild(nm))->0;
    lemma_m_apply_name(m, parentp.skip(1), NodeOpV::RemoveChild(nm));
    assert(m2.name == m.name);
    assert(parentp.skip(1).push(nm) =~= pth.skip(1));
    assert(m_get(m2, pth.skip(1)) is None);
    assert(pth[0] == parentp[0]);
    let r1 = apply_event(st, EventV::Directive("delete-node"@, Some(t)));
    assert(r1 is Ok);
}

/// An unbalanced close — more closes than opens — fails with a bad path; the
/// builder never pops past the root.
pub proof fn law_unbalanced_close(st: BState)
    requires
        st.path.len() == 0,
    ensures
        apply_event(st, EventV::NodeEnd) == Err::<BState, RootError>(RootError::BadPath),
{
}

/// A define binds once: binding a fresh name succeeds and a second binding of
/// the same name fails as a redefine, whatever its value.
pub proof fn law_define_once(st: BState, n: Seq<char>, v: Seq<char>, v2: Seq<char>)
    requires
        !st.defines.contains_key(n),
    ensures
        apply_event(st, EventV::Define(n, v)) is Ok,
        ({
            let st1 = apply_event(st, EventV::Define(n, v))->Ok_0;
            &&& st1.defines == st.defines.insert(n, v)
            &&& apply_event(st1, EventV::Define(n, v2)) == Err::<BState, RootError>(
                RootError::Redefine,
            )
        }),
{
}

/// Two defines under different names both succeed, and both bindings are
/// present afterwards.
pub proof fn law_two_defines(st: BState, n1: Seq<char>, v1: Seq<char>, n2: Seq<char>, v2: Seq<char>)
    requires
        n1 != n2,
        !st.defines.contains_key(n1),
        !st.defines.contains_key(n2),
    ensures
        apply_event(st, EventV::Define(n1, v1)) is Ok,
        ({
            let st1 = apply_event(st, EventV::Define(n1, v1))->Ok_0;
            &&& apply_event(st1, EventV::Define(n2, v2)) is Ok
            &&& ({
                let st2 = apply_event(st1, EventV::Define(n2, v2))->Ok_0;
                &&& st2.defines.contains_key(n1) && st2.defines[n1] == v1
                &&& st2.defines.contains_key(n2) && st2.defines[n2] == v2
            })
        }),
{
}

} // verus!
