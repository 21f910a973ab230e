//! The whole-tree state: the root node, the label table mapping a label to
//! the structural path that was current when it was declared, and the table
//! of preprocessor-style defines.

use vstd::prelude::*;

use crate::dt_node::DTNode;
use crate::dt_node::NodeModel;
use crate::dt_node::NodeOp;
use crate::dt_node::NodeOpV;
use crate::dt_node::empty_model;
use crate::dt_node::m_apply;
use crate::dt_node::m_get;
use crate::dt_node::strs_view;

verus! {

/// Failure of a tree operation.
#[derive(Debug, PartialEq, Eq, Structural, Clone, Copy)]
pub enum RootError {
    /// A path did not resolve to a node, or a node to delete was absent.
    MissingNode,
    /// A label was looked up that was never declared.
    UnknownLabel,
    /// A path was empty where a node was needed, or a close had no open.
    BadPath,
    /// A define was declared under an already-bound name.
    Redefine,
}

/// The tree together with its label and define tables.
#[derive(Debug)]
pub struct Root {
    pub defines: Vec<(String, String)>,
    pub labels: Vec<(String, Vec<String>)>,
    pub the_root: Option<DTNode>,
}

pub open spec fn defines_model(s: Seq<(String, String)>) -> Map<Seq<char>, Seq<char>>
    decreases s.len(),
{
    if s.len() == 0 {
        Map::empty()
    } else {
        defines_model(s.drop_last()).insert(s.last().0@, s.last().1@)
    }
}

pub open spec fn labels_model(s: Seq<(String, Vec<String>)>) -> Map<Seq<char>, Seq<Seq<char>>>
    decreases s.len(),
{
    if s.len() == 0 {
        Map::empty()
    } else {
        labels_model(s.drop_last()).insert(s.last().0@, strs_view(s.last().1@))
    }
}

pub open spec fn keys_unique_defines(s: Seq<(String, String)>) -> bool {
    forall|i: int, j: int| 0 <= i < j < s.len() ==> s[i].0@ != s[j].0@
}

pub open spec fn keys_unique_labels(s: Seq<(String, Vec<String>)>) -> bool {
    forall|i: int, j: int| 0 <= i < j < s.len() ==> s[i].0@ != s[j].0@
}

proof fn lemma_defines_contains(s: Seq<(String, String)>)
    ensures
        forall|k: Seq<char>|
            #[trigger] defines_model(s).contains_key(k) <==> exists|i: int|
                0 <= i < s.len() && s[i].0@ == k,
    decreases s.len(),
{
    if s.len() == 0 {
    } else {
        lemma_defines_contains(s.drop_last());
        assert forall|k: Seq<char>| #[trigger] defines_model(s).contains_key(k)
            implies exists|i: int| 0 <= i < s.len() && s[i].0@ == k by {
            if k == s.last().0@ {
                assert(s[s.len() - 1].0@ == k);
            } else {
                assert(defines_model(s.drop_last()).contains_key(k));
                assert(exists|i: int| 0 <= i < s.drop_last().len() && s.drop_last()[i].0@ == k);
                let i = choose|i: int| 0 <= i < s.drop_last().len() && s.drop_last()[i].0@ == k;
                assert(s[i].0@ == k);
            }
        }
        assert forall|k: Seq<char>| (exists|i: int| 0 <= i < s.len() && s[i].0@ == k)
            implies #[trigger] defines_model(s).contains_key(k) by {
            let i = choose|i: int| 0 <= i < s.len() && s[i].0@ == k;
            if i < s.len() - 1 {
                assert(s.drop_last()[i].0@ == k);
                assert(exists|a: int| 0 <= a < s.drop_last().len() && s.drop_last()[a].0@ == k);
                assert(defines_model(s.drop_last()).contains_key(k));
            }
        }
    }
}

proof fn lemma_defines_push(s: Seq<(String, String)>, p: (String, String))
    ensures
        defines_model(s.push(p)) == defines_model(s).insert(p.0@, p.1@),
{
    assert(s.push(p).drop_last() =~= s);
    assert(s.push(p).last() == p);
}

proof fn lemma_labels_contains(s: Seq<(String, Vec<String>)>)
    ensures
        forall|k: Seq<char>|
            #[trigger] labels_model(s).contains_key(k) <==> exists|i: int|
                0 <= i < s.len() && s[i].0@ == k,
    decreases s.len(),
{
    if s.len() == 0 {
    } else {
        lemma_labels_contains(s.drop_last());
        assert forall|k: Seq<char>| #[trigger] labels_model(s).contains_key(k)
            implies exists|i: int| 0 <= i < s.len() && s[i].0@ == k by {
            if k == s.last().0@ {
                assert(s[s.len() - 1].0@ == k);
            } else {
                assert(labels_model(s.drop_last()).contains_key(k));
                assert(exists|i: int| 0 <= i < s.drop_last().len() && s.drop_last()[i].0@ == k);
                let i = choose|i: int| 0 <= i < s.drop_last().len() && s.drop_last()[i].0@ == k;
                assert(s[i].0@ == k);
            }
        }
        assert forall|k: Seq<char>| (exists|i: int| 0 <= i < s.len() && s[i].0@ == k)
            implies #[trigger] labels_model(s).contains_key(k) by {
            let i = choose|i: int| 0 <= i < s.len() && s[i].0@ == k;
            if i < s.len() - 1 {
                assert(s.drop_last()[i].0@ == k);
                assert(exists|a: int| 0 <= a < s.drop_last().len() && s.drop_last()[a].0@ == k);
                assert(labels_model(s.drop_last()).contains_key(k));
            }
        }
    }
}

proof fn lemma_labels_push(s: Seq<(String, Vec<String>)>, p: (String, Vec<String>))
    ensures
        labels_model(s.push(p)) == labels_model(s).insert(p.0@, strs_view(p.1@)),
{
    assert(s.push(p).drop_last() =~= s);
    assert(s.push(p).last() == p);
}

proof fn lemma_labels_lookup(s: Seq<(String, Vec<String>)>, j: int)
    requires
        keys_unique_labels(s),
        0 <= j < s.len(),
    ensures
        labels_model(s).contains_key(s[j].0@),
        labels_model(s)[s[j].0@] == strs_view(s[j].1@),
    decreases s.len(),
{
    if j == s.len() - 1 {
    } else {
        assert(keys_unique_labels(s.drop_last()));
        lemma_labels_lookup(s.drop_last(), j);
        assert(s.drop_last()[j] == s[j]);
        assert(s[s.len() - 1].0@ != s[j].0@);
    }
}

proof fn lemma_labels_remove(s: Seq<(String, Vec<String>)>, j: int)
    requires
        keys_unique_labels(s),
        0 <= j < s.len(),
    ensures
        labels_model(s.remove(j)) == labels_model(s).remove(s[j].0@),
        keys_unique_labels(s.remove(j)),
    decreases s.len(),
{
    let k = s[j].0@;
    assert forall|a: int, b: int| 0 <= a < b < s.remove(j).len() implies s.remove(j)[a].0@
        != s.remove(j)[b].0@ by {
        if a < j {
            assert(s.remove(j)[a] == s[a]);
        } else {
            assert(s.remove(j)[a] == s[a + 1]);
        }
        if b < j {
            assert(s.remove(j)[b] == s[b]);
        } else {
            assert(s.remove(j)[b] == s[b + 1]);
        }
    }
    if j == s.len() - 1 {
        assert(s.remove(j) =~= s.drop_last());
        lemma_labels_contains(s.drop_last());
        assert(!labels_model(s.drop_last()).contains_key(k)) by {
            if labels_model(s.drop_last()).contains_key(k) {
                let i = choose|i: int| 0 <= i < s.drop_last().len() && s.drop_last()[i].0@ == k;
                assert(s[i].0@ == k);
            }
        }
        assert(labels_model(s).remove(k) =~= labels_model(s.drop_last()));
    } else {
        assert(keys_unique_labels(s.drop_last()));
        lemma_labels_remove(s.drop_last(), j);
        assert(s.remove(j).drop_last() =~= s.drop_last().remove(j));
        assert(s.remove(j).last() == s.last());
        assert(s.drop_last()[j] == s[j]);
        assert(s.last().0@ != k);
        assert(labels_model(s.drop_last()).remove(k).insert(s.last().0@, strs_view(s.last().1@))
            =~= labels_model(s.drop_last()).insert(s.last().0@, strs_view(s.last().1@)).remove(k));
    }
}

/// The effect of a node edit on the whole tree, addressed by an absolute
/// path whose first segment must name the root. `None` is failure.
pub open spec fn r_apply(root: Option<NodeModel>, p: Seq<Seq<char>>, op: NodeOpV) -> Option<
    NodeModel,
> {
    match root {
        None => None,
        Some(m) => if p.len() >= 1 && p[0] == m.name {
            m_apply(m, p.skip(1), op)
        } else {
            None
        },
    }
}

/// The node an absolute path resolves to, `None` when it does not.
pub open spec fn r_get(root: Option<NodeModel>, p: Seq<Seq<char>>) -> Option<NodeModel> {
    match root {
        None => None,
        Some(m) => if p.len() >= 1 && p[0] == m.name {
            m_get(m, p.skip(1))
        } else {
            None
        },
    }
}

/// Opening a node: creates the root when none exists and the path is empty,
/// otherwise keeps or adds the named child of the addressed node.
pub open spec fn r_add_node(root: Option<NodeModel>, p: Seq<Seq<char>>, name: Seq<char>) -> Option<
    Option<NodeModel>,
> {
    match root {
        None => if p.len() == 0 {
            Some(Some(empty_model(name)))
        } else {
            None
        },
        Some(m) => match r_apply(root, p, NodeOpV::Ensure(name)) {
            Some(m2) => Some(Some(m2)),
            None => None,
        },
    }
}

impl Root {
    pub open spec fn defines_m(self) -> Map<Seq<char>, Seq<char>> {
        defines_model(self.defines@)
    }

    pub open spec fn labels_m(self) -> Map<Seq<char>, Seq<Seq<char>>> {
        labels_model(self.labels@)
    }

    pub open spec fn root_m(self) -> Option<NodeModel> {
        match self.the_root {
            Some(n) => Some(n.model()),
            None => None,
        }
    }

    /// Well-formedness: unique define and label keys, well-formed tree.
    pub open spec fn wf(self) -> bool {
        &&& keys_unique_defines(self.defines@)
        &&& keys_unique_labels(self.labels@)
        &&& match self.the_root {
            Some(n) => n.wf(),
            None => true,
        }
    }

    /// An empty state: no tree, no labels, no defines.
    pub fn new() -> (r: Root)
        ensures
            r.wf(),
            r.defines_m() == Map::<Seq<char>, Seq<char>>::empty(),
            r.labels_m() == Map::<Seq<char>, Seq<Seq<char>>>::empty(),
            r.root_m() is None,
    {
        Root { defines: Vec::new(), labels: Vec::new(), the_root: None }
    }

    fn find_define(&self, d: &String) -> (r: Option<usize>)
        ensures
            match r {
                Some(j) => j < self.defines@.len() && self.defines@[j as int].0@ == d@,
                None => forall|i: int|
                    0 <= i < self.defines@.len() ==> (#[trigger] self.defines@[i]).0@ != d@,
            },
    {
        let mut j: usize = 0;
        while j < self.defines.len()
            invariant
                j <= self.defines@.len(),
                forall|i: int| 0 <= i < j ==> (#[trigger] self.defines@[i]).0@ != d@,
            decreases self.defines@.len() - j,
        {
            if self.defines[j].0 == *d {
                return Some(j);
            }
            j = j + 1;
        }
        None
    }

    fn find_label(&self, l: &String) -> (r: Option<usize>)
        ensures
            match r {
                Some(j) => j < self.labels@.len() && self.labels@[j as int].0@ == l@,
                None => forall|i: int|
                    0 <= i < self.labels@.len() ==> (#[trigger] self.labels@[i]).0@ != l@,
            },
    {
        let mut j: usize = 0;
        while j < self.labels.len()
            invariant
                j <= self.labels@.len(),
                forall|i: int| 0 <= i < j ==> (#[trigger] self.labels@[i]).0@ != l@,
            decreases self.labels@.len() - j,
        {
            if self.labels[j].0 == *l {
                return Some(j);
            }
            j = j + 1;
        }
        None
    }

    /// Binds a define once; a second binding of the same name fails with
    /// [`RootError::Redefine`], and exactly then.
    pub fn add_define(self, d: String, v: String) -> (r: Result<Root, RootError>)
        requires
            self.wf(),
        ensures
            match r {
                Ok(s2) => !self.defines_m().contains_key(d@) && s2.wf() && s2.defines_m()
                    == self.defines_m().insert(d@, v@) && s2.labels_m() == self.labels_m()
                    && s2.root_m() == self.root_m(),
                Err(e) => e == RootError::Redefine && self.defines_m().contains_key(d@),
            },
    {
        let ghost dv = d@;
        match self.find_define(&d) {
            Some(j) => {
                proof {
                    lemma_defines_contains(self.defines@);
                }
                Err(RootError::Redefine)
            },
            None => {
                proof {
                    lemma_defines_contains(self.defines@);
                    assert(!self.defines_m().contains_key(dv));
                }
                let mut s2 = self;
                let ghost s0 = s2.defines@;
                s2.defines.push((d, v));
                proof {
                    lemma_defines_push(s0, (s2.defines@[s2.defines@.len() - 1].0,
                        s2.defines@[s2.defines@.len() - 1].1));
                    assert(s2.defines@.last() == s2.defines@[s2.defines@.len() - 1]);
                    assert forall|a: int, b: int|
                        0 <= a < b < s2.defines@.len() implies s2.defines@[a].0@
                        != s2.defines@[b].0@ by {
                        if b < s0.len() {
                            assert(s0[a].0@ != s0[b].0@);
                        } else {
                            assert(s0[a].0@ != dv);
                        }
                    }
                }
                Ok(s2)
            },
        }
    }

    /// Opens a node: creates the root when none exists and the path is empty,
    /// otherwise keeps or adds the child `name` of the node at `path`; fails
    /// with [`RootError::MissingNode`] exactly when the path does not resolve.
    pub fn add_node(self, path: &Vec<String>, name: &String) -> (r: Result<Root, RootError>)
        requires
            self.wf(),
        ensures
            match r {
                Ok(s2) => r_add_node(self.root_m(), strs_view(path@), name@) == Some(s2.root_m())
                    && s2.wf() && s2.defines_m() == self.defines_m() && s2.labels_m()
                    == self.labels_m(),
                Err(e) => e == RootError::MissingNode && r_add_node(
                    self.root_m(),
                    strs_view(path@),
                    name@,
                ) is None,
            },
    {
        let Root { defines, labels, the_root } = self;
        match the_root {
            None => {
                if path.len() == 0 {
                    let n = DTNode::new(name.clone());
                    Ok(Root { defines, labels, the_root: Some(n) })
                } else {
                    Err(RootError::MissingNode)
                }
            },
            Some(mut n) => {
                if path.len() == 0 {
                    return Err(RootError::MissingNode);
                }
                if n.name != path[0] {
                    return Err(RootError::MissingNode);
                }
                let ok = n.apply_at(path, 1, NodeOp::Ensure(name.clone()));
                if ok {
                    Ok(Root { defines, labels, the_root: Some(n) })
                } else {
                    Err(RootError::MissingNode)
                }
            },
        }
    }

    /// Inserts or overwrites a property on the node at `path`; fails with
    /// [`RootError::MissingNode`] exactly when the path does not resolve.
    pub fn add_property(self, path: &Vec<String>, props: (String, Option<String>)) -> (r: Result<
        Root,
        RootError,
    >)
        requires
            self.wf(),
        ensures
            match r {
                Ok(s2) => r_apply(
                    self.root_m(),
                    strs_view(path@),
                    NodeOpV::SetProp(props.0@, crate::dt_node::opt_str_view(props.1)),
                ) == Some(s2.root_m()->0) && s2.root_m() is Some && s2.wf() && s2.defines_m()
                    == self.defines_m() && s2.labels_m() == self.labels_m(),
                Err(e) => e == RootError::MissingNode && r_apply(
                    self.root_m(),
                    strs_view(path@),
                    NodeOpV::SetProp(props.0@, crate::dt_node::opt_str_view(props.1)),
                ) is None,
            },
    {
        let Root { defines, labels, the_root } = self;
        match the_root {
            None => Err(RootError::MissingNode),
            Some(mut n) => {
                if path.len() == 0 {
                    return Err(RootError::MissingNode);
                }
                if n.name != path[0] {
                    return Err(RootError::MissingNode);
                }
                let ok = n.apply_at(path, 1, NodeOp::SetProp(props.0, props.1));
                if ok {
                    Ok(Root { defines, labels, the_root: Some(n) })
                } else {
                    Err(RootError::MissingNode)
                }
            },
        }
    }

    /// Binds a label to the given structural path, overwriting any previous
    /// binding of the same label.
    pub fn add_path(&mut self, l: String, p: &Vec<String>)
        requires
            old(self).wf(),
        ensures
            final(self).wf(),
            final(self).labels_m() == old(self).labels_m().insert(l@, strs_view(p@)),
            final(self).defines_m() == old(self).defines_m(),
            final(self).root_m() == old(self).root_m(),
    {
        let ghost lv = l@;
        match self.find_label(&l) {
            Some(j) => {
                let ghost s0 = self.labels@;
                proof {
                    lemma_labels_remove(s0, j as int);
                }
                let _ = self.labels.remove(j);
            },
            None => {
                proof {
                    lemma_labels_contains(self.labels@);
                }
            },
        }
        let ghost s1 = self.labels@;
        let copy = clone_strs(p);
        let ghost pr: (String, Vec<String>) = (l, copy);
        self.labels.push((l, copy));
        proof {
            assert(self.labels@ == s1.push(pr));
            lemma_labels_push(s1, pr);
            assert(labels_model(self.labels@) =~= labels_model(old(self).labels@).insert(
                lv,
                strs_view(p@),
            ));
            lemma_labels_contains(s1);
            assert forall|a: int, b: int|
                0 <= a < b < self.labels@.len() implies self.labels@[a].0@
                != self.labels@[b].0@ by {
                if b < s1.len() {
                    assert(s1[a].0@ != s1[b].0@);
                } else {
                    assert(s1[a].0@ != lv);
                }
            }
        }
    }

    /// Looks a label up and returns a copy of the path it was bound to; fails
    /// with [`RootError::UnknownLabel`] exactly when the label is unbound.
    pub fn get_path(&mut self, l: String) -> (r: Result<Vec<String>, RootError>)
        requires
            old(self).wf(),
        ensures
            *final(self) == *old(self),
            match r {
                Ok(p) => old(self).labels_m().contains_key(l@) && strs_view(p@) == old(
                    self,
                ).labels_m()[l@],
                Err(e) => e == RootError::UnknownLabel && !old(self).labels_m().contains_key(l@),
            },
    {
        match self.find_label(&l) {
            Some(j) => {
                proof {
                    lemma_labels_lookup(self.labels@, j as int);
                }
                Ok(clone_strs(&self.labels[j].1))
            },
            None => {
                proof {
                    lemma_labels_contains(self.labels@);
                }
                Err(RootError::UnknownLabel)
            },
        }
    }
    /// Removes a property from the node at `path`; removing an absent
    /// property is tolerated as a no-op. Fails with
    /// [`RootError::MissingNode`] exactly when the path does not resolve.
    pub fn delete_property(self, path: &Vec<String>, name: String) -> (r: Result<Root, RootError>)
        requires
            self.wf(),
        ensures
            match r {
                Ok(s2) => r_apply(self.root_m(), strs_view(path@), NodeOpV::RemoveProp(name@))
                    == Some(s2.root_m()->0) && s2.root_m() is Some && s2.wf() && s2.defines_m()
                    == self.defines_m() && s2.labels_m() == self.labels_m(),
                Err(e) => e == RootError::MissingNode && r_apply(
                    self.root_m(),
                    strs_view(path@),
                    NodeOpV::RemoveProp(name@),
                ) is None,
            },
    {
        let Root { defines, labels, the_root } = self;
        match the_root {
            None => Err(RootError::MissingNode),
            Some(mut n) => {
                if path.len() == 0 {
                    return Err(RootError::MissingNode);
                }
                if n.name != path[0] {
                    return Err(RootError::MissingNode);
                }
                let ok = n.apply_at(path, 1, NodeOp::RemoveProp(name));
                if ok {
                    Ok(Root { defines, labels, the_root: Some(n) })
                } else {
                    Err(RootError::MissingNode)
                }
            },
        }
    }

    /// Deletes the node a label's path points at, removing it from its parent
    /// and unbinding the label itself, so that a later lookup of the label
    /// fails. Fails with [`RootError::UnknownLabel`] when the label is
    /// unbound, [`RootError::BadPath`] when its path is too short to have a
    /// parent, and [`RootError::MissingNode`] when the path does not resolve.
    pub fn delete_from_label(self, l: String) -> (r: Result<Root, RootError>)
        requires
            self.wf(),
        ensures
            match r {
                Ok(s2) => {
                    &&& self.labels_m().contains_key(l@)
                    &&& self.labels_m()[l@].len() >= 2
                    &&& r_apply(
                        self.root_m(),
                        self.labels_m()[l@].drop_last(),
                        NodeOpV::RemoveChild(self.labels_m()[l@].last()),
                    ) == Some(s2.root_m()->0)
                    &&& s2.root_m() is Some
                    &&& s2.wf()
                    &&& s2.labels_m() == self.labels_m().remove(l@)
                    &&& s2.defines_m() == self.defines_m()
                },
                Err(e) => {
                    ||| (e == RootError::UnknownLabel && !self.labels_m().contains_key(l@))
                    ||| (e == RootError::BadPath && self.labels_m().contains_key(l@)
                        && self.labels_m()[l@].len() < 2)
                    ||| (e == RootError::MissingNode && self.labels_m().contains_key(l@)
                        && self.labels_m()[l@].len() >= 2 && r_apply(
                        self.root_m(),
                        self.labels_m()[l@].drop_last(),
                        NodeOpV::RemoveChild(self.labels_m()[l@].last()),
                    ) is None)
                },
            },
    {
        let ghost lv = l@;
        let jopt = self.find_label(&l);
        match jopt {
            None => {
                proof {
                    lemma_labels_contains(self.labels@);
                }
                Err(RootError::UnknownLabel)
            },
            Some(j) => {
                proof {
                    lemma_labels_lookup(self.labels@, j as int);
                }
                let ghost pth = self.labels_m()[lv];
                let mut path = clone_strs(&self.labels[j].1);
                if path.len() < 2 {
                    return Err(RootError::BadPath);
                }
                let target = match path.pop() {
                    Some(t) => t,
                    None => {
                        return Err(RootError::BadPath);
                    },
                };
                proof {
                    assert(strs_view(path@) =~= pth.drop_last());
                    assert(target@ == pth.last());
                }
                let Root { defines, mut labels, the_root } = self;
                match the_root {
                    None => Err(RootError::MissingNode),
                    Some(mut n) => {
                        if n.name != path[0] {
                            return Err(RootError::MissingNode);
                        }
                        proof {
                            assert(strs_view(path@)[0] == path@[0]@);
                        }
                        let ok = n.apply_at(&path, 1, NodeOp::RemoveChild(target));
                        if ok {
                            let ghost ls = labels@;
                            proof {
                                lemma_labels_remove(ls, j as int);
                            }
                            let _ = labels.remove(j);
                            Ok(Root { defines, labels, the_root: Some(n) })
                        } else {
                            Err(RootError::MissingNode)
                        }
                    },
                }
            },
        }
    }

    /// Deletes the node at the end of an absolute path, removing it from its
    /// parent. Fails with [`RootError::BadPath`] when the path is too short
    /// to have a parent, and [`RootError::MissingNode`] when it does not
    /// resolve.
    pub fn delete_node(self, path: Vec<String>) -> (r: Result<Root, RootError>)
        requires
            self.wf(),
        ensures
            match r {
                Ok(s2) => {
                    &&& path@.len() >= 2
                    &&& r_apply(
                        self.root_m(),
                        strs_view(path@).drop_last(),
                        NodeOpV::RemoveChild(strs_view(path@).last()),
                    ) == Some(s2.root_m()->0)
                    &&& s2.root_m() is Some
                    &&& s2.wf()
                    &&& s2.labels_m() == self.labels_m()
                    &&& s2.defines_m() == self.defines_m()
                },
                Err(e) => {
                    ||| (e == RootError::BadPath && path@.len() < 2)
                    ||| (e == RootError::MissingNode && path@.len() >= 2 && r_apply(
                        self.root_m(),
                        strs_view(path@).drop_last(),
                        NodeOpV::RemoveChild(strs_view(path@).last()),
                    ) is None)
                },
            },
    {
        let ghost pth = strs_view(path@);
        let mut parent = path;
        if parent.len() < 2 {
            return Err(RootError::BadPath);
        }
        let target = match parent.pop() {
            Some(t) => t,
            None => {
                return Err(RootError::BadPath);
            },
        };
        proof {
            assert(strs_view(parent@) =~= pth.drop_last());
            assert(target@ == pth.last());
        }
        let Root { defines, labels, the_root } = self;
        match the_root {
            None => Err(RootError::MissingNode),
            Some(mut n) => {
                if n.name != parent[0] {
                    return Err(RootError::MissingNode);
                }
                proof {
                    assert(strs_view(parent@)[0] == parent@[0]@);
                }
                let ok = n.apply_at(&parent, 1, NodeOp::RemoveChild(target));
                if ok {
                    Ok(Root { defines, labels, the_root: Some(n) })
                } else {
                    Err(RootError::MissingNode)
                }
            },
        }
    }
}

/// A copy of a vector of strings, element for element.
pub(crate) fn clone_strs(v: &Vec<String>) -> (r: Vec<String>)
    ensures
        r@ == v@,
{
    let mut r: Vec<String> = Vec::new();
    let mut j: usize = 0;
    while j < v.len()
        invariant
            j <= v@.len(),
            r@ =~= v@.subrange(0, j as int),
        decreases v@.len() - j,
    {
        r.push(v[j].clone());
        proof {
            assert(r@ =~= v@.subrange(0, j as int + 1));
        }
        j = j + 1;
    }
    proof {
        assert(v@.subrange(0, v@.len() as int) =~= v@);
    }
    r
}

} // verus!
