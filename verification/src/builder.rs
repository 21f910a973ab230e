//! The tree builder: pulls source events frame by frame, keeps the current
//! path cursor, and applies each event to the tree state. An import event is
//! never applied: the builder pauses and asks its caller to open the named
//! source and hand its events back, which are then consumed depth-first
//! before the rest of the requesting frame.

use vstd::prelude::*;
use vstd::string::StrSliceExecFns;

use crate::dt_lexer::DTInfo;
use crate::dt_lexer::EventV;
use crate::dt_lexer::events_view;
use crate::dt_node::NodeModel;
use crate::dt_node::NodeOpV;
use crate::dt_node::strs_view;
use crate::root::Root;
use crate::root::RootError;
use crate::root::r_add_node;
use crate::root::r_apply;

verus! {

/// The kinds of overlay directive the builder acts on.
#[derive(Debug, PartialEq, Eq, Structural, Clone, Copy)]
pub enum Directives {
    DeleteProperty,
    DeleteNode,
    Unknown,
}

/// The directive kind a directive name denotes.
pub open spec fn spec_directive_type(d: Seq<char>) -> Directives {
    if d == "delete-node"@ {
        Directives::DeleteNode
    } else if d == "delete-property"@ {
        Directives::DeleteProperty
    } else {
        Directives::Unknown
    }
}

/// Classifies a directive name.
pub fn get_directive_type(d: &String) -> (r: Directives)
    ensures
        r == spec_directive_type(d@),
{
    let dn: String = "delete-node".to_owned();
    let dp: String = "delete-property".to_owned();
    if *d == dn {
        Directives::DeleteNode
    } else if *d == dp {
        Directives::DeleteProperty
    } else {
        Directives::Unknown
    }
}

/// Pieces of a string split at every slash.
pub open spec fn split_idx(s: Seq<char>, i: int, start: int) -> Seq<Seq<char>>
    decreases s.len() - i,
    when 0 <= start <= i <= s.len()
{
    if i >= s.len() {
        seq![s.subrange(start, s.len() as int)]
    } else if s[i] == '/' {
        seq![s.subrange(start, i)] + split_idx(s, i + 1, i + 1)
    } else {
        split_idx(s, i + 1, start)
    }
}

pub open spec fn spec_split(s: Seq<char>) -> Seq<Seq<char>> {
    split_idx(s, 0, 0)
}

/// Splits a path string at every slash; an empty string gives one empty piece.
pub fn split_slash(s: &String) -> (r: Vec<String>)
    ensures
        strs_view(r@) == spec_split(s@),
{
    let st = s.as_str();
    let n = st.unicode_len();
    let mut out: Vec<String> = Vec::new();
    let mut start: usize = 0;
    let mut i: usize = 0;
    while i < n
        invariant
            0 <= start <= i <= n,
            n == st@.len(),
            st@ == s@,
            split_idx(s@, 0, 0) == strs_view(out@) + split_idx(s@, i as int, start as int),
        decreases n - i,
    {
        if st.get_char(i) == '/' {
            let piece = st.substring_char(start, i).to_owned();
            let ghost o0 = strs_view(out@);
            out.push(piece);
            proof {
                assert(strs_view(out@) =~= o0.push(s@.subrange(start as int, i as int)));
                assert(o0 + (seq![s@.subrange(start as int, i as int)] + split_idx(
                    s@,
                    i as int + 1,
                    i as int + 1,
                )) =~= strs_view(out@) + split_idx(s@, i as int + 1, i as int + 1));
            }
            start = i + 1;
        }
        i = i + 1;
    }
    let piece = st.substring_char(start, n).to_owned();
    let ghost o0 = strs_view(out@);
    out.push(piece);
    proof {
        assert(strs_view(out@) =~= o0.push(s@.subrange(start as int, n as int)));
        assert(o0 + seq![s@.subrange(start as int, s@.len() as int)] =~= strs_view(out@));
    }
    out
}

/// The abstract state the builder drives: the tree, the two tables, and the
/// current path cursor.
pub struct BState {
    pub root: Option<NodeModel>,
    pub labels: Map<Seq<char>, Seq<Seq<char>>>,
    pub defines: Map<Seq<char>, Seq<char>>,
    pub path: Seq<Seq<char>>,
}

/// The effect of an overlay directive on the builder state.
pub open spec fn apply_directive(st: BState, d: Seq<char>, t: Option<Seq<char>>) -> Result<
    BState,
    RootError,
> {
    if spec_directive_type(d) == Directives::DeleteNode {
        match t {
            None => Err(RootError::BadPath),
            Some(tv) => if tv.len() > 0 && tv[0] == '&' {
                let l = tv.skip(1);
                if !st.labels.contains_key(l) {
                    Err(RootError::UnknownLabel)
                } else if st.labels[l].len() < 2 {
                    Err(RootError::BadPath)
                } else {
                    match r_apply(
                        st.root,
                        st.labels[l].drop_last(),
                        NodeOpV::RemoveChild(st.labels[l].last()),
                    ) {
                        Some(m2) => Ok(
                            BState {
                                root: Some(m2),
                                labels: st.labels.remove(l),
                                defines: st.defines,
                                path: st.path,
                            },
                        ),
                        None => Err(RootError::MissingNode),
                    }
                }
            } else {
                let segs = st.path + spec_split(tv);
                if segs.len() < 2 {
                    Err(RootError::BadPath)
                } else {
                    match r_apply(st.root, segs.drop_last(), NodeOpV::RemoveChild(segs.last())) {
                        Some(m2) => Ok(
                            BState {
                                root: Some(m2),
                                labels: st.labels,
                                defines: st.defines,
                                path: st.path,
                            },
                        ),
                        None => Err(RootError::MissingNode),
                    }
                }
            },
        }
    } else if spec_directive_type(d) == Directives::DeleteProperty {
        match t {
            None => Err(RootError::BadPath),
            Some(tv) => match r_apply(st.root, st.path, NodeOpV::RemoveProp(tv)) {
                Some(m2) => Ok(
                    BState {
                        root: Some(m2),
                        labels: st.labels,
                        defines: st.defines,
                        path: st.path,
                    },
                ),
                None => Err(RootError::MissingNode),
            },
        }
    } else {
        Ok(st)
    }
}

/// The effect of one source event on the builder state. Import and
/// end-of-input events never reach this relation: the builder splices and
/// pops frames instead.
pub open spec fn apply_event(st: BState, ev: EventV) -> Result<BState, RootError> {
    match ev {
        EventV::Node(label, name) => match r_add_node(st.root, st.path, name) {
            Some(root2) => {
                let p2 = st.path.push(name);
                Ok(
                    BState {
                        root: root2,
                        labels: match label {
                            Some(l) => st.labels.insert(l, p2),
                            None => st.labels,
                        },
                        defines: st.defines,
                        path: p2,
                    },
                )
            },
            None => Err(RootError::MissingNode),
        },
        EventV::NodeEnd => if st.path.len() == 0 {
            Err(RootError::BadPath)
        } else {
            Ok(
                BState {
                    root: st.root,
                    labels: st.labels,
                    defines: st.defines,
                    path: st.path.drop_last(),
                },
            )
        },
        EventV::Property(k, v) => match r_apply(st.root, st.path, NodeOpV::SetProp(k, v)) {
            Some(m2) => Ok(
                BState { root: Some(m2), labels: st.labels, defines: st.defines, path: st.path },
            ),
            None => Err(RootError::MissingNode),
        },
        EventV::Define(n, v) => if st.defines.contains_key(n) {
            Err(RootError::Redefine)
        } else {
            Ok(
                BState {
                    root: st.root,
                    labels: st.labels,
                    defines: st.defines.insert(n, v),
                    path: st.path,
                },
            )
        },
        EventV::RefNode(n) => if st.labels.contains_key(n) {
            Ok(
                BState {
                    root: st.root,
                    labels: st.labels,
                    defines: st.defines,
                    path: st.labels[n],
                },
            )
        } else {
            Err(RootError::UnknownLabel)
        },
        EventV::Directive(d, t) => apply_directive(st, d, t),
        EventV::Import(f) => Ok(st),
        EventV::EOF => Ok(st),
    }
}

/// One suspended source: its events and how many are consumed.
#[derive(Debug)]
pub struct Frame {
    pub events: Vec<DTInfo>,
    pub pos: usize,
}

/// The events a frame has not consumed yet.
pub open spec fn frame_rem(f: Frame) -> Seq<EventV> {
    events_view(f.events@).skip(f.pos as int)
}

/// The top frame consumed one event; the others are untouched.
pub open spec fn consumed_top(of: Seq<Frame>, nf: Seq<Frame>) -> bool {
    &&& of.len() > 0
    &&& nf.len() == of.len()
    &&& nf.drop_last() == of.drop_last()
    &&& frame_rem(nf.last()) == frame_rem(of.last()).skip(1)
}

/// What one builder step did.
#[derive(Debug, PartialEq)]
pub enum StepResult {
    /// An event was applied, or a finished frame was dropped.
    Progress,
    /// The named source must be opened, parsed and handed back through
    /// [`Builder::supply_import`] before the next step.
    NeedImport(String),
    /// The whole build is complete.
    Done,
}

/// The builder: the tree state, the path cursor, and the frame stack,
/// most-recently-opened source on top.
#[derive(Debug)]
pub struct Builder {
    pub root: Root,
    pub path: Vec<String>,
    pub frames: Vec<Frame>,
    pub awaiting: bool,
    pub done: bool,
}

impl Builder {
    /// The abstract state of this builder.
    pub open spec fn st(self) -> BState {
        BState {
            root: self.root.root_m(),
            labels: self.root.labels_m(),
            defines: self.root.defines_m(),
            path: strs_view(self.path@),
        }
    }

    pub open spec fn wf(self) -> bool {
        &&& self.root.wf()
        &&& forall|i: int|
            0 <= i < self.frames@.len() ==> (#[trigger] self.frames@[i]).pos
                <= self.frames@[i].events@.len()
    }

    /// Whether the top frame still holds an event.
    pub open spec fn has_cur(self) -> bool {
        self.frames@.len() > 0 && self.frames@.last().pos < self.frames@.last().events@.len()
    }

    /// The next event to consume.
    pub open spec fn cur_ev(self) -> EventV {
        self.frames@.last().events@[self.frames@.last().pos as int]@
    }

    /// A builder over one source's events, with an empty tree state.
    pub fn new(events: Vec<DTInfo>) -> (b: Builder)
        ensures
            b.wf(),
            b.st().root is None,
            b.st().labels == Map::<Seq<char>, Seq<Seq<char>>>::empty(),
            b.st().defines == Map::<Seq<char>, Seq<char>>::empty(),
            b.st().path == Seq::<Seq<char>>::empty(),
            b.frames@.len() == 1,
            frame_rem(b.frames@[0]) == events_view(events@),
            !b.done,
            !b.awaiting,
    {
        let ghost ev = events_view(events@);
        let mut frames: Vec<Frame> = Vec::new();
        frames.push(Frame { events, pos: 0 });
        let b = Builder {
            root: Root::new(),
            path: Vec::new(),
            frames,
            awaiting: false,
            done: false,
        };
        proof {
            assert(frame_rem(b.frames@[0]) =~= ev);
            assert(strs_view(b.path@) =~= Seq::<Seq<char>>::empty());
        }
        b
    }

    /// Hands the builder the events of the source it asked for; they are
    /// consumed before the rest of the requesting frame.
    pub fn supply_import(&mut self, events: Vec<DTInfo>)
        requires
            old(self).wf(),
            old(self).awaiting,
        ensures
            final(self).wf(),
            final(self).st() == old(self).st(),
            final(self).frames@.len() == old(self).frames@.len() + 1,
            final(self).frames@.drop_last() == old(self).frames@,
            frame_rem(final(self).frames@.last()) == events_view(events@),
            !final(self).awaiting,
            final(self).done == old(self).done,
    {
        let ghost ev = events_view(events@);
        self.frames.push(Frame { events, pos: 0 });
        self.awaiting = false;
        proof {
            assert(frame_rem(self.frames@.last()) =~= ev);
            assert(self.frames@.drop_last() =~= old(self).frames@);
        }
    }

    pub fn is_done(&self) -> (r: bool)
        ensures
            r == self.done,
    {
        self.done
    }

    pub fn is_awaiting(&self) -> (r: bool)
        ensures
            r == self.awaiting,
    {
        self.awaiting
    }

    /// Consumes the next event. An import event pauses the build and names
    /// the source to splice; the end of a frame resumes the suspended source
    /// below it, or completes the build; any other event is applied to the
    /// tree state, and its failure halts the build with that error.
    pub fn step(&mut self) -> (r: Result<StepResult, RootError>)
        requires
            old(self).wf(),
            !old(self).done,
            !old(self).awaiting,
        ensures
            final(self).wf(),
            ({
                let st0 = old(self).st();
                if old(self).frames@.len() == 0 {
                    &&& r == Ok::<StepResult, RootError>(StepResult::Done)
                    &&& final(self).done
                    &&& final(self).st() == st0
                } else if !old(self).has_cur() || old(self).cur_ev() == EventV::EOF {
                    &&& r == Ok::<StepResult, RootError>(
                        if old(self).frames@.len() == 1 {
                            StepResult::Done
                        } else {
                            StepResult::Progress
                        },
                    )
                    &&& final(self).frames@ == old(self).frames@.drop_last()
                    &&& final(self).st() == st0
                    &&& final(self).done == (old(self).frames@.len() == 1)
                    &&& !final(self).awaiting
                } else if old(self).cur_ev() is Import {
                    &&& r matches Ok(StepResult::NeedImport(f)) && f@ == old(
                        self,
                    ).cur_ev()->Import_0
                    &&& consumed_top(old(self).frames@, final(self).frames@)
                    &&& final(self).st() == st0
                    &&& final(self).awaiting
                    &&& !final(self).done
                } else {
                    match apply_event(st0, old(self).cur_ev()) {
                        Ok(st2) => {
                            &&& r == Ok::<StepResult, RootError>(StepResult::Progress)
                            &&& final(self).st() == st2
                            &&& consumed_top(old(self).frames@, final(self).frames@)
                            &&& !final(self).done
                            &&& !final(self).awaiting
                        },
                        Err(e) => r == Err::<StepResult, RootError>(e) && final(self).done,
                    }
                }
            }),
    {
        let fropt = self.frames.pop();
        let mut fr = match fropt {
            Some(f) => f,
            None => {
                self.done = true;
                return Ok(StepResult::Done);
            },
        };
        let ghost of = old(self).frames@;
        let ghost fr0 = fr;
        proof {
            assert(fr0 == of.last());
            assert(self.frames@ == of.drop_last());
        }
        if fr.pos >= fr.events.len() {
            if self.frames.len() == 0 {
                self.done = true;
                return Ok(StepResult::Done);
            }
            return Ok(StepResult::Progress);
        }
        let pos = fr.pos;
        let mut ev = DTInfo::EOF;
        core::mem::swap(&mut ev, &mut fr.events[pos]);
        fr.pos = pos + 1;
        proof {
            assert(ev@ == old(self).cur_ev());
            assert(frame_rem(fr) =~= frame_rem(fr0).skip(1));
        }
        if matches!(&ev, DTInfo::EOF) {
            if self.frames.len() == 0 {
                self.done = true;
                return Ok(StepResult::Done);
            }
            return Ok(StepResult::Progress);
        }
        self.frames.push(fr);
        proof {
            assert(self.frames@.drop_last() =~= of.drop_last());
            assert(consumed_top(of, self.frames@));
            assert forall|i: int|
                0 <= i < self.frames@.len() implies (#[trigger] self.frames@[i]).pos
                <= self.frames@[i].events@.len() by {
                if i < self.frames@.len() - 1 {
                    assert(self.frames@[i] == of[i]);
                }
            }
        }
        match ev {
            DTInfo::EOF => {
                proof {
                    assert(false);
                }
                Ok(StepResult::Progress)
            },
            DTInfo::Import(f) => {
                self.awaiting = true;
                Ok(StepResult::NeedImport(f))
            },
            DTInfo::Node(label, name) => {
                let mut r0 = Root::new();
                core::mem::swap(&mut r0, &mut self.root);
                match r0.add_node(&self.path, &name) {
                    Ok(r1) => {
                        self.root = r1;
                        let ghost p0 = strs_view(self.path@);
                        let ghost nv = name@;
                        self.path.push(name);
                        proof {
                            assert(strs_view(self.path@) =~= p0.push(nv));
                        }
                        match label {
                            Some(l) => {
                                self.root.add_path(l, &self.path);
                            },
                            None => {},
                        }
                        Ok(StepResult::Progress)
                    },
                    Err(e) => {
                        self.done = true;
                        Err(e)
                    },
                }
            },
            DTInfo::NodeEnd => {
                if self.path.len() == 0 {
                    proof {
                        assert(strs_view(self.path@).len() == 0);
                    }
                    self.done = true;
                    Err(RootError::BadPath)
                } else {
                    let ghost p0 = strs_view(self.path@);
                    let _ = self.path.pop();
                    proof {
                        assert(strs_view(self.path@) =~= p0.drop_last());
                    }
                    Ok(StepResult::Progress)
                }
            },
            DTInfo::Property(k, v) => {
                let mut r0 = Root::new();
                core::mem::swap(&mut r0, &mut self.root);
                match r0.add_property(&self.path, (k, v)) {
                    Ok(r1) => {
                        self.root = r1;
                        Ok(StepResult::Progress)
                    },
                    Err(e) => {
                        self.done = true;
                        Err(e)
                    },
                }
            },
            DTInfo::Define(n, v) => {
                let mut r0 = Root::new();
                core::mem::swap(&mut r0, &mut self.root);
                match r0.add_define(n, v) {
                    Ok(r1) => {
                        self.root = r1;
                        Ok(StepResult::Progress)
                    },
                    Err(e) => {
                        self.done = true;
                        Err(e)
                    },
                }
            },
            DTInfo::RefNode(n) => {
                match self.root.get_path(n) {
                    Ok(p) => {
                        self.path = p;
                        Ok(StepResult::Progress)
                    },
                    Err(e) => {
                        self.done = true;
                        Err(e)
                    },
                }
            },
            DTInfo::Directive(d, t) => {
                let ty = get_directive_type(&d);
                match ty {
                    Directives::Unknown => Ok(StepResult::Progress),
                    Directives::DeleteNode => {
                        match t {
                            None => {
                                self.done = true;
                                Err(RootError::BadPath)
                            },
                            Some(tv) => {
                                let tvs = tv.as_str();
                                let n = tvs.unicode_len();
                                if n > 0 && tvs.get_char(0) == '&' {
                                    let lbl = tvs.substring_char(1, n).to_owned();
                                    proof {
                                        assert(lbl@ =~= tv@.skip(1));
                                    }
                                    let mut r0 = Root::new();
                                    core::mem::swap(&mut r0, &mut self.root);
                                    match r0.delete_from_label(lbl) {
                                        Ok(r1) => {
                                            self.root = r1;
                                            Ok(StepResult::Progress)
                                        },
                                        Err(e) => {
                                            self.done = true;
                                            Err(e)
                                        },
                                    }
                                } else {
                                    let mut p2 = crate::root::clone_strs(&self.path);
                                    let mut parts = split_slash(&tv);
                                    let ghost partsv = strs_view(parts@);
                                    p2.append(&mut parts);
                                    proof {
                                        assert(strs_view(p2@) =~= strs_view(self.path@) + partsv);
                                    }
                                    let mut r0 = Root::new();
                                    core::mem::swap(&mut r0, &mut self.root);
                                    match r0.delete_node(p2) {
                                        Ok(r1) => {
                                            self.root = r1;
                                            Ok(StepResult::Progress)
                                        },
                                        Err(e) => {
                                            self.done = true;
                                            Err(e)
                                        },
                                    }
                                }
                            },
                        }
                    },
                    Directives::DeleteProperty => {
                        match t {
                            None => {
                                self.done = true;
                                Err(RootError::BadPath)
                            },
                            Some(tv) => {
                                let mut r0 = Root::new();
                                core::mem::swap(&mut r0, &mut self.root);
                                match r0.delete_property(&self.path, tv) {
                                    Ok(r1) => {
                                        self.root = r1;
                                        Ok(StepResult::Progress)
                                    },
                                    Err(e) => {
                                        self.done = true;
                                        Err(e)
                                    },
                                }
                            },
                        }
                    },
                }
            },
        }
    }

    /// Hands the finished tree state out.
    pub fn finish(self) -> (r: Root)
        requires
            self.wf(),
        ensures
            r.wf(),
            r.root_m() == self.st().root,
            r.labels_m() == self.st().labels,
            r.defines_m() == self.st().defines,
    {
        self.root
    }
}

} // verus!
