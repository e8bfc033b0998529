//! An immutable sequence of steps showing a unique path through a graph.
//!
//! A path is the empty marker, a single node, or one or more edges in which
//! every edge starts at the node the previous edge reached.  Its identity is
//! a rolling derivation over the appended steps, so it is a function of the
//! ordered step sequence.

use vstd::prelude::*;

use crate::errors::{GraphtError, GraphtResult, Kind};
use crate::model::edge::Edge;
use crate::model::graph::Graph;
use crate::model::guid::{spec_guid2, Guid, PATH_SEED};
use crate::model::node::{wf_edge, wf_node, EdgeView, Node, NodeView};

verus! {

/// One step of a path.
pub enum PathStep<G: Graph> {
    /// An empty path.
    Nil,
    /// A path of only one node.
    Node(Node<G>),
    /// A step from one node to the next along the path.
    Edge(Edge<G>),
}

/// The mathematical value of one step.
pub ghost enum StepV {
    Nil,
    Node(NodeView),
    Edge(EdgeView),
}

impl<G: Graph> PathStep<G> {
    /// The mathematical value of the step.
    pub open spec fn pv(&self) -> StepV {
        match self {
            PathStep::Nil => StepV::Nil,
            PathStep::Node(n) => StepV::Node(n.nv()),
            PathStep::Edge(e) => StepV::Edge(e.ev()),
        }
    }

    /// The step's endpoint snapshots are internally consistent.
    pub open spec fn inv(&self) -> bool {
        match self {
            PathStep::Nil => true,
            PathStep::Node(n) => n.inv(),
            PathStep::Edge(e) => e.inv(),
        }
    }
}

/// The views of a step list, in order.
pub open spec fn steps_vv<G: Graph>(s: Seq<PathStep<G>>) -> Seq<StepV>
    decreases s,
{
    if s.len() == 0 {
        Seq::empty()
    } else {
        steps_vv(s.drop_last()).push(s.last().pv())
    }
}

/// Pointwise description of a step list's views.
pub proof fn lemma_steps_vv<G: Graph>(s: Seq<PathStep<G>>)
    ensures
        steps_vv(s).len() == s.len(),
        forall|i: int| 0 <= i < s.len() ==> #[trigger] steps_vv(s)[i] == s[i].pv(),
    decreases s,
{
    if s.len() > 0 {
        lemma_steps_vv(s.drop_last());
        assert forall|i: int| 0 <= i < s.len() implies #[trigger] steps_vv(s)[i] == s[i].pv() by {
            if i < s.len() - 1 {
                assert(s.drop_last()[i] == s[i]);
                assert(steps_vv(s)[i] == steps_vv(s.drop_last())[i]);
            } else {
                assert(s[i] == s.last());
            }
        }
    }
}

/// The identity of a path: a rolling derivation over the non-empty steps.
pub open spec fn path_guid(s: Seq<StepV>) -> Guid
    decreases s,
{
    if s.len() == 0 {
        Guid { bits: PATH_SEED }
    } else {
        match s.last() {
            StepV::Nil => path_guid(s.drop_last()),
            StepV::Node(n) => spec_guid2(path_guid(s.drop_last()), n.guid),
            StepV::Edge(e) => spec_guid2(path_guid(s.drop_last()), e.guid),
        }
    }
}

/// Well-formedness of a path's steps: a lone marker, a lone well-formed
/// node, or a continuous run of well-formed edges.
pub open spec fn wf_steps(s: Seq<StepV>) -> bool {
    s.len() >= 1 && match s[0] {
        StepV::Nil => s.len() == 1,
        StepV::Node(n) => s.len() == 1 && wf_node(n),
        StepV::Edge(_e) => (forall|i: int|
            0 <= i < s.len() ==> (#[trigger] s[i]) is Edge && wf_edge(s[i]->Edge_0)) && (forall|
            i: int,
        |
            0 < i < s.len() ==> (#[trigger] s[i])->Edge_0.source.guid
                == s[i - 1]->Edge_0.target.guid),
    }
}

/// The step views of a run of edges, in order.
pub open spec fn edge_steps_vv<G: Graph>(s: Seq<Edge<G>>) -> Seq<StepV> {
    Seq::new(s.len(), |i: int| StepV::Edge(s[i].ev()))
}

/// Whether a run of edges continues a path whose current end is `base_end`:
/// the first edge leaves that end (when there is one), and every later edge
/// leaves the node the previous edge reached.
pub open spec fn chain_ok<G: Graph>(base_end: Option<NodeView>, s: Seq<Edge<G>>) -> bool {
    (match base_end {
        Some(end) => s.len() > 0 ==> s[0].ev().source.guid == end.guid,
        None => true,
    }) && (forall|i: int|
        0 < i < s.len() ==> (#[trigger] s[i]).ev().source.guid == s[i - 1].ev().target.guid)
}

/// The node a path currently ends at: the target of the last edge, or the
/// lone node.
pub open spec fn steps_end(s: Seq<StepV>) -> Option<NodeView> {
    if s.len() == 0 {
        None
    } else {
        match s.last() {
            StepV::Nil => None,
            StepV::Node(n) => Some(n),
            StepV::Edge(e) => Some(*e.target),
        }
    }
}

/// An immutable set of steps showing a unique path through a graph.
pub struct Path<G: Graph> {
    /// An optional query bound for the path.
    pub config: Option<PathConfig>,
    /// The path's identity, derived from the ordered steps.
    pub guid: Guid,
    /// The steps, at least the empty marker.
    pub steps: Vec<PathStep<G>>,
}

/// A query that sets the bounds of a path.
pub struct PathConfig {
    /// The query text.
    pub query: String,
}

impl<G: Graph> Path<G> {
    /// The mathematical value of the path's steps.
    pub open spec fn pv(&self) -> Seq<StepV> {
        steps_vv(self.steps@)
    }

    /// The path's invariant: valid steps carrying their derived identity.
    pub open spec fn inv(&self) -> bool {
        wf_steps(self.pv()) && self.guid == path_guid(self.pv()) && (forall|i: int|
            0 <= i < self.steps@.len() ==> (#[trigger] self.steps@[i]).inv())
    }

    /// An empty path.
    pub fn empty() -> (r: Path<G>)
        ensures
            r.pv() =~= seq![StepV::Nil],
            r.inv(),
    {
        let mut steps: Vec<PathStep<G>> = Vec::new();
        steps.push(PathStep::Nil);
        let r = Path { config: None, guid: Guid { bits: PATH_SEED }, steps };
        proof {
            lemma_steps_vv(r.steps@);
            assert(r.pv() =~= seq![StepV::Nil]);
            assert(r.pv().drop_last() =~= Seq::<StepV>::empty());
            assert(path_guid(Seq::<StepV>::empty()) == (Guid { bits: PATH_SEED }));
            assert(r.pv()[0] is Nil);
        }
        r
    }

    /// Build a path from an optional start node and a run of edges.
    ///
    /// The input must form a valid path: the run must be continuous, and
    /// when a start node is given the first edge must leave it.
    pub fn new(start: Option<Node<G>>, steps: Vec<Edge<G>>) -> (r: Path<G>)
        requires
            (match start {
                Some(n) => n.inv() && wf_node(n.nv()),
                None => true,
            }),
            forall|i: int|
                0 <= i < steps@.len() ==> (#[trigger] steps@[i]).inv() && wf_edge(steps@[i].ev()),
            forall|i: int|
                0 < i < steps@.len() ==> (#[trigger] steps@[i]).ev().source.guid == steps@[i
                    - 1].ev().target.guid,
            (match start {
                Some(n) => steps@.len() > 0 ==> steps@[0].ev().source.guid == n.nv().guid,
                None => true,
            }),
        ensures
            r.inv(),
            r.pv() == (if steps@.len() > 0 {
                edge_steps_vv(steps@)
            } else {
                match start {
                    Some(n) => seq![StepV::Node(n.nv())],
                    None => seq![StepV::Nil],
                }
            }),
    {
        let mut path = Path::empty();
        match start {
            Some(node) => {
                let outcome = path.add_step(PathStep::Node(node));
                proof {
                    assert(outcome is Ok);
                }
            },
            None => {},
        }
        let ghost base: Seq<StepV> = path.pv();
        let mut i: usize = 0;
        while i < steps.len()
            invariant
                path.inv(),
                i <= steps@.len(),
                forall|t: int|
                    0 <= t < steps@.len() ==> (#[trigger] steps@[t]).inv() && wf_edge(
                        steps@[t].ev(),
                    ),
                forall|t: int|
                    0 < t < steps@.len() ==> (#[trigger] steps@[t]).ev().source.guid == steps@[t
                        - 1].ev().target.guid,
                base == (match start {
                    Some(n) => seq![StepV::Node(n.nv())],
                    None => seq![StepV::Nil],
                }),
                i == 0 ==> path.pv() == base,
                i == 0 ==> !(path.pv()[0] is Edge),
                i > 0 ==> path.pv() =~= edge_steps_vv(steps@.take(i as int)),
                i == 0 ==> (match steps_end(path.pv()) {
                    None => true,
                    Some(end) => steps@.len() > 0 ==> steps@[0].ev().source.guid == end.guid,
                }),
                i > 0 ==> (match steps_end(path.pv()) {
                    None => false,
                    Some(end) => end.guid == steps@[i - 1].ev().target.guid,
                }),
            decreases steps@.len() - i,
        {
            let ghost pv_pre = path.pv();
            let edge = steps[i].dup();
            let outcome = path.add_step(PathStep::Edge(edge));
            proof {
                assert(outcome is Ok);
                if i == 0 {
                    assert(path.pv() =~= seq![StepV::Edge(steps@[0].ev())]);
                    assert(path.pv() =~= edge_steps_vv(steps@.take(1)));
                } else {
                    assert(pv_pre[0] is Edge);
                    assert(path.pv() =~= pv_pre.push(StepV::Edge(steps@[i as int].ev())));
                    assert(path.pv() =~= edge_steps_vv(steps@.take(i + 1)));
                }
                assert(path.pv().last() == StepV::Edge(steps@[i as int].ev()));
            }
            i = i + 1;
        }
        proof {
            if steps@.len() > 0 {
                assert(steps@.take(steps@.len() as int) =~= steps@);
                assert(path.pv() =~= edge_steps_vv(steps@));
            }
        }
        path
    }

    /// Replace the steps with a single lone edge.
    fn set_single_edge(&mut self, edge: Edge<G>)
        requires
            edge.inv(),
            wf_edge(edge.ev()),
        ensures
            final(self).inv(),
            final(self).pv() =~= seq![StepV::Edge(edge.ev())],
    {
        let ghost e0 = edge.ev();
        let mut steps: Vec<PathStep<G>> = Vec::new();
        let new_guid = Guid::derive2(Guid { bits: PATH_SEED }, edge.get_guid());
        steps.push(PathStep::Edge(edge));
        self.steps = steps;
        self.guid = new_guid;
        proof {
            lemma_steps_vv(self.steps@);
            assert(self.pv() =~= seq![StepV::Edge(e0)]);
            assert(self.pv().drop_last() =~= Seq::<StepV>::empty());
            assert(self.pv()[0] is Edge);
            assert(path_guid(Seq::<StepV>::empty()) == (Guid { bits: PATH_SEED }));
            assert(self.pv().last() == StepV::Edge(e0));
            assert(wf_steps(self.pv())) by {
                assert(wf_edge(e0));
                assert forall|i: int| 0 <= i < self.pv().len() implies (
                #[trigger] self.pv()[i]) is Edge && wf_edge(self.pv()[i]->Edge_0) by {
                    assert(i == 0);
                }
            }
        }
    }

    /// Append an edge to a path that already runs on edges.
    fn push_edge(&mut self, edge: Edge<G>)
        requires
            old(self).inv(),
            edge.inv(),
            wf_edge(edge.ev()),
            old(self).pv().len() > 0,
            old(self).pv()[0] is Edge,
            (match steps_end(old(self).pv()) {
                Some(end) => end.guid == edge.ev().source.guid,
                None => false,
            }),
        ensures
            final(self).inv(),
            final(self).pv() =~= old(self).pv().push(StepV::Edge(edge.ev())),
    {
        let ghost pre = *self;
        let ghost e0 = edge.ev();
        let new_guid = Guid::derive2(self.guid, edge.get_guid());
        proof {
            lemma_steps_vv(self.steps@);
        }
        self.steps.push(PathStep::Edge(edge));
        self.guid = new_guid;
        proof {
            lemma_steps_vv(self.steps@);
            assert(self.pv() =~= pre.pv().push(StepV::Edge(e0)));
            assert(self.pv().drop_last() =~= pre.pv());
            assert(self.pv().last() == StepV::Edge(e0));
            assert(wf_steps(self.pv())) by {
                assert(self.pv()[0] == pre.pv()[0]);
                assert forall|i: int|
                    0 <= i < self.pv().len() implies (#[trigger] self.pv()[i]) is Edge && wf_edge(
                    self.pv()[i]->Edge_0) by {
                    if i < pre.pv().len() {
                        assert(self.pv()[i] == pre.pv()[i]);
                    }
                }
                assert forall|i: int|
                    0 < i < self.pv().len() implies (#[trigger] self.pv()[i])->Edge_0.source.guid
                    == self.pv()[i - 1]->Edge_0.target.guid by {
                    if i < pre.pv().len() {
                        assert(self.pv()[i] == pre.pv()[i]);
                        assert(self.pv()[i - 1] == pre.pv()[i - 1]);
                    } else {
                        assert(self.pv()[i - 1] == pre.pv().last());
                        assert(pre.pv().last() == pre.pv()[pre.pv().len() - 1]);
                        assert(self.pv()[i] == StepV::Edge(e0));
                    }
                }
            }
        }
    }

    /// Append one step, re-deriving the identity; fails with `InvalidItem`
    /// exactly when the step breaks the path's structure.
    #[verifier::rlimit(100)]
    pub fn add_step(&mut self, step: PathStep<G>) -> (r: GraphtResult<()>)
        requires
            old(self).inv(),
            step.inv(),
            (match step {
                PathStep::Node(n) => wf_node(n.nv()),
                PathStep::Edge(e) => wf_edge(e.ev()),
                PathStep::Nil => true,
            }),
        ensures
            final(self).inv(),
            match r {
                Ok(()) => match step.pv() {
                    StepV::Nil => final(self).pv() == old(self).pv(),
                    StepV::Node(n) => old(self).pv()[0] is Nil && final(self).pv() =~= seq![
                        StepV::Node(n),
                    ],
                    StepV::Edge(e) => (match steps_end(old(self).pv()) {
                        None => final(self).pv() =~= seq![StepV::Edge(e)],
                        Some(end) => end.guid == e.source.guid && (old(self).pv()[0] is Edge
                            ==> final(self).pv() =~= old(self).pv().push(StepV::Edge(e))) && (!(
                        old(self).pv()[0] is Edge) ==> final(self).pv() =~= seq![StepV::Edge(e)]),
                    }),
                },
                Err(err) => err.kind == Kind::InvalidItem && final(self).pv() == old(self).pv()
                    && (match step.pv() {
                    StepV::Nil => false,
                    StepV::Node(_n) => !(old(self).pv()[0] is Nil),
                    StepV::Edge(e) => (match steps_end(old(self).pv()) {
                        None => false,
                        Some(end) => end.guid != e.source.guid,
                    }),
                }),
            },
    {
        let ghost pre = *self;
        proof {
            lemma_steps_vv(self.steps@);
            assert(self.steps@[0].pv() == self.pv()[0]);
            assert(self.steps@.last().pv() == self.pv().last());
        }
        match step {
            PathStep::Nil => Ok(()),
            PathStep::Node(node) => {
                let is_lone_nil = match &self.steps[0] {
                    PathStep::Nil => true,
                    PathStep::Node(_) => false,
                    PathStep::Edge(_) => false,
                };
                if is_lone_nil {
                    let mut steps: Vec<PathStep<G>> = Vec::new();
                    let new_guid = Guid::derive2(Guid { bits: PATH_SEED }, node.get_guid());
                    let ghost nv0 = node.nv();
                    steps.push(PathStep::Node(node));
                    self.steps = steps;
                    self.guid = new_guid;
                    proof {
                        lemma_steps_vv(self.steps@);
                        assert(self.pv() =~= seq![StepV::Node(nv0)]);
                        assert(self.pv().drop_last() =~= Seq::<StepV>::empty());
                        assert(self.pv()[0] is Node);
                        assert(path_guid(Seq::<StepV>::empty()) == (Guid { bits: PATH_SEED }));
                        assert(self.pv().last() == StepV::Node(nv0));
                    }
                    Ok(())
                } else {
                    Err(GraphtError::new(
                        Kind::InvalidItem,
                        "a node can only start an empty path",
                    ))
                }
            },
            PathStep::Edge(edge) => {
                let end_guid: Option<Guid> = match &self.steps[self.steps.len() - 1] {
                    PathStep::Nil => None,
                    PathStep::Node(n) => Some(n.get_guid()),
                    PathStep::Edge(e) => Some(e.target.get_guid()),
                };
                proof {
                    match steps_end(pre.pv()) {
                        None => {
                            assert(end_guid is None);
                        },
                        Some(end) => {
                            assert(end_guid == Some(end.guid));
                        },
                    }
                }
                match end_guid {
                    Some(end) => {
                        if !(end == edge.source.get_guid()) {
                            return Err(GraphtError::new(
                                Kind::InvalidItem,
                                "the edge does not continue the path",
                            ));
                        }
                        let starts_with_edge = match &self.steps[0] {
                            PathStep::Edge(_) => true,
                            PathStep::Nil => false,
                            PathStep::Node(_) => false,
                        };
                        if starts_with_edge {
                            proof {
                                assert(edge.ev().source.guid == edge.source.nv().guid);
                                match steps_end(pre.pv()) {
                                    Some(end_v) => {
                                        assert(end_v.guid == edge.ev().source.guid);
                                    },
                                    None => {
                                        assert(false);
                                    },
                                }
                            }
                            self.push_edge(edge);
                            Ok(())
                        } else {
                            self.set_single_edge(edge);
                            Ok(())
                        }
                    },
                    None => {
                        self.set_single_edge(edge);
                        Ok(())
                    },
                }
            },
        }
    }

    /// Concatenate edges onto a copy of the path, leaving this one as it
    /// is; fails with `InvalidItem` exactly when some edge breaks the
    /// continuity.  On success the result's steps are this path's steps
    /// followed by the given edges in order, where the first edge replaces a
    /// lone node or the empty marker.
    #[verifier::rlimit(100)]
    #[verifier::spinoff_prover]
    pub fn add_steps(&self, steps: Vec<Edge<G>>) -> (r: GraphtResult<Path<G>>)
        requires
            self.inv(),
            forall|i: int|
                0 <= i < steps@.len() ==> (#[trigger] steps@[i]).inv() && wf_edge(steps@[i].ev()),
        ensures
            match r {
                Ok(p) => chain_ok(steps_end(self.pv()), steps@) && p.inv() && p.pv() == (if steps@.len()
                    == 0 {
                    self.pv()
                } else if self.pv()[0] is Edge {
                    self.pv() + edge_steps_vv(steps@)
                } else {
                    edge_steps_vv(steps@)
                }),
                Err(e) => e.kind == Kind::InvalidItem && !chain_ok(steps_end(self.pv()), steps@),
            },
    {
        let mut path = self.dup();
        let mut i: usize = 0;
        while i < steps.len()
            invariant
                self.inv(),
                path.inv(),
                i <= steps@.len(),
                forall|t: int|
                    0 <= t < steps@.len() ==> (#[trigger] steps@[t]).inv() && wf_edge(
                        steps@[t].ev(),
                    ),
                forall|t: int|
                    0 < t < i ==> (#[trigger] steps@[t]).ev().source.guid == steps@[t
                        - 1].ev().target.guid,
                i > 0 ==> (match steps_end(self.pv()) {
                    Some(end) => steps@[0].ev().source.guid == end.guid,
                    None => true,
                }),
                i == 0 ==> path.pv() == self.pv(),
                i > 0 ==> path.pv() =~= (if self.pv()[0] is Edge {
                    self.pv() + edge_steps_vv(steps@.take(i as int))
                } else {
                    edge_steps_vv(steps@.take(i as int))
                }),
                i > 0 ==> (match steps_end(path.pv()) {
                    None => false,
                    Some(end) => end.guid == steps@[i - 1].ev().target.guid,
                }),
            decreases steps@.len() - i,
        {
            let ghost pv_pre = path.pv();
            let edge = steps[i].dup();
            proof {
                if i > 0 {
                    assert(pv_pre.last() == pv_pre[pv_pre.len() - 1]);
                }
            }
            match path.add_step(PathStep::Edge(edge)) {
                Ok(()) => {},
                Err(e) => {
                    proof {
                        assert(!chain_ok(steps_end(self.pv()), steps@)) by {
                            match steps_end(pv_pre) {
                                Some(end) => {
                                    assert(end.guid != steps@[i as int].ev().source.guid);
                                    if i == 0 {
                                        assert(steps_end(self.pv()) == Some(end));
                                    } else {
                                        assert(end.guid == steps@[i - 1].ev().target.guid);
                                        assert(steps@[i as int].ev().source.guid != steps@[i
                                            - 1].ev().target.guid);
                                    }
                                },
                                None => {
                                    assert(false);
                                },
                            }
                        }
                    }
                    return Err(e);
                },
            }
            proof {
                match steps_end(pv_pre) {
                    Some(end) => {
                        assert(end.guid == steps@[i as int].ev().source.guid);
                    },
                    None => {},
                }
                if i == 0 {
                    if self.pv()[0] is Edge {
                        assert(pv_pre[0] is Edge);
                        assert(path.pv() =~= pv_pre.push(StepV::Edge(steps@[0].ev())));
                        assert(path.pv() =~= self.pv() + edge_steps_vv(steps@.take(1)));
                    } else {
                        assert(!(pv_pre[0] is Edge));
                        assert(path.pv() =~= seq![StepV::Edge(steps@[0].ev())]);
                        assert(path.pv() =~= edge_steps_vv(steps@.take(1)));
                    }
                } else {
                    assert(pv_pre[0] is Edge) by {
                        if self.pv()[0] is Edge {
                            assert(pv_pre[0] == self.pv()[0]);
                        } else {
                            assert(pv_pre[0] == edge_steps_vv(steps@.take(i as int))[0]);
                        }
                    }
                    assert(path.pv() =~= pv_pre.push(StepV::Edge(steps@[i as int].ev())));
                    if self.pv()[0] is Edge {
                        assert(path.pv() =~= self.pv() + edge_steps_vv(steps@.take(i + 1)));
                    } else {
                        assert(path.pv() =~= edge_steps_vv(steps@.take(i + 1)));
                    }
                }
                assert(path.pv().last() == StepV::Edge(steps@[i as int].ev()));
            }
            i = i + 1;
        }
        proof {
            if steps@.len() > 0 {
                assert(steps@.take(steps@.len() as int) =~= steps@);
                if self.pv()[0] is Edge {
                    assert(path.pv() =~= self.pv() + edge_steps_vv(steps@));
                } else {
                    assert(path.pv() =~= edge_steps_vv(steps@));
                }
            }
        }
        Ok(path)
    }

    /// The first node of the path, if it has one.
    pub fn start(&self) -> (r: Option<Node<G>>)
        requires
            self.inv(),
        ensures
            match r {
                Some(n) => self.pv().len() > 0 && (match self.pv()[0] {
                    StepV::Nil => false,
                    StepV::Node(v) => n.nv() == v,
                    StepV::Edge(e) => n.nv() == *e.source,
                }),
                None => self.pv().len() == 0 || self.pv()[0] is Nil,
            },
    {
        proof {
            lemma_steps_vv(self.steps@);
        }
        if self.steps.len() == 0 {
            return None;
        }
        match &self.steps[0] {
            PathStep::Nil => None,
            PathStep::Node(n) => Some(n.dup()),
            PathStep::Edge(e) => Some(e.get_source()),
        }
    }

    /// The final node of the path, if it has one: the target of the last
    /// edge, or the lone node.
    pub fn end(&self) -> (r: Option<Node<G>>)
        requires
            self.inv(),
        ensures
            match r {
                Some(n) => steps_end(self.pv()) == Some(n.nv()),
                None => steps_end(self.pv()) is None,
            },
    {
        proof {
            lemma_steps_vv(self.steps@);
        }
        if self.steps.len() == 0 {
            return None;
        }
        match &self.steps[self.steps.len() - 1] {
            PathStep::Nil => None,
            PathStep::Node(n) => Some(n.dup()),
            PathStep::Edge(e) => Some(e.get_target()),
        }
    }

    /// The path's identity.
    pub fn get_guid(&self) -> (r: Guid)
        ensures
            r == self.guid,
    {
        self.guid
    }

    /// A copy with the same steps and identity.
    pub fn dup(&self) -> (r: Path<G>)
        requires
            self.inv(),
        ensures
            r.pv() == self.pv(),
            r.inv(),
            r.guid == self.guid,
    {
        let mut steps: Vec<PathStep<G>> = Vec::new();
        let mut i: usize = 0;
        while i < self.steps.len()
            invariant
                self.inv(),
                i <= self.steps@.len(),
                steps@.len() == i,
                forall|t: int|
                    0 <= t < i ==> (#[trigger] steps@[t]).pv() == self.steps@[t].pv()
                        && steps@[t].inv(),
            decreases self.steps@.len() - i,
        {
            let copy: PathStep<G> = match &self.steps[i] {
                PathStep::Nil => PathStep::Nil,
                PathStep::Node(n) => PathStep::Node(n.dup()),
                PathStep::Edge(e) => PathStep::Edge(e.dup()),
            };
            steps.push(copy);
            i = i + 1;
        }
        let config = match &self.config {
            None => None,
            Some(c) => Some(PathConfig { query: c.query.clone() }),
        };
        let r = Path { config, guid: self.guid, steps };
        proof {
            lemma_steps_vv(r.steps@);
            lemma_steps_vv(self.steps@);
            assert(r.pv() =~= self.pv());
        }
        r
    }
}

} // verus!
