//! A group of edges and their secondary indices.

use vstd::prelude::*;

use crate::errors::{GraphtError, GraphtResult, Kind};
use crate::model::edge::Edge;
use crate::model::entity::GraphtEntity;
use crate::model::graph::Graph;
use crate::model::guid::Guid;
use crate::model::node::{
    edge_h, epairs_h, epairs_vv, lemma_epairs_h, lemma_epairs_vv, wf_edge, EdgeView,
};
use crate::stats::{StatCount, StatMap, Stats};
use crate::utils::table::{
    lemma_pairs_index_unique, lemma_pairs_push, lemma_strmap_remove, lemma_strmap_replace,
    pairs_contains, pairs_get, pairs_has, pairs_lookup, pairs_wf, StrMap,
};

verus! {

/// A group of edges with a primary identity index and a by-type grouping.
pub struct EdgeSet<G: Graph> {
    /// The set's own identity; not content-derived.
    pub guid: Guid,
    /// Every edge in the set, keyed by identity.
    pub edges: Vec<(Guid, Edge<G>)>,
    /// The identities of the edges grouped by their type label.
    pub typed: StrMap<Vec<Guid>>,
}

impl<G: Graph> EdgeSet<G> {
    /// The views of the stored edges, in insertion order.
    pub open spec fn esv(&self) -> Seq<EdgeView> {
        epairs_vv(self.edges@)
    }

    /// Whether an edge with the identity is stored.
    pub open spec fn has_edge(&self, g: Guid) -> bool {
        pairs_has(self.edges@, g)
    }

    /// The by-type grouping: each type label maps to the identities of its
    /// edges.
    pub open spec fn groups(&self) -> Map<Seq<char>, Seq<Guid>> {
        Map::new(
            |k: Seq<char>| self.typed.spec_has(k),
            |k: Seq<char>| self.typed.spec_get(k)@,
        )
    }

    /// Every stored edge is internally consistent.
    pub open spec fn edges_ok(s: Seq<(Guid, Edge<G>)>) -> bool
        decreases epairs_h(s),
    {
        if s.len() == 0 {
            true
        } else {
            Self::edges_ok(s.drop_last()) && s.last().1.inv() && wf_edge(s.last().1.ev())
        }
    }

    /// `edges_ok` is the conjunction of its pointwise facts.
    pub proof fn lemma_edges_ok(s: Seq<(Guid, Edge<G>)>)
        ensures
            Self::edges_ok(s) <==> (forall|i: int|
                0 <= i < s.len() ==> (#[trigger] s[i]).1.inv() && wf_edge(s[i].1.ev())),
        decreases s,
    {
        if s.len() > 0 {
            Self::lemma_edges_ok(s.drop_last());
            assert(s[s.len() - 1] == s.last());
            if Self::edges_ok(s) {
                assert forall|i: int| 0 <= i < s.len() implies (#[trigger] s[i]).1.inv()
                    && wf_edge(s[i].1.ev()) by {
                    if i < s.len() - 1 {
                        assert(s.drop_last()[i] == s[i]);
                        assert(s.drop_last()[i].1.inv() && wf_edge(s.drop_last()[i].1.ev()));
                    }
                }
            } else {
                if forall|i: int|
                    0 <= i < s.len() ==> (#[trigger] s[i]).1.inv() && wf_edge(s[i].1.ev()) {
                    assert forall|i: int| 0 <= i < s.drop_last().len() implies (
                    #[trigger] s.drop_last()[i]).1.inv() && wf_edge(s.drop_last()[i].1.ev()) by {
                        assert(s.drop_last()[i] == s[i]);
                    }
                    assert(s.last().1.inv() && wf_edge(s.last().1.ev()));
                    assert(false);
                }
            }
        }
    }

    /// At one label and one identity: the identity sits in the label's
    /// group exactly when the stored edge with that identity carries the
    /// label.
    pub open spec fn typed_ok_at(&self, k: Seq<char>, g: Guid) -> bool {
        (self.typed.spec_has(k) && self.typed.spec_get(k)@.contains(g)) == (pairs_has(
            self.edges@,
            g,
        ) && pairs_get(self.edges@, g).props.type_label_spec() == k)
    }

    /// The by-type grouping matches the stored edges exactly.
    pub open spec fn typed_ok(&self) -> bool {
        (forall|k: Seq<char>, g: Guid| #[trigger] self.typed_ok_at(k, g)) && (forall|k: Seq<char>|
            #[trigger] self.typed.spec_has(k) ==> guids_unique(self.typed.spec_get(k)@))
    }

    /// The set's internal invariant.
    pub open spec fn wf(&self) -> bool
        decreases 1 + epairs_h(self.edges@),
    {
        pairs_wf(self.edges@) && self.typed.wf() && (forall|i: int|
            0 <= i < self.edges@.len() ==> (#[trigger] self.edges@[i]).0
                == self.edges@[i].1.guid) && Self::edges_ok(self.edges@)
            && self.typed_ok()
    }

    pub fn new() -> (r: EdgeSet<G>)
        ensures
            r.esv() =~= Seq::<EdgeView>::empty(),
            r.edges@ =~= Seq::<(Guid, Edge<G>)>::empty(),
            r.groups() =~= Map::<Seq<char>, Seq<Guid>>::empty(),
            r.wf(),
    {
        let r = EdgeSet { guid: Guid::fresh(), edges: Vec::new(), typed: StrMap::new() };
        proof {
            assert(r.groups() =~= Map::<Seq<char>, Seq<Guid>>::empty());
        }
        r
    }

    /// Whether an edge with the given identity is registered.
    pub fn contains(&self, guid: &Guid) -> (r: bool)
        ensures
            r == self.has_edge(*guid),
    {
        pairs_contains(&self.edges, *guid)
    }

    /// The stored edge with the given identity, if any.
    pub fn get(&self, guid: &Guid) -> (r: Option<&Edge<G>>)
        requires
            self.wf(),
        ensures
            match r {
                Some(e) => self.has_edge(*guid) && *e == pairs_get(self.edges@, *guid),
                None => !self.has_edge(*guid),
            },
    {
        pairs_lookup(&self.edges, *guid)
    }

    /// Insert an owned edge; fails with `DuplicateKey` exactly when an edge
    /// with the same identity is already stored.
    pub(crate) fn insert_owned(&mut self, edge: Edge<G>) -> (r: GraphtResult<()>)
        requires
            old(self).wf(),
            edge.inv(),
            wf_edge(edge.ev()),
        ensures
            final(self).wf(),
            match r {
                Ok(()) => !old(self).has_edge(edge.ev().guid) && final(self).esv() == old(
                    self,
                ).esv().push(edge.ev()) && (forall|g: Guid|
                    final(self).has_edge(g) == (old(self).has_edge(g) || g == edge.ev().guid))
                    && (forall|g: Guid|
                    g != edge.ev().guid && old(self).has_edge(g) ==> #[trigger] pairs_get(
                        final(self).edges@,
                        g,
                    ) == pairs_get(old(self).edges@, g)) && pairs_get(
                    final(self).edges@,
                    edge.ev().guid,
                ).source.guid == edge.ev().source.guid && pairs_get(
                    final(self).edges@,
                    edge.ev().guid,
                ).target.guid == edge.ev().target.guid && final(self).groups() == old(
                    self,
                ).groups().insert(
                    edge.ev().tlabel,
                    (if old(self).groups().contains_key(edge.ev().tlabel) {
                        old(self).groups()[edge.ev().tlabel]
                    } else {
                        Seq::empty()
                    }).push(edge.ev().guid),
                ),
                Err(e) => old(self).has_edge(edge.ev().guid) && e.kind == Kind::DuplicateKey
                    && *final(self) == *old(self),
            },
    {
        let g = edge.get_guid();
        if pairs_contains(&self.edges, g) {
            return Err(GraphtError::new(Kind::DuplicateKey, "edge already exists in the set"));
        }
        let ghost pre = *self;
        let tlabel = edge.get_type_label();
        let ghost ev = edge.ev();
        let ghost edge0 = edge;
        proof {
            lemma_epairs_vv(pre.edges@);
            lemma_pairs_push(pre.edges@, g, edge0);
        }
        self.edges.push((g, edge));
        proof {
            assert(pairs_get(self.edges@, g) == edge0);
            assert(edge0.ev().source.guid == edge0.source.guid);
            assert(edge0.ev().target.guid == edge0.target.guid);
            lemma_epairs_vv(self.edges@);
            assert(self.esv() =~= pre.esv().push(ev)) by {
                assert forall|i: int| 0 <= i < self.esv().len() implies self.esv()[i] == (if i
                    < pre.esv().len() {
                    pre.esv()[i]
                } else {
                    ev
                }) by {
                    if i < pre.esv().len() {
                        assert(self.edges@[i] == pre.edges@[i]);
                    } else {
                        assert(self.edges@[i].1 == edge || true);
                    }
                }
            }
            Self::lemma_edges_ok(pre.edges@);
            Self::lemma_edges_ok(self.edges@);
            assert forall|i: int| 0 <= i < self.edges@.len() implies (
            #[trigger] self.edges@[i]).1.inv() && wf_edge(self.edges@[i].1.ev()) && (
            self.edges@[i].0 == self.edges@[i].1.guid) by {
                if i < pre.edges@.len() {
                    assert(self.edges@[i] == pre.edges@[i]);
                    assert(pre.edges@[i].1.inv() && wf_edge(pre.edges@[i].1.ev()));
                }
            }
        }
        let found = self.typed.find(tlabel.as_str());
        match found {
            Some(i) => {
                let ghost before = self.typed;
                let entry = self.typed.remove_at(i);
                let ghost mid = self.typed;
                let (key, mut group) = entry;
                group.push(g);
                let ghost grp = group@;
                self.typed.insert(key, group);
                proof {
                    assert(before == pre.typed);
                    lemma_strmap_replace(before, mid, self.typed, i as int);
                    before.lemma_index_unique(i as int, ev.tlabel);
                    assert(self.typed.spec_get(ev.tlabel)@ == pre.typed.spec_get(
                        ev.tlabel,
                    )@.push(ev.guid));
                    assert forall|k2: Seq<char>|
                        k2 != ev.tlabel && pre.typed.spec_has(k2) implies
                        #[trigger] self.typed.spec_get(k2)@ == pre.typed.spec_get(k2)@ by {
                        assert(self.typed.spec_has(k2));
                    }
                    assert(pairs_get(self.edges@, ev.guid) == edge0);
                    self.lemma_typed_restored(pre, ev);
                    assert(self.groups() =~= pre.groups().insert(
                        ev.tlabel,
                        pre.groups()[ev.tlabel].push(ev.guid),
                    ));
                }
            },
            None => {
                let mut group: Vec<Guid> = Vec::new();
                group.push(g);
                let ghost grp = group@;
                self.typed.insert(tlabel, group);
                proof {
                    assert(self.typed.sv().last().0@ == ev.tlabel);
                    self.typed.lemma_index_unique(self.typed.sv().len() - 1, ev.tlabel);
                    assert(self.typed.spec_get(ev.tlabel)@ == grp);
                    assert(grp =~= Seq::<Guid>::empty().push(ev.guid));
                    assert forall|k2: Seq<char>|
                        k2 != ev.tlabel && pre.typed.spec_has(k2) implies
                        #[trigger] self.typed.spec_get(k2)@ == pre.typed.spec_get(k2)@ by {
                        let j = choose|j: int|
                            0 <= j < pre.typed.sv().len() && (#[trigger] pre.typed.sv()[j]).0@
                                == k2;
                        assert(self.typed.sv()[j] == pre.typed.sv()[j]);
                        self.typed.lemma_index_unique(j, k2);
                        pre.typed.lemma_index_unique(j, k2);
                    }
                    assert(pairs_get(self.edges@, ev.guid) == edge0);
                    self.lemma_typed_restored(pre, ev);
                    assert(self.groups() =~= pre.groups().insert(ev.tlabel, Seq::empty().push(
                        ev.guid,
                    )));
                }
            },
        }
        Ok(())
    }

    /// After adding one edge and extending its label's group, the grouping
    /// matches the stored edges again: pointwise fact for one label and one
    /// identity.
    #[verifier::rlimit(100)]
    proof fn lemma_typed_restored_point(
        &self,
        pre: EdgeSet<G>,
        ev: EdgeView,
        k: Seq<char>,
        g: Guid,
    )
        requires
            pre.typed_ok(),
            pairs_wf(pre.edges@),
            pairs_wf(self.edges@),
            !pairs_has(pre.edges@, ev.guid),
            forall|h: Guid|
                #[trigger] pairs_has(self.edges@, h) == (pairs_has(pre.edges@, h) || h
                    == ev.guid),
            pairs_get(self.edges@, ev.guid).props.type_label_spec() == ev.tlabel,
            forall|h: Guid|
                h != ev.guid && pairs_has(pre.edges@, h) ==> #[trigger] pairs_get(self.edges@, h)
                    == pairs_get(pre.edges@, h),
            forall|k2: Seq<char>|
                #[trigger] self.typed.spec_has(k2) == (pre.typed.spec_has(k2) || k2 == ev.tlabel),
            self.typed.spec_get(ev.tlabel)@ == (if pre.typed.spec_has(ev.tlabel) {
                pre.typed.spec_get(ev.tlabel)@
            } else {
                Seq::empty()
            }).push(ev.guid),
            forall|k2: Seq<char>|
                k2 != ev.tlabel && pre.typed.spec_has(k2) ==> #[trigger] self.typed.spec_get(k2)@
                    == pre.typed.spec_get(k2)@,
        ensures
            self.typed_ok_at(k, g),
            self.typed.spec_has(k) ==> guids_unique(self.typed.spec_get(k)@),
    {
        let key0 = ev.tlabel;
        let preg: Seq<Guid> = if pre.typed.spec_has(key0) {
            pre.typed.spec_get(key0)@
        } else {
            Seq::empty()
        };
        let newg = preg.push(ev.guid);
        assert(newg[newg.len() - 1] == ev.guid);
        assert(pre.typed_ok_at(k, g));
        assert(pre.typed_ok_at(key0, g));
        if g == ev.guid {
            assert(pairs_has(self.edges@, g));
            if k == key0 {
                assert(self.typed.spec_get(k)@.contains(g)) by {
                    assert(self.typed.spec_get(k)@[newg.len() - 1] == g);
                }
            } else {
                if self.typed.spec_has(k) && self.typed.spec_get(k)@.contains(g) {
                    assert(pre.typed.spec_has(k));
                    assert(self.typed.spec_get(k)@ == pre.typed.spec_get(k)@);
                    assert(pairs_has(pre.edges@, g));
                    assert(false);
                }
            }
        } else {
            assert(pairs_has(self.edges@, g) == pairs_has(pre.edges@, g));
            if k == key0 {
                assert(self.typed.spec_has(k));
                if newg.contains(g) {
                    let j = choose|j: int| 0 <= j < newg.len() && newg[j] == g;
                    assert(j < newg.len() - 1);
                    assert(preg[j] == g);
                    assert(pre.typed.spec_has(key0));
                    assert(pre.typed.spec_get(k)@.contains(g));
                }
                if pre.typed.spec_has(k) && pre.typed.spec_get(k)@.contains(g) {
                    let j = choose|j: int| 0 <= j < preg.len() && preg[j] == g;
                    assert(newg[j] == g);
                    assert(newg.contains(g));
                }
            } else {
                if pre.typed.spec_has(k) {
                    assert(self.typed.spec_get(k)@ == pre.typed.spec_get(k)@);
                }
            }
        }
        if self.typed.spec_has(k) {
            if k == key0 {
                assert(self.typed.spec_get(k)@ == newg);
                assert forall|p: int, q: int| 0 <= p < q < newg.len() implies newg[p]
                    != newg[q] by {
                    if q < newg.len() - 1 {
                        assert(pre.typed.spec_has(k));
                        assert(guids_unique(pre.typed.spec_get(k)@));
                        assert(newg[p] == preg[p]);
                        assert(newg[q] == preg[q]);
                    } else {
                        assert(newg[q] == ev.guid);
                        assert(newg[p] == preg[p]);
                        assert(pre.typed.spec_has(k) && pre.typed.spec_get(k)@.contains(newg[p]));
                        assert(pre.typed_ok_at(k, newg[p]));
                        assert(pairs_has(pre.edges@, newg[p]));
                    }
                }
            } else {
                assert(pre.typed.spec_has(k));
                assert(self.typed.spec_get(k)@ == pre.typed.spec_get(k)@);
                assert(guids_unique(pre.typed.spec_get(k)@));
            }
        }
    }

    /// After adding one edge and extending its label's group, the grouping
    /// matches the stored edges again.
    proof fn lemma_typed_restored(&self, pre: EdgeSet<G>, ev: EdgeView)
        requires
            pre.typed_ok(),
            pairs_wf(pre.edges@),
            pairs_wf(self.edges@),
            !pairs_has(pre.edges@, ev.guid),
            forall|h: Guid|
                #[trigger] pairs_has(self.edges@, h) == (pairs_has(pre.edges@, h) || h
                    == ev.guid),
            pairs_get(self.edges@, ev.guid).props.type_label_spec() == ev.tlabel,
            forall|h: Guid|
                h != ev.guid && pairs_has(pre.edges@, h) ==> #[trigger] pairs_get(self.edges@, h)
                    == pairs_get(pre.edges@, h),
            forall|k2: Seq<char>|
                #[trigger] self.typed.spec_has(k2) == (pre.typed.spec_has(k2) || k2 == ev.tlabel),
            self.typed.spec_get(ev.tlabel)@ == (if pre.typed.spec_has(ev.tlabel) {
                pre.typed.spec_get(ev.tlabel)@
            } else {
                Seq::empty()
            }).push(ev.guid),
            forall|k2: Seq<char>|
                k2 != ev.tlabel && pre.typed.spec_has(k2) ==> #[trigger] self.typed.spec_get(k2)@
                    == pre.typed.spec_get(k2)@,
        ensures
            self.typed_ok(),
    {
        assert forall|k: Seq<char>, g: Guid| #[trigger] self.typed_ok_at(k, g) by {
            self.lemma_typed_restored_point(pre, ev, k, g);
        }
        assert forall|k: Seq<char>| #[trigger] self.typed.spec_has(k) implies guids_unique(
            self.typed.spec_get(k)@,
        ) by {
            self.lemma_typed_restored_point(pre, ev, k, ev.guid);
        }
    }

    /// An edge view with a given identity exists exactly when the key is in
    /// the table.
    pub proof fn lemma_esv_has(&self)
        requires
            self.wf(),
        ensures
            forall|g: Guid|
                #[trigger] crate::model::node::edges_have(self.esv(), g) == self.has_edge(g),
    {
        lemma_epairs_vv(self.edges@);
        assert forall|g: Guid|
            #[trigger] crate::model::node::edges_have(self.esv(), g) == self.has_edge(g) by {
            if crate::model::node::edges_have(self.esv(), g) {
                let i = choose|i: int|
                    0 <= i < self.esv().len() && (#[trigger] self.esv()[i]).guid == g;
                assert(self.esv()[i] == self.edges@[i].1.ev());
                assert(self.edges@[i].0 == self.edges@[i].1.guid);
                assert(self.edges@[i].0 == g);
                assert(pairs_has(self.edges@, g));
            }
            if self.has_edge(g) {
                let i = choose|i: int|
                    0 <= i < self.edges@.len() && (#[trigger] self.edges@[i]).0 == g;
                assert(self.esv()[i] == self.edges@[i].1.ev());
                assert(self.edges@[i].0 == self.edges@[i].1.guid);
                assert(self.esv()[i].guid == g);
                assert(crate::model::node::edges_have(self.esv(), g));
            }
        }
    }

    /// Insert a copy of the edge; fails with `DuplicateKey` exactly when an
    /// edge with the same identity is already stored.
    pub fn insert(&mut self, edge: &Edge<G>) -> (r: GraphtResult<EdgeStats>)
        requires
            old(self).wf(),
            edge.inv(),
            wf_edge(edge.ev()),
        ensures
            final(self).wf(),
            match r {
                Ok(st) => !old(self).has_edge(edge.ev().guid) && final(self).esv() == old(
                    self,
                ).esv().push(edge.ev()) && (forall|g: Guid|
                    final(self).has_edge(g) == (old(self).has_edge(g) || g == edge.ev().guid))
                    && (forall|g: Guid|
                    g != edge.ev().guid && old(self).has_edge(g) ==> #[trigger] pairs_get(
                        final(self).edges@,
                        g,
                    ) == pairs_get(old(self).edges@, g)) && pairs_get(
                    final(self).edges@,
                    edge.ev().guid,
                ).source.guid == edge.ev().source.guid && pairs_get(
                    final(self).edges@,
                    edge.ev().guid,
                ).target.guid == edge.ev().target.guid && st.sv() == (EdgeStatsV {
                    total: 1,
                    typed: Map::empty(),
                    properties: Map::empty(),
                }),
                Err(e) => old(self).has_edge(edge.ev().guid) && e.kind == Kind::DuplicateKey
                    && *final(self) == *old(self),
            },
    {
        let copy = edge.dup();
        match self.insert_owned(copy) {
            Ok(()) => {
                let mut st = EdgeStats::new();
                st.total.incr();
                Ok(st)
            },
            Err(e) => Err(e),
        }
    }

    /// Copies of all stored edges, in insertion order.
    pub fn all_edges(&self) -> (r: Vec<Edge<G>>)
        requires
            self.wf(),
        ensures
            r@.len() == self.esv().len(),
            forall|i: int| 0 <= i < r@.len() ==> (#[trigger] r@[i]).ev() == self.esv()[i],
            forall|i: int| 0 <= i < r@.len() ==> (#[trigger] r@[i]).inv(),
    {
        let mut out: Vec<Edge<G>> = Vec::new();
        let mut i: usize = 0;
        proof {
            lemma_epairs_vv(self.edges@);
            Self::lemma_edges_ok(self.edges@);
        }
        while i < self.edges.len()
            invariant
                self.wf(),
                i <= self.edges@.len(),
                out@.len() == i,
                self.esv().len() == self.edges@.len(),
                forall|j: int|
                    0 <= j < self.edges@.len() ==> #[trigger] self.esv()[j]
                        == self.edges@[j].1.ev(),
                forall|j: int|
                    0 <= j < self.edges@.len() ==> (#[trigger] self.edges@[j]).1.inv(),
                forall|j: int| 0 <= j < i ==> (#[trigger] out@[j]).ev() == self.esv()[j],
                forall|j: int| 0 <= j < i ==> (#[trigger] out@[j]).inv(),
            decreases self.edges@.len() - i,
        {
            out.push(self.edges[i].1.dup());
            i = i + 1;
        }
        out
    }

    /// A copy with the same stored edges and grouping.
    pub fn dup(&self) -> (r: EdgeSet<G>)
        requires
            self.wf(),
        ensures
            r.wf(),
            r.esv() == self.esv(),
            r.edges@.len() == self.edges@.len(),
            forall|i: int|
                0 <= i < r.edges@.len() ==> (#[trigger] r.edges@[i]).0 == self.edges@[i].0
                    && r.edges@[i].1.ev() == self.edges@[i].1.ev(),
            forall|g: Guid| #[trigger] r.has_edge(g) == self.has_edge(g),
            r.groups() == self.groups(),
        decreases epairs_h(self.edges@) + 1,
    {
        let mut edges: Vec<(Guid, Edge<G>)> = Vec::new();
        let mut i: usize = 0;
        proof {
            Self::lemma_edges_ok(self.edges@);
            lemma_epairs_h(self.edges@);
        }
        while i < self.edges.len()
            invariant
                self.wf(),
                i <= self.edges@.len(),
                edges@.len() == i,
                forall|j: int|
                    0 <= j < self.edges@.len() ==> (#[trigger] self.edges@[j]).1.inv(),
                forall|j: int|
                    0 <= j < self.edges@.len() ==> edge_h(&(#[trigger] self.edges@[j]).1)
                        < epairs_h(self.edges@),
                forall|j: int|
                    0 <= j < i ==> (#[trigger] edges@[j]).0 == self.edges@[j].0
                        && edges@[j].1.ev() == self.edges@[j].1.ev() && edges@[j].1.inv(),
            decreases self.edges@.len() - i,
        {
            let pair_guid = self.edges[i].0;
            let copy = self.edges[i].1.dup();
            edges.push((pair_guid, copy));
            i = i + 1;
        }
        let mut typed: StrMap<Vec<Guid>> = StrMap::new();
        let mut j: usize = 0;
        while j < self.typed.entries.len()
            invariant
                self.typed.wf(),
                j <= self.typed.sv().len(),
                typed.sv().len() == j,
                forall|t: int|
                    0 <= t < j ==> (#[trigger] typed.sv()[t]).0@ == self.typed.sv()[t].0@
                        && typed.sv()[t].1@ == self.typed.sv()[t].1@,
            decreases self.typed.sv().len() - j,
        {
            let key = self.typed.entries[j].0.clone();
            let mut group: Vec<Guid> = Vec::new();
            let mut t: usize = 0;
            let ghost src = self.typed.entries@[j as int].1@;
            while t < self.typed.entries[j].1.len()
                invariant
                    j < self.typed.sv().len(),
                    src == self.typed.sv()[j as int].1@,
                    t <= src.len(),
                    group@ =~= src.take(t as int),
                decreases src.len() - t,
            {
                group.push(self.typed.entries[j].1[t]);
                t = t + 1;
            }
            proof {
                assert(src.take(src.len() as int) =~= src);
            }
            typed.entries.push((key, group));
            j = j + 1;
        }
        let r = EdgeSet { guid: self.guid, edges, typed };
        proof {
            r.lemma_dup_wf(self);
        }
        r
    }

    /// Entry-for-entry equal edge tables describe the same edges.
    proof fn lemma_dup_edges(&self, src: &EdgeSet<G>)
        requires
            src.wf(),
            self.edges@.len() == src.edges@.len(),
            forall|j: int|
                0 <= j < src.edges@.len() ==> (#[trigger] self.edges@[j]).0 == src.edges@[j].0
                    && self.edges@[j].1.ev() == src.edges@[j].1.ev() && self.edges@[j].1.inv(),
        ensures
            self.esv() == src.esv(),
            pairs_wf(self.edges@),
            Self::edges_ok(self.edges@),
            forall|i: int|
                0 <= i < self.edges@.len() ==> (#[trigger] self.edges@[i]).0
                    == self.edges@[i].1.guid,
            forall|g: Guid| #[trigger] self.has_edge(g) == src.has_edge(g),
            forall|g: Guid|
                #[trigger] self.has_edge(g) ==> pairs_get(self.edges@, g).ev() == pairs_get(
                    src.edges@,
                    g,
                ).ev(),
    {
        lemma_epairs_vv(self.edges@);
        lemma_epairs_vv(src.edges@);
        assert(self.esv() =~= src.esv());
        assert(pairs_wf(self.edges@)) by {
            assert forall|p: int, q: int|
                0 <= p < q < self.edges@.len() implies (#[trigger] self.edges@[p]).0 != (
            #[trigger] self.edges@[q]).0 by {
                assert(src.edges@[p].0 != src.edges@[q].0);
            }
        }
        assert(Self::edges_ok(self.edges@)) by {
            Self::lemma_edges_ok(self.edges@);
            Self::lemma_edges_ok(src.edges@);
            assert forall|i: int| 0 <= i < self.edges@.len() implies (
            #[trigger] self.edges@[i]).1.inv() && wf_edge(self.edges@[i].1.ev()) by {
                assert(src.edges@[i].1.inv() && wf_edge(src.edges@[i].1.ev()));
            }
        }
        assert forall|i: int|
            0 <= i < self.edges@.len() implies (#[trigger] self.edges@[i]).0
            == self.edges@[i].1.guid by {
            assert(src.edges@[i].0 == src.edges@[i].1.guid);
            assert(self.edges@[i].1.ev().guid == src.edges@[i].1.ev().guid);
        }
        assert forall|g: Guid|
            #[trigger] self.has_edge(g) == src.has_edge(g) && (self.has_edge(g) ==> pairs_get(
                self.edges@,
                g,
            ).ev() == pairs_get(src.edges@, g).ev()) by {
            if pairs_has(self.edges@, g) {
                let j = choose|j: int|
                    0 <= j < self.edges@.len() && (#[trigger] self.edges@[j]).0 == g;
                assert(src.edges@[j].0 == g);
                assert(pairs_has(src.edges@, g));
                lemma_pairs_index_unique(self.edges@, j, g);
                lemma_pairs_index_unique(src.edges@, j, g);
            }
            if pairs_has(src.edges@, g) {
                let j = choose|j: int|
                    0 <= j < src.edges@.len() && (#[trigger] src.edges@[j]).0 == g;
                assert(self.edges@[j].0 == g);
                assert(pairs_has(self.edges@, g));
            }
        }
    }

    /// Entry-for-entry equal grouping tables describe the same grouping.
    proof fn lemma_dup_typed(&self, src: &EdgeSet<G>)
        requires
            src.typed.wf(),
            self.typed.sv().len() == src.typed.sv().len(),
            forall|t: int|
                0 <= t < src.typed.sv().len() ==> (#[trigger] self.typed.sv()[t]).0@
                    == src.typed.sv()[t].0@ && self.typed.sv()[t].1@ == src.typed.sv()[t].1@,
        ensures
            self.typed.wf(),
            forall|k: Seq<char>| #[trigger] self.typed.spec_has(k) == src.typed.spec_has(k),
            forall|k: Seq<char>|
                #[trigger] self.typed.spec_has(k) ==> self.typed.spec_get(k)@
                    == src.typed.spec_get(k)@,
            self.groups() == src.groups(),
    {
        assert(self.typed.wf()) by {
            assert forall|p: int, q: int|
                0 <= p < q < self.typed.sv().len() implies (#[trigger] self.typed.sv()[p]).0@ != (
            #[trigger] self.typed.sv()[q]).0@ by {
                assert(src.typed.sv()[p].0@ != src.typed.sv()[q].0@);
            }
        }
        assert forall|k: Seq<char>|
            #[trigger] self.typed.spec_has(k) == src.typed.spec_has(k) && (self.typed.spec_has(k)
                ==> self.typed.spec_get(k)@ == src.typed.spec_get(k)@) by {
            if self.typed.spec_has(k) {
                let j = choose|j: int|
                    0 <= j < self.typed.sv().len() && (#[trigger] self.typed.sv()[j]).0@ == k;
                assert(src.typed.sv()[j].0@ == k);
                assert(src.typed.spec_has(k));
                self.typed.lemma_index_unique(j, k);
                src.typed.lemma_index_unique(j, k);
            }
            if src.typed.spec_has(k) {
                let j = choose|j: int|
                    0 <= j < src.typed.sv().len() && (#[trigger] src.typed.sv()[j]).0@ == k;
                assert(self.typed.sv()[j].0@ == k);
                assert(self.typed.spec_has(k));
            }
        }
        assert(self.groups() =~= src.groups());
    }

    /// A set rebuilt entry-for-entry with equal views is well-formed and
    /// describes the same contents.
    proof fn lemma_dup_wf(&self, src: &EdgeSet<G>)
        requires
            src.wf(),
            self.edges@.len() == src.edges@.len(),
            forall|j: int|
                0 <= j < src.edges@.len() ==> (#[trigger] self.edges@[j]).0 == src.edges@[j].0
                    && self.edges@[j].1.ev() == src.edges@[j].1.ev() && self.edges@[j].1.inv(),
            self.typed.sv().len() == src.typed.sv().len(),
            forall|t: int|
                0 <= t < src.typed.sv().len() ==> (#[trigger] self.typed.sv()[t]).0@
                    == src.typed.sv()[t].0@ && self.typed.sv()[t].1@ == src.typed.sv()[t].1@,
        ensures
            self.wf(),
            self.esv() == src.esv(),
            forall|g: Guid| #[trigger] self.has_edge(g) == src.has_edge(g),
            self.groups() == src.groups(),
    {
        self.lemma_dup_edges(src);
        self.lemma_dup_typed(src);
        assert(self.typed_ok()) by {
            assert forall|k: Seq<char>, g: Guid| #[trigger] self.typed_ok_at(k, g) by {
                assert(src.typed_ok_at(k, g));
                if self.has_edge(g) {
                    assert(pairs_get(self.edges@, g).ev() == pairs_get(src.edges@, g).ev());
                    assert(pairs_get(self.edges@, g).ev().tlabel == pairs_get(
                        self.edges@,
                        g,
                    ).props.type_label_spec());
                    assert(pairs_get(src.edges@, g).ev().tlabel == pairs_get(
                        src.edges@,
                        g,
                    ).props.type_label_spec());
                }
            }
            assert forall|k: Seq<char>| #[trigger] self.typed.spec_has(k) implies guids_unique(
                self.typed.spec_get(k)@,
            ) by {
                assert(guids_unique(src.typed.spec_get(k)@));
            }
        }
    }

    /// Current totals: how many edges, and how many per type label.
    pub fn stats(&self) -> (r: EdgeStats)
        requires
            self.wf(),
        ensures
            r.sv() == (EdgeStatsV {
                total: self.esv().len() as int,
                typed: Map::new(
                    |k: Seq<char>| self.groups().contains_key(k),
                    |k: Seq<char>| self.groups()[k].len() as int,
                ),
                properties: Map::empty(),
            }),
    {
        let mut total = StatCount::new();
        let n = self.edges.len();
        total.increase(n as i128);
        let mut typed = StatMap::new();
        let mut j: usize = 0;
        while j < self.typed.entries.len()
            invariant
                self.typed.wf(),
                j <= self.typed.sv().len(),
                forall|k: Seq<char>|
                    #[trigger] typed.smv().contains_key(k) == (exists|t: int|
                        0 <= t < j && (#[trigger] self.typed.sv()[t]).0@ == k),
                forall|t: int|
                    0 <= t < j ==> typed.smv()[(#[trigger] self.typed.sv()[t]).0@]
                        == self.typed.sv()[t].1@.len(),
            decreases self.typed.sv().len() - j,
        {
            let key = self.typed.entries[j].0.clone();
            let glen = self.typed.entries[j].1.len();
            proof {
                if typed.smv().contains_key(key@) {
                    let t = choose|t: int|
                        0 <= t < j && (#[trigger] self.typed.sv()[t]).0@ == key@;
                    assert(self.typed.sv()[t].0@ == self.typed.sv()[j as int].0@);
                    assert(false);
                }
            }
            typed.increase((key, glen as i128));
            proof {
                assert forall|k: Seq<char>| #[trigger] typed.smv().contains_key(k) == (exists|
                    t: int,
                |
                    0 <= t < j + 1 && (#[trigger] self.typed.sv()[t]).0@ == k) by {
                    if typed.smv().contains_key(k) {
                        if k == self.typed.sv()[j as int].0@ {
                            assert(0 <= j < j + 1 && self.typed.sv()[j as int].0@ == k);
                        } else {
                            let t = choose|t: int|
                                0 <= t < j && (#[trigger] self.typed.sv()[t]).0@ == k;
                            assert(0 <= t < j + 1 && self.typed.sv()[t].0@ == k);
                        }
                    }
                }
            }
            j = j + 1;
        }
        let properties = StatMap::new();
        let r = EdgeStats { total, typed, properties };
        proof {
            assert forall|k: Seq<char>| true implies r.sv().typed.contains_key(k)
                == self.groups().contains_key(k) && (self.groups().contains_key(k)
                ==> r.sv().typed[k] == self.groups()[k].len()) by {
                if r.sv().typed.contains_key(k) {
                    let t = choose|t: int|
                        0 <= t < self.typed.sv().len() && (#[trigger] self.typed.sv()[t]).0@ == k;
                    self.typed.lemma_index_unique(t, k);
                }
                if self.groups().contains_key(k) {
                    let t = self.typed.index_of(k);
                    assert(self.typed.sv()[t].0@ == k);
                    self.typed.lemma_index_unique(t, k);
                }
            }
            assert(r.sv().typed =~= Map::new(
                |k: Seq<char>| self.groups().contains_key(k),
                |k: Seq<char>| self.groups()[k].len() as int,
            ));
            lemma_epairs_vv(self.edges@);
            assert(r.sv() =~~= (EdgeStatsV {
                total: self.esv().len() as int,
                typed: Map::new(
                    |k: Seq<char>| self.groups().contains_key(k),
                    |k: Seq<char>| self.groups()[k].len() as int,
                ),
                properties: Map::empty(),
            }));
        }
        r
    }
}

/// No two identities repeat.
pub open spec fn guids_unique(s: Seq<Guid>) -> bool {
    forall|i: int, j: int| 0 <= i < j < s.len() ==> s[i] != s[j]
}

/// The mathematical value of edge-set statistics.
pub ghost struct EdgeStatsV {
    pub total: int,
    pub typed: Map<Seq<char>, int>,
    pub properties: Map<Seq<char>, int>,
}

/// Counts describing an edge set: a total, and per-type and per-property
/// breakdowns.
pub struct EdgeStats {
    /// A count of the edges.
    pub total: StatCount,
    /// Counts of edges grouped by type label.
    pub typed: StatMap,
    /// Counts of distinct property names; unused by the in-memory store.
    pub properties: StatMap,
}

impl EdgeStats {
    /// The mathematical value of the statistics.
    pub open spec fn sv(&self) -> EdgeStatsV {
        EdgeStatsV {
            total: self.total.sv(),
            typed: self.typed.smv(),
            properties: self.properties.smv(),
        }
    }

    pub fn new() -> (r: EdgeStats)
        ensures
            r.sv() == (EdgeStatsV {
                total: 0,
                typed: Map::empty(),
                properties: Map::empty(),
            }),
    {
        EdgeStats { total: StatCount::new(), typed: StatMap::new(), properties: StatMap::new() }
    }
}

impl crate::utils::diff::Diff for EdgeStats {
    open spec fn deq(&self, rhs: &Self) -> bool {
        self.sv() == rhs.sv()
    }

    fn diff(&self, rhs: &Self, name: Option<&str>) -> (r: crate::utils::diff::Difference) {
        let mut d = crate::utils::diff::Difference::new();
        d = d.add(self.total.diff(&rhs.total, Some("total")));
        d = d.add(self.typed.diff(&rhs.typed, Some("typed")));
        d = d.add(self.properties.diff(&rhs.properties, Some("properties")));
        let r = d.opt_tag(name);
        proof {
            if crate::utils::diff::vclean(r.dv()) {
                assert(self.sv() =~~= rhs.sv());
            }
        }
        r
    }
}

impl Stats for EdgeStats {
    type V = EdgeStatsV;

    open spec fn sv(&self) -> EdgeStatsV {
        EdgeStats::sv(self)
    }

    open spec fn vzero() -> EdgeStatsV {
        EdgeStatsV { total: 0, typed: Map::empty(), properties: Map::empty() }
    }

    open spec fn vadd(a: EdgeStatsV, b: EdgeStatsV) -> EdgeStatsV {
        EdgeStatsV {
            total: a.total + b.total,
            typed: crate::stats::map_add(a.typed, b.typed),
            properties: crate::stats::map_add(a.properties, b.properties),
        }
    }

    open spec fn can_add(a: EdgeStatsV, b: EdgeStatsV) -> bool {
        <StatCount as Stats>::can_add(a.total, b.total) && <StatMap as Stats>::can_add(
            a.typed,
            b.typed,
        ) && <StatMap as Stats>::can_add(a.properties, b.properties)
    }

    proof fn lemma_deq_is_sv(a: &Self, b: &Self) {
    }

    proof fn lemma_add_assoc(a: EdgeStatsV, b: EdgeStatsV, c: EdgeStatsV) {
        crate::stats::lemma_map_add_assoc(a.typed, b.typed, c.typed);
        crate::stats::lemma_map_add_assoc(a.properties, b.properties, c.properties);
    }

    proof fn lemma_add_comm(a: EdgeStatsV, b: EdgeStatsV) {
        crate::stats::lemma_map_add_comm(a.typed, b.typed);
        crate::stats::lemma_map_add_comm(a.properties, b.properties);
    }

    proof fn lemma_add_zero(a: EdgeStatsV) {
        crate::stats::lemma_map_add_zero(a.typed);
        crate::stats::lemma_map_add_zero(a.properties);
    }

    fn zero() -> (r: Self) {
        EdgeStats::new()
    }

    fn add(self, rhs: Self) -> (r: Self) {
        EdgeStats {
            total: self.total.add(rhs.total),
            typed: self.typed.add(rhs.typed),
            properties: self.properties.add(rhs.properties),
        }
    }

    fn dup(&self) -> (r: Self) {
        EdgeStats {
            total: self.total.dup(),
            typed: self.typed.dup(),
            properties: self.properties.dup(),
        }
    }

    fn clear(&mut self) {
        self.total.clear();
        self.typed.clear();
        self.properties.clear();
    }
}

} // verus!
