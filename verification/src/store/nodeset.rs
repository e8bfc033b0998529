//! A group of nodes and their secondary indices.

use vstd::prelude::*;

use crate::errors::{GraphtError, GraphtResult, Kind};
use crate::model::graph::Graph;
use crate::model::guid::Guid;
use crate::model::node::{wf_edge, wf_node, Node, NodeView};
use crate::stats::{StatCount, StatMap, Stats};
use crate::store::edgeset::{guids_unique, EdgeStatsV};
use crate::utils::table::{GuidMap, StrMap};

verus! {

/// A group of nodes with a primary identity index and by-type and by-label
/// groupings.
pub struct NodeSet<G: Graph> {
    /// The set's own identity; not content-derived.
    pub guid: Guid,
    /// Every node in the set, keyed by identity; these are the canonical,
    /// bound copies.
    pub nodes: GuidMap<Node<G>>,
    /// The identities of the nodes grouped by their type label.
    pub typed: StrMap<Vec<Guid>>,
    /// The identities of the nodes grouped by each individual label.
    pub labels: StrMap<Vec<Guid>>,
}

/// Append an identity under a key, starting a fresh group when the key is
/// new.
fn group_add(groups: &mut StrMap<Vec<Guid>>, key: String, g: Guid)
    requires
        old(groups).wf(),
    ensures
        final(groups).wf(),
        forall|k2: Seq<char>|
            #[trigger] final(groups).spec_has(k2) == (old(groups).spec_has(k2) || k2 == key@),
        final(groups).spec_get(key@)@ == (if old(groups).spec_has(key@) {
            old(groups).spec_get(key@)@
        } else {
            Seq::empty()
        }).push(g),
        forall|k2: Seq<char>|
            k2 != key@ && old(groups).spec_has(k2) ==> #[trigger] final(groups).spec_get(k2)@
                == old(groups).spec_get(k2)@,
{
    let found = groups.find(key.as_str());
    match found {
        Some(i) => {
            let ghost before = *groups;
            let entry = groups.remove_at(i);
            let ghost mid = *groups;
            let (stored_key, mut group) = entry;
            group.push(g);
            groups.insert(stored_key, group);
            proof {
                crate::utils::table::lemma_strmap_replace(before, mid, *groups, i as int);
                before.lemma_index_unique(i as int, key@);
                assert forall|k2: Seq<char>|
                    k2 != key@ && before.spec_has(k2) implies #[trigger] groups.spec_get(k2)@
                    == before.spec_get(k2)@ by {
                    assert(groups.spec_has(k2));
                }
            }
        },
        None => {
            let mut group: Vec<Guid> = Vec::new();
            group.push(g);
            let ghost grp = group@;
            let ghost before = *groups;
            groups.insert(key, group);
            proof {
                assert(groups.sv().last().0@ == key@);
                groups.lemma_index_unique(groups.sv().len() - 1, key@);
                assert(groups.spec_get(key@)@ == grp);
                assert(grp =~= Seq::<Guid>::empty().push(g));
                assert forall|k2: Seq<char>|
                    k2 != key@ && before.spec_has(k2) implies #[trigger] groups.spec_get(k2)@
                    == before.spec_get(k2)@ by {
                    let j = choose|j: int|
                        0 <= j < before.sv().len() && (#[trigger] before.sv()[j]).0@ == k2;
                    assert(groups.sv()[j] == before.sv()[j]);
                    groups.lemma_index_unique(j, k2);
                    before.lemma_index_unique(j, k2);
                }
            }
        },
    }
}

impl<G: Graph> NodeSet<G> {
    /// Whether a node with the identity is stored.
    pub open spec fn has_node(&self, g: Guid) -> bool {
        self.nodes.spec_has(g)
    }

    /// The view of the node stored under an identity.
    pub open spec fn node_at(&self, g: Guid) -> NodeView {
        self.nodes.spec_get(g).nv()
    }

    /// The by-type grouping.
    pub open spec fn typed_groups(&self) -> Map<Seq<char>, Seq<Guid>> {
        Map::new(
            |k: Seq<char>| self.typed.spec_has(k),
            |k: Seq<char>| self.typed.spec_get(k)@,
        )
    }

    /// The by-label grouping.
    pub open spec fn label_groups(&self) -> Map<Seq<char>, Seq<Guid>> {
        Map::new(
            |k: Seq<char>| self.labels.spec_has(k),
            |k: Seq<char>| self.labels.spec_get(k)@,
        )
    }

    /// A grouping table only mentions stored nodes, each at most once per
    /// group.
    pub open spec fn groups_ok(&self, t: StrMap<Vec<Guid>>) -> bool {
        t.wf() && (forall|k: Seq<char>|
            #[trigger] t.spec_has(k) ==> guids_unique(t.spec_get(k)@) && (forall|p: int|
                0 <= p < t.spec_get(k)@.len() ==> self.nodes.spec_has(
                    #[trigger] t.spec_get(k)@[p],
                )))
    }

    /// At one type label and one identity: the identity sits in that
    /// label's group exactly when the stored node with that identity
    /// carries it as its type label.
    pub open spec fn typed_ok_at(&self, k: Seq<char>, h: Guid) -> bool {
        (self.typed.spec_has(k) && self.typed.spec_get(k)@.contains(h)) == (self.nodes.spec_has(h)
            && self.nodes.spec_get(h).nv().tlabel == k)
    }

    /// At one label and one identity: the identity sits in that label's
    /// group exactly when the stored node with that identity carries the
    /// label.
    pub open spec fn labels_ok_at(&self, k: Seq<char>, h: Guid) -> bool {
        (self.labels.spec_has(k) && self.labels.spec_get(k)@.contains(h)) == (
        self.nodes.spec_has(h) && self.nodes.spec_get(h).nv().labels.contains(k))
    }

    /// The groupings match the stored nodes exactly: each group holds
    /// precisely the nodes that carry its label.
    pub open spec fn groups_exact(&self) -> bool {
        (forall|k: Seq<char>, h: Guid| #[trigger] self.typed_ok_at(k, h)) && (forall|
            k: Seq<char>,
            h: Guid,
        | #[trigger] self.labels_ok_at(k, h))
    }

    /// The set's internal invariant: unique identities, canonical bound and
    /// well-formed copies, and grouping tables that hold exactly the stored
    /// nodes carrying each label.
    pub open spec fn wf(&self) -> bool {
        self.nodes.wf() && (forall|i: int|
            0 <= i < self.nodes.sv().len() ==> (#[trigger] self.nodes.sv()[i]).0
                == self.nodes.sv()[i].1.guid) && (forall|i: int|
            0 <= i < self.nodes.sv().len() ==> (#[trigger] self.nodes.sv()[i]).1.inv()
                && wf_node(self.nodes.sv()[i].1.nv()) && self.nodes.sv()[i].1.nv().bound)
            && self.groups_ok(self.typed) && self.groups_ok(self.labels) && self.groups_exact()
    }

    /// The exact effect of storing one new node `nv`: the primary index
    /// grows by exactly that node (stored bound, all else untouched), its
    /// identity is appended to its type label's group and to the group of
    /// each of its labels, and every other group is unchanged.
    pub open spec fn node_delta(pre: Self, post: Self, nv: NodeView) -> bool {
        &&& post.nodes.sv().len() == pre.nodes.sv().len() + 1
        &&& !pre.has_node(nv.guid)
        &&& (forall|h: Guid| #[trigger] post.has_node(h) == (pre.has_node(h) || h == nv.guid))
        &&& post.node_at(nv.guid) == (NodeView { bound: true, ..nv })
        &&& (forall|h: Guid|
            h != nv.guid && pre.has_node(h) ==> #[trigger] post.node_at(h) == pre.node_at(h))
        &&& (forall|k: Seq<char>|
            #[trigger] post.typed.spec_has(k) == (pre.typed.spec_has(k) || k == nv.tlabel))
        &&& post.typed.spec_get(nv.tlabel)@ == (if pre.typed.spec_has(nv.tlabel) {
            pre.typed.spec_get(nv.tlabel)@
        } else {
            Seq::empty()
        }).push(nv.guid)
        &&& (forall|k: Seq<char>|
            k != nv.tlabel && pre.typed.spec_has(k) ==> #[trigger] post.typed.spec_get(k)@
                == pre.typed.spec_get(k)@)
        &&& (forall|k: Seq<char>|
            #[trigger] post.labels.spec_has(k) == (pre.labels.spec_has(k) || nv.labels.contains(
                k,
            )))
        &&& (forall|k: Seq<char>|
            nv.labels.contains(k) ==> #[trigger] post.labels.spec_get(k)@ == (if
            pre.labels.spec_has(k) {
                pre.labels.spec_get(k)@
            } else {
                Seq::empty()
            }).push(nv.guid))
        &&& (forall|k: Seq<char>|
            !nv.labels.contains(k) && pre.labels.spec_has(k) ==> #[trigger] post.labels.spec_get(
                k,
            )@ == pre.labels.spec_get(k)@)
    }

    pub fn new() -> (r: NodeSet<G>)
        ensures
            r.nodes.sv() =~= Seq::<(Guid, Node<G>)>::empty(),
            r.typed_groups() =~= Map::<Seq<char>, Seq<Guid>>::empty(),
            r.label_groups() =~= Map::<Seq<char>, Seq<Guid>>::empty(),
            r.wf(),
    {
        let r = NodeSet {
            guid: Guid::fresh(),
            nodes: GuidMap::new(),
            typed: StrMap::new(),
            labels: StrMap::new(),
        };
        proof {
            assert(r.typed_groups() =~= Map::<Seq<char>, Seq<Guid>>::empty());
            assert(r.label_groups() =~= Map::<Seq<char>, Seq<Guid>>::empty());
            assert forall|k: Seq<char>, h: Guid| #[trigger] r.typed_ok_at(k, h) by {}
            assert forall|k: Seq<char>, h: Guid| #[trigger] r.labels_ok_at(k, h) by {}
        }
        r
    }

    /// Inserting one node and appending its identity to exactly the groups
    /// of its labels keeps every grouping exact.
    proof fn lemma_groups_exact_after_insert(pre: Self, post: Self, nv: NodeView)
        requires
            pre.groups_exact(),
            Self::node_delta(pre, post, nv),
            nv.labels.contains(nv.tlabel),
        ensures
            post.groups_exact(),
    {
        let g = nv.guid;
        assert forall|k: Seq<char>, h: Guid| #[trigger] post.typed_ok_at(k, h) by {
            assert(pre.typed_ok_at(k, h));
            assert(post.has_node(h) == (pre.has_node(h) || h == g));
            assert(post.typed.spec_has(k) == (pre.typed.spec_has(k) || k == nv.tlabel));
            assert(post.node_at(g) == (NodeView { bound: true, ..nv }));
            let preg: Seq<Guid> = if pre.typed.spec_has(k) {
                pre.typed.spec_get(k)@
            } else {
                Seq::empty()
            };
            if h == g {
                if k == nv.tlabel {
                    assert(post.typed.spec_get(k)@ == preg.push(g));
                    assert(post.typed.spec_get(k)@[preg.len() as int] == g);
                    assert(post.typed.spec_get(k)@.contains(g));
                    assert(post.node_at(g).tlabel == nv.tlabel);
                } else {
                    if post.typed.spec_has(k) && post.typed.spec_get(k)@.contains(h) {
                        assert(pre.typed.spec_has(k));
                        assert(post.typed.spec_get(k)@ == pre.typed.spec_get(k)@);
                        assert(pre.nodes.spec_has(g));
                        assert(false);
                    }
                }
            } else {
                if k == nv.tlabel {
                    assert(post.typed.spec_get(k)@ == preg.push(g));
                    if post.typed.spec_get(k)@.contains(h) {
                        let j = choose|j: int|
                            0 <= j < preg.push(g).len() && preg.push(g)[j] == h;
                        assert(j < preg.len());
                        assert(preg[j] == h);
                        assert(pre.typed.spec_has(k) && pre.typed.spec_get(k)@.contains(h));
                    }
                    if pre.typed.spec_has(k) && pre.typed.spec_get(k)@.contains(h) {
                        let j = choose|j: int| 0 <= j < preg.len() && preg[j] == h;
                        assert(preg.push(g)[j] == h);
                        assert(post.typed.spec_get(k)@.contains(h));
                    }
                } else {
                    assert(post.typed.spec_has(k) == pre.typed.spec_has(k));
                    if pre.typed.spec_has(k) {
                        assert(post.typed.spec_get(k)@ == pre.typed.spec_get(k)@);
                    }
                }
                if pre.nodes.spec_has(h) {
                    assert(post.node_at(h) == pre.node_at(h));
                }
            }
        }
        assert forall|k: Seq<char>, h: Guid| #[trigger] post.labels_ok_at(k, h) by {
            assert(pre.labels_ok_at(k, h));
            assert(post.has_node(h) == (pre.has_node(h) || h == g));
            assert(post.labels.spec_has(k) == (pre.labels.spec_has(k) || nv.labels.contains(k)));
            assert(post.node_at(g) == (NodeView { bound: true, ..nv }));
            let preg: Seq<Guid> = if pre.labels.spec_has(k) {
                pre.labels.spec_get(k)@
            } else {
                Seq::empty()
            };
            if h == g {
                if nv.labels.contains(k) {
                    assert(post.labels.spec_get(k)@ == preg.push(g));
                    assert(post.labels.spec_get(k)@[preg.len() as int] == g);
                    assert(post.labels.spec_get(k)@.contains(g));
                    assert(post.node_at(g).labels == nv.labels);
                } else {
                    if post.labels.spec_has(k) && post.labels.spec_get(k)@.contains(h) {
                        assert(pre.labels.spec_has(k));
                        assert(post.labels.spec_get(k)@ == pre.labels.spec_get(k)@);
                        assert(pre.nodes.spec_has(g));
                        assert(false);
                    }
                }
            } else {
                if nv.labels.contains(k) {
                    assert(post.labels.spec_get(k)@ == preg.push(g));
                    if post.labels.spec_get(k)@.contains(h) {
                        let j = choose|j: int|
                            0 <= j < preg.push(g).len() && preg.push(g)[j] == h;
                        assert(j < preg.len());
                        assert(preg[j] == h);
                        assert(pre.labels.spec_has(k) && pre.labels.spec_get(k)@.contains(h));
                    }
                    if pre.labels.spec_has(k) && pre.labels.spec_get(k)@.contains(h) {
                        let j = choose|j: int| 0 <= j < preg.len() && preg[j] == h;
                        assert(preg.push(g)[j] == h);
                        assert(post.labels.spec_get(k)@.contains(h));
                    }
                } else {
                    assert(post.labels.spec_has(k) == pre.labels.spec_has(k));
                    if pre.labels.spec_has(k) {
                        assert(post.labels.spec_get(k)@ == pre.labels.spec_get(k)@);
                    }
                }
                if pre.nodes.spec_has(h) {
                    assert(post.node_at(h) == pre.node_at(h));
                }
            }
        }
    }

    /// Whether a node with the given identity is registered.
    pub fn contains(&self, guid: &Guid) -> (r: bool)
        ensures
            r == self.has_node(*guid),
    {
        self.nodes.contains(*guid)
    }

    /// The stored node with the given identity, if any.
    pub fn get(&self, guid: &Guid) -> (r: Option<&Node<G>>)
        requires
            self.wf(),
        ensures
            match r {
                Some(n) => self.has_node(*guid) && *n == self.nodes.spec_get(*guid),
                None => !self.has_node(*guid),
            },
    {
        self.nodes.get(*guid)
    }
}

/// The mathematical value of node-set statistics.
pub ghost struct NodeStatsV {
    pub total: int,
    pub typed: Map<Seq<char>, int>,
    pub labels: Map<Seq<char>, int>,
    pub properties: Map<Seq<char>, int>,
}

/// Counts describing a node set: a total, and per-type, per-label and
/// per-property breakdowns.
pub struct NodeStats {
    /// A count of the nodes.
    pub total: StatCount,
    /// Counts of nodes grouped by type label.
    pub typed: StatMap,
    /// Counts of nodes tagged by each label.
    pub labels: StatMap,
    /// Counts of distinct property names; unused by the in-memory store.
    pub properties: StatMap,
}

impl NodeStats {
    /// The mathematical value of the statistics.
    pub open spec fn sv(&self) -> NodeStatsV {
        NodeStatsV {
            total: self.total.sv(),
            typed: self.typed.smv(),
            labels: self.labels.smv(),
            properties: self.properties.smv(),
        }
    }

    pub fn new() -> (r: NodeStats)
        ensures
            r.sv() == (NodeStatsV {
                total: 0,
                typed: Map::empty(),
                labels: Map::empty(),
                properties: Map::empty(),
            }),
    {
        NodeStats {
            total: StatCount::new(),
            typed: StatMap::new(),
            labels: StatMap::new(),
            properties: StatMap::new(),
        }
    }
}

impl crate::utils::diff::Diff for NodeStats {
    open spec fn deq(&self, rhs: &Self) -> bool {
        self.sv() == rhs.sv()
    }

    fn diff(&self, rhs: &Self, name: Option<&str>) -> (r: crate::utils::diff::Difference) {
        let mut d = crate::utils::diff::Difference::new();
        d = d.add(self.total.diff(&rhs.total, Some("total")));
        d = d.add(self.typed.diff(&rhs.typed, Some("typed")));
        d = d.add(self.labels.diff(&rhs.labels, Some("labels")));
        d = d.add(self.properties.diff(&rhs.properties, Some("properties")));
        let r = d.opt_tag(name);
        proof {
            if crate::utils::diff::vclean(r.dv()) {
                assert(self.sv() =~~= rhs.sv());
            }
        }
        r
    }
}

impl Stats for NodeStats {
    type V = NodeStatsV;

    open spec fn sv(&self) -> NodeStatsV {
        NodeStats::sv(self)
    }

    open spec fn vzero() -> NodeStatsV {
        NodeStatsV {
            total: 0,
            typed: Map::empty(),
            labels: Map::empty(),
            properties: Map::empty(),
        }
    }

    open spec fn vadd(a: NodeStatsV, b: NodeStatsV) -> NodeStatsV {
        NodeStatsV {
            total: a.total + b.total,
            typed: crate::stats::map_add(a.typed, b.typed),
            labels: crate::stats::map_add(a.labels, b.labels),
            properties: crate::stats::map_add(a.properties, b.properties),
        }
    }

    open spec fn can_add(a: NodeStatsV, b: NodeStatsV) -> bool {
        <StatCount as Stats>::can_add(a.total, b.total) && <StatMap as Stats>::can_add(
            a.typed,
            b.typed,
        ) && <StatMap as Stats>::can_add(a.labels, b.labels) && <StatMap as Stats>::can_add(
            a.properties,
            b.properties,
        )
    }

    proof fn lemma_deq_is_sv(a: &Self, b: &Self) {
    }

    proof fn lemma_add_assoc(a: NodeStatsV, b: NodeStatsV, c: NodeStatsV) {
        crate::stats::lemma_map_add_assoc(a.typed, b.typed, c.typed);
        crate::stats::lemma_map_add_assoc(a.labels, b.labels, c.labels);
        crate::stats::lemma_map_add_assoc(a.properties, b.properties, c.properties);
    }

    proof fn lemma_add_comm(a: NodeStatsV, b: NodeStatsV) {
        crate::stats::lemma_map_add_comm(a.typed, b.typed);
        crate::stats::lemma_map_add_comm(a.labels, b.labels);
        crate::stats::lemma_map_add_comm(a.properties, b.properties);
    }

    proof fn lemma_add_zero(a: NodeStatsV) {
        crate::stats::lemma_map_add_zero(a.typed);
        crate::stats::lemma_map_add_zero(a.labels);
        crate::stats::lemma_map_add_zero(a.properties);
    }

    fn zero() -> (r: Self) {
        NodeStats::new()
    }

    fn add(self, rhs: Self) -> (r: Self) {
        NodeStats {
            total: self.total.add(rhs.total),
            typed: self.typed.add(rhs.typed),
            labels: self.labels.add(rhs.labels),
            properties: self.properties.add(rhs.properties),
        }
    }

    fn dup(&self) -> (r: Self) {
        NodeStats {
            total: self.total.dup(),
            typed: self.typed.dup(),
            labels: self.labels.dup(),
            properties: self.properties.dup(),
        }
    }

    fn clear(&mut self) {
        self.total.clear();
        self.typed.clear();
        self.labels.clear();
        self.properties.clear();
    }
}



/// The per-label unit counts contributed by one node's labels.
pub open spec fn label_units(s: Seq<Seq<char>>) -> Map<Seq<char>, int>
    decreases s,
{
    if s.len() == 0 {
        Map::empty()
    } else {
        label_units(s.drop_last()).insert(s.last(), 1)
    }
}

/// A value satisfying `old_nodes` membership or equal to `g`.
pub open spec fn in_or_is<G: Graph>(old_nodes: GuidMap<Node<G>>, g: Guid, h: Guid) -> bool {
    old_nodes.spec_has(h) || h == g
}

/// Group contents stay unique and within the allowed identities after one
/// `group_add`.
proof fn lemma_group_add_contents<G: Graph>(
    t_old: StrMap<Vec<Guid>>,
    t_new: StrMap<Vec<Guid>>,
    key: Seq<char>,
    g: Guid,
    old_nodes: GuidMap<Node<G>>,
)
    requires
        !old_nodes.spec_has(g),
        forall|k: Seq<char>|
            #[trigger] t_old.spec_has(k) ==> guids_unique(t_old.spec_get(k)@) && (forall|p: int|
                0 <= p < t_old.spec_get(k)@.len() ==> in_or_is(
                    old_nodes,
                    g,
                    #[trigger] t_old.spec_get(k)@[p],
                )),
        t_old.spec_has(key) ==> (forall|p: int|
            0 <= p < t_old.spec_get(key)@.len() ==> old_nodes.spec_has(
                #[trigger] t_old.spec_get(key)@[p],
            )),
        forall|k2: Seq<char>| #[trigger] t_new.spec_has(k2) == (t_old.spec_has(k2) || k2 == key),
        t_new.spec_get(key)@ == (if t_old.spec_has(key) {
            t_old.spec_get(key)@
        } else {
            Seq::empty()
        }).push(g),
        forall|k2: Seq<char>|
            k2 != key && t_old.spec_has(k2) ==> #[trigger] t_new.spec_get(k2)@ == t_old.spec_get(
                k2,
            )@,
    ensures
        forall|k: Seq<char>|
            #[trigger] t_new.spec_has(k) ==> guids_unique(t_new.spec_get(k)@) && (forall|p: int|
                0 <= p < t_new.spec_get(k)@.len() ==> in_or_is(
                    old_nodes,
                    g,
                    #[trigger] t_new.spec_get(k)@[p],
                )),
{
    let keyg: Seq<Guid> = if t_old.spec_has(key) {
        t_old.spec_get(key)@
    } else {
        Seq::empty()
    };
    let newg = keyg.push(g);
    assert forall|k: Seq<char>| #[trigger] t_new.spec_has(k) implies guids_unique(
        t_new.spec_get(k)@,
    ) && (forall|p: int|
        0 <= p < t_new.spec_get(k)@.len() ==> in_or_is(
            old_nodes,
            g,
            #[trigger] t_new.spec_get(k)@[p],
        )) by {
        if k == key {
            assert(t_new.spec_get(k)@ == newg);
            assert(newg[newg.len() - 1] == g);
            assert forall|p: int, q: int| 0 <= p < q < newg.len() implies newg[p] != newg[q] by {
                if q < newg.len() - 1 {
                    assert(t_old.spec_has(key));
                    assert(guids_unique(keyg));
                    assert(newg[p] == keyg[p]);
                    assert(newg[q] == keyg[q]);
                } else {
                    assert(newg[q] == g);
                    assert(newg[p] == keyg[p]);
                    assert(t_old.spec_has(key));
                    assert(old_nodes.spec_has(keyg[p]));
                }
            }
            assert forall|p: int| 0 <= p < newg.len() implies in_or_is(
                old_nodes,
                g,
                #[trigger] newg[p],
            ) by {
                if p < newg.len() - 1 {
                    assert(t_old.spec_has(key));
                    assert(in_or_is(old_nodes, g, keyg[p]));
                } else {
                    assert(newg[p] == g);
                }
            }
        } else {
            assert(t_old.spec_has(k));
            assert(t_new.spec_get(k)@ == t_old.spec_get(k)@);
            assert(guids_unique(t_old.spec_get(k)@));
        }
    }
}

/// The keys of `label_units` are exactly the labels, each counted once.
pub proof fn lemma_label_units_domain(s: Seq<Seq<char>>)
    ensures
        forall|k: Seq<char>| #[trigger] label_units(s).contains_key(k) == s.contains(k),
        forall|k: Seq<char>| #[trigger] label_units(s).contains_key(k) ==> label_units(s)[k] == 1,
    decreases s,
{
    if s.len() > 0 {
        lemma_label_units_domain(s.drop_last());
        assert forall|k: Seq<char>|
            #[trigger] label_units(s).contains_key(k) == s.contains(k) && (label_units(
                s,
            ).contains_key(k) ==> label_units(s)[k] == 1) by {
            if s.contains(k) {
                let p = choose|p: int| 0 <= p < s.len() && s[p] == k;
                if p < s.len() - 1 {
                    assert(s.drop_last()[p] == k);
                    assert(s.drop_last().contains(k));
                    assert(label_units(s.drop_last()).contains_key(k));
                } else {
                    assert(s.last() == k);
                }
            }
            if k != s.last() && label_units(s.drop_last()).contains_key(k) {
                assert(label_units(s.drop_last())[k] == 1);
            }
            if label_units(s).contains_key(k) && k != s.last() {
                assert(label_units(s.drop_last()).contains_key(k));
                let p = choose|p: int| 0 <= p < s.drop_last().len() && s.drop_last()[p] == k;
                assert(s[p] == k);
                assert(s.contains(k));
            }
            if k == s.last() {
                assert(s[s.len() - 1] == k);
                assert(s.contains(k));
            }
        }
    }
}


impl<G: Graph> NodeSet<G> {
    /// Insert a new node: a detached copy is stored, marked as the
    /// canonical bound copy, and indexed by identity, type label, and each
    /// label.  Fails with `DuplicateKey` exactly when a node with the same
    /// identity is already stored.
    #[verifier::loop_isolation(false)]
    #[verifier::rlimit(100)]
    pub fn insert(&mut self, node: &Node<G>) -> (r: GraphtResult<
        crate::stats::CrudResultStats<NodeStats>,
    >)
        requires
            old(self).wf(),
            node.inv(),
        ensures
            final(self).wf(),
            match r {
                Ok(cs) => !old(self).has_node(node.nv().guid) && Self::node_delta(
                    *old(self),
                    *final(self),
                    node.nv(),
                ) && (forall|h: Guid|
                    #[trigger] final(self).has_node(h) == (old(self).has_node(h) || h
                        == node.nv().guid)) && final(self).node_at(node.nv().guid) == (NodeView {
                    bound: true,
                    ..node.nv()
                }) && (forall|h: Guid|
                    h != node.nv().guid && old(self).has_node(h) ==> #[trigger] final(self).node_at(h) == old(self).node_at(h)) && final(self).nodes.sv().len() == old(self).nodes.sv().len() + 1 && cs.csv().created == Some(
                    (NodeStatsV {
                        total: 1,
                        typed: crate::stats::msingle(node.nv().tlabel, 1),
                        labels: label_units(node.nv().labels),
                        properties: Map::empty(),
                    }),
                ) && cs.csv().read is None && cs.csv().updated is None && cs.csv().deleted is None
                    && cs.csv().errors.len() == 0,
                Err(e) => old(self).has_node(node.nv().guid) && e.kind == Kind::DuplicateKey
                    && *final(self) == *old(self),
            },
    {
        let g = node.get_guid();
        if self.nodes.contains(g) {
            return Err(GraphtError::new(Kind::DuplicateKey, "node already exists in the set"));
        }
        let ghost pre = *self;
        let cloned = node.deep_clone();
        let mut stored = match cloned {
            Ok(n) => n,
            Err(e) => {
                proof {
                    assert(false);
                }
                return Err(e);
            },
        };
        stored.set_bound(true);
        proof {
            assert(stored.nv() == (NodeView { bound: true, ..node.nv() }));
            assert(wf_node(stored.nv())) by {
                assert(stored.nv().labels == node.nv().labels);
                assert(stored.nv().edges == node.nv().edges);
                crate::model::node::lemma_wf_edge_list(node.nv().edges, node.nv().guid);
                crate::model::node::lemma_wf_edge_list(stored.nv().edges, stored.nv().guid);
            }
        }
        self.nodes.insert(g, stored);
        proof {
            assert(self.nodes.sv().last().0 == g);
            self.nodes.lemma_index_unique(self.nodes.sv().len() - 1, g);
            assert forall|h: Guid|
                h != g && pre.nodes.spec_has(h) implies #[trigger] self.nodes.spec_get(h)
                == pre.nodes.spec_get(h) by {
                let j = choose|j: int|
                    0 <= j < pre.nodes.sv().len() && (#[trigger] pre.nodes.sv()[j]).0 == h;
                assert(self.nodes.sv()[j] == pre.nodes.sv()[j]);
                self.nodes.lemma_index_unique(j, h);
                pre.nodes.lemma_index_unique(j, h);
            }
            assert forall|i: int|
                0 <= i < self.nodes.sv().len() implies (#[trigger] self.nodes.sv()[i]).0
                == self.nodes.sv()[i].1.guid && self.nodes.sv()[i].1.inv() && wf_node(
                self.nodes.sv()[i].1.nv(),
            ) && self.nodes.sv()[i].1.nv().bound by {
                if i < pre.nodes.sv().len() {
                    assert(self.nodes.sv()[i] == pre.nodes.sv()[i]);
                    assert((#[trigger] pre.nodes.sv()[i]).0 == pre.nodes.sv()[i].1.guid
                        && pre.nodes.sv()[i].1.inv() && wf_node(pre.nodes.sv()[i].1.nv())
                        && pre.nodes.sv()[i].1.nv().bound);
                }
            }
        }
        let tlabel = node.type_label();
        let ghost typed0 = self.typed;
        group_add(&mut self.typed, tlabel, g);
        proof {
            assert forall|k: Seq<char>|
                #[trigger] typed0.spec_has(k) implies (forall|p: int|
                0 <= p < typed0.spec_get(k)@.len() ==> in_or_is(
                    pre.nodes,
                    g,
                    #[trigger] typed0.spec_get(k)@[p],
                )) by {}
            lemma_group_add_contents(typed0, self.typed, node.nv().tlabel, g, pre.nodes);
            assert(self.groups_ok(self.typed)) by {
                assert forall|k: Seq<char>| #[trigger] self.typed.spec_has(k) implies guids_unique(
                    self.typed.spec_get(k)@,
                ) && (forall|p: int|
                    0 <= p < self.typed.spec_get(k)@.len() ==> self.nodes.spec_has(
                        #[trigger] self.typed.spec_get(k)@[p],
                    )) by {}
            }
        }
        let node_labels = node.get_labels();
        let ghost lv = node.nv().labels;
        let mut lab: StrMap<Vec<Guid>> = StrMap::new();
        core::mem::swap(&mut self.labels, &mut lab);
        let ghost labels0 = lab;
        let mut j: usize = 0;
        while j < node_labels.len()
            invariant
                lab.wf(),
                j <= lv.len(),
                forall|k: Seq<char>|
                    #[trigger] lab.spec_has(k) == (labels0.spec_has(k) || lv.take(
                        j as int,
                    ).contains(k)),
                forall|p: int|
                    0 <= p < j ==> lab.spec_get(#[trigger] lv[p])@ == (if labels0.spec_has(
                        lv[p],
                    ) {
                        labels0.spec_get(lv[p])@
                    } else {
                        Seq::empty()
                    }).push(g),
                forall|k: Seq<char>|
                    !lv.take(j as int).contains(k) && labels0.spec_has(k)
                        ==> #[trigger] lab.spec_get(k)@ == labels0.spec_get(k)@,
                forall|k: Seq<char>|
                    #[trigger] lab.spec_has(k) ==> guids_unique(lab.spec_get(k)@) && (forall|
                        p: int,
                    |
                        0 <= p < lab.spec_get(k)@.len() ==> in_or_is(
                            pre.nodes,
                            g,
                            #[trigger] lab.spec_get(k)@[p],
                        )),
            decreases lv.len() - j,
        {
            let ghost mid = lab;
            let ghost kj = lv[j as int];
            proof {
                assert(node_labels.deep_view()[j as int] == lv[j as int]);
                assert(!lv.take(j as int).contains(kj)) by {
                    if lv.take(j as int).contains(kj) {
                        let p = choose|p: int|
                            0 <= p < j && #[trigger] lv.take(j as int)[p] == kj;
                        assert(lv[p] == lv[j as int]);
                        assert(false);
                    }
                }
                assert(mid.spec_has(kj) == labels0.spec_has(kj));
                if labels0.spec_has(kj) {
                    assert(mid.spec_get(kj)@ == labels0.spec_get(kj)@);
                    assert forall|p: int|
                        0 <= p < mid.spec_get(kj)@.len() implies pre.nodes.spec_has(
                        #[trigger] mid.spec_get(kj)@[p]) by {
                        assert(in_or_is(pre.nodes, g, labels0.spec_get(kj)@[p]));
                        if labels0.spec_get(kj)@[p] == g {
                            assert(guids_unique(labels0.spec_get(kj)@) || true);
                            assert(in_or_is(pre.nodes, g, labels0.spec_get(kj)@[p]));
                        }
                    }
                }
            }
            group_add(&mut lab, node_labels[j].clone(), g);
            proof {
                assert(lv.take(j + 1 as int).drop_last() =~= lv.take(j as int));
                assert(lv.take(j + 1 as int).last() == kj);
                lemma_group_add_contents(mid, lab, kj, g, pre.nodes);
                assert forall|k: Seq<char>|
                    #[trigger] lab.spec_has(k) == (labels0.spec_has(k) || lv.take(
                        j + 1 as int,
                    ).contains(k)) by {
                    if lv.take(j + 1 as int).contains(k) {
                        let p = choose|p: int|
                            0 <= p <= j && #[trigger] lv.take(j + 1 as int)[p] == k;
                        if p < j {
                            assert(lv.take(j as int)[p] == k);
                            assert(lv.take(j as int).contains(k));
                        }
                    }
                    if lv.take(j as int).contains(k) {
                        let p = choose|p: int|
                            0 <= p < j && #[trigger] lv.take(j as int)[p] == k;
                        assert(lv.take(j + 1 as int)[p] == k);
                        assert(lv.take(j + 1 as int).contains(k));
                    }
                    if k == kj {
                        assert(lv.take(j + 1 as int)[j as int] == k);
                        assert(lv.take(j + 1 as int).contains(k));
                    }
                }
                assert forall|p: int|
                    0 <= p < j + 1 implies lab.spec_get(#[trigger] lv[p])@ == (if
                labels0.spec_has(lv[p]) {
                    labels0.spec_get(lv[p])@
                } else {
                    Seq::empty()
                }).push(g) by {
                    if p < j {
                        assert(lv[p] != kj);
                        assert(mid.spec_get(lv[p])@ == (if labels0.spec_has(lv[p]) {
                            labels0.spec_get(lv[p])@
                        } else {
                            Seq::empty()
                        }).push(g));
                        assert(lv.take(j as int)[p] == lv[p]);
                        assert(lv.take(j as int).contains(lv[p]));
                        assert(mid.spec_has(lv[p]));
                        assert(lab.spec_get(lv[p])@ == mid.spec_get(lv[p])@);
                    }
                }
                assert forall|k: Seq<char>|
                    !lv.take(j + 1 as int).contains(k) && labels0.spec_has(k)
                        implies #[trigger] lab.spec_get(k)@ == labels0.spec_get(k)@ by {
                    assert(!lv.take(j as int).contains(k)) by {
                        if lv.take(j as int).contains(k) {
                            let p = choose|p: int|
                                0 <= p < j && #[trigger] lv.take(j as int)[p] == k;
                            assert(lv.take(j + 1 as int)[p] == k);
                            assert(lv.take(j + 1 as int).contains(k));
                        }
                    }
                    assert(k != kj) by {
                        if k == kj {
                            assert(lv.take(j + 1 as int)[j as int] == k);
                            assert(lv.take(j + 1 as int).contains(k));
                        }
                    }
                    assert(mid.spec_get(k)@ == labels0.spec_get(k)@);
                    assert(mid.spec_has(k));
                    assert(lab.spec_get(k)@ == mid.spec_get(k)@);
                }
            }
            j = j + 1;
        }
        self.labels = lab;
        proof {
            assert(self.groups_ok(self.labels)) by {
                assert forall|k: Seq<char>|
                    #[trigger] self.labels.spec_has(k) implies guids_unique(
                    self.labels.spec_get(k)@) && (forall|p: int|
                    0 <= p < self.labels.spec_get(k)@.len() ==> self.nodes.spec_has(
                        #[trigger] self.labels.spec_get(k)@[p],
                    )) by {}
            }
            assert(lv.take(lv.len() as int) =~= lv);
            assert forall|k: Seq<char>|
                #[trigger] self.labels.spec_has(k) == (pre.labels.spec_has(k) || lv.contains(
                k)) by {}
            assert forall|k: Seq<char>| lv.contains(k) implies #[trigger] self.labels.spec_get(k)@
                == (if pre.labels.spec_has(k) {
                pre.labels.spec_get(k)@
            } else {
                Seq::empty()
            }).push(g) by {
                let p = choose|p: int| 0 <= p < lv.len() && lv[p] == k;
                assert(self.labels.spec_get(lv[p])@ == (if pre.labels.spec_has(lv[p]) {
                    pre.labels.spec_get(lv[p])@
                } else {
                    Seq::empty()
                }).push(g));
            }
            assert forall|k: Seq<char>|
                !lv.contains(k) && pre.labels.spec_has(k) implies #[trigger] self.labels.spec_get(
                k)@ == pre.labels.spec_get(k)@ by {}
            assert(Self::node_delta(pre, *self, node.nv()));
            Self::lemma_groups_exact_after_insert(pre, *self, node.nv());
        }
        let mut ns = NodeStats::new();
        ns.total.incr();
        let tl2 = node.type_label();
        ns.typed.increase((tl2, 1));
        proof {
            assert(ns.typed.smv() =~= crate::stats::msingle(node.nv().tlabel, 1));
        }
        let labels2 = node.get_labels();
        let mut t: usize = 0;
        while t < labels2.len()
            invariant
                t <= lv.len(),
                ns.labels.smv() == label_units(lv.take(t as int)),
                ns.total.sv() == 1,
                ns.typed.smv() == crate::stats::msingle(node.nv().tlabel, 1),
                ns.properties.smv() == Map::<Seq<char>, int>::empty(),
            decreases lv.len() - t,
        {
            proof {
                assert(labels2.deep_view()[t as int] == lv[t as int]);
                assert(!lv.take(t as int).contains(lv[t as int])) by {
                    if lv.take(t as int).contains(lv[t as int]) {
                        let p = choose|p: int|
                            0 <= p < t && #[trigger] lv.take(t as int)[p] == lv[t as int];
                        assert(lv[p] == lv[t as int]);
                    }
                }
                lemma_label_units_domain(lv.take(t as int));
            }
            ns.labels.increase((labels2[t].clone(), 1));
            proof {
                assert(lv.take(t + 1 as int).drop_last() =~= lv.take(t as int));
                assert(ns.labels.smv() =~= label_units(lv.take(t + 1 as int)));
            }
            t = t + 1;
        }
        proof {
            assert(lv.take(lv.len() as int) =~= lv);
            assert(ns.sv() == (NodeStatsV {
                total: 1,
                typed: crate::stats::msingle(node.nv().tlabel, 1),
                labels: label_units(node.nv().labels),
                properties: Map::empty(),
            }));
        }
        let mut cs = crate::stats::CrudResultStats::<NodeStats>::new();
        cs.add_created(ns);
        Ok(cs)
    }
}



impl<G: Graph> NodeSet<G> {
    /// Attach an edge to the canonical copy of its source node, using the
    /// non-detaching path reserved for the insertion engine.  Returns `Ok`
    /// when newly attached and `Err` with `DuplicateKey` when the node's
    /// index already held it; either way the set stays valid.
    #[verifier::rlimit(60)]
    pub(crate) fn attach_edge(&mut self, source: Guid, edge: crate::model::edge::Edge<G>) -> (r:
        GraphtResult<()>)
        requires
            old(self).wf(),
            old(self).has_node(source),
            edge.inv(),
            crate::model::node::wf_edge(edge.ev()),
            edge.ev().source.guid == source,
        ensures
            final(self).wf(),
            final(self).nodes.sv().len() == old(self).nodes.sv().len(),
            forall|h: Guid| #[trigger] final(self).has_node(h) == old(self).has_node(h),
            forall|h: Guid|
                h != source && old(self).has_node(h) ==> #[trigger] final(self).node_at(h) == old(
                    self,
                ).node_at(h),
            match r {
                Ok(()) => !crate::model::node::edges_have(
                    old(self).node_at(source).edges,
                    edge.ev().guid,
                ) && final(self).node_at(source) == (NodeView {
                    edges: old(self).node_at(source).edges.push(edge.ev()),
                    ..old(self).node_at(source)
                }),
                Err(e) => crate::model::node::edges_have(
                    old(self).node_at(source).edges,
                    edge.ev().guid,
                ) && e.kind == Kind::DuplicateKey && final(self).node_at(source) == old(
                    self,
                ).node_at(source),
            },
            final(self).typed == old(self).typed,
            final(self).labels == old(self).labels,
    {
        let ghost pre = *self;
        let mut n = self.nodes.remove(source);
        let ghost mid_nodes = self.nodes;
        let result = n.add_edge(edge);
        proof {
            assert(n.nv().guid == pre.nodes.spec_get(source).nv().guid);
        }
        self.nodes.insert(source, n);
        proof {
            assert(self.nodes.sv().last().0 == source);
            self.nodes.lemma_index_unique(self.nodes.sv().len() - 1, source);
            assert forall|h: Guid|
                #[trigger] self.nodes.spec_has(h) == pre.nodes.spec_has(h) by {
                if h != source {
                    assert(mid_nodes.spec_has(h) == pre.nodes.spec_has(h));
                    assert(self.nodes.spec_has(h) == (mid_nodes.spec_has(h) || h == source));
                }
            }
            assert forall|h: Guid|
                h != source && pre.nodes.spec_has(h) implies #[trigger] self.nodes.spec_get(h)
                == pre.nodes.spec_get(h) by {
                let j = choose|j: int|
                    0 <= j < mid_nodes.sv().len() && (#[trigger] mid_nodes.sv()[j]).0 == h;
                assert(self.nodes.sv()[j] == mid_nodes.sv()[j]);
                self.nodes.lemma_index_unique(j, h);
                mid_nodes.lemma_index_unique(j, h);
                let w = pre.nodes.index_of(source);
                let bj = if j < w {
                    j
                } else {
                    j + 1
                };
                assert(mid_nodes.sv()[j] == pre.nodes.sv()[bj]);
                pre.nodes.lemma_index_unique(bj, h);
            }
            assert(wf_node(self.nodes.spec_get(source).nv())) by {
                if result is Ok {
                    let old_nv = pre.nodes.spec_get(source).nv();
                    crate::model::node::lemma_wf_edge_list(old_nv.edges, old_nv.guid);
                    crate::model::node::lemma_wf_edge_list(n.nv().edges, n.nv().guid);
                    assert forall|i: int| 0 <= i < n.nv().edges.len() implies wf_edge(
                        #[trigger] n.nv().edges[i],
                    ) && n.nv().edges[i].source.guid == n.nv().guid by {
                        if i < old_nv.edges.len() {
                            assert(n.nv().edges[i] == old_nv.edges[i]);
                            assert(wf_edge(old_nv.edges[i]));
                        }
                    }
                    assert(crate::model::node::edge_guids_unique(n.nv().edges)) by {
                        assert forall|i: int, j: int|
                            0 <= i < j < n.nv().edges.len() implies (
                        #[trigger] n.nv().edges[i]).guid != (#[trigger] n.nv().edges[j]).guid by {
                            if j < old_nv.edges.len() {
                                assert(n.nv().edges[i] == old_nv.edges[i]);
                                assert(n.nv().edges[j] == old_nv.edges[j]);
                            } else {
                                assert(n.nv().edges[i] == old_nv.edges[i]);
                                assert(crate::model::node::edges_have(
                                    old_nv.edges,
                                    n.nv().edges[i].guid,
                                ));
                            }
                        }
                    }
                    assert(n.nv().labels == old_nv.labels);
                }
            }
            assert forall|i: int|
                0 <= i < self.nodes.sv().len() implies (#[trigger] self.nodes.sv()[i]).0
                == self.nodes.sv()[i].1.guid && self.nodes.sv()[i].1.inv() && wf_node(
                self.nodes.sv()[i].1.nv(),
            ) && self.nodes.sv()[i].1.nv().bound by {
                if i < self.nodes.sv().len() - 1 {
                    assert(self.nodes.sv()[i] == mid_nodes.sv()[i]);
                    let w = pre.nodes.index_of(source);
                    let bi = if i < w {
                        i
                    } else {
                        i + 1
                    };
                    assert(mid_nodes.sv()[i] == pre.nodes.sv()[bi]);
                    assert((#[trigger] pre.nodes.sv()[bi]).0 == pre.nodes.sv()[bi].1.guid
                        && pre.nodes.sv()[bi].1.inv() && wf_node(pre.nodes.sv()[bi].1.nv())
                        && pre.nodes.sv()[bi].1.nv().bound);
                } else {
                    assert(self.nodes.sv()[i].1 == n);
                    let old_nv = pre.nodes.spec_get(source).nv();
                    assert(n.nv().bound == old_nv.bound);
                }
            }
            assert(self.groups_ok(self.typed)) by {
                assert forall|k: Seq<char>| #[trigger] self.typed.spec_has(k) implies guids_unique(
                    self.typed.spec_get(k)@,
                ) && (forall|p: int|
                    0 <= p < self.typed.spec_get(k)@.len() ==> self.nodes.spec_has(
                        #[trigger] self.typed.spec_get(k)@[p],
                    )) by {
                    assert(guids_unique(pre.typed.spec_get(k)@));
                }
            }
            assert(self.groups_ok(self.labels)) by {
                assert forall|k: Seq<char>|
                    #[trigger] self.labels.spec_has(k) implies guids_unique(
                    self.labels.spec_get(k)@) && (forall|p: int|
                    0 <= p < self.labels.spec_get(k)@.len() ==> self.nodes.spec_has(
                        #[trigger] self.labels.spec_get(k)@[p],
                    )) by {
                    assert(guids_unique(pre.labels.spec_get(k)@));
                }
            }
            assert(self.nodes.spec_get(source) == n);
            assert(self.nodes.spec_get(source).nv().tlabel == pre.nodes.spec_get(
                source,
            ).nv().tlabel);
            assert(self.nodes.spec_get(source).nv().labels == pre.nodes.spec_get(
                source,
            ).nv().labels);
            assert forall|k: Seq<char>, h: Guid| #[trigger] self.typed_ok_at(k, h) by {
                assert(pre.typed_ok_at(k, h));
                assert(self.nodes.spec_has(h) == pre.nodes.spec_has(h));
                if pre.nodes.spec_has(h) && h != source {
                    assert(self.nodes.spec_get(h) == pre.nodes.spec_get(h));
                }
            }
            assert forall|k: Seq<char>, h: Guid| #[trigger] self.labels_ok_at(k, h) by {
                assert(pre.labels_ok_at(k, h));
                assert(self.nodes.spec_has(h) == pre.nodes.spec_has(h));
                if pre.nodes.spec_has(h) && h != source {
                    assert(self.nodes.spec_get(h) == pre.nodes.spec_get(h));
                }
            }
        }
        result
    }

    /// Current totals: how many nodes, and how many per type label and per
    /// label.
    pub fn stats(&self) -> (r: NodeStats)
        requires
            self.wf(),
        ensures
            r.sv() == (NodeStatsV {
                total: self.nodes.sv().len() as int,
                typed: Map::new(
                    |k: Seq<char>| self.typed.spec_has(k),
                    |k: Seq<char>| self.typed.spec_get(k)@.len() as int,
                ),
                labels: Map::new(
                    |k: Seq<char>| self.labels.spec_has(k),
                    |k: Seq<char>| self.labels.spec_get(k)@.len() as int,
                ),
                properties: Map::empty(),
            }),
    {
        let mut total = StatCount::new();
        let n = self.nodes.len();
        total.increase(n as i128);
        let typed = group_counts(&self.typed);
        let labels = group_counts(&self.labels);
        let properties = StatMap::new();
        let r = NodeStats { total, typed, labels, properties };
        proof {
            assert(r.sv() =~~= (NodeStatsV {
                total: self.nodes.sv().len() as int,
                typed: Map::new(
                    |k: Seq<char>| self.typed.spec_has(k),
                    |k: Seq<char>| self.typed.spec_get(k)@.len() as int,
                ),
                labels: Map::new(
                    |k: Seq<char>| self.labels.spec_has(k),
                    |k: Seq<char>| self.labels.spec_get(k)@.len() as int,
                ),
                properties: Map::empty(),
            }));
        }
        r
    }
}

/// The per-key sizes of a grouping table.
fn group_counts(t: &StrMap<Vec<Guid>>) -> (r: StatMap)
    requires
        t.wf(),
    ensures
        r.smv() == Map::new(
            |k: Seq<char>| t.spec_has(k),
            |k: Seq<char>| t.spec_get(k)@.len() as int,
        ),
{
    let mut sm = StatMap::new();
    let mut j: usize = 0;
    while j < t.entries.len()
        invariant
            t.wf(),
            j <= t.sv().len(),
            forall|k: Seq<char>|
                #[trigger] sm.smv().contains_key(k) == (exists|p: int|
                    0 <= p < j && (#[trigger] t.sv()[p]).0@ == k),
            forall|p: int|
                0 <= p < j ==> sm.smv()[(#[trigger] t.sv()[p]).0@] == t.sv()[p].1@.len(),
        decreases t.sv().len() - j,
    {
        let key = t.entries[j].0.clone();
        let glen = t.entries[j].1.len();
        proof {
            if sm.smv().contains_key(key@) {
                let p = choose|p: int| 0 <= p < j && (#[trigger] t.sv()[p]).0@ == key@;
                assert(t.sv()[p].0@ == t.sv()[j as int].0@);
                assert(false);
            }
        }
        sm.increase((key, glen as i128));
        proof {
            assert forall|k: Seq<char>|
                #[trigger] sm.smv().contains_key(k) == (exists|p: int|
                    0 <= p < j + 1 && (#[trigger] t.sv()[p]).0@ == k) by {
                if sm.smv().contains_key(k) {
                    if k == t.sv()[j as int].0@ {
                        assert(0 <= j < j + 1 && t.sv()[j as int].0@ == k);
                    } else {
                        let p = choose|p: int| 0 <= p < j && (#[trigger] t.sv()[p]).0@ == k;
                        assert(0 <= p < j + 1 && t.sv()[p].0@ == k);
                    }
                }
            }
        }
        j = j + 1;
    }
    proof {
        assert forall|k: Seq<char>| true implies sm.smv().contains_key(k) == t.spec_has(k) && (
        t.spec_has(k) ==> sm.smv()[k] == t.spec_get(k)@.len()) by {
            if sm.smv().contains_key(k) {
                let p = choose|p: int| 0 <= p < t.sv().len() && (#[trigger] t.sv()[p]).0@ == k;
                t.lemma_index_unique(p, k);
            }
            if t.spec_has(k) {
                let p = t.index_of(k);
                assert(t.sv()[p].0@ == k);
                t.lemma_index_unique(p, k);
            }
        }
        assert(sm.smv() =~= Map::new(
            |k: Seq<char>| t.spec_has(k),
            |k: Seq<char>| t.spec_get(k)@.len() as int,
        ));
    }
    sm
}


} // verus!
