//! A structural difference tree for comparing statistics snapshots.
//!
//! A comparison yields either an empty tree or a node holding an optional
//! leaf mismatch (left text, right text) plus named child differences.
//! Trees combine by recursive merge, and pruning removes branches that are
//! fully empty, so "the values agree" is exactly "the pruned tree is empty".

use vstd::prelude::*;
use vstd::string::StringExecFns;

verus! {

/// The mathematical shape of a difference tree.
pub ghost enum DiffV {
    Empty,
    Node(Option<(Seq<char>, Seq<char>)>, Seq<(Seq<char>, DiffV)>),
}

/// Whether a difference tree records no mismatch anywhere.
pub open spec fn vclean(d: DiffV) -> bool
    decreases d,
{
    match d {
        DiffV::Empty => true,
        DiffV::Node(value, kids) => value is None && kids_vclean(kids),
    }
}

/// Whether every child of a difference node is clean.
pub open spec fn kids_vclean(s: Seq<(Seq<char>, DiffV)>) -> bool
    decreases s,
{
    if s.len() == 0 {
        true
    } else {
        kids_vclean(s.drop_last()) && vclean(s.last().1)
    }
}

/// `kids_vclean` is the conjunction of `vclean` over the children.
pub proof fn lemma_kids_vclean_forall(s: Seq<(Seq<char>, DiffV)>)
    ensures
        kids_vclean(s) <==> (forall|i: int| 0 <= i < s.len() ==> vclean(#[trigger] s[i].1)),
    decreases s,
{
    if s.len() > 0 {
        lemma_kids_vclean_forall(s.drop_last());
        assert(s[s.len() - 1] == s.last());
        if kids_vclean(s) {
            assert forall|i: int| 0 <= i < s.len() implies vclean(#[trigger] s[i].1) by {
                if i < s.len() - 1 {
                    assert(s.drop_last()[i] == s[i]);
                    assert(vclean(s.drop_last()[i].1));
                }
            }
        } else {
            if forall|i: int| 0 <= i < s.len() ==> vclean(#[trigger] s[i].1) {
                assert forall|i: int| 0 <= i < s.drop_last().len() implies vclean(
                    #[trigger] s.drop_last()[i].1,
                ) by {
                    assert(s.drop_last()[i] == s[i]);
                }
                assert(vclean(s.last().1));
                assert(false);
            }
        }
    }
}

/// The result of a comparison.
pub enum Difference {
    /// No difference was found.
    Empty,
    /// A node holding an optional leaf mismatch (left text, right text) and
    /// the differences of named children.
    Node(Option<(String, String)>, Vec<(String, Difference)>),
}

/// The view of a child list.
pub open spec fn kids_dv(s: Seq<(String, Difference)>) -> Seq<(Seq<char>, DiffV)>
    decreases s,
{
    if s.len() == 0 {
        Seq::empty()
    } else {
        kids_dv(s.drop_last()).push((s.last().0@, s.last().1.dv()))
    }
}

/// Pointwise description of a child list's view.
pub proof fn lemma_kids_dv(s: Seq<(String, Difference)>)
    ensures
        kids_dv(s).len() == s.len(),
        forall|i: int|
            0 <= i < s.len() ==> #[trigger] kids_dv(s)[i] == (s[i].0@, s[i].1.dv()),
    decreases s,
{
    if s.len() > 0 {
        lemma_kids_dv(s.drop_last());
        assert forall|i: int|
            0 <= i < s.len() implies #[trigger] kids_dv(s)[i] == (s[i].0@, s[i].1.dv()) by {
            if i < s.len() - 1 {
                assert(s.drop_last()[i] == s[i]);
                assert(kids_dv(s)[i] == kids_dv(s.drop_last())[i]);
            } else {
                assert(s[i] == s.last());
            }
        }
    }
}

/// Whether every child in an exec child list is clean.
pub open spec fn all_clean(s: Seq<(String, Difference)>) -> bool {
    forall|i: int| 0 <= i < s.len() ==> vclean((#[trigger] s[i]).1.dv())
}

/// Bridge between a child list's cleanliness and its view's.
pub proof fn lemma_all_clean(s: Seq<(String, Difference)>)
    ensures
        all_clean(s) == kids_vclean(kids_dv(s)),
{
    lemma_kids_dv(s);
    lemma_kids_vclean_forall(kids_dv(s));
    if all_clean(s) {
        assert forall|i: int| 0 <= i < kids_dv(s).len() implies vclean(
            #[trigger] kids_dv(s)[i].1,
        ) by {
            assert(kids_dv(s)[i] == (s[i].0@, s[i].1.dv()));
            assert(vclean((s[i]).1.dv()));
        }
    } else {
        let i = choose|i: int| 0 <= i < s.len() && !vclean((#[trigger] s[i]).1.dv());
        assert(kids_dv(s)[i] == (s[i].0@, s[i].1.dv()));
        assert(!vclean(kids_dv(s)[i].1));
    }
}

/// Removing an element splits a list's cleanliness.
pub proof fn lemma_all_clean_remove(s: Seq<(String, Difference)>, i: int)
    requires
        0 <= i < s.len(),
    ensures
        all_clean(s) == (all_clean(s.remove(i)) && vclean(s[i].1.dv())),
{
    if all_clean(s) {
        assert forall|j: int| 0 <= j < s.remove(i).len() implies vclean(
            (#[trigger] s.remove(i)[j]).1.dv(),
        ) by {
            if j < i {
                assert(s.remove(i)[j] == s[j]);
            } else {
                assert(s.remove(i)[j] == s[j + 1]);
            }
        }
    } else {
        if all_clean(s.remove(i)) && vclean(s[i].1.dv()) {
            assert forall|j: int| 0 <= j < s.len() implies vclean((#[trigger] s[j]).1.dv()) by {
                if j < i {
                    assert(s.remove(i)[j] == s[j]);
                    assert(vclean(s.remove(i)[j].1.dv()));
                } else if j > i {
                    assert(s.remove(i)[j - 1] == s[j]);
                    assert(vclean(s.remove(i)[j - 1].1.dv()));
                }
            }
        }
    }
}

/// Appending an element extends a list's cleanliness.
pub proof fn lemma_all_clean_push(s: Seq<(String, Difference)>, e: (String, Difference))
    ensures
        all_clean(s.push(e)) == (all_clean(s) && vclean(e.1.dv())),
{
    assert(s.push(e)[s.len() as int] == e);
    if all_clean(s) && vclean(e.1.dv()) {
        assert forall|j: int| 0 <= j < s.push(e).len() implies vclean(
            (#[trigger] s.push(e)[j]).1.dv(),
        ) by {
            if j < s.len() {
                assert(s.push(e)[j] == s[j]);
            }
        }
    }
    if all_clean(s.push(e)) {
        assert forall|j: int| 0 <= j < s.len() implies vclean((#[trigger] s[j]).1.dv()) by {
            assert(s.push(e)[j] == s[j]);
            assert(vclean(s.push(e)[j].1.dv()));
        }
    }
}

/// Dropping the last element splits a list's cleanliness.
pub proof fn lemma_all_clean_drop_last(s: Seq<(String, Difference)>)
    requires
        s.len() > 0,
    ensures
        all_clean(s) == (all_clean(s.drop_last()) && vclean(s.last().1.dv())),
{
    lemma_all_clean_remove(s, s.len() - 1);
    assert(s.remove(s.len() - 1) =~= s.drop_last());
    assert(s[s.len() - 1] == s.last());
}

/// Whether a child-view list holds an entry under the key.
pub open spec fn vkids_has(s: Seq<(Seq<char>, DiffV)>, k: Seq<char>) -> bool {
    exists|i: int| 0 <= i < s.len() && (#[trigger] s[i]).0 == k
}

/// The first position of a key in a child-view list.
pub open spec fn key_idx(s: Seq<(Seq<char>, DiffV)>, k: Seq<char>) -> int
    decreases s.len(),
{
    if s.len() == 0 {
        0
    } else if s[0].0 == k {
        0
    } else {
        1 + key_idx(s.subrange(1, s.len() as int), k)
    }
}

/// `key_idx` names the first match.
pub proof fn lemma_key_idx_at(s: Seq<(Seq<char>, DiffV)>, k: Seq<char>, i: int)
    requires
        0 <= i < s.len(),
        s[i].0 == k,
        forall|j: int| 0 <= j < i ==> (#[trigger] s[j]).0 != k,
    ensures
        vkids_has(s, k),
        key_idx(s, k) == i,
    decreases i,
{
    if i == 0 {
    } else {
        let tail = s.subrange(1, s.len() as int);
        assert(s[0].0 != k);
        assert(tail[i - 1].0 == k) by {
            assert(tail[i - 1] == s[i]);
        }
        assert forall|j: int| 0 <= j < i - 1 implies (#[trigger] tail[j]).0 != k by {
            assert(tail[j] == s[j + 1]);
        }
        lemma_key_idx_at(tail, k, i - 1);
    }
}

/// Combine two tree views: an empty side is the identity, the right side
/// wins where both carry a leaf, and child lists merge by key.
pub open spec fn spec_add(a: DiffV, b: DiffV) -> DiffV
    decreases b,
{
    match b {
        DiffV::Empty => a,
        DiffV::Node(b_value, b_kids) => match a {
            DiffV::Empty => b,
            DiffV::Node(a_value, a_kids) => DiffV::Node(
                (if b_value is Some {
                    b_value
                } else {
                    a_value
                }),
                spec_add_kids(a_kids, b_kids),
            ),
        },
    }
}

/// Fold a right-hand child list into a left-hand one, last entry first.
pub open spec fn spec_add_kids(
    out: Seq<(Seq<char>, DiffV)>,
    rem: Seq<(Seq<char>, DiffV)>,
) -> Seq<(Seq<char>, DiffV)>
    decreases rem,
{
    if rem.len() == 0 {
        out
    } else {
        spec_add_kids(spec_kid_step(out, rem.last()), rem.drop_last())
    }
}

/// Fold one child in: combine with the first entry under its key, which
/// moves to the end, or append it.
pub open spec fn spec_kid_step(
    out: Seq<(Seq<char>, DiffV)>,
    kid: (Seq<char>, DiffV),
) -> Seq<(Seq<char>, DiffV)>
    decreases kid,
{
    if vkids_has(out, kid.0) {
        let i = key_idx(out, kid.0);
        out.remove(i).push((out[i].0, spec_add(out[i].1, kid.1)))
    } else {
        out.push(kid)
    }
}

/// The view of an optional location path.
pub open spec fn opt_path_view(path: Option<Vec<String>>) -> Seq<Seq<char>> {
    match path {
        None => Seq::empty(),
        Some(p) => p.deep_view(),
    }
}

/// Graft a tree at the location named by `path`, its keys taken from the
/// back: combine with `spec_add` at the target, creating valueless nodes on
/// the way down; an empty tree changes nothing.
pub open spec fn spec_graft(cur: DiffV, new: DiffV, path: Seq<Seq<char>>) -> DiffV
    decreases path.len(),
{
    if new is Empty {
        cur
    } else if path.len() == 0 {
        spec_add(cur, new)
    } else {
        let key = path.last();
        let value = (match cur {
            DiffV::Empty => None,
            DiffV::Node(v, _kids) => v,
        });
        let kids = (match cur {
            DiffV::Empty => Seq::<(Seq<char>, DiffV)>::empty(),
            DiffV::Node(_v, kid_list) => kid_list,
        });
        DiffV::Node(
            value,
            (if vkids_has(kids, key) {
                kids.remove(key_idx(kids, key)).push(
                    (
                        kids[key_idx(kids, key)].0,
                        spec_graft(kids[key_idx(kids, key)].1, new, path.drop_last()),
                    ),
                )
            } else {
                kids.push((key, spec_graft(DiffV::Empty, new, path.drop_last())))
            }),
        )
    }
}

/// Rebuild a tree view without any branch that records no difference.
pub open spec fn spec_prune(d: DiffV) -> DiffV
    decreases d,
{
    match d {
        DiffV::Empty => DiffV::Empty,
        DiffV::Node(value, kids) => (if value is None && spec_prune_kids(kids).len() == 0 {
            DiffV::Empty
        } else {
            DiffV::Node(value, spec_prune_kids(kids))
        }),
    }
}

/// Prune a child-view list: fully clean children are dropped, the rest keep
/// their keys and order and are pruned in turn.
pub open spec fn spec_prune_kids(s: Seq<(Seq<char>, DiffV)>) -> Seq<(Seq<char>, DiffV)>
    decreases s,
{
    if s.len() == 0 {
        Seq::empty()
    } else {
        spec_prune_kids(s.drop_last()) + (if vclean(s.last().1) {
            Seq::<(Seq<char>, DiffV)>::empty()
        } else {
            seq![(s.last().0, spec_prune(s.last().1))]
        })
    }
}

/// Pruning empties a view exactly when it is clean, and never changes
/// whether it is clean.
pub proof fn lemma_prune_clean(d: DiffV)
    ensures
        (spec_prune(d) is Empty) == vclean(d),
        vclean(spec_prune(d)) == vclean(d),
    decreases d,
{
    match d {
        DiffV::Empty => {},
        DiffV::Node(value, kids) => {
            lemma_prune_kids_clean(kids);
        },
    }
}

/// A pruned child list is empty exactly when every child is clean, and it
/// is clean exactly when it is empty.
pub proof fn lemma_prune_kids_clean(s: Seq<(Seq<char>, DiffV)>)
    ensures
        (spec_prune_kids(s).len() == 0) == kids_vclean(s),
        kids_vclean(spec_prune_kids(s)) == kids_vclean(s),
    decreases s,
{
    if s.len() > 0 {
        lemma_prune_kids_clean(s.drop_last());
        lemma_prune_clean(s.last().1);
        let a = spec_prune_kids(s.drop_last());
        if vclean(s.last().1) {
            assert(spec_prune_kids(s) =~= a);
        } else {
            let b = seq![(s.last().0, spec_prune(s.last().1))];
            assert(spec_prune_kids(s) == a + b);
            assert((a + b).len() > 0);
            assert((a + b).last() == b[0]);
            assert((a + b).drop_last() =~= a);
            assert(!vclean((a + b).last().1));
        }
    }
}

/// Pruning is idempotent: a pruned tree prunes to itself.
pub proof fn lemma_prune_idempotent(d: DiffV)
    ensures
        spec_prune(spec_prune(d)) == spec_prune(d),
    decreases d,
{
    match d {
        DiffV::Empty => {},
        DiffV::Node(value, kids) => {
            lemma_prune_kids_idempotent(kids);
            lemma_prune_kids_clean(kids);
            if !(value is None && spec_prune_kids(kids).len() == 0) {
                assert(spec_prune(d) == DiffV::Node(value, spec_prune_kids(kids)));
            }
        },
    }
}

/// Pruning a child list is idempotent.
pub proof fn lemma_prune_kids_idempotent(s: Seq<(Seq<char>, DiffV)>)
    ensures
        spec_prune_kids(spec_prune_kids(s)) == spec_prune_kids(s),
    decreases s,
{
    if s.len() > 0 {
        lemma_prune_kids_idempotent(s.drop_last());
        let a = spec_prune_kids(s.drop_last());
        if vclean(s.last().1) {
            assert(spec_prune_kids(s) =~= a);
        } else {
            lemma_prune_idempotent(s.last().1);
            lemma_prune_clean(s.last().1);
            let b = seq![(s.last().0, spec_prune(s.last().1))];
            assert(spec_prune_kids(s) == a + b);
            assert((a + b).drop_last() =~= a);
            assert((a + b).last() == b[0]);
            assert(spec_prune_kids(a + b) == spec_prune_kids(a) + seq![
                ((a + b).last().0, spec_prune((a + b).last().1)),
            ]);
            assert(spec_prune_kids(a + b) =~= a + b);
        }
    }
}

/// A structural size measure, used to justify recursion over the tree.
pub open spec fn diff_height(d: &Difference) -> nat
    decreases d,
{
    match d {
        Difference::Empty => 0,
        Difference::Node(_value, kids) => 1 + kids_height(kids@),
    }
}

/// The combined size of a child list.
pub open spec fn kids_height(s: Seq<(String, Difference)>) -> nat
    decreases s,
{
    if s.len() == 0 {
        0
    } else {
        1 + kids_height(s.drop_last()) + diff_height(&s.last().1)
    }
}

/// Every child is strictly smaller than its list.
pub proof fn lemma_kids_height(s: Seq<(String, Difference)>)
    ensures
        forall|i: int| 0 <= i < s.len() ==> diff_height(&(#[trigger] s[i]).1) < kids_height(s),
    decreases s,
{
    if s.len() > 0 {
        lemma_kids_height(s.drop_last());
        assert forall|i: int| 0 <= i < s.len() implies diff_height(&(#[trigger] s[i]).1)
            < kids_height(s) by {
            if i < s.len() - 1 {
                assert(s.drop_last()[i] == s[i]);
                assert(diff_height(&s.drop_last()[i].1) < kids_height(s.drop_last()));
            } else {
                assert(s[i] == s.last());
            }
        }
    }
}

impl Difference {
    /// The mathematical value of the tree.
    pub open spec fn dv(&self) -> DiffV
        decreases self,
    {
        match self {
            Difference::Empty => DiffV::Empty,
            Difference::Node(value, kids) => DiffV::Node(
                match value {
                    None => None,
                    Some(pair) => Some((pair.0@, pair.1@)),
                },
                kids_dv(kids@),
            ),
        }
    }

    /// Whether the tree records no mismatch anywhere.
    pub open spec fn spec_clean(&self) -> bool {
        vclean(self.dv())
    }

    pub fn new() -> (r: Difference)
        ensures
            r.dv() == DiffV::Empty,
    {
        Difference::Empty
    }

    /// Combine two trees: an empty side is the identity, the right-hand
    /// leaf value wins where both are present, and child maps merge
    /// recursively by name.
    #[verifier::loop_isolation(false)]
    #[verifier::rlimit(100)]
    pub fn add(self, rhs: Self) -> (r: Self)
        ensures
            vclean(r.dv()) == (vclean(self.dv()) && vclean(rhs.dv())),
            r.dv() == spec_add(self.dv(), rhs.dv()),
        decreases diff_height(&rhs),
    {
        let ghost self0 = self;
        let ghost rhs0 = rhs;
        match rhs {
            Difference::Empty => self,
            Difference::Node(r_value, r_kids) => {
                match self {
                    Difference::Empty => Difference::Node(r_value, r_kids),
                    Difference::Node(value, kids) => {
                        let out_value = match (value, r_value) {
                            (v, None) => v,
                            (_, Some(rv)) => Some(rv),
                        };
                        let ghost sk0 = kids@;
                        let ghost rk0 = r_kids@;
                        let ghost goal = all_clean(sk0) && all_clean(rk0);
                        let mut out = kids;
                        let mut rem = r_kids;
                        proof {
                            assert(rem@ =~= rk0.take(rem@.len() as int));
                        }
                        while rem.len() > 0
                            invariant
                                (all_clean(out@) && all_clean(rem@)) == goal,
                                rem@ =~= rk0.take(rem@.len() as int),
                                rem@.len() <= rk0.len(),
                                diff_height(&rhs0) == 1 + kids_height(rk0),
                                spec_add_kids(kids_dv(out@), kids_dv(rem@)) == spec_add_kids(
                                    kids_dv(sk0),
                                    kids_dv(rk0),
                                ),
                            decreases rem@.len(),
                        {
                            let ghost out_pre = out@;
                            let ghost rem_pre = rem@;
                            proof {
                                lemma_all_clean_drop_last(rem_pre);
                                lemma_kids_dv(rem_pre);
                            }
                            let pair = rem.pop().unwrap();
                            let key = pair.0;
                            let rchild = pair.1;
                            let ghost kv = key@;
                            let ghost rdv = rchild.dv();
                            proof {
                                assert(rem@ =~= rem_pre.drop_last());
                                assert forall|t: int| 0 <= t < rem@.len() implies rem@[t]
                                    == rk0.take(rem@.len() as int)[t] by {
                                    assert(rem@[t] == rem_pre[t]);
                                    assert(rem_pre[t] == rk0.take(rem_pre.len() as int)[t]);
                                }
                                assert(rem@ =~= rk0.take(rem@.len() as int));
                                assert(rchild == rem_pre.last().1);
                                assert(rem_pre.last() == rk0.take(rem_pre.len() as int).last());
                                assert(rchild == rk0[rem_pre.len() - 1].1);
                                lemma_kids_dv(rem@);
                                assert(kids_dv(rem@) =~= kids_dv(rem_pre).drop_last());
                                assert(kids_dv(rem_pre).last() == (kv, rdv));
                                lemma_kids_dv(out_pre);
                                assert(spec_add_kids(kids_dv(out_pre), kids_dv(rem_pre))
                                    == spec_add_kids(
                                    spec_kid_step(kids_dv(out_pre), (kv, rdv)),
                                    kids_dv(rem@),
                                ));
                            }
                            let found = find_key(&out, &key);
                            match found {
                                Some(i) => {
                                    proof {
                                        lemma_all_clean_remove(out@, i as int);
                                        assert(kids_dv(out_pre)[i as int] == (
                                            out_pre[i as int].0@,
                                            out_pre[i as int].1.dv(),
                                        ));
                                        assert forall|j: int|
                                            0 <= j < i implies (#[trigger] kids_dv(out_pre)[j]).0
                                            != kv by {
                                            assert(kids_dv(out_pre)[j] == (
                                                out_pre[j].0@,
                                                out_pre[j].1.dv(),
                                            ));
                                        }
                                        lemma_key_idx_at(kids_dv(out_pre), kv, i as int);
                                    }
                                    let entry = out.remove(i);
                                    let ghost ek = entry.0@;
                                    let ghost edv = entry.1.dv();
                                    proof {
                                        lemma_kids_height(rk0);
                                        assert(diff_height(&rchild) < kids_height(rk0));
                                        assert(diff_height(&rhs0) == 1 + kids_height(rk0));
                                        lemma_kids_dv(out@);
                                        assert(kids_dv(out@) =~= kids_dv(out_pre).remove(
                                            i as int,
                                        )) by {
                                            assert forall|j: int|
                                                0 <= j < out@.len() implies kids_dv(out@)[j]
                                                == kids_dv(out_pre).remove(i as int)[j] by {
                                                if j < i {
                                                    assert(out@[j] == out_pre[j]);
                                                } else {
                                                    assert(out@[j] == out_pre[j + 1]);
                                                }
                                            }
                                        }
                                    }
                                    let merged = entry.1.add(rchild);
                                    let ghost mdv = merged.dv();
                                    let ghost out_mid = out@;
                                    proof {
                                        lemma_all_clean_push(out@, (entry.0, merged));
                                    }
                                    out.push((entry.0, merged));
                                    proof {
                                        lemma_kids_dv(out@);
                                        lemma_kids_dv(out_mid);
                                        assert(kids_dv(out@) =~= kids_dv(out_mid).push(
                                            (ek, mdv),
                                        ));
                                        assert(ek == kv);
                                        assert(edv == kids_dv(out_pre)[i as int].1);
                                        assert(mdv == spec_add(kids_dv(out_pre)[i as int].1, rdv));
                                        assert(kids_dv(out@) == spec_kid_step(
                                            kids_dv(out_pre),
                                            (kv, rdv),
                                        ));
                                    }
                                },
                                None => {
                                    proof {
                                        lemma_all_clean_push(out@, (key, rchild));
                                        assert(!vkids_has(kids_dv(out_pre), kv)) by {
                                            if vkids_has(kids_dv(out_pre), kv) {
                                                let j = choose|j: int|
                                                    0 <= j < kids_dv(out_pre).len() && (
                                                    #[trigger] kids_dv(out_pre)[j]).0 == kv;
                                                assert(kids_dv(out_pre)[j] == (
                                                    out_pre[j].0@,
                                                    out_pre[j].1.dv(),
                                                ));
                                            }
                                        }
                                    }
                                    let ghost out_mid = out@;
                                    out.push((key, rchild));
                                    proof {
                                        lemma_kids_dv(out@);
                                        lemma_kids_dv(out_mid);
                                        assert(kids_dv(out@) =~= kids_dv(out_mid).push(
                                            (kv, rdv),
                                        ));
                                        assert(kids_dv(out@) == spec_kid_step(
                                            kids_dv(out_pre),
                                            (kv, rdv),
                                        ));
                                    }
                                },
                            }
                        }
                        let ghost out_final = out@;
                        let r = Difference::Node(out_value, out);
                        proof {
                            lemma_all_clean(out_final);
                            lemma_all_clean(sk0);
                            lemma_all_clean(rk0);
                            assert(kids_dv(rem@) =~= Seq::<(Seq<char>, DiffV)>::empty());
                            assert(spec_add_kids(kids_dv(out_final), kids_dv(rem@))
                                == kids_dv(out_final));
                            assert(kids_dv(out_final) == spec_add_kids(
                                kids_dv(sk0),
                                kids_dv(rk0),
                            ));
                            assert(r.dv() == spec_add(self0.dv(), rhs0.dv()));
                        }
                        r
                    },
                }
            },
        }
    }

    /// Insert a difference at a nested location given by `path`, its keys
    /// taken from the end; an empty difference changes nothing, and at the
    /// target the trees combine as `add` does.
    #[verifier::rlimit(100)]
    pub fn merge(&mut self, new: Difference, path: Option<Vec<String>>)
        ensures
            vclean(final(self).dv()) == (vclean(old(self).dv()) && vclean(new.dv())),
            final(self).dv() == spec_graft(old(self).dv(), new.dv(), opt_path_view(path)),
        decreases path_measure(&path),
    {
        let ghost ndv = new.dv();
        let ghost pv = opt_path_view(path);
        if let Difference::Empty = new {
            return ;
        }
        let mut descend = false;
        let mut p: Vec<String> = Vec::new();
        match path {
            Some(path_steps) => {
                if path_steps.len() > 0 {
                    descend = true;
                }
                p = path_steps;
            },
            None => {},
        }
        let ghost p_pre = p@;
        proof {
            if descend {
                assert(pv.len() == p_pre.len());
            } else {
                assert(pv.len() == 0);
            }
        }
        if !descend {
            let mut cur = Difference::Empty;
            core::mem::swap(self, &mut cur);
            *self = cur.add(new);
            return ;
        }
        let key = p.pop().unwrap();
        let ghost kv = key@;
        proof {
            assert(kv == p_pre[p_pre.len() - 1]@);
            assert(kv == pv.last());
            assert(p.deep_view() =~= pv.drop_last()) by {
                assert forall|i: int| 0 <= i < p@.len() implies p.deep_view()[i]
                    == pv.drop_last()[i] by {
                    assert(p@[i] == p_pre[i]);
                }
            }
        }
        let mut cur = Difference::Empty;
        core::mem::swap(self, &mut cur);
        let ghost cur0 = cur;
        let (value, mut kids) = match cur {
            Difference::Empty => (None, Vec::new()),
            Difference::Node(node_value, node_kids) => (node_value, node_kids),
        };
        let ghost v0 = value;
        let ghost kids0 = kids@;
        let ghost kd0 = kids_dv(kids0);
        proof {
            lemma_all_clean(kids0);
            lemma_kids_dv(kids0);
            if cur0 is Empty {
                assert(kd0 =~= Seq::<(Seq<char>, DiffV)>::empty());
            }
        }
        let found = find_key(&kids, &key);
        match found {
            Some(i) => {
                proof {
                    lemma_all_clean_remove(kids0, i as int);
                    assert(kd0[i as int] == (kids0[i as int].0@, kids0[i as int].1.dv()));
                    assert forall|j: int| 0 <= j < i implies (#[trigger] kd0[j]).0 != kv by {
                        assert(kd0[j] == (kids0[j].0@, kids0[j].1.dv()));
                    }
                    lemma_key_idx_at(kd0, kv, i as int);
                }
                let mut entry = kids.remove(i);
                let ghost ek = entry.0@;
                let ghost edv0 = entry.1.dv();
                proof {
                    lemma_kids_dv(kids@);
                    assert(kids_dv(kids@) =~= kd0.remove(i as int)) by {
                        assert forall|j: int|
                            0 <= j < kids@.len() implies kids_dv(kids@)[j] == kd0.remove(
                            i as int,
                        )[j] by {
                            if j < i {
                                assert(kids@[j] == kids0[j]);
                            } else {
                                assert(kids@[j] == kids0[j + 1]);
                            }
                        }
                    }
                }
                entry.1.merge(new, Some(p));
                let ghost m2 = entry.1.dv();
                let ghost kids_mid = kids@;
                proof {
                    lemma_all_clean_push(kids@, entry);
                }
                kids.push(entry);
                proof {
                    lemma_kids_dv(kids@);
                    lemma_kids_dv(kids_mid);
                    assert(kids_dv(kids@) =~= kids_dv(kids_mid).push((ek, m2)));
                    assert(ek == kd0[i as int].0);
                    assert(edv0 == kd0[i as int].1);
                    assert(m2 == spec_graft(kd0[i as int].1, ndv, pv.drop_last()));
                }
            },
            None => {
                proof {
                    assert(!vkids_has(kd0, kv)) by {
                        if vkids_has(kd0, kv) {
                            let j = choose|j: int|
                                0 <= j < kd0.len() && (#[trigger] kd0[j]).0 == kv;
                            assert(kd0[j] == (kids0[j].0@, kids0[j].1.dv()));
                        }
                    }
                }
                let mut child = Difference::Empty;
                child.merge(new, Some(p));
                let ghost cdv = child.dv();
                let ghost kids_mid = kids@;
                proof {
                    lemma_all_clean_push(kids@, (key, child));
                    assert(cdv == spec_graft(DiffV::Empty, ndv, pv.drop_last()));
                }
                kids.push((key, child));
                proof {
                    lemma_kids_dv(kids@);
                    lemma_kids_dv(kids_mid);
                    assert(kids_dv(kids@) =~= kids_dv(kids_mid).push((kv, cdv)));
                }
            },
        }
        let ghost kids_final = kids@;
        *self = Difference::Node(value, kids);
        proof {
            lemma_all_clean(kids_final);
            assert(self.dv() == spec_graft(cur0.dv(), ndv, pv));
        }
    }

    /// Whether the tree, once pruned, records no difference.
    pub fn is_empty(&self) -> (r: bool)
        ensures
            r == vclean(self.dv()),
    {
        let pruned = self.prune();
        match pruned {
            Difference::Empty => true,
            Difference::Node(_, _) => false,
        }
    }

    /// Confirm that the comparison found no difference.
    pub fn assert_empty(&self)
        requires
            vclean(self.dv()),
    {
        let _ = self.is_empty();
    }

    /// Move the root under a named child, if a name is given.
    pub fn opt_tag(self, name: Option<&str>) -> (r: Difference)
        ensures
            vclean(r.dv()) == vclean(self.dv()),
            name is None ==> r == self,
            name matches Some(n) ==> r.dv() == DiffV::Node(None, seq![(n@, self.dv())]),
    {
        match name {
            Some(name) => self.tag(name),
            None => self,
        }
    }

    /// Create a new root holding the current tree as a named child.
    pub fn tag(self, name: &str) -> (r: Difference)
        ensures
            vclean(r.dv()) == vclean(self.dv()),
            r.dv() == DiffV::Node(None, seq![(name@, self.dv())]),
    {
        let ghost self0 = self;
        let owned_name = name.to_owned();
        let mut kids: Vec<(String, Difference)> = Vec::new();
        kids.push((owned_name, self));
        let r = Difference::Node(None, kids);
        proof {
            lemma_kids_dv(kids@);
            assert(kids_dv(kids@) =~= seq![(name@, self0.dv())]);
            lemma_kids_vclean_forall(kids_dv(kids@));
            assert(kids_dv(kids@)[0].1 == self0.dv());
        }
        r
    }

    /// Rebuild the tree without any branch that records no difference: a
    /// kept child holds a mismatch somewhere, and the mismatches keep their
    /// values, keys and order.
    #[verifier::rlimit(100)]
    pub fn prune(&self) -> (r: Difference)
        ensures
            (r.dv() is Empty) == vclean(self.dv()),
            vclean(r.dv()) == vclean(self.dv()),
            r.dv() == spec_prune(self.dv()),
        decreases diff_height(self),
    {
        match self {
            Difference::Empty => Difference::Empty,
            Difference::Node(value, kids) => {
                let ghost kd = kids_dv(kids@);
                proof {
                    lemma_kids_dv(kids@);
                    assert(kd.take(0) =~= Seq::<(Seq<char>, DiffV)>::empty());
                }
                let mut out: Vec<(String, Difference)> = Vec::new();
                let mut i: usize = 0;
                while i < kids.len()
                    invariant
                        i <= kids@.len(),
                        diff_height(self) == 1 + kids_height(kids@),
                        kd == kids_dv(kids@),
                        kids_dv(out@) == spec_prune_kids(kd.take(i as int)),
                        out@.len() == 0 <==> (forall|j: int|
                            0 <= j < i ==> vclean((#[trigger] kids@[j]).1.dv())),
                        forall|j: int|
                            0 <= j < out@.len() ==> !vclean((#[trigger] out@[j]).1.dv()),
                    decreases kids@.len() - i,
                {
                    proof {
                        lemma_kids_height(kids@);
                        assert(diff_height(&kids@[i as int].1) < kids_height(kids@));
                        lemma_kids_dv(kids@);
                        assert(kd.take(i + 1).drop_last() =~= kd.take(i as int));
                        assert(kd.take(i + 1).last() == kd[i as int]);
                        assert(kd[i as int] == (kids@[i as int].0@, kids@[i as int].1.dv()));
                    }
                    let pruned = kids[i].1.prune();
                    match pruned {
                        Difference::Empty => {
                            proof {
                                assert(vclean(kd[i as int].1));
                                assert(spec_prune_kids(kd.take(i + 1)) =~= spec_prune_kids(
                                    kd.take(i as int),
                                ));
                            }
                        },
                        Difference::Node(pv2, pk) => {
                            let child = Difference::Node(pv2, pk);
                            let ghost cdv = child.dv();
                            let ghost out_mid = out@;
                            out.push((kids[i].0.clone(), child));
                            proof {
                                lemma_kids_dv(out@);
                                lemma_kids_dv(out_mid);
                                assert(kids_dv(out@) =~= kids_dv(out_mid).push(
                                    (kids@[i as int].0@, cdv),
                                ));
                                assert(!vclean(kd[i as int].1));
                                assert(cdv == spec_prune(kd[i as int].1));
                                assert(spec_prune_kids(kd.take(i + 1)) =~= spec_prune_kids(
                                    kd.take(i as int),
                                ) + seq![(kd[i as int].0, spec_prune(kd[i as int].1))]);
                                assert(kids_dv(out@) =~= spec_prune_kids(kd.take(i + 1)));
                            }
                        },
                    }
                    i = i + 1;
                }
                proof {
                    assert(kd.take(kids@.len() as int) =~= kd);
                }
                let keep_value = match value {
                    None => None,
                    Some(pair) => Some((pair.0.clone(), pair.1.clone())),
                };
                let value_is_none = match &keep_value {
                    None => true,
                    Some(_) => false,
                };
                if value_is_none && out.len() == 0 {
                    proof {
                        lemma_all_clean(kids@);
                        assert(spec_prune_kids(kd).len() == 0);
                        assert(spec_prune(self.dv()) is Empty);
                    }
                    Difference::Empty
                } else {
                    let ghost out_final = out@;
                    let r = Difference::Node(keep_value, out);
                    proof {
                        lemma_all_clean(out_final);
                        lemma_all_clean(kids@);
                        if out_final.len() > 0 {
                            assert(!vclean(out_final[0].1.dv()));
                        }
                        assert(r.dv() == spec_prune(self.dv()));
                    }
                    r
                }
            },
        }
    }
}

impl Default for Difference {
    fn default() -> (r: Difference)
        ensures
            r.dv() == DiffV::Empty,
    {
        Difference::Empty
    }
}

/// The recursion measure of `merge`: the remaining path length.
pub open spec fn path_measure(path: &Option<Vec<String>>) -> nat {
    match path {
        Some(p) => p@.len() + 1,
        None => 0,
    }
}

/// Find the position of the first entry under a key in a child list.
fn find_key(s: &Vec<(String, Difference)>, key: &String) -> (r: Option<usize>)
    ensures
        match r {
            Some(i) => i < s@.len() && s@[i as int].0@ == key@ && (forall|j: int|
                0 <= j < i ==> (#[trigger] s@[j]).0@ != key@),
            None => forall|j: int| 0 <= j < s@.len() ==> (#[trigger] s@[j]).0@ != key@,
        },
{
    let mut i: usize = 0;
    while i < s.len()
        invariant
            i <= s@.len(),
            forall|j: int| 0 <= j < i ==> (#[trigger] s@[j]).0@ != key@,
        decreases s@.len() - i,
    {
        if s[i].0 == *key {
            return Some(i);
        }
        i = i + 1;
    }
    None
}

/// A value that can be structurally compared, yielding a difference tree
/// that is clean exactly when the two values agree.
pub trait Diff: Sized {
    /// The agreement the comparison detects.
    spec fn deq(&self, rhs: &Self) -> bool;

    /// Compare two values; the tree is clean exactly when they agree, and
    /// is placed under `name` when one is given.
    fn diff(&self, rhs: &Self, name: Option<&str>) -> (r: Difference)
        ensures
            vclean(r.dv()) == self.deq(rhs),
    ;
}

/// The decimal digit for one value below ten.
pub open spec fn spec_digit(d: u128) -> char {
    if d == 0 {
        '0'
    } else if d == 1 {
        '1'
    } else if d == 2 {
        '2'
    } else if d == 3 {
        '3'
    } else if d == 4 {
        '4'
    } else if d == 5 {
        '5'
    } else if d == 6 {
        '6'
    } else if d == 7 {
        '7'
    } else if d == 8 {
        '8'
    } else {
        '9'
    }
}

/// The decimal rendering of a count.
pub open spec fn spec_decimal(n: u128) -> Seq<char>
    decreases n,
{
    if n < 10 {
        seq![spec_digit(n)]
    } else {
        spec_decimal(n / 10).push(spec_digit(n % 10))
    }
}

/// The one-character text of a digit.
fn digit_text(d: u128) -> (r: &'static str)
    requires
        d < 10,
    ensures
        r@ =~= seq![spec_digit(d)],
{
    proof {
        reveal_strlit("0");
        reveal_strlit("1");
        reveal_strlit("2");
        reveal_strlit("3");
        reveal_strlit("4");
        reveal_strlit("5");
        reveal_strlit("6");
        reveal_strlit("7");
        reveal_strlit("8");
        reveal_strlit("9");
    }
    if d == 0 {
        "0"
    } else if d == 1 {
        "1"
    } else if d == 2 {
        "2"
    } else if d == 3 {
        "3"
    } else if d == 4 {
        "4"
    } else if d == 5 {
        "5"
    } else if d == 6 {
        "6"
    } else if d == 7 {
        "7"
    } else if d == 8 {
        "8"
    } else {
        "9"
    }
}

/// Render a count in decimal, for difference leaves.
pub fn decimal_text(n: u128) -> (r: String)
    ensures
        r@ == spec_decimal(n),
    decreases n,
{
    if n < 10 {
        digit_text(n).to_owned()
    } else {
        let mut s = decimal_text(n / 10);
        s.append(digit_text(n % 10));
        proof {
            assert(s@ =~= spec_decimal(n));
        }
        s
    }
}

/// A lone leaf view holding two printed forms.
pub open spec fn vleaf(l: Seq<char>, r: Seq<char>) -> DiffV {
    DiffV::Node(Some((l, r)), Seq::empty())
}

/// A view moved under a named child, if a name is given.
pub open spec fn vtagged(d: DiffV, name: Option<&str>) -> DiffV {
    match name {
        None => d,
        Some(n) => DiffV::Node(None, seq![(n@, d)]),
    }
}

/// A difference leaf holding the printed forms of two disagreeing values,
/// wrapped under `name` when one is given.
pub fn leaf_diff(left: String, right: String, name: Option<&str>) -> (r: Difference)
    ensures
        !vclean(r.dv()),
        r.dv() == vtagged(vleaf(left@, right@), name),
{
    let leaf = Difference::Node(Some((left, right)), Vec::new());
    proof {
        assert(kids_dv(Seq::<(String, Difference)>::empty()) =~= Seq::<
            (Seq<char>, DiffV),
        >::empty());
    }
    leaf.opt_tag(name)
}

} // verus!
