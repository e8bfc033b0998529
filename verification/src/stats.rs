//! Counters that report store activity.
//!
//! Every counter forms a commutative monoid: a zero element, an associative
//! and commutative combine (`add`), and an `increase` mutator.  Composite
//! counters are label-keyed mappings combined by per-key union-merge, so the
//! same combine works at every level of nesting.  The monoid laws are stated
//! as proof obligations of the [`Stats`] trait and proved by every impl.

use vstd::prelude::*;
use vstd::string::StringExecFns;

use crate::errors::{GraphtError, Kind};
use crate::utils::diff::{
    decimal_text, leaf_diff, vclean, Diff, Difference,
};
use crate::utils::table::StrMap;

verus! {

/// The mathematical combine of two label-keyed counts: union of the keys,
/// sum of the counts.
pub open spec fn map_add(a: Map<Seq<char>, int>, b: Map<Seq<char>, int>) -> Map<Seq<char>, int> {
    Map::new(
        |k: Seq<char>| a.contains_key(k) || b.contains_key(k),
        |k: Seq<char>|
            (if a.contains_key(k) {
                a[k]
            } else {
                0
            }) + (if b.contains_key(k) {
                b[k]
            } else {
                0
            }),
    )
}

/// Whether the per-key sums of two count maps stay within the counter range.
pub open spec fn map_can_add(a: Map<Seq<char>, int>, b: Map<Seq<char>, int>) -> bool {
    forall|k: Seq<char>|
        (#[trigger] a.contains_key(k)) && b.contains_key(k) ==> a[k] + b[k] <= u128::MAX
}

/// A count map holding a single key.
pub open spec fn msingle(k: Seq<char>, v: int) -> Map<Seq<char>, int> {
    Map::empty().insert(k, v)
}

/// Combining count maps is associative.
pub proof fn lemma_map_add_assoc(
    a: Map<Seq<char>, int>,
    b: Map<Seq<char>, int>,
    c: Map<Seq<char>, int>,
)
    ensures
        map_add(map_add(a, b), c) == map_add(a, map_add(b, c)),
{
    assert(map_add(map_add(a, b), c) =~= map_add(a, map_add(b, c)));
}

/// Combining count maps is commutative.
pub proof fn lemma_map_add_comm(a: Map<Seq<char>, int>, b: Map<Seq<char>, int>)
    ensures
        map_add(a, b) == map_add(b, a),
{
    assert(map_add(a, b) =~= map_add(b, a));
}

/// The empty count map is the identity of the combine.
pub proof fn lemma_map_add_zero(a: Map<Seq<char>, int>)
    ensures
        map_add(a, Map::empty()) == a,
        map_add(Map::empty(), a) == a,
{
    assert(map_add(a, Map::empty()) =~= a);
    assert(map_add(Map::empty(), a) =~= a);
}

/// A value used for tracking activity, forming a commutative monoid under
/// `add` with `zero` as its identity.
pub trait Stats: Diff {
    /// The mathematical value of the counter.
    type V;

    /// The view of the counter.
    spec fn sv(&self) -> Self::V;

    /// The view of the zero counter.
    spec fn vzero() -> Self::V;

    /// The combine at the view level.
    spec fn vadd(a: Self::V, b: Self::V) -> Self::V;

    /// Whether two views can be combined without leaving the counter range.
    spec fn can_add(a: Self::V, b: Self::V) -> bool;

    /// The agreement that `diff` detects is view equality.
    proof fn lemma_deq_is_sv(a: &Self, b: &Self)
        ensures
            a.deq(b) == (a.sv() == b.sv()),
    ;

    /// The combine is associative.
    proof fn lemma_add_assoc(a: Self::V, b: Self::V, c: Self::V)
        ensures
            Self::vadd(Self::vadd(a, b), c) == Self::vadd(a, Self::vadd(b, c)),
    ;

    /// The combine is commutative.
    proof fn lemma_add_comm(a: Self::V, b: Self::V)
        ensures
            Self::vadd(a, b) == Self::vadd(b, a),
    ;

    /// The zero element is the identity of the combine.
    proof fn lemma_add_zero(a: Self::V)
        ensures
            Self::vadd(a, Self::vzero()) == a,
            Self::vadd(Self::vzero(), a) == a,
    ;

    /// The zero counter.
    fn zero() -> (r: Self)
        ensures
            r.sv() == Self::vzero(),
    ;

    /// Combine two counters.
    fn add(self, rhs: Self) -> (r: Self)
        requires
            Self::can_add(self.sv(), rhs.sv()),
        ensures
            r.sv() == Self::vadd(self.sv(), rhs.sv()),
    ;

    /// A copy with the same view.
    fn dup(&self) -> (r: Self)
        ensures
            r.sv() == self.sv(),
    ;

    /// Reset the counter to zero.
    fn clear(&mut self)
        ensures
            final(self).sv() == Self::vzero(),
    ;
}

/// A basic counter.
pub struct StatCount {
    /// The current count.
    pub count: u128,
}

impl StatCount {
    pub fn new() -> (r: StatCount)
        ensures
            r.sv() == 0,
    {
        StatCount { count: 0 }
    }

    /// Increment the counter by one.
    pub fn incr(&mut self)
        requires
            old(self).count < u128::MAX,
        ensures
            final(self).sv() == old(self).sv() + 1,
    {
        self.count = self.count + 1;
    }

    /// Decrement the counter by one, stopping at zero.
    pub fn decr(&mut self)
        ensures
            final(self).sv() == if old(self).sv() > 0 {
                old(self).sv() - 1
            } else {
                0
            },
    {
        if self.count > 0 {
            self.count = self.count - 1;
        }
    }

    /// Move the counter by a signed amount, saturating at zero from below.
    pub fn increase(&mut self, value: i128)
        requires
            value > i128::MIN,
            value > 0 ==> old(self).sv() + value <= u128::MAX,
        ensures
            final(self).sv() == if old(self).sv() + value >= 0 {
                old(self).sv() + value
            } else {
                0
            },
    {
        if value > 0 {
            self.count = self.count + (value as u128);
        } else {
            let neg = (-value) as u128;
            if neg > self.count {
                self.count = 0;
            } else {
                self.count = self.count - neg;
            }
        }
    }
}

impl Diff for StatCount {
    open spec fn deq(&self, rhs: &Self) -> bool {
        self.count == rhs.count
    }

    fn diff(&self, rhs: &Self, name: Option<&str>) -> (r: Difference)
        ensures
            r.dv() == (if self.count == rhs.count {
                crate::utils::diff::vtagged(crate::utils::diff::DiffV::Empty, name)
            } else {
                crate::utils::diff::vtagged(
                    crate::utils::diff::vleaf(
                        crate::utils::diff::spec_decimal(self.count as u128),
                        crate::utils::diff::spec_decimal(rhs.count as u128),
                    ),
                    name,
                )
            }),
    {
        if self.count == rhs.count {
            let base = Difference::Empty;
            base.opt_tag(name)
        } else {
            leaf_diff(decimal_text(self.count), decimal_text(rhs.count), name)
        }
    }
}

impl Stats for StatCount {
    type V = int;

    open spec fn sv(&self) -> int {
        self.count as int
    }

    open spec fn vzero() -> int {
        0
    }

    open spec fn vadd(a: int, b: int) -> int {
        a + b
    }

    open spec fn can_add(a: int, b: int) -> bool {
        a + b <= u128::MAX
    }

    proof fn lemma_deq_is_sv(a: &Self, b: &Self) {
    }

    proof fn lemma_add_assoc(a: int, b: int, c: int) {
    }

    proof fn lemma_add_comm(a: int, b: int) {
    }

    proof fn lemma_add_zero(a: int) {
    }

    fn zero() -> (r: Self) {
        StatCount { count: 0 }
    }

    fn add(self, rhs: Self) -> (r: Self) {
        StatCount { count: self.count + rhs.count }
    }

    fn dup(&self) -> (r: Self) {
        StatCount { count: self.count }
    }

    fn clear(&mut self) {
        self.count = 0;
    }
}

/// Counts grouped by a derived label.
pub struct StatMap {
    data: StrMap<StatCount>,
}

impl StatMap {
    /// The table behind the view has unique keys.
    #[verifier::type_invariant]
    pub closed spec fn inv(&self) -> bool {
        self.data.wf()
    }

    /// The view: each label maps to its count.
    pub closed spec fn smv(&self) -> Map<Seq<char>, int> {
        Map::new(
            |k: Seq<char>| self.data.spec_has(k),
            |k: Seq<char>| self.data.spec_get(k).sv(),
        )
    }

    pub fn new() -> (r: StatMap)
        ensures
            r.smv() == Map::<Seq<char>, int>::empty(),
    {
        let r = StatMap { data: StrMap::new() };
        proof {
            assert(r.smv() =~= Map::<Seq<char>, int>::empty());
        }
        r
    }

    /// The count stored under a label, zero when absent.
    pub fn count_of(&self, key: &str) -> (r: u128)
        ensures
            r as int == if self.smv().contains_key(key@) {
                self.smv()[key@]
            } else {
                0
            },
    {
        proof {
            use_type_invariant(&self);
        }
        match self.data.get(key) {
            Some(c) => c.count,
            None => 0,
        }
    }

    /// Move the count of one label, inserting the label at zero first if it
    /// is new.
    pub fn increase(&mut self, value: (String, i128))
        requires
            value.1 > i128::MIN,
            value.1 > 0 ==> (if old(self).smv().contains_key(value.0@) {
                old(self).smv()[value.0@]
            } else {
                0
            }) + value.1 <= u128::MAX,
        ensures
            final(self).smv() == old(self).smv().insert(
                value.0@,
                ({
                    let base: int = if old(self).smv().contains_key(value.0@) {
                        old(self).smv()[value.0@]
                    } else {
                        0
                    };
                    if base + value.1 >= 0 {
                        base + value.1
                    } else {
                        0
                    }
                }),
            ),
    {
        proof {
            use_type_invariant(&*self);
        }
        let mut d = StrMap::new();
        core::mem::swap(&mut self.data, &mut d);
        let ghost d0 = d;
        let (key, item) = value;
        let found = d.find(key.as_str());
        match found {
            Some(i) => {
                proof {
                    d.lemma_index_unique(i as int, key@);
                }
                let mut entry = d.remove_at(i);
                entry.1.increase(item);
                let ghost mid = d;
                d.insert(entry.0, entry.1);
                proof {
                    lemma_strmap_view_insert(mid, d, d0, i as int);
                }
                self.data = d;
            },
            None => {
                let mut fresh = StatCount::new();
                fresh.increase(item);
                d.insert(key, fresh);
                self.data = d;
                proof {
                    assert(self.smv() =~= old(self).smv().insert(
                        value.0@,
                        self.smv()[value.0@],
                    ));
                }
            },
        }
    }
}

/// Removing an entry and appending it back with a changed count updates the
/// map view at that key alone.
proof fn lemma_strmap_view_insert(
    mid: StrMap<StatCount>,
    after: StrMap<StatCount>,
    before: StrMap<StatCount>,
    i: int,
)
    requires
        before.wf(),
        0 <= i < before.sv().len(),
        mid.sv() == before.sv().remove(i),
        after.sv() == mid.sv().push((before.sv()[i].0, after.sv().last().1)),
        after.sv().len() > 0,
        after.sv().last().0 == before.sv()[i].0,
    ensures
        (StatMap { data: after }).smv() == (StatMap { data: before }).smv().insert(
            before.sv()[i].0@,
            after.sv().last().1.sv(),
        ),
{
    let key = before.sv()[i].0@;
    let av = StatMap { data: after }.smv();
    let bv = StatMap { data: before }.smv();
    assert(after.wf()) by {
        assert(mid.wf()) by {
            lemma_strmap_remove_wf(before, i);
        }
        lemma_strmap_remove_no_key(before, i);
        assert(!mid.spec_has(key));
        assert forall|p: int, q: int|
            0 <= p < q < after.sv().len() implies (#[trigger] after.sv()[p]).0@ != (
        #[trigger] after.sv()[q]).0@ by {
            if q < after.sv().len() - 1 {
                assert(after.sv()[p] == mid.sv()[p]);
                assert(after.sv()[q] == mid.sv()[q]);
            } else {
                assert(after.sv()[p] == mid.sv()[p]);
                if after.sv()[p].0@ == key {
                    assert(mid.spec_has(key));
                }
            }
        }
    }
    let target = bv.insert(key, after.sv().last().1.sv());
    assert forall|k: Seq<char>| #[trigger] target.contains_key(k) implies av.contains_key(k)
        && av[k] == target[k] by {
        lemma_strmap_key_correspondence(before, mid, after, i, k);
    }
    assert forall|k: Seq<char>| #[trigger] av.contains_key(k) implies target.contains_key(
        k,
    ) by {
        lemma_strmap_key_correspondence(before, mid, after, i, k);
    }
    assert(av =~= target);
}

/// Removing an entry from a well-formed table keeps it well-formed.
proof fn lemma_strmap_remove_wf(t: StrMap<StatCount>, i: int)
    requires
        t.wf(),
        0 <= i < t.sv().len(),
    ensures
        forall|p: int, q: int|
            0 <= p < q < t.sv().remove(i).len() ==> (#[trigger] t.sv().remove(i)[p]).0@ != (
            #[trigger] t.sv().remove(i)[q]).0@,
{
    assert forall|p: int, q: int|
        0 <= p < q < t.sv().remove(i).len() implies (#[trigger] t.sv().remove(i)[p]).0@ != (
    #[trigger] t.sv().remove(i)[q]).0@ by {
        let sp = if p < i {
            p
        } else {
            p + 1
        };
        let sq = if q < i {
            q
        } else {
            q + 1
        };
        assert(t.sv().remove(i)[p] == t.sv()[sp]);
        assert(t.sv().remove(i)[q] == t.sv()[sq]);
    }
}

/// After removing the entry at `i`, its key is gone.
proof fn lemma_strmap_remove_no_key(t: StrMap<StatCount>, i: int)
    requires
        t.wf(),
        0 <= i < t.sv().len(),
    ensures
        !(exists|j: int|
            0 <= j < t.sv().remove(i).len() && (#[trigger] t.sv().remove(i)[j]).0@ == t.sv()[i].0@),
{
    if exists|j: int|
        0 <= j < t.sv().remove(i).len() && (#[trigger] t.sv().remove(i)[j]).0@ == t.sv()[i].0@ {
        let j = choose|j: int|
            0 <= j < t.sv().remove(i).len() && (#[trigger] t.sv().remove(i)[j]).0@ == t.sv()[i].0@;
        if j < i {
            assert(t.sv().remove(i)[j] == t.sv()[j]);
        } else {
            assert(t.sv().remove(i)[j] == t.sv()[j + 1]);
        }
    }
}

/// Key-by-key correspondence for `lemma_strmap_view_insert`.
proof fn lemma_strmap_key_correspondence(
    before: StrMap<StatCount>,
    mid: StrMap<StatCount>,
    after: StrMap<StatCount>,
    i: int,
    k: Seq<char>,
)
    requires
        before.wf(),
        0 <= i < before.sv().len(),
        mid.sv() == before.sv().remove(i),
        after.sv() == mid.sv().push((before.sv()[i].0, after.sv().last().1)),
        after.sv().len() > 0,
        after.sv().last().0 == before.sv()[i].0,
        after.wf(),
    ensures
        after.spec_has(k) == (before.spec_has(k) || k == before.sv()[i].0@),
        after.spec_has(k) && k != before.sv()[i].0@ ==> before.spec_has(k) && after.spec_get(k)
            == before.spec_get(k),
        k == before.sv()[i].0@ ==> after.spec_get(k) == after.sv().last().1,
{
    let key = before.sv()[i].0@;
    assert(mid.wf()) by {
        lemma_strmap_remove_wf(before, i);
    }
    if k == key {
        assert(after.sv()[after.sv().len() - 1].0@ == k);
        assert(after.spec_has(k));
        after.lemma_index_unique(after.sv().len() - 1, k);
        if !before.spec_has(k) {
            assert(before.sv()[i].0@ == k);
        }
    } else {
        if before.spec_has(k) {
            let j = choose|j: int|
                0 <= j < before.sv().len() && (#[trigger] before.sv()[j]).0@ == k;
            let mj = if j < i {
                j
            } else {
                j - 1
            };
            assert(j != i);
            if j < i {
                assert(mid.sv()[mj] == before.sv()[j]);
            } else {
                assert(mid.sv()[mj] == before.sv()[j]);
            }
            assert(after.sv()[mj] == mid.sv()[mj]);
            assert(after.spec_has(k));
            after.lemma_index_unique(mj, k);
            before.lemma_index_unique(j, k);
        }
        if after.spec_has(k) {
            let j = choose|j: int|
                0 <= j < after.sv().len() && (#[trigger] after.sv()[j]).0@ == k;
            assert(j < after.sv().len() - 1);
            assert(after.sv()[j] == mid.sv()[j]);
            let bj = if j < i {
                j
            } else {
                j + 1
            };
            assert(mid.sv()[j] == before.sv()[bj]);
            assert(before.spec_has(k));
        }
    }
}


/// Whether an entry sequence carries a key.
pub open spec fn sk_has(s: Seq<(String, StatCount)>, k: Seq<char>) -> bool {
    exists|i: int| 0 <= i < s.len() && (#[trigger] s[i]).0@ == k
}

/// The count an entry sequence stores under a key.
pub open spec fn sk_get(s: Seq<(String, StatCount)>, k: Seq<char>) -> int {
    s[choose|i: int| 0 <= i < s.len() && (#[trigger] s[i]).0@ == k].1.sv()
}

/// The count map described by an entry sequence.
pub open spec fn seq_view(s: Seq<(String, StatCount)>) -> Map<Seq<char>, int> {
    Map::new(|k: Seq<char>| sk_has(s, k), |k: Seq<char>| sk_get(s, k))
}

/// Combining with a one-key map is inserting the summed count.
pub proof fn lemma_map_add_insert(a: Map<Seq<char>, int>, m: Map<Seq<char>, int>, k: Seq<char>, v: int)
    requires
        !m.contains_key(k),
    ensures
        map_add(a, m.insert(k, v)) == map_add(a, m).insert(
            k,
            (if a.contains_key(k) {
                a[k]
            } else {
                0
            }) + v,
        ),
{
    assert(map_add(a, m.insert(k, v)) =~= map_add(a, m).insert(
        k,
        (if a.contains_key(k) {
            a[k]
        } else {
            0
        }) + v,
    ));
}

/// Peeling the head off an entry sequence with pairwise-distinct keys
/// inserts it into the view of the tail.
pub proof fn lemma_seq_view_cons(s: Seq<(String, StatCount)>)
    requires
        s.len() > 0,
        forall|i: int, j: int| 0 <= i < j < s.len() ==> (#[trigger] s[i]).0@ != (#[trigger] s[j]).0@,
    ensures
        seq_view(s) == seq_view(s.drop_first()).insert(s[0].0@, s[0].1.sv()),
{
    let t = s.drop_first();
    let k0 = s[0].0@;
    assert forall|k: Seq<char>| true implies sk_has(s, k) == (sk_has(t, k) || k == k0) by {
        if sk_has(t, k) {
            let j = choose|j: int| 0 <= j < t.len() && (#[trigger] t[j]).0@ == k;
            assert(s[j + 1] == t[j]);
            assert(sk_has(s, k));
        }
        if k == k0 {
            assert(s[0].0@ == k);
        }
        if sk_has(s, k) && k != k0 {
            let j = choose|j: int| 0 <= j < s.len() && (#[trigger] s[j]).0@ == k;
            assert(j >= 1);
            assert(t[j - 1] == s[j]);
            assert(sk_has(t, k));
        }
    }
    assert forall|k: Seq<char>| sk_has(s, k) implies sk_get(s, k) == (if k == k0 {
        s[0].1.sv()
    } else {
        sk_get(t, k)
    }) by {
        let u = choose|u: int| 0 <= u < s.len() && (#[trigger] s[u]).0@ == k;
        if k == k0 {
            if u != 0 {
                assert(s[0].0@ == s[u].0@);
                assert(false);
            }
            assert(sk_get(s, k) == s[0].1.sv());
        } else {
            assert(u >= 1);
            assert(t[u - 1] == s[u]);
            assert(sk_has(t, k));
            let w = choose|w: int| 0 <= w < t.len() && (#[trigger] t[w]).0@ == k;
            assert(s[w + 1] == t[w]);
            if w + 1 != u {
                assert(s[w + 1].0@ == s[u].0@);
                assert(false);
            }
            assert(sk_get(t, k) == t[w].1.sv());
            assert(sk_get(s, k) == s[u].1.sv());
        }
    }
    assert(seq_view(s) =~= seq_view(t).insert(k0, s[0].1.sv()));
}


/// A table's view is the view of its entry sequence.
proof fn lemma_smv_seq_view(m: &StatMap)
    ensures
        m.smv() == seq_view(m.data.sv()),
{
    let t = m.data.sv();
    assert forall|k: Seq<char>| true implies m.data.spec_has(k) == sk_has(t, k) && (
    m.data.spec_has(k) ==> m.data.spec_get(k).sv() == sk_get(t, k)) by {
        if m.data.spec_has(k) {
            let i = choose|i: int| 0 <= i < t.len() && (#[trigger] t[i]).0@ == k;
            assert(sk_has(t, k));
        }
        if sk_has(t, k) {
            let i = choose|i: int| 0 <= i < t.len() && (#[trigger] t[i]).0@ == k;
            assert(m.data.spec_has(k));
        }
    }
    assert(m.smv() =~= seq_view(t));
}

impl Diff for StatMap {
    open spec fn deq(&self, rhs: &Self) -> bool {
        self.smv() == rhs.smv()
    }

    fn diff(&self, rhs: &Self, name: Option<&str>) -> (r: Difference) {
        proof {
            use_type_invariant(self);
            use_type_invariant(rhs);
        }
        let mut kids: Vec<(String, Difference)> = Vec::new();
        let mut i: usize = 0;
        while i < self.data.entries.len()
            invariant
                self.data.wf(),
                rhs.data.wf(),
                i <= self.data.sv().len(),
                kids@.len() == 0 <==> (forall|j: int|
                    0 <= j < i ==> rhs.data.spec_has((#[trigger] self.data.sv()[j]).0@)
                        && rhs.data.spec_get(self.data.sv()[j].0@).sv()
                        == self.data.sv()[j].1.sv()),
                forall|t: int| 0 <= t < kids@.len() ==> !vclean((#[trigger] kids@[t]).1.dv()),
                kids@.len() > 0 ==> self.smv() != rhs.smv(),
            decreases self.data.sv().len() - i,
        {
            let key = &self.data.entries[i].0;
            let lcount = self.data.entries[i].1.count;
            proof {
                self.data.lemma_index_unique(i as int, key@);
            }
            let mismatch: Option<Difference> = match rhs.data.get(key.as_str()) {
                Some(rc) => {
                    if rc.count == lcount {
                        None
                    } else {
                        Some(leaf_diff(decimal_text(lcount), decimal_text(rc.count), None))
                    }
                },
                None => Some(leaf_diff(decimal_text(lcount), "Null".to_owned(), None)),
            };
            match mismatch {
                Some(leaf) => {
                    proof {
                        if self.smv() == rhs.smv() {
                            assert(self.smv().contains_key(key@));
                            assert(self.smv()[key@] == self.data.spec_get(key@).sv());
                        }
                        lemma_all_clean_push_stats(kids@, (key, leaf));
                    }
                    kids.push((key.clone(), leaf));
                },
                None => {},
            }
            i = i + 1;
        }
        let ghost after_left = kids@.len() == 0;
        let mut j: usize = 0;
        while j < rhs.data.entries.len()
            invariant
                self.data.wf(),
                rhs.data.wf(),
                j <= rhs.data.sv().len(),
                kids@.len() == 0 ==> after_left,
                after_left == (forall|t: int|
                    0 <= t < self.data.sv().len() ==> rhs.data.spec_has(
                        (#[trigger] self.data.sv()[t]).0@,
                    ) && rhs.data.spec_get(self.data.sv()[t].0@).sv()
                        == self.data.sv()[t].1.sv()),
                kids@.len() == 0 <==> (after_left && (forall|t: int|
                    0 <= t < j ==> self.data.spec_has((#[trigger] rhs.data.sv()[t]).0@))),
                forall|t: int| 0 <= t < kids@.len() ==> !vclean((#[trigger] kids@[t]).1.dv()),
                kids@.len() > 0 ==> self.smv() != rhs.smv(),
            decreases rhs.data.sv().len() - j,
        {
            let key = &rhs.data.entries[j].0;
            let rcount = rhs.data.entries[j].1.count;
            proof {
                rhs.data.lemma_index_unique(j as int, key@);
            }
            if !self.data.contains(key.as_str()) {
                let leaf = leaf_diff("Null".to_owned(), decimal_text(rcount), None);
                proof {
                    if self.smv() == rhs.smv() {
                        assert(rhs.smv().contains_key(key@));
                        assert(self.smv().contains_key(key@));
                    }
                    lemma_all_clean_push_stats(kids@, (key, leaf));
                }
                kids.push((key.clone(), leaf));
            }
            j = j + 1;
        }
        if kids.len() == 0 {
            proof {
                assert forall|k: Seq<char>| true implies self.smv().contains_key(k)
                    == rhs.smv().contains_key(k) && (self.smv().contains_key(k)
                    ==> self.smv()[k] == rhs.smv()[k]) by {
                    if self.data.spec_has(k) {
                        let t = choose|t: int|
                            0 <= t < self.data.sv().len() && (#[trigger] self.data.sv()[t]).0@
                                == k;
                        assert(rhs.data.spec_has(k));
                        assert(rhs.data.spec_get(k).sv() == self.data.sv()[t].1.sv());
                        self.data.lemma_index_unique(t, k);
                    }
                    if rhs.data.spec_has(k) {
                        let t = choose|t: int|
                            0 <= t < rhs.data.sv().len() && (#[trigger] rhs.data.sv()[t]).0@
                                == k;
                        assert(self.data.spec_has(k));
                    }
                }
                assert(self.smv() =~= rhs.smv());
            }
            let base = Difference::Empty;
            base.opt_tag(name)
        } else {
            let ghost kids_final = kids@;
            let node = Difference::Node(None, kids);
            proof {
                crate::utils::diff::lemma_all_clean(kids_final);
                assert(!crate::utils::diff::all_clean(kids_final)) by {
                    assert(!vclean(kids_final[0].1.dv()));
                }
            }
            node.opt_tag(name)
        }
    }
}

/// Appending an unclean child keeps a child list's uncleanliness pointwise.
proof fn lemma_all_clean_push_stats(s: Seq<(String, Difference)>, e: (&String, Difference))
    ensures
        forall|t: int|
            (forall|u: int| 0 <= u < s.len() ==> !vclean((#[trigger] s[u]).1.dv()))
                && !vclean(e.1.dv()) && 0 <= t < s.len() + 1 ==> !vclean(
                (#[trigger] s.push((*e.0, e.1))[t]).1.dv(),
            ),
{
    assert forall|t: int| 0 <= t < s.len() + 1 implies s.push((*e.0, e.1))[t] == (if t
        < s.len() {
        s[t]
    } else {
        (*e.0, e.1)
    }) by {}
}

impl Stats for StatMap {
    type V = Map<Seq<char>, int>;

    open spec fn sv(&self) -> Map<Seq<char>, int> {
        self.smv()
    }

    open spec fn vzero() -> Map<Seq<char>, int> {
        Map::empty()
    }

    open spec fn vadd(a: Map<Seq<char>, int>, b: Map<Seq<char>, int>) -> Map<Seq<char>, int> {
        map_add(a, b)
    }

    open spec fn can_add(a: Map<Seq<char>, int>, b: Map<Seq<char>, int>) -> bool {
        map_can_add(a, b) && (forall|k: Seq<char>|
            #[trigger] b.contains_key(k) ==> 0 <= b[k] <= i128::MAX) && (forall|k: Seq<char>|
            #[trigger] a.contains_key(k) ==> a[k] >= 0)
    }

    proof fn lemma_deq_is_sv(a: &Self, b: &Self) {
    }

    proof fn lemma_add_assoc(
        a: Map<Seq<char>, int>,
        b: Map<Seq<char>, int>,
        c: Map<Seq<char>, int>,
    ) {
        lemma_map_add_assoc(a, b, c);
    }

    proof fn lemma_add_comm(a: Map<Seq<char>, int>, b: Map<Seq<char>, int>) {
        lemma_map_add_comm(a, b);
    }

    proof fn lemma_add_zero(a: Map<Seq<char>, int>) {
        lemma_map_add_zero(a);
    }

    fn zero() -> (r: Self) {
        StatMap::new()
    }

    fn add(self, rhs: Self) -> (r: Self) {
        proof {
            use_type_invariant(&self);
            use_type_invariant(&rhs);
        }
        let ghost a0 = self.smv();
        let ghost b0 = rhs.smv();
        proof {
            lemma_smv_seq_view(&rhs);
        }
        let StatMap { data: rdata } = rhs;
        let ghost rk0 = rdata.sv();
        let mut rem = rdata;
        let mut out = self;
        proof {
            assert(rem.sv() =~= rk0.take(rem.sv().len() as int));
            assert(rk0.skip(rk0.len() as int) =~= Seq::<(String, StatCount)>::empty());
            assert(seq_view(rk0.skip(rem.sv().len() as int)) =~= Map::<Seq<char>, int>::empty());
            lemma_map_add_zero(a0);
        }
        while rem.entries.len() > 0
            invariant
                out.smv() == map_add(a0, seq_view(rk0.skip(rem.sv().len() as int))),
                rem.sv() == rk0.take(rem.sv().len() as int),
                rem.sv().len() <= rk0.len(),
                b0 == seq_view(rk0),
                Self::can_add(a0, b0),
                forall|p: int, q: int|
                    0 <= p < q < rk0.len() ==> (#[trigger] rk0[p]).0@ != (#[trigger] rk0[q]).0@,
            decreases rem.sv().len(),
        {
            let ghost l = rem.sv().len() as int;
            let pair = rem.entries.pop().unwrap();
            proof {
                assert(rem.sv() =~= rk0.take(l - 1)) by {
                    assert forall|t: int| 0 <= t < l - 1 implies rem.sv()[t] == rk0[t] by {
                        assert(rem.sv()[t] == rk0.take(l)[t]);
                    }
                }
                assert(pair == rk0.take(l)[l - 1]);
                assert(pair == rk0[l - 1]);
            }
            let ghost k = pair.0@;
            let ghost tail = rk0.skip(l);
            let ghost head_seq = rk0.skip(l - 1);
            proof {
                assert(head_seq[0] == rk0[l - 1]);
                assert(head_seq.drop_first() =~= tail);
                assert forall|p: int, q: int|
                    0 <= p < q < head_seq.len() implies (#[trigger] head_seq[p]).0@ != (
                #[trigger] head_seq[q]).0@ by {
                    assert(head_seq[p] == rk0[l - 1 + p]);
                    assert(head_seq[q] == rk0[l - 1 + q]);
                }
                lemma_seq_view_cons(head_seq);
                // the key is not among the already-processed tail
                if seq_view(tail).contains_key(k) {
                    let w = choose|w: int| 0 <= w < tail.len() && (#[trigger] tail[w]).0@ == k;
                    assert(tail[w] == rk0[l + w]);
                    assert(rk0[l - 1].0@ == rk0[l + w].0@);
                    assert(false);
                }
                // the key's count in the full view
                assert(b0.contains_key(k)) by {
                    assert(rk0[l - 1].0@ == k);
                }
                assert(b0[k] == pair.1.sv()) by {
                    let w = choose|w: int| 0 <= w < rk0.len() && (#[trigger] rk0[w]).0@ == k;
                    if w != l - 1 {
                        assert(rk0[w].0@ == rk0[l - 1].0@);
                        assert(false);
                    }
                }
                assert(0 <= pair.1.sv() <= i128::MAX);
            }
            let amount = pair.1.count as i128;
            proof {
                let cur = out.smv();
                assert(cur == map_add(a0, seq_view(tail)));
                if amount > 0 {
                    if cur.contains_key(k) {
                        if a0.contains_key(k) {
                            assert(a0[k] + b0[k] <= u128::MAX);
                            assert(cur[k] == a0[k]);
                        } else {
                            assert(cur[k] == 0 + (if seq_view(tail).contains_key(k) {
                                seq_view(tail)[k]
                            } else {
                                0
                            }));
                        }
                    }
                }
            }
            out.increase((pair.0, amount));
            proof {
                let base: int = if a0.contains_key(k) {
                    a0[k]
                } else {
                    0
                };
                lemma_map_add_insert(a0, seq_view(tail), k, pair.1.sv());
                assert(out.smv() =~= map_add(a0, seq_view(head_seq)));
                assert(rem.sv().len() == l - 1);
            }
        }
        proof {
            assert(rk0.skip(0) =~= rk0);
        }
        out
    }

    fn dup(&self) -> (r: Self) {
        proof {
            use_type_invariant(self);
        }
        let mut d: StrMap<StatCount> = StrMap::new();
        let mut i: usize = 0;
        while i < self.data.entries.len()
            invariant
                self.data.wf(),
                i <= self.data.sv().len(),
                d.sv().len() == i,
                forall|j: int|
                    0 <= j < i ==> (#[trigger] d.sv()[j]).0@ == self.data.sv()[j].0@
                        && d.sv()[j].1.sv() == self.data.sv()[j].1.sv(),
                forall|p: int, q: int|
                    0 <= p < q < d.sv().len() ==> (#[trigger] d.sv()[p]).0@ != (
                    #[trigger] d.sv()[q]).0@,
            decreases self.data.sv().len() - i,
        {
            let key = self.data.entries[i].0.clone();
            let cnt = StatCount { count: self.data.entries[i].1.count };
            proof {
                if d.spec_has(key@) {
                    let w = choose|w: int| 0 <= w < d.sv().len() && (#[trigger] d.sv()[w]).0@ == key@;
                    assert(self.data.sv()[w].0@ == self.data.sv()[i as int].0@);
                    assert(false);
                }
            }
            d.insert(key, cnt);
            i = i + 1;
        }
        let r = StatMap { data: d };
        proof {
            assert forall|k: Seq<char>| true implies r.data.spec_has(k) == self.data.spec_has(k)
                && (r.data.spec_has(k) ==> r.data.spec_get(k).sv()
                == self.data.spec_get(k).sv()) by {
                if r.data.spec_has(k) {
                    let w = choose|w: int|
                        0 <= w < r.data.sv().len() && (#[trigger] r.data.sv()[w]).0@ == k;
                    assert(self.data.sv()[w].0@ == k);
                    assert(self.data.spec_has(k));
                    r.data.lemma_index_unique(w, k);
                    self.data.lemma_index_unique(w, k);
                }
                if self.data.spec_has(k) {
                    let w = choose|w: int|
                        0 <= w < self.data.sv().len() && (#[trigger] self.data.sv()[w]).0@ == k;
                    assert(r.data.sv()[w].0@ == k);
                    assert(r.data.spec_has(k));
                }
            }
            assert(r.smv() =~= self.smv());
        }
        r
    }

    fn clear(&mut self) {
        *self = StatMap::new();
    }
}


/// One CRUD verb, naming which bucket of a result an operation touched.
#[derive(Clone, Copy, Debug, PartialEq, Eq, Structural)]
pub enum CrudType {
    Create,
    Read,
    Update,
    Delete,
    Error,
}

/// The readable rendering of an error class.
fn kind_text(k: Kind) -> &'static str {
    match k {
        Kind::DuplicateKey => "DuplicateKey",
        Kind::NotFound => "NotFound",
        Kind::InvalidItem => "InvalidItem",
        Kind::TypeMismatch => "TypeMismatch",
        Kind::SerializationError => "SerializationError",
    }
}

/// The readable rendering of an error, for difference leaves.
fn error_text(e: &GraphtError) -> String {
    let mut t = kind_text(e.kind).to_owned();
    t.append(": ");
    t.append(e.msg.as_str());
    t
}

/// Two error lists agree when they pair up with the same class and message.
pub open spec fn errs_deq(a: Seq<GraphtError>, b: Seq<GraphtError>) -> bool {
    a.len() == b.len() && (forall|i: int|
        0 <= i < a.len() ==> (#[trigger] a[i]).kind == b[i].kind && a[i].msg@ == b[i].msg@)
}

impl Diff for GraphtError {
    open spec fn deq(&self, rhs: &Self) -> bool {
        self.kind == rhs.kind && self.msg@ == rhs.msg@
    }

    fn diff(&self, rhs: &Self, name: Option<&str>) -> (r: Difference) {
        if self.kind == rhs.kind && self.msg == rhs.msg {
            let base = Difference::Empty;
            base.opt_tag(name)
        } else {
            leaf_diff(error_text(self), error_text(rhs), name)
        }
    }
}

/// Positional comparison of two error lists: paired entries are compared in
/// place, and a length mismatch surfaces the trailing remainder.
fn errs_diff(a: &Vec<GraphtError>, b: &Vec<GraphtError>, name: Option<&str>) -> (r: Difference)
    ensures
        vclean(r.dv()) == errs_deq(a@, b@),
{
    let mut kids: Vec<(String, Difference)> = Vec::new();
    let mut i: usize = 0;
    while i < a.len() || i < b.len()
        invariant
            kids@.len() == 0 <==> (forall|j: int|
                0 <= j < i ==> j < a@.len() && j < b@.len() && (#[trigger] a@[j]).kind
                    == b@[j].kind && a@[j].msg@ == b@[j].msg@),
            forall|t: int| 0 <= t < kids@.len() ==> !vclean((#[trigger] kids@[t]).1.dv()),
            kids@.len() > 0 ==> !errs_deq(a@, b@),
            kids@.len() == 0 ==> i <= a@.len() && i <= b@.len(),
            i <= a@.len() || i <= b@.len(),
        decreases (if i < a@.len() {
            a@.len() - i
        } else {
            0
        }) + (if i < b@.len() {
            b@.len() - i
        } else {
            0
        }),
    {
        let mismatch: Option<Difference> = if i < a.len() && i < b.len() {
            let l = &a[i];
            let rr = &b[i];
            if l.kind == rr.kind && l.msg == rr.msg {
                None
            } else {
                Some(leaf_diff(error_text(l), error_text(rr), None))
            }
        } else if i < a.len() {
            Some(leaf_diff(error_text(&a[i]), String::new(), None))
        } else {
            Some(leaf_diff(String::new(), error_text(&b[i]), None))
        };
        match mismatch {
            Some(leaf) => {
                let key = decimal_text(i as u128);
                proof {
                    let s = kids@;
                    assert(s.push((key, leaf))[s.len() as int] == (key, leaf));
                    assert forall|t: int| 0 <= t < s.len() implies s.push((key, leaf))[t]
                        == s[t] by {}
                }
                kids.push((key, leaf));
            },
            None => {},
        }
        i = i + 1;
    }
    if kids.len() == 0 {
        proof {
            assert(a@.len() == b@.len());
            assert forall|t: int| 0 <= t < a@.len() implies (#[trigger] a@[t]).kind == b@[t].kind
                && a@[t].msg@ == b@[t].msg@ by {
                assert(t < i);
            }
        }
        let base = Difference::Empty;
        base.opt_tag(name)
    } else {
        let ghost kids_final = kids@;
        let node = Difference::Node(None, kids);
        proof {
            crate::utils::diff::lemma_all_clean(kids_final);
            assert(!crate::utils::diff::all_clean(kids_final)) by {
                assert(!vclean(kids_final[0].1.dv()));
            }
        }
        node.opt_tag(name)
    }
}

/// The mathematical value of a CRUD result: one optional counter view per
/// verb, plus the accumulated errors.
pub ghost struct CrudV<V> {
    pub created: Option<V>,
    pub read: Option<V>,
    pub updated: Option<V>,
    pub deleted: Option<V>,
    pub errors: Seq<GraphtError>,
}

/// What changed as a side effect of an operation, bucketed per CRUD verb.
///
/// Each bucket is `None` until first touched, then accumulates by the
/// counter's own combine; an empty bucket means "no activity of that kind".
pub struct CrudResultStats<T: Stats> {
    created: Option<T>,
    read: Option<T>,
    updated: Option<T>,
    deleted: Option<T>,
    errors: Vec<GraphtError>,
}

impl<T: Stats> CrudResultStats<T> {
    /// The mathematical value of the result.
    pub closed spec fn csv(&self) -> CrudV<T::V> {
        CrudV {
            created: Self::opt_view(&self.created),
            read: Self::opt_view(&self.read),
            updated: Self::opt_view(&self.updated),
            deleted: Self::opt_view(&self.deleted),
            errors: self.errors@,
        }
    }

    /// The view of one bucket.
    pub open spec fn opt_view(o: &Option<T>) -> Option<T::V> {
        match o {
            None => None,
            Some(t) => Some(t.sv()),
        }
    }

    /// A bucket's view with an untouched bucket read as zero.
    pub open spec fn opt_or_zero(o: Option<T::V>) -> T::V {
        match o {
            None => T::vzero(),
            Some(v) => v,
        }
    }

    /// Fold one more counter view into a bucket view.
    pub open spec fn opt_fold(o: Option<T::V>, v: T::V) -> Option<T::V> {
        match o {
            None => Some(v),
            Some(x) => Some(T::vadd(x, v)),
        }
    }

    /// Whether one more counter view fits into a bucket view.
    pub open spec fn opt_fold_ok(o: Option<T::V>, v: T::V) -> bool {
        match o {
            None => true,
            Some(x) => T::can_add(x, v),
        }
    }

    /// Combine two bucket views, an empty bucket acting as identity.
    pub open spec fn opt_join(a: Option<T::V>, b: Option<T::V>) -> Option<T::V> {
        match (a, b) {
            (None, None) => None,
            (Some(x), None) => Some(x),
            (None, Some(y)) => Some(y),
            (Some(x), Some(y)) => Some(T::vadd(x, y)),
        }
    }

    /// Whether two bucket views can combine within the counter range.
    pub open spec fn opt_join_ok(a: Option<T::V>, b: Option<T::V>) -> bool {
        match (a, b) {
            (Some(x), Some(y)) => T::can_add(x, y),
            _ => true,
        }
    }

    /// Whether folding a counter into the bucket of the given verb fits.
    pub open spec fn crud_add_ok(&self, crud_type: CrudType, v: T::V) -> bool {
        match crud_type {
            CrudType::Create => Self::opt_fold_ok(self.csv().created, v),
            CrudType::Read => Self::opt_fold_ok(self.csv().read, v),
            CrudType::Update => Self::opt_fold_ok(self.csv().updated, v),
            CrudType::Delete => Self::opt_fold_ok(self.csv().deleted, v),
            CrudType::Error => false,
        }
    }

    pub fn new() -> (r: CrudResultStats<T>)
        ensures
            r.csv().created is None,
            r.csv().read is None,
            r.csv().updated is None,
            r.csv().deleted is None,
            r.csv().errors == Seq::<GraphtError>::empty(),
    {
        CrudResultStats {
            read: None,
            created: None,
            updated: None,
            deleted: None,
            errors: Vec::new(),
        }
    }

    /// The accumulated "created" counter, if any creation was recorded.
    pub fn created(&self) -> (r: Option<T>)
        ensures
            match r {
                None => self.csv().created is None,
                Some(t) => self.csv().created == Some(t.sv()),
            },
    {
        match &self.created {
            None => None,
            Some(t) => Some(t.dup()),
        }
    }

    /// The accumulated "updated" counter, if any update was recorded.
    pub fn updated(&self) -> (r: Option<T>)
        ensures
            match r {
                None => self.csv().updated is None,
                Some(t) => self.csv().updated == Some(t.sv()),
            },
    {
        match &self.updated {
            None => None,
            Some(t) => Some(t.dup()),
        }
    }

    /// The accumulated "deleted" counter, if any deletion was recorded.
    pub fn deleted(&self) -> (r: Option<T>)
        ensures
            match r {
                None => self.csv().deleted is None,
                Some(t) => self.csv().deleted == Some(t.sv()),
            },
    {
        match &self.deleted {
            None => None,
            Some(t) => Some(t.dup()),
        }
    }

    /// Record creation activity.
    pub fn add_created(&mut self, stats: T)
        requires
            Self::opt_fold_ok(old(self).csv().created, stats.sv()),
        ensures
            final(self).csv().created == Self::opt_fold(old(self).csv().created, stats.sv()),
            final(self).csv().read == old(self).csv().read,
            final(self).csv().updated == old(self).csv().updated,
            final(self).csv().deleted == old(self).csv().deleted,
            final(self).csv().errors == old(self).csv().errors,
    {
        let mut cur: Option<T> = None;
        core::mem::swap(&mut self.created, &mut cur);
        match cur {
            Some(s) => {
                self.created = Some(s.add(stats));
            },
            None => {
                self.created = Some(stats);
            },
        }
    }

    /// Record read activity.
    pub fn add_read(&mut self, stats: T)
        requires
            Self::opt_fold_ok(old(self).csv().read, stats.sv()),
        ensures
            final(self).csv().read == Self::opt_fold(old(self).csv().read, stats.sv()),
            final(self).csv().created == old(self).csv().created,
            final(self).csv().updated == old(self).csv().updated,
            final(self).csv().deleted == old(self).csv().deleted,
            final(self).csv().errors == old(self).csv().errors,
    {
        let mut cur: Option<T> = None;
        core::mem::swap(&mut self.read, &mut cur);
        match cur {
            Some(s) => {
                self.read = Some(s.add(stats));
            },
            None => {
                self.read = Some(stats);
            },
        }
    }

    /// Record update activity.
    pub fn add_updated(&mut self, stats: T)
        requires
            Self::opt_fold_ok(old(self).csv().updated, stats.sv()),
        ensures
            final(self).csv().updated == Self::opt_fold(old(self).csv().updated, stats.sv()),
            final(self).csv().created == old(self).csv().created,
            final(self).csv().read == old(self).csv().read,
            final(self).csv().deleted == old(self).csv().deleted,
            final(self).csv().errors == old(self).csv().errors,
    {
        let mut cur: Option<T> = None;
        core::mem::swap(&mut self.updated, &mut cur);
        match cur {
            Some(s) => {
                self.updated = Some(s.add(stats));
            },
            None => {
                self.updated = Some(stats);
            },
        }
    }

    /// Record delete activity.
    pub fn add_deleted(&mut self, stats: T)
        requires
            Self::opt_fold_ok(old(self).csv().deleted, stats.sv()),
        ensures
            final(self).csv().deleted == Self::opt_fold(old(self).csv().deleted, stats.sv()),
            final(self).csv().created == old(self).csv().created,
            final(self).csv().read == old(self).csv().read,
            final(self).csv().updated == old(self).csv().updated,
            final(self).csv().errors == old(self).csv().errors,
    {
        let mut cur: Option<T> = None;
        core::mem::swap(&mut self.deleted, &mut cur);
        match cur {
            Some(s) => {
                self.deleted = Some(s.add(stats));
            },
            None => {
                self.deleted = Some(stats);
            },
        }
    }

    /// Record activity under the given verb.
    pub fn add_crud(&mut self, crud_type: CrudType, rhs: T)
        requires
            !(crud_type is Error),
            old(self).crud_add_ok(crud_type, rhs.sv()),
        ensures
            crud_type is Create ==> final(self).csv() == (CrudV {
                created: Self::opt_fold(old(self).csv().created, rhs.sv()),
                ..old(self).csv()
            }),
            crud_type is Read ==> final(self).csv() == (CrudV {
                read: Self::opt_fold(old(self).csv().read, rhs.sv()),
                ..old(self).csv()
            }),
            crud_type is Update ==> final(self).csv() == (CrudV {
                updated: Self::opt_fold(old(self).csv().updated, rhs.sv()),
                ..old(self).csv()
            }),
            crud_type is Delete ==> final(self).csv() == (CrudV {
                deleted: Self::opt_fold(old(self).csv().deleted, rhs.sv()),
                ..old(self).csv()
            }),
    {
        match crud_type {
            CrudType::Create => self.add_created(rhs),
            CrudType::Read => self.add_read(rhs),
            CrudType::Update => self.add_updated(rhs),
            CrudType::Delete => self.add_deleted(rhs),
            CrudType::Error => {
                proof {
                    assert(false);
                }
            },
        }
    }

    /// Compare one bucket against an expected counter, an untouched bucket
    /// reading as zero.
    pub fn diff_crud(&self, crud_type: CrudType, rhs: &T) -> (r: Difference)
        requires
            !(crud_type is Error),
        ensures
            crud_type is Create ==> vclean(r.dv()) == (Self::opt_or_zero(self.csv().created)
                == rhs.sv()),
            crud_type is Read ==> vclean(r.dv()) == (Self::opt_or_zero(self.csv().read)
                == rhs.sv()),
            crud_type is Update ==> vclean(r.dv()) == (Self::opt_or_zero(self.csv().updated)
                == rhs.sv()),
            crud_type is Delete ==> vclean(r.dv()) == (Self::opt_or_zero(self.csv().deleted)
                == rhs.sv()),
    {
        let expected = Some(rhs.dup());
        match crud_type {
            CrudType::Create => opt_diff(&self.created, &expected, None),
            CrudType::Read => opt_diff(&self.read, &expected, None),
            CrudType::Update => opt_diff(&self.updated, &expected, None),
            CrudType::Delete => opt_diff(&self.deleted, &expected, None),
            CrudType::Error => {
                proof {
                    assert(false);
                }
                Difference::Empty
            },
        }
    }

    /// Compare the accumulated errors against an expected list.
    pub fn diff_errors(&self, rhs: &Vec<GraphtError>) -> (r: Difference)
        ensures
            vclean(r.dv()) == errs_deq(self.csv().errors, rhs@),
    {
        errs_diff(&self.errors, rhs, None)
    }

    /// Combine two results bucket-by-bucket, `None` acting as identity;
    /// error lists concatenate.
    pub fn add(self, rhs: Self) -> (r: Self)
        requires
            Self::opt_join_ok(self.csv().created, rhs.csv().created),
            Self::opt_join_ok(self.csv().read, rhs.csv().read),
            Self::opt_join_ok(self.csv().updated, rhs.csv().updated),
            Self::opt_join_ok(self.csv().deleted, rhs.csv().deleted),
        ensures
            r.csv().created == Self::opt_join(self.csv().created, rhs.csv().created),
            r.csv().read == Self::opt_join(self.csv().read, rhs.csv().read),
            r.csv().updated == Self::opt_join(self.csv().updated, rhs.csv().updated),
            r.csv().deleted == Self::opt_join(self.csv().deleted, rhs.csv().deleted),
            r.csv().errors == self.csv().errors + rhs.csv().errors,
    {
        let created = match (self.created, rhs.created) {
            (None, None) => None,
            (Some(x), None) => Some(x),
            (None, Some(y)) => Some(y),
            (Some(x), Some(y)) => Some(x.add(y)),
        };
        let read = match (self.read, rhs.read) {
            (None, None) => None,
            (Some(x), None) => Some(x),
            (None, Some(y)) => Some(y),
            (Some(x), Some(y)) => Some(x.add(y)),
        };
        let updated = match (self.updated, rhs.updated) {
            (None, None) => None,
            (Some(x), None) => Some(x),
            (None, Some(y)) => Some(y),
            (Some(x), Some(y)) => Some(x.add(y)),
        };
        let deleted = match (self.deleted, rhs.deleted) {
            (None, None) => None,
            (Some(x), None) => Some(x),
            (None, Some(y)) => Some(y),
            (Some(x), Some(y)) => Some(x.add(y)),
        };
        let mut errors = self.errors;
        let mut tail = rhs.errors;
        errors.append(&mut tail);
        CrudResultStats { created, read, updated, deleted, errors }
    }

    /// Confirm that two results agree; the comparison covers the created,
    /// updated and deleted buckets and the error lists.
    pub fn assert_eq(&self, rhs: &Self)
        requires
            self.deq(rhs),
    {
        let d = self.diff(rhs, None);
        d.assert_empty();
    }
}

/// Compare two optional counters, an absent side reading as zero.
fn opt_diff<T: Stats>(a: &Option<T>, b: &Option<T>, name: Option<&str>) -> (r: Difference)
    ensures
        vclean(r.dv()) == (CrudResultStats::<T>::opt_or_zero(CrudResultStats::<T>::opt_view(a))
            == CrudResultStats::<T>::opt_or_zero(CrudResultStats::<T>::opt_view(b))),
{
    match (a, b) {
        (None, None) => {
            let base = Difference::Empty;
            base.opt_tag(name)
        },
        (Some(l), None) => {
            let z = T::zero();
            let d = l.diff(&z, None);
            proof {
                T::lemma_deq_is_sv(l, &z);
            }
            d.opt_tag(name)
        },
        (None, Some(rr)) => {
            let z = T::zero();
            let d = z.diff(rr, None);
            proof {
                T::lemma_deq_is_sv(&z, rr);
            }
            d.opt_tag(name)
        },
        (Some(l), Some(rr)) => {
            let d = l.diff(rr, None);
            proof {
                T::lemma_deq_is_sv(l, rr);
            }
            d.opt_tag(name)
        },
    }
}

impl<T: Stats> Diff for CrudResultStats<T> {
    open spec fn deq(&self, rhs: &Self) -> bool {
        Self::opt_or_zero(self.csv().created) == Self::opt_or_zero(rhs.csv().created)
            && Self::opt_or_zero(self.csv().updated) == Self::opt_or_zero(rhs.csv().updated)
            && Self::opt_or_zero(self.csv().deleted) == Self::opt_or_zero(rhs.csv().deleted)
            && errs_deq(self.csv().errors, rhs.csv().errors)
    }

    fn diff(&self, rhs: &Self, name: Option<&str>) -> (r: Difference) {
        let mut d = Difference::new();
        d = d.add(opt_diff(&self.created, &rhs.created, Some("created")));
        d = d.add(opt_diff(&self.updated, &rhs.updated, Some("updated")));
        d = d.add(opt_diff(&self.deleted, &rhs.deleted, Some("deleted")));
        d = d.add(errs_diff(&self.errors, &rhs.errors, Some("failed")));
        d
    }
}

} // verus!
