//! Association tables with unique keys, the backing of every index in the
//! store.  Contracts speak over the table's entry sequence; the key-uniqueness
//! invariant makes lookups functions of that sequence.

use vstd::prelude::*;

use crate::model::guid::Guid;

verus! {

/// A table keyed by identifier.
pub struct GuidMap<V> {
    pub entries: Vec<(Guid, V)>,
}

impl<V> GuidMap<V> {
    /// The entries, in insertion order.
    pub open spec fn sv(&self) -> Seq<(Guid, V)> {
        self.entries@
    }

    /// Keys are pairwise distinct.
    pub open spec fn wf(&self) -> bool {
        forall|i: int, j: int|
            0 <= i < j < self.sv().len() ==> (#[trigger] self.sv()[i]).0 != (#[trigger] self.sv()[j]).0
    }

    /// Whether some entry carries the key.
    pub open spec fn spec_has(&self, g: Guid) -> bool {
        exists|i: int| 0 <= i < self.sv().len() && (#[trigger] self.sv()[i]).0 == g
    }

    /// The position of the entry carrying the key.
    pub open spec fn index_of(&self, g: Guid) -> int {
        choose|i: int| 0 <= i < self.sv().len() && (#[trigger] self.sv()[i]).0 == g
    }

    /// The value stored under the key.
    pub open spec fn spec_get(&self, g: Guid) -> V {
        self.sv()[self.index_of(g)].1
    }

    /// The set of keys.
    pub open spec fn key_set(&self) -> Set<Guid> {
        Set::new(|g: Guid| self.spec_has(g))
    }

    pub fn new() -> (r: Self)
        ensures
            r.sv() =~= Seq::<(Guid, V)>::empty(),
            r.wf(),
    {
        GuidMap { entries: Vec::new() }
    }

    pub fn len(&self) -> (r: usize)
        ensures
            r == self.sv().len(),
    {
        self.entries.len()
    }

    pub fn contains(&self, g: Guid) -> (r: bool)
        ensures
            r == self.spec_has(g),
    {
        let mut i: usize = 0;
        while i < self.entries.len()
            invariant
                i <= self.sv().len(),
                forall|k: int| 0 <= k < i ==> (#[trigger] self.sv()[k]).0 != g,
            decreases self.sv().len() - i,
        {
            if self.entries[i].0 == g {
                return true;
            }
            i = i + 1;
        }
        false
    }

    pub fn get(&self, g: Guid) -> (r: Option<&V>)
        requires
            self.wf(),
        ensures
            match r {
                Some(v) => self.spec_has(g) && *v == self.spec_get(g),
                None => !self.spec_has(g),
            },
    {
        let mut i: usize = 0;
        while i < self.entries.len()
            invariant
                self.wf(),
                i <= self.sv().len(),
                forall|k: int| 0 <= k < i ==> (#[trigger] self.sv()[k]).0 != g,
            decreases self.sv().len() - i,
        {
            if self.entries[i].0 == g {
                proof {
                    self.lemma_index_unique(i as int, g);
                }
                return Some(&self.entries[i].1);
            }
            i = i + 1;
        }
        None
    }

    /// Append a binding for a key that is not yet present.
    pub fn insert(&mut self, g: Guid, v: V)
        requires
            !old(self).spec_has(g),
        ensures
            final(self).sv() =~= old(self).sv().push((g, v)),
            old(self).wf() ==> final(self).wf(),
            final(self).spec_has(g),
            forall|h: Guid| final(self).spec_has(h) == (old(self).spec_has(h) || h == g),
    {
        self.entries.push((g, v));
        proof {
            assert forall|h: Guid| self.spec_has(h) == (old(self).spec_has(h) || h == g) by {
                if old(self).spec_has(h) {
                    let i = choose|i: int|
                        0 <= i < old(self).sv().len() && (#[trigger] old(self).sv()[i]).0 == h;
                    assert(self.sv()[i].0 == h);
                } else if h == g {
                    assert(self.sv()[self.sv().len() - 1].0 == h);
                } else if self.spec_has(h) {
                    let i = choose|i: int|
                        0 <= i < self.sv().len() && (#[trigger] self.sv()[i]).0 == h;
                    assert(0 <= i < old(self).sv().len());
                    assert(old(self).sv()[i].0 == h);
                }
            }
        }
    }

    /// Remove and return the binding of a present key.
    pub fn remove(&mut self, g: Guid) -> (r: V)
        requires
            old(self).wf(),
            old(self).spec_has(g),
        ensures
            final(self).wf(),
            r == old(self).spec_get(g),
            final(self).sv() =~= old(self).sv().remove(old(self).index_of(g)),
            !final(self).spec_has(g),
            forall|h: Guid| h != g ==> final(self).spec_has(h) == old(self).spec_has(h),
    {
        let ghost old_self = *old(self);
        let n = self.entries.len();
        let mut i: usize = 0;
        let mut idx: usize = 0;
        let mut found = false;
        while i < n
            invariant
                *self == old_self,
                n == self.sv().len(),
                i <= n,
                found ==> idx < n && self.sv()[idx as int].0 == g,
                !found ==> forall|k: int| 0 <= k < i ==> (#[trigger] self.sv()[k]).0 != g,
            decreases n - i,
        {
            if !found && self.entries[i].0 == g {
                found = true;
                idx = i;
            }
            i = i + 1;
        }
        proof {
            if !found {
                let w = self.index_of(g);
                assert(self.sv()[w].0 == g);
                assert(false);
            }
            self.lemma_index_unique(idx as int, g);
        }
        let i = idx;
        let entry = self.entries.remove(i);
        proof {
            assert forall|h: Guid| h != g implies self.spec_has(h) == old_self.spec_has(h) by {
                let s_old = old_self.sv();
                let s_new = self.sv();
                if old_self.spec_has(h) {
                    let k = choose|k: int| 0 <= k < s_old.len() && (#[trigger] s_old[k]).0 == h;
                    if k < i {
                        assert(s_new[k].0 == h);
                    } else {
                        assert(k > i);
                        assert(s_new[k - 1].0 == h);
                    }
                } else if self.spec_has(h) {
                    let k = choose|k: int| 0 <= k < s_new.len() && (#[trigger] s_new[k]).0 == h;
                    if k < i {
                        assert(s_old[k].0 == h);
                    } else {
                        assert(s_old[k + 1].0 == h);
                    }
                }
            }
            if self.spec_has(g) {
                let k = choose|k: int| 0 <= k < self.sv().len() && (#[trigger] self.sv()[k]).0 == g;
                if k < i {
                    assert(old_self.sv()[k].0 == g);
                } else {
                    assert(old_self.sv()[k + 1].0 == g);
                }
                assert(false);
            }
        }
        entry.1
    }

    /// With unique keys, any entry holding the key sits at `index_of`.
    pub proof fn lemma_index_unique(&self, i: int, g: Guid)
        requires
            self.wf(),
            0 <= i < self.sv().len(),
            self.sv()[i].0 == g,
        ensures
            self.index_of(g) == i,
            self.spec_has(g),
            self.spec_get(g) == self.sv()[i].1,
    {
        assert(self.spec_has(g));
        let w = self.index_of(g);
        assert(self.sv()[w].0 == g);
        if w < i {
            assert(self.sv()[w].0 != self.sv()[i].0);
        } else if i < w {
            assert(self.sv()[i].0 != self.sv()[w].0);
        }
    }
}

/// A table keyed by label text; keys are unique up to their character
/// sequences.
pub struct StrMap<V> {
    pub entries: Vec<(String, V)>,
}

impl<V> StrMap<V> {
    /// The entries, in insertion order.
    pub open spec fn sv(&self) -> Seq<(String, V)> {
        self.entries@
    }

    /// Key texts are pairwise distinct.
    pub open spec fn wf(&self) -> bool {
        forall|i: int, j: int|
            0 <= i < j < self.sv().len() ==> (#[trigger] self.sv()[i]).0@ != (#[trigger] self.sv()[j]).0@
    }

    /// Whether some entry carries the key text.
    pub open spec fn spec_has(&self, k: Seq<char>) -> bool {
        exists|i: int| 0 <= i < self.sv().len() && (#[trigger] self.sv()[i]).0@ == k
    }

    /// The position of the entry carrying the key text.
    pub open spec fn index_of(&self, k: Seq<char>) -> int {
        choose|i: int| 0 <= i < self.sv().len() && (#[trigger] self.sv()[i]).0@ == k
    }

    /// The value stored under the key text.
    pub open spec fn spec_get(&self, k: Seq<char>) -> V {
        self.sv()[self.index_of(k)].1
    }

    /// The set of key texts.
    pub open spec fn key_set(&self) -> Set<Seq<char>> {
        Set::new(|k: Seq<char>| self.spec_has(k))
    }

    pub fn new() -> (r: Self)
        ensures
            r.sv() =~= Seq::<(String, V)>::empty(),
            r.wf(),
    {
        StrMap { entries: Vec::new() }
    }

    pub fn len(&self) -> (r: usize)
        ensures
            r == self.sv().len(),
    {
        self.entries.len()
    }

    pub fn contains(&self, k: &str) -> (r: bool)
        ensures
            r == self.spec_has(k@),
    {
        let key: String = k.to_owned();
        let mut i: usize = 0;
        while i < self.entries.len()
            invariant
                key@ == k@,
                i <= self.sv().len(),
                forall|j: int| 0 <= j < i ==> (#[trigger] self.sv()[j]).0@ != k@,
            decreases self.sv().len() - i,
        {
            if self.entries[i].0 == key {
                return true;
            }
            i = i + 1;
        }
        false
    }

    pub fn get(&self, k: &str) -> (r: Option<&V>)
        requires
            self.wf(),
        ensures
            match r {
                Some(v) => self.spec_has(k@) && *v == self.spec_get(k@),
                None => !self.spec_has(k@),
            },
    {
        let key: String = k.to_owned();
        let mut i: usize = 0;
        while i < self.entries.len()
            invariant
                self.wf(),
                key@ == k@,
                i <= self.sv().len(),
                forall|j: int| 0 <= j < i ==> (#[trigger] self.sv()[j]).0@ != k@,
            decreases self.sv().len() - i,
        {
            if self.entries[i].0 == key {
                proof {
                    self.lemma_index_unique(i as int, k@);
                }
                return Some(&self.entries[i].1);
            }
            i = i + 1;
        }
        None
    }

    /// Append a binding for a key text that is not yet present.
    pub fn insert(&mut self, k: String, v: V)
        requires
            !old(self).spec_has(k@),
        ensures
            final(self).sv() =~= old(self).sv().push((k, v)),
            old(self).wf() ==> final(self).wf(),
            final(self).spec_has(k@),
            forall|h: Seq<char>| final(self).spec_has(h) == (old(self).spec_has(h) || h == k@),
    {
        let ghost kv = k@;
        self.entries.push((k, v));
        proof {
            assert forall|h: Seq<char>| self.spec_has(h) == (old(self).spec_has(h) || h == kv) by {
                if old(self).spec_has(h) {
                    let i = choose|i: int|
                        0 <= i < old(self).sv().len() && (#[trigger] old(self).sv()[i]).0@ == h;
                    assert(self.sv()[i].0@ == h);
                } else if h == kv {
                    assert(self.sv()[self.sv().len() - 1].0@ == h);
                } else if self.spec_has(h) {
                    let i = choose|i: int|
                        0 <= i < self.sv().len() && (#[trigger] self.sv()[i]).0@ == h;
                    assert(0 <= i < old(self).sv().len());
                    assert(old(self).sv()[i].0@ == h);
                }
            }
        }
    }

    /// Remove and return the binding of a present key text, by position.
    pub fn remove_at(&mut self, i: usize) -> (r: (String, V))
        requires
            old(self).wf(),
            i < old(self).sv().len(),
        ensures
            final(self).wf(),
            r == old(self).sv()[i as int],
            final(self).sv() =~= old(self).sv().remove(i as int),
    {
        let entry = self.entries.remove(i);
        entry
    }

    /// Find the position of a key text.
    pub fn find(&self, k: &str) -> (r: Option<usize>)
        ensures
            match r {
                Some(i) => i < self.sv().len() && self.sv()[i as int].0@ == k@,
                None => !self.spec_has(k@),
            },
    {
        let key: String = k.to_owned();
        let mut i: usize = 0;
        while i < self.entries.len()
            invariant
                key@ == k@,
                i <= self.sv().len(),
                forall|j: int| 0 <= j < i ==> (#[trigger] self.sv()[j]).0@ != k@,
            decreases self.sv().len() - i,
        {
            if self.entries[i].0 == key {
                return Some(i);
            }
            i = i + 1;
        }
        None
    }

    /// With unique key texts, any entry holding the text sits at `index_of`.
    pub proof fn lemma_index_unique(&self, i: int, k: Seq<char>)
        requires
            self.wf(),
            0 <= i < self.sv().len(),
            self.sv()[i].0@ == k,
        ensures
            self.index_of(k) == i,
            self.spec_has(k),
            self.spec_get(k) == self.sv()[i].1,
    {
        assert(self.spec_has(k));
        let w = self.index_of(k);
        assert(self.sv()[w].0@ == k);
        if w < i {
            assert(self.sv()[w].0@ != self.sv()[i].0@);
        } else if i < w {
            assert(self.sv()[i].0@ != self.sv()[w].0@);
        }
    }
}


/// Facts about removing the entry at `i` and appending a new entry under
/// the same key text: the table keeps unique keys, the key's binding is the
/// appended value, and every other binding is untouched.
pub proof fn lemma_strmap_replace<V>(before: StrMap<V>, mid: StrMap<V>, after: StrMap<V>, i: int)
    requires
        before.wf(),
        0 <= i < before.sv().len(),
        mid.sv() == before.sv().remove(i),
        after.sv().len() > 0,
        after.sv() == mid.sv().push((before.sv()[i].0, after.sv().last().1)),
        after.sv().last().0 == before.sv()[i].0,
    ensures
        after.wf(),
        forall|k: Seq<char>|
            #[trigger] after.spec_has(k) == (before.spec_has(k) || k == before.sv()[i].0@),
        forall|k: Seq<char>|
            #[trigger] after.spec_has(k) && k != before.sv()[i].0@ ==> before.spec_has(k)
                && after.spec_get(k) == before.spec_get(k),
        after.spec_get(before.sv()[i].0@) == after.sv().last().1,
{
    let key = before.sv()[i].0@;
    lemma_strmap_remove(before, mid, i);
    assert(after.wf()) by {
        assert forall|p: int, q: int|
            0 <= p < q < after.sv().len() implies (#[trigger] after.sv()[p]).0@ != (
        #[trigger] after.sv()[q]).0@ by {
            assert(after.sv()[p] == mid.sv()[p]);
            if q < after.sv().len() - 1 {
                assert(after.sv()[q] == mid.sv()[q]);
            } else {
                if after.sv()[p].0@ == key {
                    assert(mid.spec_has(key));
                }
            }
        }
    }
    assert(after.sv()[after.sv().len() - 1].0@ == key);
    after.lemma_index_unique(after.sv().len() - 1, key);
    assert forall|k: Seq<char>|
        #[trigger] after.spec_has(k) == (before.spec_has(k) || k == key) && (after.spec_has(k)
        && k != key ==> before.spec_has(k) && after.spec_get(k) == before.spec_get(k)) by {
        if k == key {
            assert(after.spec_has(k));
            if !before.spec_has(k) {
                assert(before.sv()[i].0@ == k);
            }
        } else {
            if before.spec_has(k) {
                let j = choose|j: int|
                    0 <= j < before.sv().len() && (#[trigger] before.sv()[j]).0@ == k;
                let mj = if j < i {
                    j
                } else {
                    j - 1
                };
                assert(j != i);
                assert(mid.sv()[mj] == before.sv()[j]);
                assert(after.sv()[mj] == mid.sv()[mj]);
                assert(after.spec_has(k));
                after.lemma_index_unique(mj, k);
                before.lemma_index_unique(j, k);
            }
            if after.spec_has(k) {
                let j = choose|j: int|
                    0 <= j < after.sv().len() && (#[trigger] after.sv()[j]).0@ == k;
                assert(j < after.sv().len() - 1);
                assert(after.sv()[j] == mid.sv()[j]);
                let bj = if j < i {
                    j
                } else {
                    j + 1
                };
                assert(mid.sv()[j] == before.sv()[bj]);
                assert(before.spec_has(k));
            }
        }
    }
}

/// Facts about removing the entry at `i`: unique keys are kept, the removed
/// key is gone, and every other binding is untouched.
pub proof fn lemma_strmap_remove<V>(before: StrMap<V>, mid: StrMap<V>, i: int)
    requires
        before.wf(),
        0 <= i < before.sv().len(),
        mid.sv() == before.sv().remove(i),
    ensures
        mid.wf(),
        !mid.spec_has(before.sv()[i].0@),
        forall|k: Seq<char>|
            k != before.sv()[i].0@ ==> #[trigger] mid.spec_has(k) == before.spec_has(k),
        forall|k: Seq<char>|
            k != before.sv()[i].0@ && mid.spec_has(k) ==> #[trigger] mid.spec_get(k)
                == before.spec_get(k),
{
    let key = before.sv()[i].0@;
    assert(mid.wf()) by {
        assert forall|p: int, q: int|
            0 <= p < q < mid.sv().len() implies (#[trigger] mid.sv()[p]).0@ != (
        #[trigger] mid.sv()[q]).0@ by {
            let sp = if p < i {
                p
            } else {
                p + 1
            };
            let sq = if q < i {
                q
            } else {
                q + 1
            };
            assert(mid.sv()[p] == before.sv()[sp]);
            assert(mid.sv()[q] == before.sv()[sq]);
        }
    }
    if mid.spec_has(key) {
        let j = choose|j: int| 0 <= j < mid.sv().len() && (#[trigger] mid.sv()[j]).0@ == key;
        if j < i {
            assert(mid.sv()[j] == before.sv()[j]);
        } else {
            assert(mid.sv()[j] == before.sv()[j + 1]);
        }
        assert(false);
    }
    assert forall|k: Seq<char>|
        k != key implies #[trigger] mid.spec_has(k) == before.spec_has(k) && (mid.spec_has(k)
        ==> mid.spec_get(k) == before.spec_get(k)) by {
        if before.spec_has(k) {
            let j = choose|j: int|
                0 <= j < before.sv().len() && (#[trigger] before.sv()[j]).0@ == k;
            let mj = if j < i {
                j
            } else {
                j - 1
            };
            assert(j != i);
            assert(mid.sv()[mj] == before.sv()[j]);
            assert(mid.spec_has(k));
            mid.lemma_index_unique(mj, k);
            before.lemma_index_unique(j, k);
        }
        if mid.spec_has(k) {
            let j = choose|j: int| 0 <= j < mid.sv().len() && (#[trigger] mid.sv()[j]).0@ == k;
            let bj = if j < i {
                j
            } else {
                j + 1
            };
            assert(mid.sv()[j] == before.sv()[bj]);
            assert(before.spec_has(k));
        }
    }
}


/// Whether an identity-keyed pair sequence carries a key.
pub open spec fn pairs_has<V>(s: Seq<(Guid, V)>, g: Guid) -> bool {
    exists|i: int| 0 <= i < s.len() && (#[trigger] s[i]).0 == g
}

/// The position of the pair carrying the key.
pub open spec fn pairs_index_of<V>(s: Seq<(Guid, V)>, g: Guid) -> int {
    choose|i: int| 0 <= i < s.len() && (#[trigger] s[i]).0 == g
}

/// The value stored under the key.
pub open spec fn pairs_get<V>(s: Seq<(Guid, V)>, g: Guid) -> V {
    s[pairs_index_of(s, g)].1
}

/// Keys are pairwise distinct.
pub open spec fn pairs_wf<V>(s: Seq<(Guid, V)>) -> bool {
    forall|i: int, j: int| 0 <= i < j < s.len() ==> (#[trigger] s[i]).0 != (#[trigger] s[j]).0
}

/// With unique keys, any pair holding the key sits at `pairs_index_of`.
pub proof fn lemma_pairs_index_unique<V>(s: Seq<(Guid, V)>, i: int, g: Guid)
    requires
        pairs_wf(s),
        0 <= i < s.len(),
        s[i].0 == g,
    ensures
        pairs_index_of(s, g) == i,
        pairs_has(s, g),
        pairs_get(s, g) == s[i].1,
{
    assert(pairs_has(s, g));
    let w = pairs_index_of(s, g);
    assert(s[w].0 == g);
    if w < i {
        assert(s[w].0 != s[i].0);
    } else if i < w {
        assert(s[i].0 != s[w].0);
    }
}

/// Appending a fresh key extends the keyed view of a pair sequence.
pub proof fn lemma_pairs_push<V>(s: Seq<(Guid, V)>, g: Guid, v: V)
    requires
        !pairs_has(s, g),
    ensures
        pairs_wf(s) ==> pairs_wf(s.push((g, v))),
        forall|h: Guid| pairs_has(s.push((g, v)), h) == (pairs_has(s, h) || h == g),
        pairs_wf(s) ==> pairs_get(s.push((g, v)), g) == v,
        pairs_wf(s) ==> (forall|h: Guid|
            h != g && pairs_has(s, h) ==> #[trigger] pairs_get(s.push((g, v)), h) == pairs_get(
                s,
                h,
            )),
{
    let t = s.push((g, v));
    assert(t[s.len() as int] == (g, v));
    if pairs_wf(s) {
        assert forall|p: int, q: int|
            0 <= p < q < t.len() implies (#[trigger] t[p]).0 != (#[trigger] t[q]).0 by {
            assert(t[p] == s[p]);
            if q < s.len() {
                assert(t[q] == s[q]);
            }
        }
    }
    assert forall|h: Guid| pairs_has(t, h) == (pairs_has(s, h) || h == g) by {
        if pairs_has(s, h) {
            let i = choose|i: int| 0 <= i < s.len() && (#[trigger] s[i]).0 == h;
            assert(t[i].0 == h);
        }
        if h == g {
            assert(t[s.len() as int].0 == h);
        }
        if pairs_has(t, h) && h != g {
            let i = choose|i: int| 0 <= i < t.len() && (#[trigger] t[i]).0 == h;
            assert(0 <= i < s.len());
            assert(s[i].0 == h);
        }
    }
    if pairs_wf(s) {
        assert(pairs_wf(t));
        lemma_pairs_index_unique(t, s.len() as int, g);
        assert forall|h: Guid| h != g && pairs_has(s, h) implies #[trigger] pairs_get(t, h)
            == pairs_get(s, h) by {
            let i = choose|i: int| 0 <= i < s.len() && (#[trigger] s[i]).0 == h;
            lemma_pairs_index_unique(s, i, h);
            assert(t[i].0 == h);
            lemma_pairs_index_unique(t, i, h);
        }
    }
}

/// Whether a pair vector carries a key.
pub fn pairs_contains<V>(v: &Vec<(Guid, V)>, g: Guid) -> (r: bool)
    ensures
        r == pairs_has(v@, g),
{
    let mut i: usize = 0;
    while i < v.len()
        invariant
            i <= v@.len(),
            forall|k: int| 0 <= k < i ==> (#[trigger] v@[k]).0 != g,
        decreases v@.len() - i,
    {
        if v[i].0 == g {
            return true;
        }
        i = i + 1;
    }
    false
}

/// The value a pair vector stores under a key, if any.
pub fn pairs_lookup<V>(v: &Vec<(Guid, V)>, g: Guid) -> (r: Option<&V>)
    requires
        pairs_wf(v@),
    ensures
        match r {
            Some(val) => pairs_has(v@, g) && *val == pairs_get(v@, g),
            None => !pairs_has(v@, g),
        },
{
    let mut i: usize = 0;
    while i < v.len()
        invariant
            pairs_wf(v@),
            i <= v@.len(),
            forall|k: int| 0 <= k < i ==> (#[trigger] v@[k]).0 != g,
        decreases v@.len() - i,
    {
        if v[i].0 == g {
            proof {
                lemma_pairs_index_unique(v@, i as int, g);
            }
            return Some(&v[i].1);
        }
        i = i + 1;
    }
    None
}

/// The position of a key in a pair vector, if present.
pub fn pairs_find<V>(v: &Vec<(Guid, V)>, g: Guid) -> (r: Option<usize>)
    ensures
        match r {
            Some(i) => i < v@.len() && v@[i as int].0 == g,
            None => !pairs_has(v@, g),
        },
{
    let mut i: usize = 0;
    while i < v.len()
        invariant
            i <= v@.len(),
            forall|k: int| 0 <= k < i ==> (#[trigger] v@[k]).0 != g,
        decreases v@.len() - i,
    {
        if v[i].0 == g {
            return Some(i);
        }
        i = i + 1;
    }
    None
}

} // verus!
