//! Strictly ordered sequences of keys, and a map that keeps its keys in that order.
//!
//! Every key type embeds into the integers by [`Ranked::rank`]; a sequence is sorted when
//! its ranks strictly increase, so a sorted sequence is determined by the set it holds.

use vstd::prelude::*;

verus! {

/// A key with a total order, given as an order embedding into the integers.
pub trait Ranked: Copy {
    /// The position of the key in its order.
    spec fn rank(self) -> int;

    /// Distinct keys have distinct ranks.
    proof fn rank_injective(a: Self, b: Self)
        requires
            a.rank() == b.rank(),
        ensures
            a == b,
    ;

    /// Whether `self` comes strictly before `other`.
    fn precedes(&self, other: &Self) -> (before: bool)
        ensures
            before == (self.rank() < other.rank()),
    ;

    /// Whether the two keys are the same.
    fn same(&self, other: &Self) -> (equal: bool)
        ensures
            equal == (*self == *other),
    ;
}

/// The keys of `s` strictly increase.
pub open spec fn sorted<K: Ranked>(s: Seq<K>) -> bool {
    forall|i: int, j: int| 0 <= i < j < s.len() ==> (#[trigger] s[i]).rank() < (#[trigger] s[j]).rank()
}

/// `s` lists exactly the keys of `set`, in order.
pub open spec fn lists<K: Ranked>(s: Seq<K>, set: Set<K>) -> bool {
    &&& sorted(s)
    &&& s.to_set() =~= set
}

pub proof fn lemma_sorted_no_duplicates<K: Ranked>(s: Seq<K>)
    requires
        sorted(s),
    ensures
        s.no_duplicates(),
        s.to_set().finite(),
        s.to_set().len() == s.len(),
{
    assert forall|i: int, j: int| 0 <= i < s.len() && 0 <= j < s.len() && i != j implies s[i]
        != s[j] by {
        if i < j {
            assert(s[i].rank() < s[j].rank());
        } else {
            assert(s[j].rank() < s[i].rank());
        }
    }
    s.unique_seq_to_set();
}

/// A sorted sequence is determined by the set of its keys.
pub proof fn lemma_sorted_unique<K: Ranked>(a: Seq<K>, b: Seq<K>)
    requires
        sorted(a),
        sorted(b),
        a.to_set() =~= b.to_set(),
    ensures
        a =~= b,
    decreases a.len(),
{
    lemma_sorted_no_duplicates(a);
    lemma_sorted_no_duplicates(b);
    if a.len() > 0 {
        let la = a.last();
        let lb = b.last();
        assert(a.to_set().contains(la));
        assert(b.contains(la));
        assert(b.to_set().contains(lb));
        assert(a.contains(lb));
        let i = choose|i: int| 0 <= i < b.len() && b[i] == la;
        let j = choose|j: int| 0 <= j < a.len() && a[j] == lb;
        if la != lb {
            assert(b[i].rank() < b[b.len() - 1].rank());
            assert(a[j].rank() < a[a.len() - 1].rank());
        }
        let a1 = a.drop_last();
        let b1 = b.drop_last();
        assert forall|x: K| a1.to_set().contains(x) implies b1.to_set().contains(x) by {
            let p = choose|p: int| 0 <= p < a1.len() && a1[p] == x;
            assert(a[p] == x);
            assert(a[p].rank() < a[a.len() - 1].rank());
            assert(a.to_set().contains(x));
            assert(b.contains(x));
            let q = choose|q: int| 0 <= q < b.len() && b[q] == x;
            assert(q != b.len() - 1);
            assert(b1[q] == x);
        }
        assert forall|x: K| b1.to_set().contains(x) implies a1.to_set().contains(x) by {
            let p = choose|p: int| 0 <= p < b1.len() && b1[p] == x;
            assert(b[p] == x);
            assert(b[p].rank() < b[b.len() - 1].rank());
            assert(b.to_set().contains(x));
            assert(a.contains(x));
            let q = choose|q: int| 0 <= q < a.len() && a[q] == x;
            assert(q != a.len() - 1);
            assert(a1[q] == x);
        }
        lemma_sorted_unique(a1, b1);
        assert(a =~= a1.push(la));
        assert(b =~= b1.push(lb));
    } else {
        if b.len() > 0 {
            assert(b.to_set().contains(b[0]));
            assert(a.contains(b[0]));
        }
    }
}

/// The keys of a finite set, in order.
pub open spec fn in_order<K: Ranked>(set: Set<K>) -> Seq<K> {
    choose|s: Seq<K>| lists(s, set)
}

/// A sorted listing of a set is its only one.
pub proof fn lemma_in_order<K: Ranked>(s: Seq<K>, set: Set<K>)
    requires
        lists(s, set),
    ensures
        in_order(set) == s,
{
    lemma_sorted_unique(s, in_order(set));
}

spec fn insertion_point<K: Ranked>(s: Seq<K>, k: K) -> int
    decreases s.len(),
{
    if s.len() == 0 || s.last().rank() < k.rank() {
        s.len() as int
    } else {
        insertion_point(s.drop_last(), k)
    }
}

proof fn lemma_insertion_point<K: Ranked>(s: Seq<K>, k: K)
    requires
        sorted(s),
        !s.contains(k),
    ensures
        0 <= insertion_point(s, k) <= s.len(),
        forall|j: int| 0 <= j < insertion_point(s, k) ==> (#[trigger] s[j]).rank() < k.rank(),
        forall|j: int| insertion_point(s, k) <= j < s.len() ==> k.rank() < (#[trigger] s[j]).rank(),
    decreases s.len(),
{
    if s.len() > 0 {
        if s.last().rank() < k.rank() {
            assert forall|j: int| 0 <= j < s.len() implies (#[trigger] s[j]).rank() < k.rank() by {
                assert(j == s.len() - 1 || s[j].rank() < s[s.len() - 1].rank());
            }
        } else {
            let t = s.drop_last();
            if s.last().rank() == k.rank() {
                K::rank_injective(s.last(), k);
                assert(s[s.len() - 1] == k);
            }
            assert forall|j: int| 0 <= j < t.len() implies t[j] != k by {
                assert(s[j] == t[j]);
            }
            lemma_insertion_point(t, k);
            assert forall|j: int| 0 <= j < insertion_point(s, k) implies (#[trigger] s[j]).rank()
                < k.rank() by {
                assert(t[j] == s[j]);
            }
            assert forall|j: int| insertion_point(s, k) <= j < s.len() implies k.rank()
                < (#[trigger] s[j]).rank() by {
                if j < t.len() {
                    assert(t[j] == s[j]);
                }
            }
        }
    }
}

/// Every finite set has a sorted listing.
pub proof fn lemma_in_order_lists<K: Ranked>(set: Set<K>)
    requires
        set.finite(),
    ensures
        lists(in_order(set), set),
        in_order(set).len() == set.len(),
    decreases set.len(),
{
    if set.len() == 0 {
        let s = Seq::<K>::empty();
        assert(set =~= Set::empty());
        assert(s.to_set() =~= set);
        assert(lists(s, set));
    } else {
        let k = set.choose();
        let rest = set.remove(k);
        lemma_in_order_lists(rest);
        let s = in_order(rest);
        assert(!s.contains(k)) by {
            if s.contains(k) {
                assert(s.to_set().contains(k));
            }
        }
        lemma_insertion_point(s, k);
        let i = insertion_point(s, k);
        lemma_insert_sorted(s, i, k);
        assert(s.insert(i, k).to_set() =~= set);
        assert(lists(s.insert(i, k), set));
    }
    lemma_sorted_no_duplicates(in_order(set));
}

/// Where `k` stands in `keys`, or where it would be inserted.
pub fn find<K: Ranked>(keys: &[K], k: &K) -> (r: Result<usize, usize>)
    requires
        sorted(keys@),
    ensures
        match r {
            Ok(i) => i < keys@.len() && keys@[i as int] == *k,
            Err(i) => {
                &&& i <= keys@.len()
                &&& !keys@.contains(*k)
                &&& forall|j: int| 0 <= j < i ==> (#[trigger] keys@[j]).rank() < k.rank()
                &&& forall|j: int| i <= j < keys@.len() ==> k.rank() < (#[trigger] keys@[j]).rank()
            },
        },
{
    let mut lo: usize = 0;
    let mut hi: usize = keys.len();
    while lo < hi
        invariant
            sorted(keys@),
            0 <= lo <= hi <= keys@.len(),
            forall|j: int| 0 <= j < lo ==> (#[trigger] keys@[j]).rank() < k.rank(),
            forall|j: int| hi <= j < keys@.len() ==> k.rank() < (#[trigger] keys@[j]).rank(),
        decreases hi - lo,
    {
        let mid: usize = lo + (hi - lo) / 2;
        if keys[mid].precedes(k) {
            lo = mid + 1;
        } else if k.precedes(&keys[mid]) {
            hi = mid;
        } else {
            proof {
                K::rank_injective(keys@[mid as int], *k);
            }
            return Ok(mid);
        }
    }
    Err(lo)
}

/// Whether `k` is one of `keys`.
pub fn has<K: Ranked>(keys: &[K], k: &K) -> (r: bool)
    requires
        sorted(keys@),
    ensures
        r == keys@.contains(*k),
{
    match find(keys, k) {
        Ok(i) => {
            assert(keys@[i as int] == *k);
            true
        },
        Err(_) => false,
    }
}

pub proof fn lemma_insert_sorted<K: Ranked>(s: Seq<K>, i: int, k: K)
    requires
        sorted(s),
        0 <= i <= s.len(),
        forall|j: int| 0 <= j < i ==> (#[trigger] s[j]).rank() < k.rank(),
        forall|j: int| i <= j < s.len() ==> k.rank() < (#[trigger] s[j]).rank(),
    ensures
        sorted(s.insert(i, k)),
        s.insert(i, k).to_set() =~= s.to_set().insert(k),
{
    let t = s.insert(i, k);
    assert forall|x: K| s.to_set().insert(k).contains(x) implies t.to_set().contains(x) by {
        if x == k {
            assert(t[i] == k);
        } else {
            let p = choose|p: int| 0 <= p < s.len() && s[p] == x;
            if p < i {
                assert(t[p] == x);
            } else {
                assert(t[p + 1] == x);
            }
        }
    }
    assert forall|x: K| t.to_set().contains(x) implies s.to_set().insert(k).contains(x) by {
        let p = choose|p: int| 0 <= p < t.len() && t[p] == x;
        if p < i {
            assert(s[p] == x);
        } else if p > i {
            assert(s[p - 1] == x);
        }
    }
}

pub proof fn lemma_remove_sorted<K: Ranked>(s: Seq<K>, i: int)
    requires
        sorted(s),
        0 <= i < s.len(),
    ensures
        sorted(s.remove(i)),
        s.remove(i).to_set() =~= s.to_set().remove(s[i]),
        !s.remove(i).contains(s[i]),
{
    let t = s.remove(i);
    assert forall|x: K| s.to_set().remove(s[i]).contains(x) implies t.to_set().contains(x) by {
        let p = choose|p: int| 0 <= p < s.len() && s[p] == x;
        if p < i {
            assert(t[p] == x);
        } else {
            assert(t[p - 1] == x);
        }
    }
    assert forall|x: K| t.to_set().contains(x) implies s.to_set().remove(s[i]).contains(x) by {
        let p = choose|p: int| 0 <= p < t.len() && t[p] == x;
        if p < i {
            assert(s[p] == x);
            assert(s[p].rank() < s[i].rank());
        } else {
            assert(s[p + 1] == x);
            assert(s[i].rank() < s[p + 1].rank());
        }
    }
    assert(!t.to_set().contains(s[i]));
}

/// Taking one more key adds just that key to the set.
pub proof fn lemma_take_step<K>(s: Seq<K>, i: int)
    requires
        0 <= i < s.len(),
    ensures
        s.take(i + 1).to_set() =~= s.take(i).to_set().insert(s[i]),
        s.take(i + 1) =~= s.take(i).push(s[i]),
{
    let before = s.take(i);
    let after = s.take(i + 1);
    assert forall|x: K| before.to_set().insert(s[i]).contains(x) implies after.to_set().contains(
        x,
    ) by {
        if x == s[i] {
            assert(after[i] == x);
        } else {
            let p = choose|p: int| 0 <= p < before.len() && before[p] == x;
            assert(after[p] == x);
        }
    }
    assert forall|x: K| after.to_set().contains(x) implies before.to_set().insert(s[i]).contains(
        x,
    ) by {
        let p = choose|p: int| 0 <= p < after.len() && after[p] == x;
        if p < i {
            assert(before[p] == x);
        }
    }
}

/// Adds `k` to the ordered keys; says whether it was new.
pub fn add_key<K: Ranked>(keys: &mut Vec<K>, k: K) -> (fresh: bool)
    requires
        sorted(old(keys)@),
    ensures
        sorted(final(keys)@),
        final(keys)@.to_set() =~= old(keys)@.to_set().insert(k),
        fresh == !old(keys)@.contains(k),
        !fresh ==> final(keys)@ == old(keys)@,
        fresh ==> final(keys)@.len() == old(keys)@.len() + 1,
{
    match find(keys.as_slice(), &k) {
        Ok(i) => {
            assert(keys@[i as int] == k);
            assert(keys@.to_set().contains(k));
            false
        },
        Err(i) => {
            proof {
                lemma_insert_sorted(keys@, i as int, k);
            }
            keys.insert(i, k);
            true
        },
    }
}

/// Takes `k` out of the ordered keys; says whether it was there.
pub fn drop_key<K: Ranked>(keys: &mut Vec<K>, k: &K) -> (found: bool)
    requires
        sorted(old(keys)@),
    ensures
        sorted(final(keys)@),
        final(keys)@.to_set() =~= old(keys)@.to_set().remove(*k),
        !final(keys)@.contains(*k),
        found == old(keys)@.contains(*k),
        !found ==> final(keys)@ == old(keys)@,
        found ==> final(keys)@.len() + 1 == old(keys)@.len(),
{
    match find(keys.as_slice(), k) {
        Ok(i) => {
            proof {
                assert(keys@[i as int] == *k);
                lemma_remove_sorted(keys@, i as int);
            }
            let _ = keys.remove(i);
            true
        },
        Err(_) => false,
    }
}

/// Sorts the keys and drops repetitions.
pub fn normalize<K: Ranked>(keys: &[K]) -> (r: Vec<K>)
    ensures
        lists(r@, keys@.to_set()),
        r@.len() <= keys@.len(),
        keys@.len() > 0 ==> r@.len() > 0,
{
    let mut out: Vec<K> = Vec::new();
    let mut i: usize = 0;
    while i < keys.len()
        invariant
            0 <= i <= keys@.len(),
            sorted(out@),
            out@.to_set() =~= keys@.take(i as int).to_set(),
            out@.len() <= i,
            i > 0 ==> out@.len() > 0,
        decreases keys@.len() - i,
    {
        let _ = add_key(&mut out, keys[i]);
        proof {
            lemma_take_step(keys@, i as int);
            if out@.len() == 0 {
                assert(out@.to_set().contains(keys@[i as int]));
            }
        }
        i = i + 1;
    }
    proof {
        assert(keys@.take(i as int) =~= keys@);
    }
    out
}

/// Whether two key lists are equal.
pub fn same_keys<K: Ranked>(a: &[K], b: &[K]) -> (r: bool)
    ensures
        r == (a@ =~= b@),
{
    if a.len() != b.len() {
        return false;
    }
    let mut i: usize = 0;
    while i < a.len()
        invariant
            0 <= i <= a@.len(),
            a@.len() == b@.len(),
            forall|j: int| 0 <= j < i ==> a@[j] == b@[j],
        decreases a@.len() - i,
    {
        if !a[i].same(&b[i]) {
            return false;
        }
        i = i + 1;
    }
    true
}

/// A copy of a key list.
pub fn copy_keys<K: Copy>(keys: &[K]) -> (r: Vec<K>)
    ensures
        r@ == keys@,
{
    let mut out: Vec<K> = Vec::new();
    let mut i: usize = 0;
    while i < keys.len()
        invariant
            0 <= i <= keys@.len(),
            out@ =~= keys@.take(i as int),
        decreases keys@.len() - i,
    {
        out.push(keys[i]);
        i = i + 1;
    }
    out
}

/// A map from ordered keys to values.
#[derive(Debug, Clone, PartialEq, Eq)]
pub struct OrderedMap<K, V> {
    pub keys: Vec<K>,
    pub values: Vec<V>,
}

impl<K: Ranked, V> View for OrderedMap<K, V> {
    type V = Map<K, V>;

    open spec fn view(&self) -> Map<K, V> {
        Map::new(|k: K| self.keys@.contains(k), |k: K| self.values@[self.keys@.index_of(k)])
    }
}

impl<K: Ranked, V> OrderedMap<K, V> {
    /// Keys strictly increase and each has one value.
    pub open spec fn wf(&self) -> bool {
        &&& sorted(self.keys@)
        &&& self.keys@.len() == self.values@.len()
    }

    pub proof fn lemma_view(&self)
        requires
            self.wf(),
        ensures
            self@.dom() =~= self.keys@.to_set(),
            self@.dom().finite(),
            self@.dom().len() == self.keys@.len(),
            forall|i: int|
                0 <= i < self.keys@.len() ==> self@.dom().contains(#[trigger] self.keys@[i])
                    && self@[self.keys@[i]] == self.values@[i],
    {
        lemma_sorted_no_duplicates(self.keys@);
        assert forall|i: int| 0 <= i < self.keys@.len() implies self@.dom().contains(
            #[trigger] self.keys@[i],
        ) && self@[self.keys@[i]] == self.values@[i] by {
            let k = self.keys@[i];
            assert(self.keys@.contains(k));
            let p = self.keys@.index_of(k);
            assert(0 <= p < self.keys@.len() && self.keys@[p] == k);
            if p < i {
                assert(self.keys@[p].rank() < self.keys@[i].rank());
            } else if i < p {
                assert(self.keys@[i].rank() < self.keys@[p].rank());
            }
        }
    }

    pub fn new() -> (m: Self)
        ensures
            m.wf(),
            m@ =~= Map::<K, V>::empty(),
            m.keys@.len() == 0,
    {
        OrderedMap { keys: Vec::new(), values: Vec::new() }
    }

    pub fn len(&self) -> (n: usize)
        requires
            self.wf(),
        ensures
            n == self@.dom().len(),
            n == self.keys@.len(),
    {
        proof {
            self.lemma_view();
        }
        self.keys.len()
    }

    pub fn contains_key(&self, k: &K) -> (r: bool)
        requires
            self.wf(),
        ensures
            r == self@.dom().contains(*k),
    {
        has(self.keys.as_slice(), k)
    }

    pub fn get(&self, k: &K) -> (r: Option<&V>)
        requires
            self.wf(),
        ensures
            match r {
                Some(v) => self@.dom().contains(*k) && *v == self@[*k],
                None => !self@.dom().contains(*k),
            },
    {
        match find(self.keys.as_slice(), k) {
            Ok(i) => {
                proof {
                    self.lemma_view();
                    assert(self.keys@[i as int] == *k);
                }
                Some(&self.values[i])
            },
            Err(_) => None,
        }
    }

    /// Binds `k` to `v`; returns the value it had.
    pub fn insert(&mut self, k: K, v: V) -> (prev: Option<V>)
        requires
            old(self).wf(),
        ensures
            final(self).wf(),
            final(self)@ =~= old(self)@.insert(k, v),
            match prev {
                Some(p) => old(self)@.dom().contains(k) && p == old(self)@[k],
                None => !old(self)@.dom().contains(k),
            },
    {
        let ghost before = *self;
        proof {
            before.lemma_view();
        }
        match find(self.keys.as_slice(), &k) {
            Ok(i) => {
                let mut v = v;
                let slot = &mut self.values[i];
                std::mem::swap(slot, &mut v);
                proof {
                    self.lemma_view();
                    assert(before.keys@[i as int] == k);
                    assert forall|x: K| #[trigger] self@.dom().contains(x) implies self@[x]
                        == before@.insert(k, self.values@[i as int])[x] by {
                        let p = choose|p: int| 0 <= p < self.keys@.len() && self.keys@[p] == x;
                        assert(before.keys@[p] == x);
                        assert(self@[self.keys@[p]] == self.values@[p]);
                    }
                    assert(self@ =~= before@.insert(k, self.values@[i as int]));
                }
                Some(v)
            },
            Err(i) => {
                proof {
                    lemma_insert_sorted(self.keys@, i as int, k);
                }
                self.keys.insert(i, k);
                self.values.insert(i, v);
                proof {
                    self.lemma_view();
                    assert(self.keys@[i as int] == k);
                    assert forall|x: K| #[trigger] self@.dom().contains(x) implies self@[x]
                        == before@.insert(k, v)[x] by {
                        let p = choose|p: int| 0 <= p < self.keys@.len() && self.keys@[p] == x;
                        assert(self@[self.keys@[p]] == self.values@[p]);
                        if p < i {
                            assert(before.keys@[p] == x);
                        } else if p > i {
                            assert(before.keys@[p - 1] == x);
                        }
                    }
                    assert(self@ =~= before@.insert(k, v));
                }
                None
            },
        }
    }

    /// Unbinds `k`; returns the value it had.
    pub fn remove(&mut self, k: &K) -> (prev: Option<V>)
        requires
            old(self).wf(),
        ensures
            final(self).wf(),
            final(self)@ =~= old(self)@.remove(*k),
            match prev {
                Some(p) => old(self)@.dom().contains(*k) && p == old(self)@[*k],
                None => !old(self)@.dom().contains(*k) && *final(self) == *old(self),
            },
    {
        let ghost before = *self;
        proof {
            before.lemma_view();
        }
        match find(self.keys.as_slice(), k) {
            Ok(i) => {
                proof {
                    assert(self.keys@[i as int] == *k);
                    lemma_remove_sorted(self.keys@, i as int);
                }
                let _ = self.keys.remove(i);
                let v = self.values.remove(i);
                proof {
                    self.lemma_view();
                    assert forall|x: K| #[trigger] self@.dom().contains(x) implies self@[x]
                        == before@.remove(*k)[x] by {
                        let p = choose|p: int| 0 <= p < self.keys@.len() && self.keys@[p] == x;
                        assert(self@[self.keys@[p]] == self.values@[p]);
                        if p < i {
                            assert(before.keys@[p] == x);
                        } else {
                            assert(before.keys@[p + 1] == x);
                        }
                    }
                    assert(self@ =~= before@.remove(*k));
                }
                Some(v)
            },
            Err(_) => {
                assert(self@ =~= before@.remove(*k));
                None
            },
        }
    }

    pub fn clear(&mut self)
        ensures
            final(self).wf(),
            final(self)@ =~= Map::<K, V>::empty(),
    {
        self.keys.clear();
        self.values.clear();
    }
}

impl<K: Ranked, V: Copy> OrderedMap<K, V> {
    /// A copy with the same bindings.
    pub fn duplicate(&self) -> (m: Self)
        requires
            self.wf(),
        ensures
            m.wf(),
            m@ =~= self@,
            m.keys@ == self.keys@,
            m.values@ == self.values@,
    {
        OrderedMap { keys: copy_keys(self.keys.as_slice()), values: copy_keys(self.values.as_slice()) }
    }
}

} // verus!
