//! Rows in owner order; rows of one owner keep their order.

use crate::ordered;
use crate::ordered::Ranked;
use vstd::prelude::*;

verus! {

/// A row of a list, by its owner and its place.
#[derive(Debug, Clone, Copy, PartialEq, Eq)]
pub struct RowKey<O> {
    pub owner: O,
    pub index: usize,
}

proof fn lemma_row_scaled(a: int, b: int, span: int, x: int, y: int)
    by (nonlinear_arith)
    requires
        0 <= x < span,
        0 <= y < span,
    ensures
        a < b ==> a * span + x < b * span + y,
        a * span + x == b * span + y ==> a == b && x == y,
{
}

impl<O: Ranked> Ranked for RowKey<O> {
    open spec fn rank(self) -> int {
        self.owner.rank() * (usize::MAX + 1) + self.index
    }

    proof fn rank_injective(a: Self, b: Self) {
        lemma_row_scaled(
            a.owner.rank(),
            b.owner.rank(),
            usize::MAX + 1,
            a.index as int,
            b.index as int,
        );
        O::rank_injective(a.owner, b.owner);
    }

    fn precedes(&self, other: &Self) -> (before: bool) {
        proof {
            lemma_row_scaled(
                self.owner.rank(),
                other.owner.rank(),
                usize::MAX + 1,
                self.index as int,
                other.index as int,
            );
            lemma_row_scaled(
                other.owner.rank(),
                self.owner.rank(),
                usize::MAX + 1,
                other.index as int,
                self.index as int,
            );
        }
        if self.owner.precedes(&other.owner) {
            true
        } else if other.owner.precedes(&self.owner) {
            false
        } else {
            self.index < other.index
        }
    }

    fn same(&self, other: &Self) -> (equal: bool) {
        self.owner.same(&other.owner) && self.index == other.index
    }
}

/// Rows stand by owner, then by place.
pub proof fn row_order_is_stable<O: Ranked>(a: RowKey<O>, b: RowKey<O>)
    ensures
        (a.rank() < b.rank()) == (a.owner.rank() < b.owner.rank() || (a.owner.rank()
            == b.owner.rank() && a.index < b.index)),
{
    lemma_row_scaled(
        a.owner.rank(),
        b.owner.rank(),
        usize::MAX + 1,
        a.index as int,
        b.index as int,
    );
    lemma_row_scaled(
        b.owner.rank(),
        a.owner.rank(),
        usize::MAX + 1,
        b.index as int,
        a.index as int,
    );
}

/// The rows of a list of owners.
pub open spec fn rows<O: Ranked>(owners: Seq<O>) -> Set<RowKey<O>> {
    Set::new(|r: RowKey<O>| r.index < owners.len() && r.owner == owners[r.index as int])
}

/// The places of the rows in owner order.
pub open spec fn stable_order<O: Ranked>(owners: Seq<O>) -> Seq<usize> {
    ordered::in_order(rows(owners)).map_values(|r: RowKey<O>| r.index)
}

/// Every place in the order is a row.
pub proof fn lemma_stable_order<O: Ranked>(owners: Seq<O>)
    requires
        owners.len() <= usize::MAX,
    ensures
        forall|i: int|
            0 <= i < stable_order(owners).len() ==> #[trigger] stable_order(owners)[i]
                < owners.len(),
{
    lemma_rows_finite(owners, owners.len());
    assert(rows(owners).filter(|r: RowKey<O>| r.index < owners.len()) =~= rows(owners));
    ordered::lemma_in_order_lists(rows(owners));
    let keys = ordered::in_order(rows(owners));
    assert forall|i: int| 0 <= i < stable_order(owners).len() implies #[trigger] stable_order(
        owners,
    )[i] < owners.len() by {
        assert(keys.to_set().contains(keys[i]));
    }
}

/// The order names every row just once.
pub proof fn lemma_stable_order_is_whole<O: Ranked>(owners: Seq<O>)
    requires
        owners.len() <= usize::MAX,
    ensures
        stable_order(owners).no_duplicates(),
        forall|i: usize| i < owners.len() ==> #[trigger] stable_order(owners).contains(i),
{
    lemma_rows_finite(owners, owners.len());
    assert(rows(owners).filter(|r: RowKey<O>| r.index < owners.len()) =~= rows(owners));
    ordered::lemma_in_order_lists(rows(owners));
    let keys = ordered::in_order(rows(owners));
    let places = stable_order(owners);
    assert forall|a: int, b: int|
        0 <= a < places.len() && 0 <= b < places.len() && a != b implies places[a] != places[b] by {
        assert(keys.to_set().contains(keys[a]));
        assert(keys.to_set().contains(keys[b]));
        if a < b {
            assert(keys[a].rank() < keys[b].rank());
        } else {
            assert(keys[b].rank() < keys[a].rank());
        }
    }
    assert forall|i: usize| i < owners.len() implies #[trigger] places.contains(i) by {
        let r = RowKey { owner: owners[i as int], index: i };
        assert(rows(owners).contains(r));
        assert(keys.to_set().contains(r));
        let j = choose|j: int| 0 <= j < keys.len() && keys[j] == r;
        assert(places[j] == i);
    }
}

proof fn lemma_rows_finite<O: Ranked>(owners: Seq<O>, n: nat)
    requires
        n <= owners.len() <= usize::MAX,
    ensures
        rows(owners).filter(|r: RowKey<O>| r.index < n).finite(),
    decreases n,
{
    let part = rows(owners).filter(|r: RowKey<O>| r.index < n);
    if n == 0 {
        assert(part =~= Set::empty());
    } else {
        lemma_rows_finite(owners, (n - 1) as nat);
        let smaller = rows(owners).filter(|r: RowKey<O>| r.index < n - 1);
        let last = RowKey { owner: owners[n - 1], index: (n - 1) as usize };
        assert(part =~= smaller.insert(last)) by {
            assert forall|r: RowKey<O>| part.contains(r) == smaller.insert(last).contains(r) by {
                if part.contains(r) && r.index == n - 1 {
                    assert(r == last);
                }
            }
        }
    }
}

/// The places of the rows in owner order.
pub fn in_stable_order<O: Ranked>(owners: &[O]) -> (r: Vec<usize>)
    ensures
        r@ == stable_order(owners@),
        forall|i: int| 0 <= i < r@.len() ==> #[trigger] r@[i] < owners@.len(),
        r@.len() == owners@.len(),
        r@.no_duplicates(),
{
    let mut keys: Vec<RowKey<O>> = Vec::new();
    let mut i: usize = 0;
    while i < owners.len()
        invariant
            0 <= i <= owners@.len(),
            keys@.len() == i,
            ordered::sorted(keys@),
            keys@.to_set() =~= rows(owners@).filter(|r: RowKey<O>| r.index < i),
        decreases owners@.len() - i,
    {
        let key = RowKey { owner: owners[i], index: i };
        proof {
            assert(!keys@.contains(key)) by {
                if keys@.contains(key) {
                    assert(keys@.to_set().contains(key));
                }
            }
        }
        let ghost before = keys@.to_set();
        let _ = ordered::add_key(&mut keys, key);
        proof {
            let step = rows(owners@).filter(|r: RowKey<O>| r.index < i + 1);
            assert forall|r: RowKey<O>| keys@.to_set().contains(r) == step.contains(r) by {
                if step.contains(r) && r.index == i {
                    assert(r == key);
                }
            }
            assert(keys@.to_set() =~= step);
        }
        i = i + 1;
    }
    proof {
        assert(keys@.to_set() =~= rows(owners@));
        ordered::lemma_in_order(keys@, rows(owners@));
    }
    let mut out: Vec<usize> = Vec::new();
    let mut k: usize = 0;
    while k < keys.len()
        invariant
            0 <= k <= keys@.len(),
            ordered::lists(keys@, rows(owners@)),
            out@ =~= keys@.map_values(|r: RowKey<O>| r.index).take(k as int),
        decreases keys@.len() - k,
    {
        out.push(keys[k].index);
        k = k + 1;
    }
    proof {
        let places = keys@.map_values(|r: RowKey<O>| r.index);
        assert(out@ =~= places);
        assert forall|j: int| 0 <= j < out@.len() implies #[trigger] out@[j] < owners@.len() by {
            assert(keys@.to_set().contains(keys@[j]));
        }
        assert forall|a: int, b: int| 0 <= a < out@.len() && 0 <= b < out@.len() && a
            != b implies out@[a] != out@[b] by {
            assert(keys@.to_set().contains(keys@[a]));
            assert(keys@.to_set().contains(keys@[b]));
            if a < b {
                assert(keys@[a].rank() < keys@[b].rank());
            } else {
                assert(keys@[b].rank() < keys@[a].rank());
            }
        }
    }
    out
}

/// Rows that stand in owner order already keep their places.
pub proof fn lemma_sorted_stable_order<O: Ranked>(owners: Seq<O>)
    requires
        ordered::sorted(owners),
        owners.len() <= usize::MAX,
    ensures
        stable_order(owners) == Seq::new(owners.len(), |i: int| i as usize),
{
    let keys = Seq::new(
        owners.len(),
        |i: int| RowKey { owner: owners[i], index: i as usize },
    );
    assert forall|i: int, j: int| 0 <= i < j < keys.len() implies (#[trigger] keys[i]).rank() < (
    #[trigger] keys[j]).rank() by {
        assert(owners[i].rank() < owners[j].rank());
        row_order_is_stable(keys[i], keys[j]);
    }
    assert forall|r: RowKey<O>| #[trigger] keys.to_set().contains(r) == rows(owners).contains(r) by {
        if rows(owners).contains(r) {
            assert(keys[r.index as int] == r);
        }
        if keys.to_set().contains(r) {
            let i = choose|i: int| 0 <= i < keys.len() && keys[i] == r;
        }
    }
    assert(keys.to_set() =~= rows(owners));
    ordered::lemma_in_order(keys, rows(owners));
    assert(stable_order(owners) =~= Seq::new(owners.len(), |i: int| i as usize));
}

} // verus!
