//! Touch stamps of owner groups: a bounded counter that renumbers itself when it runs out.

use crate::aged_key;
use crate::aged_key::{AgedKey, Bounded};
use crate::ordered;
use crate::ordered::{OrderedMap, Ranked};
use vstd::prelude::*;

verus! {

/// Where an owner stands by stamp, then by owner order.
pub open spec fn age_key<O: Bounded>(stamps: Map<O, u64>, owner: O) -> AgedKey<O> {
    AgedKey { priority: 0, last_touch: stamps[owner], owner }
}

/// `a` was touched before `b`; equal stamps go by owner order.
pub open spec fn older<O: Bounded>(stamps: Map<O, u64>, a: O, b: O) -> bool {
    stamps[a] < stamps[b] || (stamps[a] == stamps[b] && a.rank() < b.rank())
}

pub proof fn lemma_older_is_rank<O: Bounded>(stamps: Map<O, u64>, a: O, b: O)
    ensures
        older(stamps, a, b) == (age_key(stamps, a).rank() < age_key(stamps, b).rank()),
{
    aged_key::aged_order(age_key(stamps, a), age_key(stamps, b));
}

/// The owners touched before `owner`.
pub open spec fn elders<O: Bounded>(stamps: Map<O, u64>, owner: O) -> Set<O> {
    stamps.dom().filter(|o: O| older(stamps, o, owner))
}

/// Map<O, u64> from one upward in the same order.
pub open spec fn renumbered<O: Bounded>(stamps: Map<O, u64>) -> Map<O, u64> {
    Map::new(
        |o: O| stamps.dom().contains(o),
        |o: O| (elders(stamps, o).len() + 1) as u64,
    )
}

/// The stamps and the counter after `owner` is touched; `None` when the counter cannot go on.
pub open spec fn stamp_assigned<O: Bounded>(stamps: Map<O, u64>, next: u64, owner: O) -> Option<
    (Map<O, u64>, u64),
> {
    if next == u64::MAX {
        let count = stamps.dom().len();
        if count + 2 > u64::MAX {
            None
        } else {
            Some((renumbered(stamps).insert(owner, (count + 1) as u64), (count + 2) as u64))
        }
    } else {
        Some((stamps.insert(owner, next), (next + 1) as u64))
    }
}

/// All owners by age.
pub open spec fn age_keys<O: Bounded>(stamps: Map<O, u64>) -> Set<AgedKey<O>> {
    Set::new(
        |k: AgedKey<O>| stamps.dom().contains(k.owner) && k == age_key(stamps, k.owner),
    )
}

/// The owners by age, oldest first.
pub fn by_age<O: Bounded>(owner_lru: &OrderedMap<O, u64>) -> (r: Vec<AgedKey<O>>)
    requires
        owner_lru.wf(),
    ensures
        ordered::lists(r@, age_keys(owner_lru@)),
{
    let ghost all = age_keys(owner_lru@);
    let ghost names = owner_lru.keys@;
    let mut out: Vec<AgedKey<O>> = Vec::new();
    let mut i: usize = 0;
    while i < owner_lru.keys.len()
        invariant
            owner_lru.wf(),
            names == owner_lru.keys@,
            all == age_keys(owner_lru@),
            0 <= i <= names.len(),
            ordered::sorted(out@),
            out@.to_set() =~= all.filter(
                |k: AgedKey<O>| names.take(i as int).to_set().contains(k.owner),
            ),
        decreases names.len() - i,
    {
        proof {
            owner_lru.lemma_view();
            ordered::lemma_take_step(names, i as int);
            assert(owner_lru@.dom().contains(names[i as int]));
        }
        let key = AgedKey {
            priority: 0,
            last_touch: owner_lru.values[i],
            owner: owner_lru.keys[i],
        };
        proof {
            assert(all.contains(key));
        }
        let ghost before = out@.to_set();
        let _ = ordered::add_key(&mut out, key);
        proof {
            let step = all.filter(
                |k: AgedKey<O>| names.take(i + 1).to_set().contains(k.owner),
            );
            assert forall|k: AgedKey<O>| out@.to_set().contains(k) == step.contains(k) by {
                if all.contains(k) && k.owner == key.owner {
                    assert(k == key);
                }
            }
            assert(out@.to_set() =~= step);
        }
        i = i + 1;
    }
    proof {
        owner_lru.lemma_view();
        assert(names.take(i as int) =~= names);
        assert forall|k: AgedKey<O>| out@.to_set().contains(k) == all.contains(k) by {
            if all.contains(k) {
                assert(names.to_set().contains(k.owner));
            }
        }
    }
    out
}

pub proof fn lemma_position_counts_elders<O: Bounded>(stamps: Map<O, u64>, keys: Seq<AgedKey<O>>, i: int)
    requires
        ordered::lists(keys, age_keys(stamps)),
        0 <= i < keys.len(),
    ensures
        elders(stamps, keys[i].owner).finite(),
        elders(stamps, keys[i].owner).len() == i,
{
    let before = keys.take(i);
    let names = before.map_values(|k: AgedKey<O>| k.owner);
    let young = keys[i].owner;
    assert(keys.to_set().contains(keys[i]));
    assert forall|o: O| names.to_set().contains(o) == elders(stamps, young).contains(
        o,
    ) by {
        if names.to_set().contains(o) {
            let j = choose|j: int| 0 <= j < names.len() && names[j] == o;
            assert(keys.to_set().contains(keys[j]));
            assert(keys[j].rank() < keys[i].rank());
            lemma_older_is_rank(stamps, o, young);
        }
        if elders(stamps, young).contains(o) {
            let k = age_key(stamps, o);
            assert(age_keys(stamps).contains(k));
            assert(keys.to_set().contains(k));
            let j = choose|j: int| 0 <= j < keys.len() && keys[j] == k;
            lemma_older_is_rank(stamps, o, young);
            if j > i {
                assert(keys[i].rank() < keys[j].rank());
            }
            assert(j < i);
            assert(names[j] == o);
        }
    }
    assert(names.to_set() =~= elders(stamps, young));
    assert(names.no_duplicates()) by {
        assert forall|a: int, b: int| 0 <= a < names.len() && 0 <= b < names.len() && a
            != b implies names[a] != names[b] by {
            assert(keys.to_set().contains(keys[a]));
            assert(keys.to_set().contains(keys[b]));
            if a < b {
                assert(keys[a].rank() < keys[b].rank());
            } else {
                assert(keys[b].rank() < keys[a].rank());
            }
        }
    }
    names.unique_seq_to_set();
}

pub proof fn lemma_age_keys<O: Bounded>(stamps: Map<O, u64>, keys: Seq<AgedKey<O>>)
    requires
        ordered::lists(keys, age_keys(stamps)),
    ensures
        keys.map_values(|k: AgedKey<O>| k.owner).to_set() =~= stamps.dom(),
        keys.map_values(|k: AgedKey<O>| k.owner).no_duplicates(),
        stamps.dom().finite(),
        keys.len() == stamps.dom().len(),
{
    let names = keys.map_values(|k: AgedKey<O>| k.owner);
    assert forall|o: O| names.to_set().contains(o) == stamps.dom().contains(o) by {
        if names.to_set().contains(o) {
            let j = choose|j: int| 0 <= j < names.len() && names[j] == o;
            assert(keys.to_set().contains(keys[j]));
        }
        if stamps.dom().contains(o) {
            assert(age_keys(stamps).contains(age_key(stamps, o)));
            assert(keys.to_set().contains(age_key(stamps, o)));
            let j = choose|j: int| 0 <= j < keys.len() && keys[j] == age_key(stamps, o);
            assert(names[j] == o);
        }
    }
    assert forall|a: int, b: int| 0 <= a < names.len() && 0 <= b < names.len() && a
        != b implies names[a] != names[b] by {
        assert(keys.to_set().contains(keys[a]));
        assert(keys.to_set().contains(keys[b]));
        if a < b {
            assert(keys[a].rank() < keys[b].rank());
        } else {
            assert(keys[b].rank() < keys[a].rank());
        }
    }
    assert(names.to_set() =~= stamps.dom());
    names.unique_seq_to_set();
}

/// Renumbers the stamps from one upward in the same order.
pub fn renormalize_stamps<O: Bounded>(owner_lru: &OrderedMap<O, u64>) -> (r: Option<
    OrderedMap<O, u64>,
>)
    requires
        owner_lru.wf(),
    ensures
        match r {
            Some(map) => {
                &&& owner_lru@.dom().len() <= u64::MAX
                &&& map.wf()
                &&& map@ =~= renumbered(owner_lru@)
            },
            None => owner_lru@.dom().len() > u64::MAX,
        },
{
    let ghost stamps = owner_lru@;
    let keys = by_age(owner_lru);
    let ghost names = keys@.map_values(|k: AgedKey<O>| k.owner);
    proof {
        lemma_age_keys(stamps, keys@);
    }
    let mut out: OrderedMap<O, u64> = OrderedMap::new();
    let mut stamp: u64 = 0;
    let mut i: usize = 0;
    while i < keys.len()
        invariant
            out.wf(),
            ordered::lists(keys@, age_keys(stamps)),
            names == keys@.map_values(|k: AgedKey<O>| k.owner),
            names.to_set() =~= stamps.dom(),
            names.no_duplicates(),
            keys@.len() == stamps.dom().len(),
            stamps == owner_lru@,
            0 <= i <= keys@.len(),
            stamp == i,
            forall|o: O| #[trigger]
                out@.dom().contains(o) <==> names.take(i as int).to_set().contains(o),
            forall|o: O| #[trigger]
                out@.dom().contains(o) ==> out@[o] == renumbered(stamps)[o],
        decreases keys@.len() - i,
    {
        stamp = match stamp.checked_add(1) {
            Some(next) => next,
            None => {
                return None;
            },
        };
        proof {
            lemma_position_counts_elders(stamps, keys@, i as int);
            ordered::lemma_take_step(names, i as int);
            assert(names[i as int] == keys@[i as int].owner);
            assert(names.to_set().contains(names[i as int]));
        }
        let _ = out.insert(keys[i].owner, stamp);
        i = i + 1;
    }
    proof {
        assert(names.take(i as int) =~= names);
        assert(out@ =~= renumbered(stamps));
    }
    Some(out)
}

/// Touches `owner`: gives it the next stamp, renumbering first when the counter has run out.
pub fn plan_stamp_assign<O: Bounded>(
    owner_lru: &OrderedMap<O, u64>,
    next_touch_stamp: u64,
    owner: &O,
) -> (r: Option<(OrderedMap<O, u64>, u64)>)
    requires
        owner_lru.wf(),
    ensures
        match r {
            Some((map, next)) => {
                &&& map.wf()
                &&& stamp_assigned(owner_lru@, next_touch_stamp, *owner) == Some((map@, next))
            },
            None => stamp_assigned(owner_lru@, next_touch_stamp, *owner) is None,
        },
{
    proof {
        owner_lru.lemma_view();
    }
    if next_touch_stamp == u64::MAX {
        let count: usize = owner_lru.len();
        if count as u128 + 2 > u64::MAX as u128 {
            return None;
        }
        match renormalize_stamps(owner_lru) {
            None => None,
            Some(mut map) => {
                let assign: u64 = count as u64 + 1;
                let _ = map.insert(*owner, assign);
                Some((map, assign + 1))
            },
        }
    } else {
        let mut map = owner_lru.duplicate();
        let _ = map.insert(*owner, next_touch_stamp);
        Some((map, next_touch_stamp + 1))
    }
}

/// Renumbering keeps the order of touches and stays below the number of owners.
pub proof fn renumbering_keeps_order<O: Bounded>(stamps: Map<O, u64>, a: O, b: O)
    requires
        stamps.dom().finite(),
        stamps.dom().len() <= u64::MAX,
        stamps.dom().contains(a),
        stamps.dom().contains(b),
    ensures
        older(stamps, a, b) == (renumbered(stamps)[a] < renumbered(stamps)[b]),
        1 <= renumbered(stamps)[a] <= stamps.dom().len(),
{
    lemma_elders(stamps, a);
    lemma_elders(stamps, b);
    lemma_older_is_rank(stamps, a, b);
    lemma_older_is_rank(stamps, b, a);
    if older(stamps, a, b) {
        lemma_elders_grow(stamps, a, b);
    } else if older(stamps, b, a) {
        lemma_elders_grow(stamps, b, a);
    } else {
        AgedKey::<O>::rank_injective(age_key(stamps, a), age_key(stamps, b));
        assert(a == b);
    }
}

proof fn lemma_elders<O: Bounded>(stamps: Map<O, u64>, o: O)
    requires
        stamps.dom().finite(),
        stamps.dom().contains(o),
    ensures
        elders(stamps, o).finite(),
        elders(stamps, o).len() < stamps.dom().len(),
{
    assert(!elders(stamps, o).contains(o));
    assert(elders(stamps, o).subset_of(stamps.dom().remove(o)));
    vstd::set_lib::lemma_len_subset(elders(stamps, o), stamps.dom().remove(o));
}

proof fn lemma_elders_grow<O: Bounded>(stamps: Map<O, u64>, a: O, b: O)
    requires
        stamps.dom().finite(),
        stamps.dom().contains(a),
        stamps.dom().contains(b),
        older(stamps, a, b),
    ensures
        elders(stamps, a).len() < elders(stamps, b).len(),
{
    lemma_elders(stamps, a);
    lemma_elders(stamps, b);
    assert(elders(stamps, b).contains(a));
    assert(!elders(stamps, a).contains(a));
    assert forall|o: O| elders(stamps, a).contains(o) implies elders(
        stamps,
        b,
    ).remove(a).contains(o) by {
        assert(older(stamps, o, b));
    }
    vstd::set_lib::lemma_len_subset(elders(stamps, a), elders(stamps, b).remove(a));
}

/// A touch makes its owner the most recent one and keeps the counter above every stamp.
pub proof fn touch_makes_most_recent<O: Bounded>(stamps: Map<O, u64>, next: u64, owner: O)
    requires
        stamps.dom().finite(),
        stamp_assigned(stamps, next, owner) is Some,
        forall|o: O| #[trigger] stamps.dom().contains(o) ==> stamps[o] < next,
    ensures
        ({
            let (after, next_after) = stamp_assigned(stamps, next, owner)->0;
            &&& after.dom() =~= stamps.dom().insert(owner)
            &&& forall|o: O| #[trigger] after.dom().contains(o) ==> after[o] < next_after
            &&& forall|o: O| #[trigger]
                after.dom().contains(o) && o != owner ==> after[o] < after[owner]
            &&& forall|a: O, b: O|
                stamps.dom().contains(a) && stamps.dom().contains(b) && a != owner && b != owner
                    ==> #[trigger] older(after, a, b) == older(stamps, a, b)
        }),
{
    let (after, next_after) = stamp_assigned(stamps, next, owner)->0;
    if next == u64::MAX {
        assert forall|o: O| #[trigger] after.dom().contains(o) && o != owner implies
            after[o] < after[owner] by {
            renumbering_keeps_order(stamps, o, o);
        }
        assert forall|a: O, b: O|
            stamps.dom().contains(a) && stamps.dom().contains(b) && a != owner && b
                != owner implies #[trigger] older(after, a, b) == older(stamps, a, b) by {
            renumbering_keeps_order(stamps, a, b);
            renumbering_keeps_order(stamps, b, a);
            if after[a] == after[b] {
                lemma_older_is_rank(stamps, a, b);
                lemma_older_is_rank(stamps, b, a);
                AgedKey::<O>::rank_injective(age_key(stamps, a), age_key(stamps, b));
            }
        }
    }
}

/// The same owners stand in the same order.
pub open spec fn same_order<O: Bounded>(a: Map<O, u64>, b: Map<O, u64>) -> bool {
    &&& a.dom() =~= b.dom()
    &&& forall|x: O, y: O|
        a.dom().contains(x) && a.dom().contains(y) ==> #[trigger] older(a, x, y) == older(b, x, y)
}

/// Whether the same owners stand in the same order.
pub fn stands_in_same_order<O: Bounded>(
    a: &OrderedMap<O, u64>,
    b: &OrderedMap<O, u64>,
) -> (r: bool)
    requires
        a.wf(),
        b.wf(),
    ensures
        r == same_order(a@, b@),
{
    let keys_a = by_age(a);
    let keys_b = by_age(b);
    proof {
        lemma_age_keys(a@, keys_a@);
        lemma_age_keys(b@, keys_b@);
    }
    if keys_a.len() != keys_b.len() {
        return false;
    }
    let mut i: usize = 0;
    while i < keys_a.len()
        invariant
            ordered::lists(keys_a@, age_keys(a@)),
            ordered::lists(keys_b@, age_keys(b@)),
            keys_a@.len() == keys_b@.len(),
            0 <= i <= keys_a@.len(),
            forall|j: int| 0 <= j < i ==> (#[trigger] keys_a@[j]).owner == keys_b@[j].owner,
        decreases keys_a@.len() - i,
    {
        if !keys_a[i].owner.same(&keys_b[i].owner) {
            proof {
                if same_order(a@, b@) {
                    lemma_same_place(a@, b@, keys_a@, keys_b@, i as int);
                }
            }
            return false;
        }
        i = i + 1;
    }
    proof {
        let names_a = keys_a@.map_values(|k: AgedKey<O>| k.owner);
        let names_b = keys_b@.map_values(|k: AgedKey<O>| k.owner);
        assert(names_a =~= names_b);
        assert(a@.dom() =~= b@.dom());
        assert forall|x: O, y: O|
            a@.dom().contains(x) && a@.dom().contains(y) implies #[trigger] older(a@, x, y)
            == older(b@, x, y) by {
            lemma_order_by_place(a@, keys_a@, x, y);
            lemma_order_by_place(b@, keys_b@, x, y);
            let i = names_a.index_of(x);
            assert(names_a.to_set().contains(x));
            assert(names_a.to_set().contains(y));
        }
    }
    true
}

proof fn lemma_same_place<O: Bounded>(
    a: Map<O, u64>,
    b: Map<O, u64>,
    keys_a: Seq<AgedKey<O>>,
    keys_b: Seq<AgedKey<O>>,
    i: int,
)
    requires
        same_order(a, b),
        ordered::lists(keys_a, age_keys(a)),
        ordered::lists(keys_b, age_keys(b)),
        0 <= i < keys_a.len(),
        keys_a.len() == keys_b.len(),
    ensures
        keys_a[i].owner == keys_b[i].owner,
{
    let o = keys_a[i].owner;
    assert(keys_a.to_set().contains(keys_a[i]));
    assert(age_keys(b).contains(age_key(b, o)));
    assert(keys_b.to_set().contains(age_key(b, o)));
    let j = choose|j: int| 0 <= j < keys_b.len() && keys_b[j] == age_key(b, o);
    lemma_position_counts_elders(a, keys_a, i);
    lemma_position_counts_elders(b, keys_b, j);
    assert(elders(a, o) =~= elders(b, o)) by {
        assert forall|x: O| elders(a, o).contains(x) == elders(b, o).contains(x) by {
            if a.dom().contains(x) {
                assert(older(a, x, o) == older(b, x, o));
            }
        }
    }
}

proof fn lemma_order_by_place<O: Bounded>(
    stamps: Map<O, u64>,
    keys: Seq<AgedKey<O>>,
    x: O,
    y: O,
)
    requires
        ordered::lists(keys, age_keys(stamps)),
        stamps.dom().contains(x),
        stamps.dom().contains(y),
    ensures
        ({
            let names = keys.map_values(|k: AgedKey<O>| k.owner);
            older(stamps, x, y) == (names.index_of(x) < names.index_of(y))
        }),
{
    let names = keys.map_values(|k: AgedKey<O>| k.owner);
    lemma_age_keys(stamps, keys);
    assert(names.to_set().contains(x));
    assert(names.to_set().contains(y));
    let i = names.index_of(x);
    let j = names.index_of(y);
    assert(0 <= i < names.len() && names[i] == x);
    assert(0 <= j < names.len() && names[j] == y);
    assert(keys.to_set().contains(keys[i]));
    assert(keys.to_set().contains(keys[j]));
    lemma_older_is_rank(stamps, x, y);
    if i < j {
        assert(keys[i].rank() < keys[j].rank());
    } else if j < i {
        assert(keys[j].rank() < keys[i].rank());
    }
}

/// Renumbered stamps stand in the same order.
pub proof fn lemma_renumbered_same_order<O: Bounded>(stamps: Map<O, u64>)
    requires
        stamps.dom().finite(),
        stamps.dom().len() <= u64::MAX,
    ensures
        same_order(stamps, renumbered(stamps)),
{
    let after = renumbered(stamps);
    assert forall|x: O, y: O|
        stamps.dom().contains(x) && stamps.dom().contains(y) implies #[trigger] older(stamps, x, y)
        == older(after, x, y) by {
        renumbering_keeps_order(stamps, x, y);
        renumbering_keeps_order(stamps, y, x);
        if after[x] == after[y] {
            lemma_older_is_rank(stamps, x, y);
            lemma_older_is_rank(stamps, y, x);
            AgedKey::<O>::rank_injective(age_key(stamps, x), age_key(stamps, y));
        }
    }
}

/// The stamps without those of `gone`.
pub fn drop_stamps<O: Bounded>(owner_lru: &OrderedMap<O, u64>, gone: &[O]) -> (r: OrderedMap<
    O,
    u64,
>)
    requires
        owner_lru.wf(),
    ensures
        r.wf(),
        r@ =~= owner_lru@.remove_keys(gone@.to_set()),
{
    let mut out = owner_lru.duplicate();
    let mut i: usize = 0;
    proof {
        assert(gone@.take(0).to_set() =~= Set::<O>::empty());
        assert(owner_lru@.remove_keys(Set::empty()) =~= owner_lru@);
    }
    while i < gone.len()
        invariant
            out.wf(),
            0 <= i <= gone@.len(),
            out@ =~= owner_lru@.remove_keys(gone@.take(i as int).to_set()),
        decreases gone@.len() - i,
    {
        proof {
            ordered::lemma_take_step(gone@, i as int);
            assert(owner_lru@.remove_keys(gone@.take(i as int).to_set()).remove(gone@[i as int])
                =~= owner_lru@.remove_keys(gone@.take(i + 1).to_set()));
        }
        let _ = out.remove(&gone[i]);
        i = i + 1;
    }
    proof {
        assert(gone@.take(i as int) =~= gone@);
    }
    out
}

} // verus!
