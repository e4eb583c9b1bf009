//! Owner groups of addresses with the reverse index from address to owners.

use crate::ordered;
use crate::ordered::{OrderedMap, Ranked};
use crate::pubkey::Pubkey;
use vstd::prelude::*;

verus! {

/// The owners whose group holds `pubkey`.
pub open spec fn owners_of<O>(groups: Map<O, Seq<Pubkey>>, pubkey: Pubkey) -> Set<O> {
    groups.dom().filter(|o: O| groups[o].contains(pubkey))
}

/// The addresses held by at least one group.
pub open spec fn physical<O>(groups: Map<O, Seq<Pubkey>>) -> Set<Pubkey> {
    Set::new(
        |pubkey: Pubkey|
            exists|o: O| groups.dom().contains(o) && #[trigger] groups[o].contains(pubkey),
    )
}

/// Finitely many groups, each a non-empty sorted list.
pub open spec fn groups_ok<O>(groups: Map<O, Seq<Pubkey>>) -> bool {
    &&& groups.dom().finite()
    &&& forall|o: O| #[trigger]
        groups.dom().contains(o) ==> groups[o].len() > 0 && ordered::sorted(groups[o])
}

/// The addresses that `after` holds and `before` does not.
pub open spec fn newly_physical<O>(
    before: Map<O, Seq<Pubkey>>,
    after: Map<O, Seq<Pubkey>>,
) -> Set<Pubkey> {
    physical(after).difference(physical(before))
}

pub proof fn lemma_physical_owner<O>(groups: Map<O, Seq<Pubkey>>, pubkey: Pubkey)
    ensures
        physical(groups).contains(pubkey) <==> owners_of(groups, pubkey) != Set::<O>::empty(),
        physical(groups).contains(pubkey) <==> !(owners_of(groups, pubkey) =~= Set::<O>::empty()),
{
    if physical(groups).contains(pubkey) {
        let o = choose|o: O| groups.dom().contains(o) && #[trigger] groups[o].contains(pubkey);
        assert(owners_of(groups, pubkey).contains(o));
    }
    if owners_of(groups, pubkey) != Set::<O>::empty() {
        if forall|o: O| !owners_of(groups, pubkey).contains(o) {
            assert(owners_of(groups, pubkey) =~= Set::<O>::empty());
        }
        let o = choose|o: O| owners_of(groups, pubkey).contains(o);
        assert(groups[o].contains(pubkey));
    }
}

/// Finitely many groups hold finitely many addresses.
pub proof fn lemma_physical_finite<O>(groups: Map<O, Seq<Pubkey>>)
    requires
        groups.dom().finite(),
    ensures
        physical(groups).finite(),
    decreases groups.dom().len(),
{
    if groups.dom().len() == 0 {
        assert(groups.dom() =~= Set::empty());
        assert(physical(groups) =~= Set::empty());
    } else {
        let o = groups.dom().choose();
        let rest = groups.remove(o);
        assert(rest.dom() =~= groups.dom().remove(o));
        lemma_physical_finite(rest);
        vstd::seq_lib::seq_to_set_is_finite(groups[o]);
        assert forall|pk: Pubkey| physical(groups).contains(pk) == physical(rest).union(
            groups[o].to_set(),
        ).contains(pk) by {
            if physical(groups).contains(pk) {
                let w = choose|w: O| groups.dom().contains(w) && #[trigger] groups[w].contains(pk);
                if w != o {
                    assert(rest.dom().contains(w) && rest[w].contains(pk));
                }
            }
            if physical(rest).contains(pk) {
                let w = choose|w: O| rest.dom().contains(w) && #[trigger] rest[w].contains(pk);
                assert(groups.dom().contains(w) && groups[w].contains(pk));
            }
            if groups[o].contains(pk) {
                assert(groups.dom().contains(o));
            }
        }
        assert(physical(groups) =~= physical(rest).union(groups[o].to_set()));
    }
}

/// Owner groups with the derived reverse index.
#[derive(Debug, Clone)]
pub struct OwnerIndex<O> {
    pub groups: OrderedMap<O, Vec<Pubkey>>,
    pub owners: OrderedMap<Pubkey, Vec<O>>,
}

/// The owners that the reverse index lists for `pubkey`.
pub open spec fn listed<O: Ranked>(rev: OrderedMap<Pubkey, Vec<O>>, pubkey: Pubkey) -> Set<O> {
    if rev@.dom().contains(pubkey) {
        rev@[pubkey]@.to_set()
    } else {
        Set::empty()
    }
}

/// Every list of the reverse index is sorted and non-empty.
pub open spec fn reverse_ok<O: Ranked>(rev: OrderedMap<Pubkey, Vec<O>>) -> bool {
    &&& rev.wf()
    &&& forall|pk: Pubkey| #[trigger]
        rev@.dom().contains(pk) ==> rev@[pk]@.len() > 0 && ordered::sorted(rev@[pk]@)
}

fn detach<O: Ranked>(rev: &mut OrderedMap<Pubkey, Vec<O>>, pubkey: &Pubkey, owner: &O)
    requires
        reverse_ok(*old(rev)),
    ensures
        reverse_ok(*final(rev)),
        forall|pk: Pubkey| #[trigger]
            listed(*final(rev), pk) =~= if pk == *pubkey {
                listed(*old(rev), pk).remove(*owner)
            } else {
                listed(*old(rev), pk)
            },
{
    match rev.remove(pubkey) {
        Some(mut owners) => {
            let ghost before = owners@;
            let _ = ordered::drop_key(&mut owners, owner);
            if owners.len() > 0 {
                let ghost after = owners@;
                let _ = rev.insert(*pubkey, owners);
            } else {
                proof {
                    assert(owners@.to_set() =~= Set::<O>::empty());
                }
            }
        },
        None => {
            assert(listed(*rev, *pubkey).remove(*owner) =~= listed(*rev, *pubkey));
        },
    }
}

fn attach<O: Ranked>(rev: &mut OrderedMap<Pubkey, Vec<O>>, pubkey: &Pubkey, owner: &O)
    requires
        reverse_ok(*old(rev)),
    ensures
        reverse_ok(*final(rev)),
        forall|pk: Pubkey| #[trigger]
            listed(*final(rev), pk) =~= if pk == *pubkey {
                listed(*old(rev), pk).insert(*owner)
            } else {
                listed(*old(rev), pk)
            },
{
    let mut owners: Vec<O> = match rev.remove(pubkey) {
        Some(owners) => owners,
        None => Vec::new(),
    };
    let ghost before = owners@;
    proof {
        assert(before.to_set() =~= listed(*old(rev), *pubkey));
    }
    let _ = ordered::add_key(&mut owners, *owner);
    proof {
        assert(owners@.to_set().contains(*owner));
        assert(owners@.len() > 0);
    }
    let _ = rev.insert(*pubkey, owners);
}

impl<O: Ranked> View for OwnerIndex<O> {
    type V = Map<O, Seq<Pubkey>>;

    open spec fn view(&self) -> Map<O, Seq<Pubkey>> {
        Map::new(|o: O| self.groups@.dom().contains(o), |o: O| self.groups@[o]@)
    }
}

impl<O: Ranked> OwnerIndex<O> {
    /// Groups are sorted and non-empty, and the reverse index is derived from them.
    pub open spec fn wf(&self) -> bool {
        &&& self.groups.wf()
        &&& groups_ok(self@)
        &&& reverse_ok(self.owners)
        &&& forall|pk: Pubkey| #[trigger] listed(self.owners, pk) =~= owners_of(self@, pk)
    }

    pub proof fn lemma_physical(&self)
        requires
            self.wf(),
        ensures
            self.owners@.dom() =~= physical(self@),
            physical(self@).finite(),
            physical(self@).len() == self.owners.keys@.len(),
            self.owners.keys@.to_set() =~= physical(self@),
            self@.dom() =~= self.groups.keys@.to_set(),
            self@.dom().finite(),
            self@.dom().len() == self.groups.keys@.len(),
    {
        self.owners.lemma_view();
        self.groups.lemma_view();
        assert(self@.dom() =~= self.groups@.dom());
        assert forall|pk: Pubkey| self.owners@.dom().contains(pk) == physical(self@).contains(
            pk,
        ) by {
            lemma_physical_owner(self@, pk);
            assert(listed(self.owners, pk) =~= owners_of(self@, pk));
            if self.owners@.dom().contains(pk) {
                let list = self.owners@[pk]@;
                assert(list.to_set().contains(list[0]));
            }
        }
    }

    pub fn new() -> (r: Self)
        ensures
            r.wf(),
            r@ =~= Map::<O, Seq<Pubkey>>::empty(),
    {
        let r = OwnerIndex { groups: OrderedMap::new(), owners: OrderedMap::new() };
        proof {
            r.groups.lemma_view();
            assert(r@.dom() =~= r.groups@.dom());
            assert forall|pk: Pubkey| #[trigger] listed(r.owners, pk) =~= owners_of(r@, pk) by {}
        }
        r
    }

    pub fn clear(&mut self)
        ensures
            final(self).wf(),
            final(self)@ =~= Map::<O, Seq<Pubkey>>::empty(),
    {
        *self = Self::new();
    }

    /// Number of distinct addresses.
    pub fn len(&self) -> (n: usize)
        requires
            self.wf(),
        ensures
            n == physical(self@).len(),
    {
        proof {
            self.lemma_physical();
        }
        self.owners.len()
    }

    pub fn contains(&self, pubkey: &Pubkey) -> (r: bool)
        requires
            self.wf(),
        ensures
            r == physical(self@).contains(*pubkey),
    {
        proof {
            self.lemma_physical();
        }
        self.owners.contains_key(pubkey)
    }

    pub fn contains_owner(&self, owner: &O) -> (r: bool)
        requires
            self.wf(),
        ensures
            r == self@.dom().contains(*owner),
    {
        self.groups.contains_key(owner)
    }

    pub fn group(&self, owner: &O) -> (r: Option<&[Pubkey]>)
        requires
            self.wf(),
        ensures
            match r {
                Some(keys) => self@.dom().contains(*owner) && keys@ == self@[*owner],
                None => !self@.dom().contains(*owner),
            },
    {
        match self.groups.get(owner) {
            Some(keys) => Some(keys.as_slice()),
            None => None,
        }
    }

    pub fn refcount(&self, pubkey: &Pubkey) -> (n: usize)
        requires
            self.wf(),
        ensures
            owners_of(self@, *pubkey).finite(),
            n == owners_of(self@, *pubkey).len(),
    {
        proof {
            assert(listed(self.owners, *pubkey) =~= owners_of(self@, *pubkey));
        }
        match self.owners.get(pubkey) {
            Some(list) => {
                proof {
                    ordered::lemma_sorted_no_duplicates(list@);
                }
                list.len()
            },
            None => 0,
        }
    }

    /// The owners of `pubkey`, in order.
    pub fn owners(&self, pubkey: &Pubkey) -> (r: Vec<O>)
        requires
            self.wf(),
        ensures
            ordered::lists(r@, owners_of(self@, *pubkey)),
    {
        proof {
            assert(listed(self.owners, *pubkey) =~= owners_of(self@, *pubkey));
        }
        match self.owners.get(pubkey) {
            Some(list) => ordered::copy_keys(list.as_slice()),
            None => Vec::new(),
        }
    }

    /// The distinct addresses, in order.
    pub fn pubkeys(&self) -> (r: Vec<Pubkey>)
        requires
            self.wf(),
        ensures
            ordered::lists(r@, physical(self@)),
    {
        proof {
            self.lemma_physical();
        }
        ordered::copy_keys(self.owners.keys.as_slice())
    }

    /// The owners, in order.
    pub fn all_owners(&self) -> (r: Vec<O>)
        requires
            self.wf(),
        ensures
            ordered::lists(r@, self@.dom()),
    {
        proof {
            self.lemma_physical();
        }
        ordered::copy_keys(self.groups.keys.as_slice())
    }

    pub proof fn lemma_refs(&self, pubkey: Pubkey)
        requires
            self.wf(),
        ensures
            owners_of(self@, pubkey).finite(),
    {
        assert(listed(self.owners, pubkey) =~= owners_of(self@, pubkey));
        if self.owners@.dom().contains(pubkey) {
            ordered::lemma_sorted_no_duplicates(self.owners@[pubkey]@);
        }
    }

    /// A copy with the same groups.
    pub fn duplicate(&self) -> (r: Self)
        requires
            self.wf(),
        ensures
            r.wf(),
            r@ =~= self@,
    {
        let mut r: Self = Self::new();
        let mut i: usize = 0;
        while i < self.groups.keys.len()
            invariant
                self.wf(),
                r.wf(),
                0 <= i <= self.groups.keys@.len(),
                self.groups.keys@.len() == self.groups.values@.len(),
                forall|o: O| #[trigger]
                    r@.dom().contains(o) <==> self.groups.keys@.take(i as int).contains(o),
                forall|o: O| #[trigger] r@.dom().contains(o) ==> r@[o] == self@[o],
            decreases self.groups.keys@.len() - i,
        {
            proof {
                self.groups.lemma_view();
                assert(self@.dom().contains(self.groups.keys@[i as int]));
                assert(self@[self.groups.keys@[i as int]] == self.groups.values@[i as int]@);
            }
            let ghost before = self.groups.keys@.take(i as int);
            r.put(self.groups.keys[i], ordered::copy_keys(self.groups.values[i].as_slice()));
            proof {
                let after = self.groups.keys@.take(i + 1);
                assert(after =~= before.push(self.groups.keys@[i as int]));
                assert forall|o: O| #[trigger] r@.dom().contains(o) <==> after.contains(o) by {
                    if before.contains(o) {
                        let p = choose|p: int| 0 <= p < before.len() && before[p] == o;
                        assert(after[p] == o);
                    }
                    assert(after[i as int] == self.groups.keys@[i as int]);
                    if after.contains(o) && !before.contains(o) {
                        let p = choose|p: int| 0 <= p < after.len() && after[p] == o;
                        if p < i {
                            assert(before[p] == o);
                        }
                    }
                }
            }
            i = i + 1;
        }
        proof {
            self.lemma_physical();
            assert(self.groups.keys@.take(i as int) =~= self.groups.keys@);
            assert forall|o: O| r@.dom().contains(o) == self@.dom().contains(o) by {
                assert(self.groups.keys@.to_set().contains(o) == self.groups.keys@.contains(o));
            }
            assert(r@ =~= self@);
        }
        r
    }

    /// Takes out the group of `owner`.
    pub fn take(&mut self, owner: &O) -> (r: Option<Vec<Pubkey>>)
        requires
            old(self).wf(),
        ensures
            final(self).wf(),
            final(self)@ =~= old(self)@.remove(*owner),
            match r {
                Some(keys) => old(self)@.dom().contains(*owner) && keys@ == old(self)@[*owner],
                None => !old(self)@.dom().contains(*owner) && *final(self) == *old(self),
            },
    {
        let ghost g0 = self@;
        match self.groups.remove(owner) {
            Some(keys) => {
                let ghost rev0 = self.owners;
                let mut i: usize = 0;
                while i < keys.len()
                    invariant
                        0 <= i <= keys@.len(),
                        reverse_ok(self.owners),
                        self.groups.wf(),
                        self@ == g0.remove(*owner),
                        forall|pk: Pubkey| #[trigger]
                            listed(self.owners, pk) =~= if keys@.take(i as int).contains(pk) {
                                listed(rev0, pk).remove(*owner)
                            } else {
                                listed(rev0, pk)
                            },
                    decreases keys@.len() - i,
                {
                    let ghost mid = self.owners;
                    detach(&mut self.owners, &keys[i], owner);
                    proof {
                        let before = keys@.take(i as int);
                        let after = keys@.take(i + 1);
                        assert(after =~= before.push(keys@[i as int]));
                        assert forall|pk: Pubkey| #[trigger]
                            listed(self.owners, pk) =~= if after.contains(pk) {
                                listed(rev0, pk).remove(*owner)
                            } else {
                                listed(rev0, pk)
                            } by {
                            assert(listed(mid, pk) =~= if before.contains(pk) {
                                listed(rev0, pk).remove(*owner)
                            } else {
                                listed(rev0, pk)
                            });
                            if after.contains(pk) && !before.contains(pk) {
                                let p = choose|p: int| 0 <= p < after.len() && after[p] == pk;
                                assert(p == i as int) by {
                                    if p < i {
                                        assert(before[p] == pk);
                                    }
                                }
                            }
                            if before.contains(pk) {
                                let p = choose|p: int| 0 <= p < before.len() && before[p] == pk;
                                assert(after[p] == pk);
                            }
                            assert(after[i as int] == keys@[i as int]);
                        }
                    }
                    i = i + 1;
                }
                proof {
                    assert(keys@.take(i as int) =~= keys@);
                    let g1 = g0.remove(*owner);
                    assert forall|pk: Pubkey| #[trigger]
                        listed(self.owners, pk) =~= owners_of(self@, pk) by {
                        assert(listed(rev0, pk) =~= owners_of(g0, pk));
                        assert forall|o: O| listed(self.owners, pk).contains(o) == owners_of(
                            g1,
                            pk,
                        ).contains(o) by {}
                    }
                    assert forall|o: O| #[trigger] self@.dom().contains(o) implies self@[o].len()
                        > 0 && ordered::sorted(self@[o]) by {
                        assert(g0.dom().contains(o));
                    }
                }
                Some(keys)
            },
            None => {
                assert(self@ =~= g0.remove(*owner));
                None
            },
        }
    }

    /// Sets the group of `owner` to `keys`, which is sorted and not empty.
    pub fn put(&mut self, owner: O, keys: Vec<Pubkey>)
        requires
            old(self).wf(),
            keys@.len() > 0,
            ordered::sorted(keys@),
        ensures
            final(self).wf(),
            final(self)@ =~= old(self)@.insert(owner, keys@),
    {
        let ghost g00 = self@;
        let _ = self.take(&owner);
        let ghost g0 = self@;
        let ghost rev0 = self.owners;
        let mut i: usize = 0;
        while i < keys.len()
            invariant
                0 <= i <= keys@.len(),
                reverse_ok(self.owners),
                self.groups.wf(),
                self@ == g0,
                forall|pk: Pubkey| #[trigger]
                    listed(self.owners, pk) =~= if keys@.take(i as int).contains(pk) {
                        listed(rev0, pk).insert(owner)
                    } else {
                        listed(rev0, pk)
                    },
            decreases keys@.len() - i,
        {
            let ghost mid = self.owners;
            attach(&mut self.owners, &keys[i], &owner);
            proof {
                let before = keys@.take(i as int);
                let after = keys@.take(i + 1);
                assert(after =~= before.push(keys@[i as int]));
                assert forall|pk: Pubkey| #[trigger]
                    listed(self.owners, pk) =~= if after.contains(pk) {
                        listed(rev0, pk).insert(owner)
                    } else {
                        listed(rev0, pk)
                    } by {
                    assert(listed(mid, pk) =~= if before.contains(pk) {
                        listed(rev0, pk).insert(owner)
                    } else {
                        listed(rev0, pk)
                    });
                    if after.contains(pk) && !before.contains(pk) {
                        let p = choose|p: int| 0 <= p < after.len() && after[p] == pk;
                        assert(p == i as int) by {
                            if p < i {
                                assert(before[p] == pk);
                            }
                        }
                    }
                    if before.contains(pk) {
                        let p = choose|p: int| 0 <= p < before.len() && before[p] == pk;
                        assert(after[p] == pk);
                    }
                    assert(after[i as int] == keys@[i as int]);
                }
            }
            i = i + 1;
        }
        let ghost listing = keys@;
        let _ = self.groups.insert(owner, keys);
        proof {
            assert(listing.take(i as int) =~= listing);
            self.groups.lemma_view();
            assert(self@ =~= g0.insert(owner, listing));
            assert(self@ =~= g00.insert(owner, listing));
            assert forall|pk: Pubkey| #[trigger]
                listed(self.owners, pk) =~= owners_of(self@, pk) by {
                assert(listed(rev0, pk) =~= owners_of(g0, pk));
                assert forall|o: O| listed(self.owners, pk).contains(o) == owners_of(
                    self@,
                    pk,
                ).contains(o) by {}
            }
            assert(self@.dom() =~= self.groups@.dom());
            assert forall|o: O| #[trigger] self@.dom().contains(o) implies self@[o].len() > 0
                && ordered::sorted(self@[o]) by {
                if o != owner {
                    assert(g0.dom().contains(o));
                }
            }
        }
    }
}

} // verus!
