//! The kitty registry: kitties with their DNA and owners, each owner's
//! kitties indexed by a linked list, and the lineage that breeding records.
use vstd::prelude::*;
use std::collections::HashMap;
use crate::keys::{pair_key, pair_key_of, lemma_pair_key_injective};
use crate::linked_list::{LinkedList, without, lemma_without, occurrences, lemma_occurrences_push, lemma_occurrences_absent};
use crate::hashing::{Entropy, random_value, blake2_128_of, seed_payload};

verus! {

/// The identifier of a kitty.
pub type KittyIndex = u32;

/// The identifier of an account.
pub type AccountId = u64;

/// A kitty: its DNA.
#[derive(Clone, Copy, Debug, PartialEq, Eq)]
pub struct Kitty(pub [u8; 16]);

/// Why a call to the registry failed; a failed call changes nothing.
#[derive(Clone, Copy, Debug, PartialEq, Eq, Structural)]
pub enum Error {
    /// The identifier names no kitty.
    InvalidEntityId,
    /// The caller does not own the kitty.
    NotOwner,
    /// A kitty cannot breed with itself.
    RequireDifferentParents,
    /// The identifier space is used up.
    CounterOverflow,
    /// The caller could not put up the stake.
    InsufficientBalance,
    /// The stake could not be moved to the recipient.
    TransferFailure,
}

/// The registry as a value.
pub struct ModuleView {
    /// Each kitty by identifier.
    pub kitties: Map<KittyIndex, Kitty>,
    /// The stored counter: the next identifier, or 0 while none was assigned.
    pub count: u32,
    /// The first identifier to assign.
    pub start: u32,
    /// The owner of each kitty.
    pub owners: Map<KittyIndex, AccountId>,
    /// Each account's kitties, in the order in which it came to own them.
    pub owned: Map<AccountId, Seq<KittyIndex>>,
    /// The parents of each bred kitty.
    pub parents: Map<KittyIndex, (KittyIndex, KittyIndex)>,
    /// Each kitty's children (keyed by the parent's identifier), in order of birth.
    pub children: Map<u64, Seq<KittyIndex>>,
    /// The pairs that have bred, each with the first parent as its representative.
    pub mates: Map<(KittyIndex, KittyIndex), KittyIndex>,
}

impl ModuleView {
    /// The identifier that the next new kitty gets.
    pub open spec fn next_id(self) -> u32 {
        if self.count == 0 { self.start } else { self.count }
    }
}

/// `v` after kitty `id` with `kitty` is stored and given to `owner`.
pub open spec fn created(v: ModuleView, owner: AccountId, id: KittyIndex, kitty: Kitty) -> ModuleView {
    ModuleView {
        kitties: v.kitties.insert(id, kitty),
        count: (id + 1) as u32,
        start: v.start,
        owners: v.owners.insert(id, owner),
        owned: v.owned.insert(owner, v.owned[owner].push(id)),
        parents: v.parents,
        children: v.children,
        mates: v.mates,
    }
}

/// `v` after kitty `id` passes from `from` to `to`.
pub open spec fn transferred(v: ModuleView, from: AccountId, to: AccountId, id: KittyIndex) -> ModuleView {
    let owned = v.owned.insert(from, without(v.owned[from], id));
    ModuleView {
        kitties: v.kitties,
        count: v.count,
        start: v.start,
        owners: v.owners.insert(id, to),
        owned: owned.insert(to, owned[to].push(id)),
        parents: v.parents,
        children: v.children,
        mates: v.mates,
    }
}

/// `v` after `owner` breeds `pa` with `pb` into kitty `id` with `kitty`.
pub open spec fn bred(
    v: ModuleView,
    owner: AccountId,
    pa: KittyIndex,
    pb: KittyIndex,
    id: KittyIndex,
    kitty: Kitty,
) -> ModuleView {
    let c = created(v, owner, id, kitty);
    let children = c.children.insert(pa as u64, c.children[pa as u64].push(id));
    ModuleView {
        parents: c.parents.insert(id, (pa, pb)),
        children: children.insert(pb as u64, children[pb as u64].push(id)),
        mates: c.mates.insert((pa, pb), pa),
        ..c
    }
}

/// What `create_kitty` returns on `v`, given whether the stake was reserved.
pub open spec fn create_outcome(v: ModuleView, reserved: bool) -> Result<KittyIndex, Error> {
    if v.next_id() == u32::MAX {
        Err(Error::CounterOverflow)
    } else if !reserved {
        Err(Error::InsufficientBalance)
    } else {
        Ok(v.next_id())
    }
}

/// What `transfer` returns on `v`, given whether the stake was moved.
pub open spec fn transfer_outcome(v: ModuleView, sender: AccountId, id: KittyIndex, paid: bool) -> Result<(), Error> {
    if !v.kitties.contains_key(id) {
        Err(Error::InvalidEntityId)
    } else if v.owners[id] != sender {
        Err(Error::NotOwner)
    } else if !paid {
        Err(Error::TransferFailure)
    } else {
        Ok(())
    }
}

/// What `do_breed` returns on `v`, given whether the stake was reserved.
pub open spec fn breed_outcome(v: ModuleView, pa: KittyIndex, pb: KittyIndex, reserved: bool) -> Result<KittyIndex, Error> {
    if !v.kitties.contains_key(pa) || !v.kitties.contains_key(pb) {
        Err(Error::InvalidEntityId)
    } else if pa == pb {
        Err(Error::RequireDifferentParents)
    } else {
        create_outcome(v, reserved)
    }
}

/// Bit by bit, the bit of `dna1` where `selector` has a 1 and that of `dna2` where it has a 0.
pub open spec fn combine_dna_spec(dna1: u8, dna2: u8, selector: u8) -> u8 {
    (selector & dna1) | (!selector & dna2)
}

/// The DNA of a child of parents with DNA `d1` and `d2`, under `selector`.
pub open spec fn child_dna(d1: Seq<u8>, d2: Seq<u8>, selector: Seq<u8>) -> Seq<u8> {
    Seq::new(16, |i: int| combine_dna_spec(d1[i], d2[i], selector[i]))
}

/// Mixes two parents' DNA bytes: each bit comes from `dna1` where `selector`
/// has a 1 and from `dna2` where it has a 0.
pub fn combine_dna(dna1: u8, dna2: u8, selector: u8) -> (r: u8)
    ensures
        r == combine_dna_spec(dna1, dna2, selector),
        forall|b: u8|
            b < 8 ==> #[trigger] ((r >> b) & 1) == if (selector >> b) & 1 == 1 {
                (dna1 >> b) & 1
            } else {
                (dna2 >> b) & 1
            },
{
    let r = (selector & dna1) | (!selector & dna2);
    assert forall|b: u8|
        b < 8 implies #[trigger] ((r >> b) & 1) == if (selector >> b) & 1 == 1 {
            (dna1 >> b) & 1
        } else {
            (dna2 >> b) & 1
        } by {
        assert(((r >> b) & 1) == if (selector >> b) & 1 == 1 {
            (dna1 >> b) & 1
        } else {
            (dna2 >> b) & 1
        }) by (bit_vector)
            requires
                r == (selector & dna1) | (!selector & dna2),
                b < 8,
        ;
    }
    r
}

/// The registry of kitties, their owners and their lineage.
pub struct Module {
    kitties: HashMap<KittyIndex, Kitty>,
    kitties_count: u32,
    kitty_index_value: u32,
    kitty_owners: HashMap<KittyIndex, AccountId>,
    account_kitties: LinkedList,
    kitty_parents: HashMap<KittyIndex, (KittyIndex, KittyIndex)>,
    kitty_children: LinkedList,
    kitty_mate: HashMap<u64, KittyIndex>,
}

impl View for Module {
    type V = ModuleView;

    closed spec fn view(&self) -> ModuleView {
        ModuleView {
            kitties: self.kitties@,
            count: self.kitties_count,
            start: self.kitty_index_value,
            owners: self.kitty_owners@,
            owned: self.account_kitties@,
            parents: self.kitty_parents@,
            children: self.kitty_children@,
            mates: Map::new(
                |p: (KittyIndex, KittyIndex)| self.kitty_mate@.contains_key(pair_key(p.0, p.1)),
                |p: (KittyIndex, KittyIndex)| self.kitty_mate@[pair_key(p.0, p.1)],
            ),
        }
    }
}

impl Module {
    /// The two lists are well formed.
    pub closed spec fn lists_wf(&self) -> bool {
        &&& self.account_kitties.wf()
        &&& self.kitty_children.wf()
    }

    /// Owners, owned lists, identifiers and lineage agree with one another.
    pub closed spec fn wf(&self) -> bool {
        &&& self.lists_wf()
        &&& forall|id: KittyIndex| #[trigger] self.kitties@.contains_key(id) <==> self.kitty_owners@.contains_key(id)
        &&& forall|id: KittyIndex| #[trigger] self.kitty_owners@.contains_key(id)
            ==> self.account_kitties@[self.kitty_owners@[id]].contains(id)
        &&& forall|a: AccountId, id: KittyIndex| #[trigger] self.account_kitties@[a].contains(id)
            ==> self.kitty_owners@.contains_key(id) && self.kitty_owners@[id] == a
        &&& forall|id: KittyIndex| #[trigger] self.kitties@.contains_key(id) ==> id < self@.next_id()
        &&& forall|p: u64, c: KittyIndex| #[trigger] self.kitty_children@[p].contains(c)
            ==> self.kitties@.contains_key(c)
        &&& forall|c: KittyIndex| #[trigger] self.kitty_parents@.contains_key(c) ==> self.kitties@.contains_key(c)
    }

    /// An empty registry whose first kitty gets `kitty_index_value` as identifier.
    pub fn new(kitty_index_value: u32) -> (r: Module)
        ensures
            r.wf(),
            r@.kitties == Map::<KittyIndex, Kitty>::empty(),
            r@.count == 0,
            r@.start == kitty_index_value,
            r@.owners == Map::<KittyIndex, AccountId>::empty(),
            forall|a: AccountId| #[trigger] r@.owned[a] == Seq::<KittyIndex>::empty(),
            r@.parents == Map::<KittyIndex, (KittyIndex, KittyIndex)>::empty(),
            forall|p: u64| #[trigger] r@.children[p] == Seq::<KittyIndex>::empty(),
            r@.mates == Map::<(KittyIndex, KittyIndex), KittyIndex>::empty(),
    {
        broadcast use vstd::std_specs::hash::group_hash_axioms;

        let r = Module {
            kitties: HashMap::new(),
            kitties_count: 0,
            kitty_index_value,
            kitty_owners: HashMap::new(),
            account_kitties: LinkedList::new(),
            kitty_parents: HashMap::new(),
            kitty_children: LinkedList::new(),
            kitty_mate: HashMap::new(),
        };
        assert(r@.mates =~= Map::<(KittyIndex, KittyIndex), KittyIndex>::empty());
        r
    }

    /// The identifier that the next new kitty gets, unless none is left.
    pub fn next_kitty_id(&self) -> (r: Result<KittyIndex, Error>)
        ensures
            r == if self@.next_id() == u32::MAX {
                Err::<KittyIndex, Error>(Error::CounterOverflow)
            } else {
                Ok(self@.next_id())
            },
    {
        let mut kitty_id = self.kitties_count;
        if kitty_id == 0 {
            kitty_id = self.kitty_index_value;
        }
        if kitty_id == u32::MAX {
            return Err(Error::CounterOverflow);
        }
        Ok(kitty_id)
    }
}

impl Module {
    /// A kitty that is not stored is in no account's list and no kitty's children.
    proof fn lemma_unknown_kitty(&self, id: KittyIndex)
        requires
            self.wf(),
            !self@.kitties.contains_key(id),
        ensures
            forall|a: AccountId| !(#[trigger] self@.owned[a].contains(id)),
            forall|p: u64| !(#[trigger] self@.children[p].contains(id)),
            !self@.owners.contains_key(id),
            !self@.parents.contains_key(id),
    {
        assert forall|a: AccountId| !(#[trigger] self@.owned[a].contains(id)) by {
            if self.account_kitties@[a].contains(id) {
                assert(self.kitty_owners@.contains_key(id));
            }
        }
        assert forall|p: u64| !(#[trigger] self@.children[p].contains(id)) by {
            if self.kitty_children@[p].contains(id) {
                assert(self.kitties@.contains_key(id));
            }
        }
        assert(!self.kitty_owners@.contains_key(id));
    }

    /// Storing a new kitty under the next identifier keeps the registry consistent.
    proof fn lemma_created_wf(pre: Module, post: Module, owner: AccountId, id: KittyIndex, kitty: Kitty)
        requires
            pre.wf(),
            id == pre@.next_id(),
            id < u32::MAX,
            post.lists_wf(),
            post@ == created(pre@, owner, id, kitty),
        ensures
            post.wf(),
    {
        pre.lemma_unknown_kitty(id);
        assert(post@.next_id() == id + 1);
        assert forall|i: KittyIndex| #[trigger] post.kitty_owners@.contains_key(i)
            implies post.account_kitties@[post.kitty_owners@[i]].contains(i) by {
            if i == id {
                assert(post.account_kitties@[owner] == pre.account_kitties@[owner].push(id));
                assert(post.account_kitties@[owner][pre.account_kitties@[owner].len() as int] == id);
            } else {
                let a = pre.kitty_owners@[i];
                assert(pre.account_kitties@[a].contains(i));
                let j = choose|j: int| 0 <= j < pre.account_kitties@[a].len() && pre.account_kitties@[a][j] == i;
                assert(post.account_kitties@[a][j] == i);
            }
        }
        assert forall|a: AccountId, i: KittyIndex| #[trigger] post.account_kitties@[a].contains(i)
            implies post.kitty_owners@.contains_key(i) && post.kitty_owners@[i] == a by {
            if a == owner && i == id {
            } else if a == owner {
                let j = choose|j: int| 0 <= j < post.account_kitties@[a].len() && post.account_kitties@[a][j] == i;
                assert(j < pre.account_kitties@[a].len());
                assert(pre.account_kitties@[a][j] == i);
                assert(pre.account_kitties@[a].contains(i));
            } else {
                assert(pre.account_kitties@[a].contains(i));
                assert(i != id);
            }
        }
        assert forall|i: KittyIndex| #[trigger] post.kitties@.contains_key(i) implies i < post@.next_id() by {
            if i != id {
                assert(pre.kitties@.contains_key(i));
            }
        }
        assert forall|p: u64, c: KittyIndex| #[trigger] post.kitty_children@[p].contains(c)
            implies post.kitties@.contains_key(c) by {
            assert(pre.kitty_children@[p].contains(c));
        }
        assert forall|c: KittyIndex| #[trigger] post.kitty_parents@.contains_key(c)
            implies post.kitties@.contains_key(c) by {
            assert(pre.kitty_parents@.contains_key(c));
        }
        assert forall|i: KittyIndex| #[trigger] post.kitties@.contains_key(i)
            <==> post.kitty_owners@.contains_key(i) by {
            assert(pre.kitties@.contains_key(i) <==> pre.kitty_owners@.contains_key(i));
        }
    }

    /// Adds `kitty_id` at the end of `owner`'s list.
    pub fn insert_account_kitty(&mut self, owner: AccountId, kitty_id: KittyIndex)
        requires
            old(self).lists_wf(),
            !old(self)@.owned[owner].contains(kitty_id),
        ensures
            final(self).lists_wf(),
            final(self)@ == (ModuleView {
                owned: old(self)@.owned.insert(owner, old(self)@.owned[owner].push(kitty_id)),
                ..old(self)@
            }),
    {
        self.account_kitties.append(owner, kitty_id);
    }

    /// Takes `kitty_id` out of `owner`'s list, where it is there.
    pub fn remove_account_kitty(&mut self, owner: AccountId, kitty_id: KittyIndex)
        requires
            old(self).lists_wf(),
        ensures
            final(self).lists_wf(),
            final(self)@ == (ModuleView {
                owned: old(self)@.owned.insert(owner, without(old(self)@.owned[owner], kitty_id)),
                ..old(self)@
            }),
    {
        self.account_kitties.remove(owner, kitty_id);
    }

    /// Stores `kitty` under `kitty_id`, gives it to `owner` and advances the
    /// counter past `kitty_id`.
    pub fn insert_kitty(&mut self, owner: AccountId, kitty_id: KittyIndex, kitty: Kitty)
        requires
            old(self).lists_wf(),
            !old(self)@.owned[owner].contains(kitty_id),
            kitty_id < u32::MAX,
        ensures
            final(self).lists_wf(),
            final(self)@ == created(old(self)@, owner, kitty_id, kitty),
    {
        broadcast use vstd::std_specs::hash::group_hash_axioms;

        self.insert_account_kitty(owner, kitty_id);
        self.kitties.insert(kitty_id, kitty);
        self.kitties_count = kitty_id + 1;
        self.kitty_owners.insert(kitty_id, owner);
    }

    /// Creates `kitty` for `sender` under the next identifier; `reserved` says
    /// whether `sender`'s stake was reserved for it.
    pub fn create_kitty(&mut self, sender: AccountId, kitty: Kitty, reserved: bool) -> (r: Result<KittyIndex, Error>)
        requires
            old(self).wf(),
        ensures
            final(self).wf(),
            r == create_outcome(old(self)@, reserved),
            match r {
                Ok(id) => final(self)@ == created(old(self)@, sender, id, kitty),
                Err(_) => final(self)@ == old(self)@,
            },
    {
        let kitty_id = match self.next_kitty_id() {
            Ok(id) => id,
            Err(e) => return Err(e),
        };
        if !reserved {
            return Err(Error::InsufficientBalance);
        }
        proof {
            self.lemma_unknown_kitty(kitty_id);
        }
        let ghost pre = *self;
        self.insert_kitty(sender, kitty_id, kitty);
        proof {
            Module::lemma_created_wf(pre, *self, sender, kitty_id, kitty);
        }
        Ok(kitty_id)
    }

    /// Creates a kitty for `sender` whose DNA is drawn from `entropy`;
    /// `reserved` says whether `sender`'s stake was reserved for it.
    pub fn create(&mut self, sender: AccountId, entropy: &Entropy, reserved: bool) -> (r: Result<KittyIndex, Error>)
        requires
            old(self).wf(),
        ensures
            final(self).wf(),
            r == create_outcome(old(self)@, reserved),
            match r {
                Ok(id) => {
                    &&& final(self)@ == created(old(self)@, sender, id, final(self)@.kitties[id])
                    &&& final(self)@.kitties[id].0@ == blake2_128_of(
                        seed_payload(entropy.random_seed@, sender, entropy.extrinsic_index),
                    )
                },
                Err(_) => final(self)@ == old(self)@,
            },
    {
        let dna = random_value(sender, entropy);
        self.create_kitty(sender, Kitty(dna), reserved)
    }
}

impl Module {
    /// The owner relation after a transfer: `id` is in `to`'s list alone.
    proof fn lemma_transferred_lists(pre: Module, post: Module, from: AccountId, to: AccountId, id: KittyIndex)
        requires
            pre.wf(),
            pre@.owners.contains_key(id),
            pre@.owners[id] == from,
            post@.owned == transferred(pre@, from, to, id).owned,
        ensures
            forall|a: AccountId, x: KittyIndex| #[trigger] post.account_kitties@[a].contains(x)
                <==> if x == id { a == to } else { pre.account_kitties@[a].contains(x) },
    {
        let s = pre@.owned[from];
        pre.account_kitties.lemma_unique(from);
        lemma_without(s, id);
        let owned1 = pre@.owned.insert(from, without(s, id));
        assert forall|a: AccountId, x: KittyIndex| #[trigger] post@.owned[a].contains(x)
            <==> if x == id { a == to } else { pre@.owned[a].contains(x) } by {
            let t = owned1[to];
            if a == to {
                assert(post@.owned[a] == t.push(id));
                assert(t.push(id)[t.len() as int] == id);
                if t.push(id).contains(x) && x != id {
                    let j = choose|j: int| 0 <= j < t.push(id).len() && t.push(id)[j] == x;
                    assert(t[j] == x);
                }
                if t.contains(x) {
                    let j = choose|j: int| 0 <= j < t.len() && t[j] == x;
                    assert(t.push(id)[j] == x);
                }
                if x == id && a != from {
                    assert(!pre@.owned[a].contains(id));
                }
            } else if a == from {
                assert(post@.owned[a] == without(s, id));
            } else {
                if x == id {
                    assert(!pre@.owned[a].contains(id));
                }
            }
        }
    }

    /// Moving a kitty between owners keeps the registry consistent.
    proof fn lemma_transferred_wf(pre: Module, post: Module, from: AccountId, to: AccountId, id: KittyIndex)
        requires
            pre.wf(),
            pre@.owners.contains_key(id),
            pre@.owners[id] == from,
            post.lists_wf(),
            post@ == transferred(pre@, from, to, id),
        ensures
            post.wf(),
    {
        Module::lemma_transferred_lists(pre, post, from, to, id);
        assert forall|i: KittyIndex| #[trigger] post.kitty_owners@.contains_key(i)
            implies post.account_kitties@[post.kitty_owners@[i]].contains(i) by {
            if i != id {
                assert(pre.account_kitties@[pre.kitty_owners@[i]].contains(i));
            }
        }
        assert forall|a: AccountId, i: KittyIndex| #[trigger] post.account_kitties@[a].contains(i)
            implies post.kitty_owners@.contains_key(i) && post.kitty_owners@[i] == a by {
            if i != id {
                assert(pre.account_kitties@[a].contains(i));
            }
        }
        assert forall|i: KittyIndex| #[trigger] post.kitties@.contains_key(i)
            <==> post.kitty_owners@.contains_key(i) by {
            assert(pre.kitties@.contains_key(i) <==> pre.kitty_owners@.contains_key(i));
        }
        assert forall|i: KittyIndex| #[trigger] post.kitties@.contains_key(i) implies i < post@.next_id() by {
            assert(pre.kitties@.contains_key(i));
        }
        assert forall|p: u64, c: KittyIndex| #[trigger] post.kitty_children@[p].contains(c)
            implies post.kitties@.contains_key(c) by {
            assert(pre.kitty_children@[p].contains(c));
        }
        assert forall|c: KittyIndex| #[trigger] post.kitty_parents@.contains_key(c)
            implies post.kitties@.contains_key(c) by {
            assert(pre.kitty_parents@.contains_key(c));
        }
    }

    /// Whether `sender` may transfer kitty `kitty_id`: it must exist and be `sender`'s.
    pub fn can_transfer(&self, sender: AccountId, kitty_id: KittyIndex) -> (r: Result<(), Error>)
        requires
            self.wf(),
        ensures
            r == transfer_outcome(self@, sender, kitty_id, true),
    {
        broadcast use vstd::std_specs::hash::group_hash_axioms;

        let account_id = match self.kitty_owners.get(&kitty_id) {
            Some(a) => *a,
            None => return Err(Error::InvalidEntityId),
        };
        if account_id != sender {
            return Err(Error::NotOwner);
        }
        Ok(())
    }

    /// Gives kitty `kitty_id` of `sender` to `to`; `paid` says whether the
    /// stake moved from `sender` to `to`.
    pub fn transfer(&mut self, sender: AccountId, to: AccountId, kitty_id: KittyIndex, paid: bool) -> (r: Result<(), Error>)
        requires
            old(self).wf(),
        ensures
            final(self).wf(),
            r == transfer_outcome(old(self)@, sender, kitty_id, paid),
            match r {
                Ok(_) => final(self)@ == transferred(old(self)@, sender, to, kitty_id),
                Err(_) => final(self)@ == old(self)@,
            },
    {
        broadcast use vstd::std_specs::hash::group_hash_axioms;

        let account_id = match self.kitty_owners.get(&kitty_id) {
            Some(a) => *a,
            None => return Err(Error::InvalidEntityId),
        };
        if account_id != sender {
            return Err(Error::NotOwner);
        }
        if !paid {
            return Err(Error::TransferFailure);
        }
        let ghost pre = *self;
        proof {
            self.account_kitties.lemma_unique(sender);
            lemma_without(self@.owned[sender], kitty_id);
            if to != sender && self@.owned[to].contains(kitty_id) {
                assert(self.kitty_owners@[kitty_id] == to);
            }
        }
        self.remove_account_kitty(sender, kitty_id);
        self.insert_account_kitty(to, kitty_id);
        self.kitty_owners.insert(kitty_id, to);
        proof {
            assert(self@ == transferred(pre@, sender, to, kitty_id));
            Module::lemma_transferred_wf(pre, *self, sender, to, kitty_id);
        }
        Ok(())
    }
}

impl Module {
    /// Recording a new kitty's lineage keeps the registry consistent.
    proof fn lemma_bred_wf(
        pre: Module,
        mid: Module,
        post: Module,
        owner: AccountId,
        pa: KittyIndex,
        pb: KittyIndex,
        id: KittyIndex,
        kitty: Kitty,
    )
        requires
            pre.wf(),
            mid.wf(),
            mid@ == created(pre@, owner, id, kitty),
            post.lists_wf(),
            post@ == bred(pre@, owner, pa, pb, id, kitty),
        ensures
            post.wf(),
    {
        assert(post.kitties@ == mid.kitties@);
        assert(post.kitty_owners@ == mid.kitty_owners@);
        assert(post.account_kitties@ == mid.account_kitties@);
        assert(post@.next_id() == mid@.next_id());
        assert forall|p: u64, c: KittyIndex| #[trigger] post.kitty_children@[p].contains(c)
            implies post.kitties@.contains_key(c) by {
            if c != id {
                let t = post.kitty_children@[p];
                let j = choose|j: int| 0 <= j < t.len() && t[j] == c;
                let m = mid.kitty_children@[p];
                if p == pa as u64 || p == pb as u64 {
                    let m1 = if p == pb as u64 && pa as u64 == pb as u64 { m.push(id) } else { m };
                    assert(j < m.len() || t == m1.push(id));
                    assert(m.contains(c) || m1.contains(c) || t[j] == id);
                    if m1.contains(c) && !m.contains(c) {
                        let j1 = choose|j1: int| 0 <= j1 < m1.len() && m1[j1] == c;
                        assert(j1 < m.len());
                        assert(m[j1] == c);
                    }
                    if t == m.push(id) {
                        assert(m[j] == c);
                    }
                    assert(mid.kitty_children@[p].contains(c));
                } else {
                    assert(mid.kitty_children@[p].contains(c));
                }
            }
        }
        assert forall|c: KittyIndex| #[trigger] post.kitty_parents@.contains_key(c)
            implies post.kitties@.contains_key(c) by {
            if c != id {
                assert(mid.kitty_parents@.contains_key(c));
            }
        }
        assert forall|i: KittyIndex| #[trigger] post.kitty_owners@.contains_key(i)
            implies post.account_kitties@[post.kitty_owners@[i]].contains(i) by {
            assert(mid.kitty_owners@.contains_key(i));
        }
        assert forall|a: AccountId, i: KittyIndex| #[trigger] post.account_kitties@[a].contains(i)
            implies post.kitty_owners@.contains_key(i) && post.kitty_owners@[i] == a by {
            assert(mid.account_kitties@[a].contains(i));
        }
        assert forall|i: KittyIndex| #[trigger] post.kitties@.contains_key(i)
            <==> post.kitty_owners@.contains_key(i) by {
            assert(mid.kitties@.contains_key(i) <==> mid.kitty_owners@.contains_key(i));
        }
        assert forall|i: KittyIndex| #[trigger] post.kitties@.contains_key(i) implies i < post@.next_id() by {
            assert(mid.kitties@.contains_key(i));
        }
    }

    /// The identifier that a child of `kitty_id_1` and `kitty_id_2` would get,
    /// or why they cannot breed, before any stake is reserved.
    pub fn can_breed(&self, kitty_id_1: KittyIndex, kitty_id_2: KittyIndex) -> (r: Result<KittyIndex, Error>)
        ensures
            r == breed_outcome(self@, kitty_id_1, kitty_id_2, true),
    {
        broadcast use vstd::std_specs::hash::group_hash_axioms;

        if !self.kitties.contains_key(&kitty_id_1) || !self.kitties.contains_key(&kitty_id_2) {
            return Err(Error::InvalidEntityId);
        }
        if kitty_id_1 == kitty_id_2 {
            return Err(Error::RequireDifferentParents);
        }
        self.next_kitty_id()
    }

    /// Breeds `kitty_id_1` with `kitty_id_2` into a new kitty of `sender`, each
    /// bit of whose DNA comes from the first parent where `selector` has a 1 and
    /// from the second where it has a 0; `reserved` says whether `sender`'s
    /// stake was reserved for it.
    pub fn do_breed(
        &mut self,
        sender: AccountId,
        kitty_id_1: KittyIndex,
        kitty_id_2: KittyIndex,
        selector: [u8; 16],
        reserved: bool,
    ) -> (r: Result<KittyIndex, Error>)
        requires
            old(self).wf(),
        ensures
            final(self).wf(),
            r == breed_outcome(old(self)@, kitty_id_1, kitty_id_2, reserved),
            match r {
                Ok(id) => {
                    &&& final(self)@ == bred(old(self)@, sender, kitty_id_1, kitty_id_2, id, final(self)@.kitties[id])
                    &&& final(self)@.kitties[id].0@ == child_dna(
                        old(self)@.kitties[kitty_id_1].0@,
                        old(self)@.kitties[kitty_id_2].0@,
                        selector@,
                    )
                },
                Err(_) => final(self)@ == old(self)@,
            },
    {
        broadcast use vstd::std_specs::hash::group_hash_axioms;

        let kitty1 = match self.kitties.get(&kitty_id_1) {
            Some(k) => *k,
            None => return Err(Error::InvalidEntityId),
        };
        let kitty2 = match self.kitties.get(&kitty_id_2) {
            Some(k) => *k,
            None => return Err(Error::InvalidEntityId),
        };
        if kitty_id_1 == kitty_id_2 {
            return Err(Error::RequireDifferentParents);
        }
        let kitty_id = match self.next_kitty_id() {
            Ok(id) => id,
            Err(e) => return Err(e),
        };
        if !reserved {
            return Err(Error::InsufficientBalance);
        }
        let mut new_dna = [0u8; 16];
        let mut i: usize = 0;
        while i < 16
            invariant
                i <= 16,
                forall|j: int| 0 <= j < i ==> new_dna@[j] == combine_dna_spec(kitty1.0@[j], kitty2.0@[j], selector@[j]),
            decreases 16 - i,
        {
            new_dna[i] = combine_dna(kitty1.0[i], kitty2.0[i], selector[i]);
            i += 1;
        }
        assert(new_dna@ =~= child_dna(kitty1.0@, kitty2.0@, selector@));
        proof {
            self.lemma_unknown_kitty(kitty_id);
        }
        let ghost pre = *self;
        let kitty = Kitty(new_dna);
        self.insert_kitty(sender, kitty_id, kitty);
        proof {
            Module::lemma_created_wf(pre, *self, sender, kitty_id, kitty);
        }
        let ghost mid = *self;
        self.kitty_parents.insert(kitty_id, (kitty_id_1, kitty_id_2));
        self.kitty_children.append(kitty_id_1 as u64, kitty_id);
        self.kitty_children.append(kitty_id_2 as u64, kitty_id);
        let mate_key = pair_key_of(kitty_id_1, kitty_id_2);
        self.kitty_mate.insert(mate_key, kitty_id_1);
        proof {
            assert forall|p: (KittyIndex, KittyIndex)| #[trigger] self@.mates.contains_key(p)
                <==> mid@.mates.insert((kitty_id_1, kitty_id_2), kitty_id_1).contains_key(p) by {
                lemma_pair_key_injective(p.0, p.1, kitty_id_1, kitty_id_2);
            }
            assert forall|p: (KittyIndex, KittyIndex)| #[trigger] self@.mates.contains_key(p)
                implies self@.mates[p] == mid@.mates.insert((kitty_id_1, kitty_id_2), kitty_id_1)[p] by {
                lemma_pair_key_injective(p.0, p.1, kitty_id_1, kitty_id_2);
            }
            assert(self@.mates =~= mid@.mates.insert((kitty_id_1, kitty_id_2), kitty_id_1));
            assert(self@ == bred(pre@, sender, kitty_id_1, kitty_id_2, kitty_id, kitty));
            Module::lemma_bred_wf(pre, mid, *self, sender, kitty_id_1, kitty_id_2, kitty_id, kitty);
        }
        Ok(kitty_id)
    }

    /// Breeds `kitty_id_1` with `kitty_id_2` into a new kitty of `sender`,
    /// mixing their DNA under a selector drawn from `entropy`; `reserved` says
    /// whether `sender`'s stake was reserved for it.
    pub fn breed(
        &mut self,
        sender: AccountId,
        kitty_id_1: KittyIndex,
        kitty_id_2: KittyIndex,
        entropy: &Entropy,
        reserved: bool,
    ) -> (r: Result<KittyIndex, Error>)
        requires
            old(self).wf(),
        ensures
            final(self).wf(),
            r == breed_outcome(old(self)@, kitty_id_1, kitty_id_2, reserved),
            match r {
                Ok(id) => {
                    &&& final(self)@ == bred(old(self)@, sender, kitty_id_1, kitty_id_2, id, final(self)@.kitties[id])
                    &&& final(self)@.kitties[id].0@ == child_dna(
                        old(self)@.kitties[kitty_id_1].0@,
                        old(self)@.kitties[kitty_id_2].0@,
                        blake2_128_of(seed_payload(entropy.random_seed@, sender, entropy.extrinsic_index)),
                    )
                },
                Err(_) => final(self)@ == old(self)@,
            },
    {
        let selector = random_value(sender, entropy);
        self.do_breed(sender, kitty_id_1, kitty_id_2, selector, reserved)
    }
}

impl Module {
    /// The kitty stored under `kitty_id`, if any.
    pub fn kitties(&self, kitty_id: KittyIndex) -> (r: Option<Kitty>)
        ensures
            r == if self@.kitties.contains_key(kitty_id) { Some(self@.kitties[kitty_id]) } else { None },
    {
        broadcast use vstd::std_specs::hash::group_hash_axioms;

        match self.kitties.get(&kitty_id) {
            Some(k) => Some(*k),
            None => None,
        }
    }

    /// The stored counter: the next identifier, or 0 while none was assigned.
    pub fn kitties_count(&self) -> (r: u32)
        ensures
            r == self@.count,
    {
        self.kitties_count
    }

    /// The owner of kitty `kitty_id`, if it exists.
    pub fn kitty_owner(&self, kitty_id: KittyIndex) -> (r: Option<AccountId>)
        ensures
            r == if self@.owners.contains_key(kitty_id) { Some(self@.owners[kitty_id]) } else { None },
    {
        broadcast use vstd::std_specs::hash::group_hash_axioms;

        match self.kitty_owners.get(&kitty_id) {
            Some(a) => Some(*a),
            None => None,
        }
    }

    /// The kitties of `owner`, in the order in which it came to own them.
    pub fn account_kitties(&self, owner: AccountId) -> (r: Vec<KittyIndex>)
        requires
            self.wf(),
        ensures
            r@ == self@.owned[owner],
    {
        self.account_kitties.members(owner)
    }

    /// The parents of kitty `kitty_id`, or `(0, 0)` where it was not bred.
    pub fn kitty_parents(&self, kitty_id: KittyIndex) -> (r: (KittyIndex, KittyIndex))
        ensures
            r == if self@.parents.contains_key(kitty_id) { self@.parents[kitty_id] } else { (0u32, 0u32) },
    {
        broadcast use vstd::std_specs::hash::group_hash_axioms;

        match self.kitty_parents.get(&kitty_id) {
            Some(p) => *p,
            None => (0, 0),
        }
    }

    /// The children of kitty `kitty_id`, in order of birth.
    pub fn kitty_children(&self, kitty_id: KittyIndex) -> (r: Vec<KittyIndex>)
        requires
            self.wf(),
        ensures
            r@ == self@.children[kitty_id as u64],
    {
        self.kitty_children.members(kitty_id as u64)
    }

    /// The representative of the pair `(kitty_id_1, kitty_id_2)` where the two have bred.
    pub fn kitty_mate(&self, kitty_id_1: KittyIndex, kitty_id_2: KittyIndex) -> (r: Option<KittyIndex>)
        ensures
            r == if self@.mates.contains_key((kitty_id_1, kitty_id_2)) {
                Some(self@.mates[(kitty_id_1, kitty_id_2)])
            } else {
                None
            },
    {
        broadcast use vstd::std_specs::hash::group_hash_axioms;

        let k = pair_key_of(kitty_id_1, kitty_id_2);
        match self.kitty_mate.get(&k) {
            Some(m) => Some(*m),
            None => None,
        }
    }

    /// After its owner transfers a kitty, the recipient owns it, the kitty is
    /// in the recipient's list exactly once, and no longer in the former
    /// owner's list where the two differ.
    pub proof fn lemma_transfer_moves(pre: Module, a: AccountId, b: AccountId, e: KittyIndex)
        requires
            pre.wf(),
            pre@.kitties.contains_key(e),
            pre@.owners[e] == a,
        ensures
            transfer_outcome(pre@, a, e, true) == Ok::<(), Error>(()),
            transferred(pre@, a, b, e).owners[e] == b,
            occurrences(transferred(pre@, a, b, e).owned[b], e) == 1,
            a != b ==> !transferred(pre@, a, b, e).owned[a].contains(e),
    {
        let s = pre@.owned[a];
        pre.account_kitties.lemma_unique(a);
        lemma_without(s, e);
        let owned1 = pre@.owned.insert(a, without(s, e));
        if a != b {
            assert(!pre@.owned[b].contains(e)) by {
                if pre.account_kitties@[b].contains(e) {
                    assert(pre.kitty_owners@[e] == b);
                }
            }
            assert(owned1[b] == pre@.owned[b]);
        }
        assert(!owned1[b].contains(e));
        lemma_occurrences_absent(owned1[b], e);
        lemma_occurrences_push(owned1[b], e);
    }
}

/// Breeding a kitty with itself always fails with `RequireDifferentParents`;
/// breeding two distinct existing kitties succeeds whenever an identifier is
/// left and the stake was reserved, gives the child the next identifier,
/// advances that identifier by one and records the parents as given.
pub proof fn lemma_breed_structure(
    pre: ModuleView,
    sender: AccountId,
    pa: KittyIndex,
    pb: KittyIndex,
    reserved: bool,
    kitty: Kitty,
)
    requires
        pre.kitties.contains_key(pa),
        pre.kitties.contains_key(pb),
    ensures
        pa == pb ==> breed_outcome(pre, pa, pb, reserved) == Err::<KittyIndex, Error>(
            Error::RequireDifferentParents,
        ),
        pa != pb && pre.next_id() < u32::MAX && reserved ==> {
            let id = pre.next_id();
            let post = bred(pre, sender, pa, pb, id, kitty);
            &&& breed_outcome(pre, pa, pb, reserved) == Ok::<KittyIndex, Error>(id)
            &&& post.next_id() == pre.next_id() + 1
            &&& post.parents[id] == (pa, pb)
            &&& post.owners[id] == sender
        },
{
}

/// After `pa` and `pb` breed child `c`, each parent lists `c` among its
/// children and the pair `(pa, pb)` is recorded as mates.
pub proof fn lemma_lineage_symmetric(
    pre: ModuleView,
    sender: AccountId,
    pa: KittyIndex,
    pb: KittyIndex,
    c: KittyIndex,
    kitty: Kitty,
)
    ensures
        bred(pre, sender, pa, pb, c, kitty).children[pa as u64].contains(c),
        bred(pre, sender, pa, pb, c, kitty).children[pb as u64].contains(c),
        bred(pre, sender, pa, pb, c, kitty).mates.contains_key((pa, pb)),
{
    let post = bred(pre, sender, pa, pb, c, kitty);
    let ch = pre.children.insert(pa as u64, pre.children[pa as u64].push(c));
    let t2 = ch[pb as u64].push(c);
    assert(post.children[pb as u64] == t2);
    assert(t2[t2.len() - 1] == c);
    let t1 = pre.children[pa as u64].push(c);
    if pa != pb {
        assert(post.children[pa as u64] == t1);
        assert(t1[t1.len() - 1] == c);
    } else {
        assert(post.children[pa as u64] == t2);
    }
}

} // verus!
