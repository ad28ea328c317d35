//! A circular doubly-linked list of members per collection key, held entirely
//! as individual entries of a point-access key-value store.
//!
//! Each collection key owns a sentinel node (stored under member `None`)
//! whose `next` is the first member and whose `prev` is the last one; each
//! member's node stores its neighbours, with `None` standing for the
//! sentinel. Appending and removing touch a constant number of entries.
use vstd::prelude::*;
use std::collections::HashMap;
use crate::keys::{node_key, node_key_of, lemma_node_key_injective};

verus! {

/// One node of a list: its neighbours, where `None` stands for the sentinel.
#[derive(Clone, Copy, Debug, PartialEq, Eq)]
pub struct LinkedItem<Value> {
    pub prev: Option<Value>,
    pub next: Option<Value>,
}

/// The node that the store yields where it holds none.
pub open spec fn empty_item() -> LinkedItem<u32> {
    LinkedItem { prev: None, next: None }
}

/// The first member of `s`, if any.
pub open spec fn first_of(s: Seq<u32>) -> Option<u32> {
    if s.len() == 0 { None } else { Some(s[0]) }
}

/// The last member of `s`, if any.
pub open spec fn last_of(s: Seq<u32>) -> Option<u32> {
    if s.len() == 0 { None } else { Some(s.last()) }
}

/// The sentinel node of a collection that holds `s` in order.
pub open spec fn sentinel_of(s: Seq<u32>) -> LinkedItem<u32> {
    LinkedItem { prev: last_of(s), next: first_of(s) }
}

/// The node of the member at position `i` of a collection that holds `s`.
pub open spec fn item_at(s: Seq<u32>, i: int) -> LinkedItem<u32> {
    LinkedItem {
        prev: if i == 0 { None } else { Some(s[i - 1]) },
        next: if i == s.len() - 1 { None } else { Some(s[i + 1]) },
    }
}

/// `s` with `v` taken out, where `s` holds `v` at most once.
pub open spec fn without(s: Seq<u32>, v: u32) -> Seq<u32> {
    if s.contains(v) { s.remove(s.index_of(v)) } else { s }
}

/// How many times `v` occurs in `s`.
pub open spec fn occurrences(s: Seq<u32>, v: u32) -> nat
    decreases s.len(),
{
    if s.len() == 0 {
        0
    } else {
        occurrences(s.drop_last(), v) + if s.last() == v { 1nat } else { 0nat }
    }
}

/// The lists of all collection keys, stored node by node.
pub struct LinkedList {
    nodes: HashMap<u128, LinkedItem<u32>>,
    lists: Ghost<Map<u64, Seq<u32>>>,
}

impl View for LinkedList {
    /// For each collection key, its members in list order.
    type V = Map<u64, Seq<u32>>;

    closed spec fn view(&self) -> Map<u64, Seq<u32>> {
        self.lists@
    }
}

impl LinkedList {
    /// The stored node of `member` (of the sentinel, for `None`) in collection `key`.
    pub closed spec fn node(&self, key: u64, member: Option<u32>) -> Option<LinkedItem<u32>> {
        if self.nodes@.contains_key(node_key(key, member)) {
            Some(self.nodes@[node_key(key, member)])
        } else {
            None
        }
    }

    /// The node of `member` as a read yields it: an absent node reads as empty.
    pub open spec fn read_spec(&self, key: u64, member: Option<u32>) -> LinkedItem<u32> {
        match self.node(key, member) {
            Some(item) => item,
            None => empty_item(),
        }
    }

    /// The nodes in the store are exactly the circular lists that the view holds.
    #[verifier::opaque]
    pub closed spec fn wf(&self) -> bool {
        &&& forall|k: u64| #[trigger] self.lists@.contains_key(k)
        &&& forall|k: u64| #[trigger] self.lists@[k].no_duplicates()
        &&& forall|k: u64| #[trigger] self.read_spec(k, None) == sentinel_of(self.lists@[k])
        &&& forall|k: u64, i: int|
            0 <= i < self.lists@[k].len() ==> self.node(k, Some(#[trigger] self.lists@[k][i]))
                == Some(item_at(self.lists@[k], i))
        &&& forall|k: u64, m: u32| #[trigger] self.node(k, Some(m)) is Some ==> self.lists@[k].contains(m)
    }

    /// What a well-formed store holds at the two ends of the list of `key`.
    proof fn lemma_ends(&self, key: u64)
        requires
            self.wf(),
        ensures
            self.read_spec(key, None) == sentinel_of(self@[key]),
            self@[key].len() > 0 ==> self.node(key, Some(self@[key].last())) == Some(
                item_at(self@[key], self@[key].len() - 1),
            ),
            self@[key].no_duplicates(),
            self.lists@.contains_key(key),
    {
        reveal(LinkedList::wf);
        if self@[key].len() > 0 {
            assert(self.lists@[key][self@[key].len() - 1] == self@[key].last());
        }
    }

    /// No list holds a member twice.
    pub proof fn lemma_unique(&self, key: u64)
        requires
            self.wf(),
        ensures
            self@[key].no_duplicates(),
    {
        self.lemma_ends(key);
    }

    /// An empty store: every collection is empty.
    pub fn new() -> (r: LinkedList)
        ensures
            r.wf(),
            forall|k: u64| #[trigger] r@[k] == Seq::<u32>::empty(),
    {
        broadcast use vstd::std_specs::hash::group_hash_axioms;

        let r = LinkedList {
            nodes: HashMap::new(),
            lists: Ghost(Map::new(|k: u64| true, |k: u64| Seq::<u32>::empty())),
        };
        proof {
            reveal(LinkedList::wf);
        }
        r
    }

    fn get(&self, key: u64, member: Option<u32>) -> (r: Option<LinkedItem<u32>>)
        ensures
            r == self.node(key, member),
    {
        broadcast use vstd::std_specs::hash::group_hash_axioms;

        let k = node_key_of(key, member);
        match self.nodes.get(&k) {
            Some(item) => Some(*item),
            None => None,
        }
    }

    fn read(&self, key: u64, member: Option<u32>) -> (r: LinkedItem<u32>)
        ensures
            r == self.read_spec(key, member),
    {
        match self.get(key, member) {
            Some(item) => item,
            None => LinkedItem { prev: None, next: None },
        }
    }

    fn write(&mut self, key: u64, member: Option<u32>, item: LinkedItem<u32>)
        ensures
            final(self).lists == old(self).lists,
            forall|k: u64, m: Option<u32>| #[trigger] final(self).node(k, m)
                == if k == key && m == member { Some(item) } else { old(self).node(k, m) },
    {
        broadcast use vstd::std_specs::hash::group_hash_axioms;

        let k = node_key_of(key, member);
        self.nodes.insert(k, item);
        proof {
            assert forall|k2: u64, m2: Option<u32>| #[trigger] self.node(k2, m2)
                == if k2 == key && m2 == member { Some(item) } else { old(self).node(k2, m2) } by {
                lemma_node_key_injective(k2, m2, key, member);
            }
        }
    }

    fn delete(&mut self, key: u64, member: Option<u32>)
        ensures
            final(self).lists == old(self).lists,
            forall|k: u64, m: Option<u32>| #[trigger] final(self).node(k, m)
                == if k == key && m == member { None } else { old(self).node(k, m) },
    {
        broadcast use vstd::std_specs::hash::group_hash_axioms;

        let k = node_key_of(key, member);
        self.nodes.remove(&k);
        proof {
            assert forall|k2: u64, m2: Option<u32>| #[trigger] self.node(k2, m2)
                == if k2 == key && m2 == member { None } else { old(self).node(k2, m2) } by {
                lemma_node_key_injective(k2, m2, key, member);
            }
        }
    }
}


impl LinkedList {
    /// Adds `value` at the end of the list of `key`.
    ///
    /// `value` must not be a member already: the list does not look for it.
    pub fn append(&mut self, key: u64, value: u32)
        requires
            old(self).wf(),
            !old(self)@[key].contains(value),
        ensures
            final(self).wf(),
            final(self)@ == old(self)@.insert(key, old(self)@[key].push(value)),
    {
        let ghost s = self.lists@[key];
        let ghost s2 = s.push(value);
        proof {
            self.lemma_ends(key);
        }
        let mut head_node = self.read(key, None);
        match head_node.next {
            None => {
                assert(s.len() == 0);
                head_node.next = Some(value);
                head_node.prev = Some(value);
                let new_item = LinkedItem { prev: None, next: None };
                self.write(key, None, head_node);
                self.write(key, Some(value), new_item);
                assert(s2.len() == 1 && s2[0] == value);
                assert(head_node == sentinel_of(s2));
                assert(new_item == item_at(s2, 0));
                assert(self.node(key, None) == Some(sentinel_of(s2)));
                assert(self.node(key, Some(value)) == Some(item_at(s2, s.len() as int)));
                proof {
                    assert forall|k: u64, m: Option<u32>| #[trigger] self.node(k, m)
                        == old(self).node_after_append(key, value, k, m) by {
                        if k == key && m == None::<u32> {
                        } else if k == key && m == Some(value) {
                        } else if k == key && s.len() > 0 && m == Some(s.last()) {
                        } else {
                        }
                    }
                }
            },
            Some(_) => {
                assert(s.len() > 0);
                let tail = head_node.prev;
                assert(tail == Some(s[s.len() - 1]));
                let mut last_node = self.read(key, tail);
                assert(last_node == item_at(s, s.len() - 1));
                let new_item = LinkedItem { prev: tail, next: last_node.next };
                last_node.next = Some(value);
                head_node.prev = Some(value);
                self.write(key, None, head_node);
                self.write(key, tail, last_node);
                self.write(key, Some(value), new_item);
                assert(s2[0] == s[0] && s2.last() == value);
                assert(head_node == sentinel_of(s2));
                assert(s.len() >= 2 ==> s2[s.len() - 2] == s[s.len() - 2]);
                assert(s2[s.len() as int] == value);
                assert(last_node == item_at(s2, s.len() - 1));
                assert(new_item == item_at(s2, s.len() as int));
                assert(s[s.len() - 1] != value);
                assert(self.node(key, None) == Some(sentinel_of(s2)));
                assert(self.node(key, Some(value)) == Some(item_at(s2, s.len() as int)));
                proof {
                    assert forall|k: u64, m: Option<u32>| #[trigger] self.node(k, m)
                        == old(self).node_after_append(key, value, k, m) by {
                        if k == key && m == None::<u32> {
                        } else if k == key && m == Some(value) {
                        } else if k == key && s.len() > 0 && m == Some(s.last()) {
                        } else {
                        }
                    }
                }
            },
        }
        let ghost pre = *old(self);
        let ghost mid = *self;
        self.lists = Ghost(self.lists@.insert(key, s2));
        proof {
            assert forall|k: u64, m: Option<u32>| #[trigger] self.node(k, m)
                == pre.node_after_append(key, value, k, m) by {
                assert(self.node(k, m) == mid.node(k, m));
            }
            pre.lemma_append_wf(*self, key, value);
        }
    }
}


impl LinkedList {
    /// The node of `m` in collection `k` after `value` is appended to collection `key`.
    closed spec fn node_after_append(&self, key: u64, value: u32, k: u64, m: Option<u32>) -> Option<LinkedItem<u32>> {
        let s = self.lists@[key];
        let s2 = s.push(value);
        if k == key && m == None::<u32> {
            Some(sentinel_of(s2))
        } else if k == key && m == Some(value) {
            Some(item_at(s2, s.len() as int))
        } else if k == key && s.len() > 0 && m == Some(s.last()) {
            Some(item_at(s2, s.len() - 1))
        } else {
            self.node(k, m)
        }
    }

    /// The premises shared by the lemmas on an append.
    closed spec fn append_step(&self, post: LinkedList, key: u64, value: u32) -> bool {
        &&& self.wf()
        &&& !self@[key].contains(value)
        &&& post.lists@ == self.lists@.insert(key, self.lists@[key].push(value))
        &&& forall|k: u64, m: Option<u32>| #[trigger] post.node(k, m)
            == self.node_after_append(key, value, k, m)
    }

    proof fn lemma_append_no_duplicates(&self, post: LinkedList, key: u64, value: u32)
        requires
            self.append_step(post, key, value),
        ensures
            forall|k: u64| #[trigger] post.lists@[k].no_duplicates(),
    {
        reveal(LinkedList::wf);
        let s = self.lists@[key];
        let s2 = s.push(value);
        assert forall|k: u64| #[trigger] post.lists@[k].no_duplicates() by {
            if k == key {
                assert(self.lists@[key].no_duplicates());
                assert forall|i: int, j: int|
                    0 <= i < s2.len() && 0 <= j < s2.len() && i != j implies s2[i] != s2[j] by {
                    if i < s.len() && j < s.len() {
                        assert(s[i] != s[j]);
                    } else if i == s.len() {
                        assert(s[j] == s2[j]);
                    } else {
                        assert(s[i] == s2[i]);
                    }
                }
            } else {
                assert(self.lists@[k].no_duplicates());
            }
        }
    }

    proof fn lemma_append_sentinel(&self, post: LinkedList, key: u64, value: u32)
        requires
            self.append_step(post, key, value),
        ensures
            forall|k: u64| #[trigger] post.read_spec(k, None) == sentinel_of(post.lists@[k]),
    {
        reveal(LinkedList::wf);
        assert forall|k: u64| #[trigger] post.read_spec(k, None) == sentinel_of(post.lists@[k]) by {
            assert(post.node(k, None) == self.node_after_append(key, value, k, None));
            if k != key {
                assert(self.read_spec(k, None) == sentinel_of(self.lists@[k]));
            }
        }
    }

    proof fn lemma_append_members(&self, post: LinkedList, key: u64, value: u32)
        requires
            self.append_step(post, key, value),
        ensures
            forall|k: u64, i: int|
                0 <= i < post.lists@[k].len() ==> post.node(k, Some(#[trigger] post.lists@[k][i]))
                    == Some(item_at(post.lists@[k], i)),
    {
        reveal(LinkedList::wf);
        let s = self.lists@[key];
        let s2 = s.push(value);
        assert forall|k: u64, i: int|
            0 <= i < post.lists@[k].len() implies post.node(k, Some(#[trigger] post.lists@[k][i]))
                == Some(item_at(post.lists@[k], i)) by {
            if k == key {
                assert(post.node(k, Some(s2[i])) == self.node_after_append(key, value, k, Some(s2[i])));
                if i < s.len() {
                    assert(s2[i] == s[i]);
                    assert(self.node(k, Some(s[i])) == Some(item_at(s, i)));
                    if i < s.len() - 1 {
                        assert(s.no_duplicates());
                        assert(s[i] != s.last());
                        assert(item_at(s2, i) == item_at(s, i));
                    }
                }
            } else {
                let m = post.lists@[k][i];
                assert(self.lists@[k][i] == m);
                assert(post.node(k, Some(m)) == self.node_after_append(key, value, k, Some(m)));
                assert(self.node(k, Some(m)) == Some(item_at(self.lists@[k], i)));
            }
        }
    }

    proof fn lemma_append_no_strays(&self, post: LinkedList, key: u64, value: u32)
        requires
            self.append_step(post, key, value),
        ensures
            forall|k: u64, m: u32| #[trigger] post.node(k, Some(m)) is Some ==> post.lists@[k].contains(m),
    {
        reveal(LinkedList::wf);
        let s = self.lists@[key];
        let s2 = s.push(value);
        assert forall|k: u64, m: u32| #[trigger] post.node(k, Some(m)) is Some implies post.lists@[
            k
        ].contains(m) by {
            assert(post.node(k, Some(m)) == self.node_after_append(key, value, k, Some(m)));
            if k == key {
                if m == value {
                    assert(s2[s.len() as int] == value);
                } else if s.len() > 0 && m == s.last() {
                    assert(s2[s.len() - 1] == m);
                } else {
                    assert(self.node(k, Some(m)) is Some);
                    let i = choose|i: int| 0 <= i < s.len() && s[i] == m;
                    assert(s2[i] == m);
                }
            } else {
                assert(self.node(k, Some(m)) is Some);
            }
        }
    }

    proof fn lemma_append_wf(&self, post: LinkedList, key: u64, value: u32)
        requires
            self.append_step(post, key, value),
        ensures
            post.wf(),
    {
        reveal(LinkedList::wf);
        self.lemma_append_no_duplicates(post, key, value);
        self.lemma_append_sentinel(post, key, value);
        self.lemma_append_members(post, key, value);
        self.lemma_append_no_strays(post, key, value);
    }
}

impl LinkedList {
    /// Takes `value` out of the list of `key`; where it is not a member, nothing changes.
    pub fn remove(&mut self, key: u64, value: u32)
        requires
            old(self).wf(),
        ensures
            final(self).wf(),
            final(self)@ == old(self)@.insert(key, without(old(self)@[key], value)),
    {
        let ghost s = self.lists@[key];
        proof {
            self.lemma_ends(key);
        }
        match self.get(key, Some(value)) {
            None => {
                proof {
                    if s.contains(value) {
                        let j = choose|j: int| 0 <= j < s.len() && s[j] == value;
                        self.lemma_node_at(key, j);
                    }
                    assert(without(s, value) == s);
                    assert(self.lists@ =~= self.lists@.insert(key, without(s, value)));
                }
            },
            Some(del_node) => {
                let ghost j = s.index_of(value);
                let ghost s2 = s.remove(j);
                proof {
                    self.lemma_stray(key, value);
                    self.lemma_node_at(key, j);
                    if j > 0 {
                        self.lemma_node_at(key, j - 1);
                    }
                    if j < s.len() - 1 {
                        self.lemma_node_at(key, j + 1);
                    }
                    assert(s[j] == value);
                }
                let mut prev_node = self.read(key, del_node.prev);
                prev_node.next = del_node.next;
                self.write(key, del_node.prev, prev_node);
                let mut next_node = self.read(key, del_node.next);
                next_node.prev = del_node.prev;
                self.write(key, del_node.next, next_node);
                self.delete(key, Some(value));
                proof {
                    old(self).lemma_removed_shape(key, value);
                    if j > 0 {
                        assert(s[j - 1] != value);
                    }
                    if j < s.len() - 1 {
                        assert(s[j + 1] != value);
                    }
                    if j > 0 && j < s.len() - 1 {
                        assert(s[j - 1] != s[j + 1]);
                    }
                    assert forall|k: u64, m: Option<u32>| #[trigger] self.node(k, m)
                        == old(self).node_after_remove(key, value, k, m) by {
                        if k == key && m == Some(value) {
                        } else if k == key && m == None::<u32> {
                        } else if k == key && j > 0 && m == Some(s[j - 1]) {
                        } else if k == key && j < s.len() - 1 && m == Some(s[j + 1]) {
                        } else {
                        }
                    }
                }
                let ghost pre = *old(self);
                let ghost mid = *self;
                self.lists = Ghost(self.lists@.insert(key, s2));
                proof {
                    assert forall|k: u64, m: Option<u32>| #[trigger] self.node(k, m)
                        == pre.node_after_remove(key, value, k, m) by {
                        assert(self.node(k, m) == mid.node(k, m));
                    }
                    pre.lemma_remove_wf(*self, key, value);
                }
            },
        }
    }

    proof fn lemma_node_at(&self, key: u64, i: int)
        requires
            self.wf(),
            0 <= i < self@[key].len(),
        ensures
            self.node(key, Some(self@[key][i])) == Some(item_at(self@[key], i)),
    {
        reveal(LinkedList::wf);
    }

    proof fn lemma_stray(&self, key: u64, m: u32)
        requires
            self.wf(),
        ensures
            self.node(key, Some(m)) is Some ==> self@[key].contains(m),
    {
        reveal(LinkedList::wf);
    }

    /// The shape of the list of `key` once `value`, a member, is taken out.
    proof fn lemma_removed_shape(&self, key: u64, value: u32)
        requires
            self.wf(),
            self@[key].contains(value),
        ensures
            ({
                let s = self@[key];
                let j = s.index_of(value);
                let s2 = s.remove(j);
                &&& 0 <= j < s.len()
                &&& s[j] == value
                &&& s2.len() == s.len() - 1
                &&& forall|i: int| 0 <= i < j ==> #[trigger] s2[i] == s[i]
                &&& forall|i: int| j <= i < s2.len() ==> #[trigger] s2[i] == s[i + 1]
                &&& sentinel_of(s2) == LinkedItem {
                    prev: if j == s.len() - 1 { if j == 0 { None } else { Some(s[j - 1]) } } else { last_of(s) },
                    next: if j == 0 { if j == s.len() - 1 { None } else { Some(s[j + 1]) } } else { first_of(s) },
                }
                &&& j > 0 ==> item_at(s2, j - 1) == LinkedItem {
                    prev: item_at(s, j - 1).prev,
                    next: if j == s.len() - 1 { None } else { Some(s[j + 1]) },
                }
                &&& j < s.len() - 1 ==> item_at(s2, j) == LinkedItem {
                    prev: if j == 0 { None } else { Some(s[j - 1]) },
                    next: item_at(s, j + 1).next,
                }
            }),
    {
        let s = self@[key];
        let j = s.index_of(value);
        let s2 = s.remove(j);
        assert(s2.len() == s.len() - 1);
        if s2.len() > 0 {
            assert(s2.last() == s2[s2.len() - 1]);
        }
    }

    /// The node of `m` in collection `k` after `value` is taken out of collection `key`.
    closed spec fn node_after_remove(&self, key: u64, value: u32, k: u64, m: Option<u32>) -> Option<LinkedItem<u32>> {
        let s = self.lists@[key];
        let j = s.index_of(value);
        let s2 = s.remove(j);
        if k == key && m == Some(value) {
            None
        } else if k == key && m == None::<u32> {
            Some(sentinel_of(s2))
        } else if k == key && j > 0 && m == Some(s[j - 1]) {
            Some(item_at(s2, j - 1))
        } else if k == key && j < s.len() - 1 && m == Some(s[j + 1]) {
            Some(item_at(s2, j))
        } else {
            self.node(k, m)
        }
    }

    /// The premises shared by the lemmas on a removal.
    closed spec fn remove_step(&self, post: LinkedList, key: u64, value: u32) -> bool {
        &&& self.wf()
        &&& self@[key].contains(value)
        &&& post.lists@ == self.lists@.insert(key, self.lists@[key].remove(self.lists@[key].index_of(value)))
        &&& forall|k: u64, m: Option<u32>| #[trigger] post.node(k, m)
            == self.node_after_remove(key, value, k, m)
    }

    proof fn lemma_remove_wf(&self, post: LinkedList, key: u64, value: u32)
        requires
            self.remove_step(post, key, value),
        ensures
            post.wf(),
    {
        reveal(LinkedList::wf);
        self.lemma_removed_shape(key, value);
        self.lemma_remove_no_duplicates(post, key, value);
        self.lemma_remove_sentinel(post, key, value);
        self.lemma_remove_members(post, key, value);
        self.lemma_remove_no_strays(post, key, value);
    }

    proof fn lemma_remove_no_duplicates(&self, post: LinkedList, key: u64, value: u32)
        requires
            self.remove_step(post, key, value),
        ensures
            forall|k: u64| #[trigger] post.lists@[k].no_duplicates(),
    {
        reveal(LinkedList::wf);
        self.lemma_removed_shape(key, value);
        let s = self.lists@[key];
        let j = s.index_of(value);
        let s2 = s.remove(j);
        assert forall|k: u64| #[trigger] post.lists@[k].no_duplicates() by {
            if k == key {
                assert(s.no_duplicates());
                assert forall|a: int, b: int|
                    0 <= a < s2.len() && 0 <= b < s2.len() && a != b implies s2[a] != s2[b] by {
                    let a1 = if a < j { a } else { a + 1 };
                    let b1 = if b < j { b } else { b + 1 };
                    assert(s2[a] == s[a1] && s2[b] == s[b1]);
                }
            } else {
                assert(self.lists@[k].no_duplicates());
            }
        }
    }

    proof fn lemma_remove_sentinel(&self, post: LinkedList, key: u64, value: u32)
        requires
            self.remove_step(post, key, value),
        ensures
            forall|k: u64| #[trigger] post.read_spec(k, None) == sentinel_of(post.lists@[k]),
    {
        reveal(LinkedList::wf);
        assert forall|k: u64| #[trigger] post.read_spec(k, None) == sentinel_of(post.lists@[k]) by {
            assert(post.node(k, None) == self.node_after_remove(key, value, k, None));
            if k != key {
                assert(self.read_spec(k, None) == sentinel_of(self.lists@[k]));
            }
        }
    }

    proof fn lemma_remove_members(&self, post: LinkedList, key: u64, value: u32)
        requires
            self.remove_step(post, key, value),
        ensures
            forall|k: u64, i: int|
                0 <= i < post.lists@[k].len() ==> post.node(k, Some(#[trigger] post.lists@[k][i]))
                    == Some(item_at(post.lists@[k], i)),
    {
        reveal(LinkedList::wf);
        self.lemma_removed_shape(key, value);
        let s = self.lists@[key];
        let j = s.index_of(value);
        let s2 = s.remove(j);
        assert forall|k: u64, i: int|
            0 <= i < post.lists@[k].len() implies post.node(k, Some(#[trigger] post.lists@[k][i]))
                == Some(item_at(post.lists@[k], i)) by {
            if k == key {
                let i1 = if i < j { i } else { i + 1 };
                assert(s2[i] == s[i1]);
                assert(s.no_duplicates());
                assert(post.node(k, Some(s2[i])) == self.node_after_remove(key, value, k, Some(s2[i])));
                assert(self.node(k, Some(s[i1])) == Some(item_at(s, i1)));
                if i < j - 1 {
                    assert(s[i] != s[j - 1]);
                    if j < s.len() - 1 {
                        assert(s[i] != s[j + 1]);
                    }
                    assert(item_at(s2, i) == item_at(s, i));
                } else if i == j - 1 {
                    if j < s.len() - 1 {
                        assert(s[i] != s[j + 1]);
                    }
                } else if i == j {
                    if j > 0 {
                        assert(s[j - 1] != s[j + 1]);
                    }
                } else {
                    assert(s[i1] != s[j + 1]);
                    if j > 0 {
                        assert(s[i1] != s[j - 1]);
                    }
                    assert(s2[i - 1] == s[i]);
                    if i < s2.len() - 1 {
                        assert(s2[i + 1] == s[i + 2]);
                    }
                    assert(item_at(s2, i) == item_at(s, i1));
                }
            } else {
                let m = post.lists@[k][i];
                assert(self.lists@[k][i] == m);
                assert(post.node(k, Some(m)) == self.node_after_remove(key, value, k, Some(m)));
                assert(self.node(k, Some(m)) == Some(item_at(self.lists@[k], i)));
            }
        }
    }

    proof fn lemma_remove_no_strays(&self, post: LinkedList, key: u64, value: u32)
        requires
            self.remove_step(post, key, value),
        ensures
            forall|k: u64, m: u32| #[trigger] post.node(k, Some(m)) is Some ==> post.lists@[k].contains(m),
    {
        reveal(LinkedList::wf);
        self.lemma_removed_shape(key, value);
        let s = self.lists@[key];
        let j = s.index_of(value);
        let s2 = s.remove(j);
        assert forall|k: u64, m: u32| #[trigger] post.node(k, Some(m)) is Some implies post.lists@[
            k
        ].contains(m) by {
            assert(post.node(k, Some(m)) == self.node_after_remove(key, value, k, Some(m)));
            if k == key {
                assert(m != value);
                if j > 0 && m == s[j - 1] {
                    assert(s2[j - 1] == m);
                } else if j < s.len() - 1 && m == s[j + 1] {
                    assert(s2[j] == m);
                } else {
                    assert(self.node(k, Some(m)) is Some);
                    let i = choose|i: int| 0 <= i < s.len() && s[i] == m;
                    assert(i != j);
                    if i < j {
                        assert(s2[i] == m);
                    } else {
                        assert(s2[i - 1] == m);
                    }
                }
            } else {
                assert(self.node(k, Some(m)) is Some);
            }
        }
    }
}

impl LinkedList {
    /// The members of `key` in list order, found by walking `next` from the sentinel.
    pub fn members(&self, key: u64) -> (r: Vec<u32>)
        requires
            self.wf(),
        ensures
            r@ == self@[key],
    {
        let ghost s = self@[key];
        proof {
            self.lemma_ends(key);
        }
        let head_node = self.read(key, None);
        let mut out: Vec<u32> = Vec::new();
        let mut cur = head_node.next;
        while cur.is_some()
            invariant
                self.wf(),
                s == self@[key],
                out.len() <= s.len(),
                out@ == s.take(out.len() as int),
                cur == if out.len() < s.len() { Some(s[out.len() as int]) } else { None::<u32> },
            decreases s.len() - out.len(),
        {
            let m = cur.unwrap();
            proof {
                self.lemma_node_at(key, out.len() as int);
            }
            out.push(m);
            cur = self.read(key, Some(m)).next;
            assert(out@ =~= s.take(out.len() as int));
        }
        assert(out@ =~= s);
        out
    }

    /// Where a walk from the sentinel stands after one hop along `next` from `at`.
    pub open spec fn step_next(&self, key: u64, at: Option<u32>) -> Option<u32> {
        self.read_spec(key, at).next
    }

    /// Where a walk from the sentinel stands after one hop along `prev` from `at`.
    pub open spec fn step_prev(&self, key: u64, at: Option<u32>) -> Option<u32> {
        self.read_spec(key, at).prev
    }

    /// Where a walk along `next` that starts at the sentinel stands after `n` hops
    /// (`None`: at the sentinel).
    pub open spec fn walk_next(&self, key: u64, n: nat) -> Option<u32>
        decreases n,
    {
        if n == 0 {
            None
        } else {
            self.step_next(key, self.walk_next(key, (n - 1) as nat))
        }
    }

    /// Where a walk along `prev` that starts at the sentinel stands after `n` hops
    /// (`None`: at the sentinel).
    pub open spec fn walk_prev(&self, key: u64, n: nat) -> Option<u32>
        decreases n,
    {
        if n == 0 {
            None
        } else {
            self.step_prev(key, self.walk_prev(key, (n - 1) as nat))
        }
    }

    proof fn lemma_walk(&self, key: u64, n: nat)
        requires
            self.wf(),
            0 < n <= self@[key].len(),
        ensures
            self.walk_next(key, n) == Some(self@[key][n - 1]),
            self.walk_prev(key, n) == Some(self@[key][self@[key].len() - n]),
        decreases n,
    {
        let s = self@[key];
        self.lemma_ends(key);
        if n > 1 {
            self.lemma_walk(key, (n - 1) as nat);
            self.lemma_node_at(key, n - 2);
            self.lemma_node_at(key, s.len() - n + 1);
        }
    }

    /// The list of every key is circular, whatever appends and removals built it:
    /// walking from the sentinel along `next` visits the members in order and
    /// returns to the sentinel on the hop after the last; walking along `prev`
    /// visits them in reverse and returns likewise.
    pub proof fn lemma_circular(&self, key: u64)
        requires
            self.wf(),
        ensures
            forall|i: int| 0 < i <= self@[key].len() ==> #[trigger] self.walk_next(key, i as nat)
                == Some(self@[key][i - 1]),
            forall|i: int| 0 < i <= self@[key].len() ==> #[trigger] self.walk_prev(key, i as nat)
                == Some(self@[key][self@[key].len() - i]),
            self.walk_next(key, self@[key].len() + 1) == None::<u32>,
            self.walk_prev(key, self@[key].len() + 1) == None::<u32>,
    {
        let s = self@[key];
        self.lemma_ends(key);
        assert forall|i: int| 0 < i <= s.len() implies #[trigger] self.walk_next(key, i as nat)
            == Some(s[i - 1]) by {
            self.lemma_walk(key, i as nat);
        }
        assert forall|i: int| 0 < i <= s.len() implies #[trigger] self.walk_prev(key, i as nat)
            == Some(s[s.len() - i]) by {
            self.lemma_walk(key, i as nat);
        }
        if s.len() > 0 {
            self.lemma_walk(key, s.len());
            self.lemma_node_at(key, s.len() - 1);
            self.lemma_node_at(key, 0);
        }
        assert(self.walk_next(key, s.len() + 1) == self.step_next(key, self.walk_next(key, s.len())));
        assert(self.walk_prev(key, s.len() + 1) == self.step_prev(key, self.walk_prev(key, s.len())));
    }

    /// Appending a member that is not in the list makes it occur in the
    /// enumeration exactly once, and the enumeration stays free of duplicates.
    pub proof fn lemma_append_once(pre: LinkedList, post: LinkedList, key: u64, m: u32)
        requires
            pre.wf(),
            !pre@[key].contains(m),
            post@ == pre@.insert(key, pre@[key].push(m)),
        ensures
            occurrences(post@[key], m) == 1,
            post@[key].no_duplicates(),
    {
        pre.lemma_ends(key);
        let s = pre@[key];
        lemma_occurrences_absent(s, m);
        assert(s.push(m).drop_last() =~= s);
        let s2 = s.push(m);
        assert forall|i: int, j: int|
            0 <= i < s2.len() && 0 <= j < s2.len() && i != j implies s2[i] != s2[j] by {
            if i < s.len() && j < s.len() {
                assert(s[i] != s[j]);
            } else if i == s.len() {
                assert(s[j] == s2[j]);
            } else {
                assert(s[i] == s2[i]);
            }
        }
    }

    /// Appending a new member and then removing it leaves every collection as
    /// it was, with no node left for it, so that it can be appended again.
    pub proof fn lemma_remove_undoes_append(
        l0: LinkedList,
        l1: LinkedList,
        l2: LinkedList,
        key: u64,
        m: u32,
    )
        requires
            l0.wf(),
            !l0@[key].contains(m),
            l1@ == l0@.insert(key, l0@[key].push(m)),
            l2.wf(),
            l2@ == l1@.insert(key, without(l1@[key], m)),
        ensures
            l2@ == l0@,
            !l2@[key].contains(m),
            l2.node(key, Some(m)) is None,
    {
        l0.lemma_ends(key);
        let s = l0@[key];
        let s2 = s.push(m);
        assert(s2[s.len() as int] == m);
        let i = s2.index_of(m);
        assert(0 <= i < s2.len() && s2[i] == m);
        assert(i == s.len());
        assert(s2.remove(i) =~= s);
        assert(l2@ =~= l0@);
        l2.lemma_stray(key, m);
    }

    /// A collection that has been emptied is stored as one that was never
    /// used: its sentinel has no neighbours and no member has a node.
    pub proof fn lemma_emptied_is_fresh(&self, key: u64)
        requires
            self.wf(),
            self@[key].len() == 0,
        ensures
            self.read_spec(key, None) == empty_item(),
            forall|m: u32| #[trigger] self.node(key, Some(m)) is None,
    {
        self.lemma_ends(key);
        assert forall|m: u32| #[trigger] self.node(key, Some(m)) is None by {
            self.lemma_stray(key, m);
        }
    }

    /// Appending to an empty collection stores one member whose node points to
    /// the sentinel both ways, and a sentinel that points to it both ways.
    pub proof fn lemma_single_member(&self, key: u64, m: u32)
        requires
            self.wf(),
            self@[key] == seq![m],
        ensures
            self.read_spec(key, None) == (LinkedItem { prev: Some(m), next: Some(m) }),
            self.node(key, Some(m)) == Some(empty_item()),
    {
        self.lemma_ends(key);
        self.lemma_node_at(key, 0);
    }
}

/// Pushing `v` adds one occurrence of it.
pub proof fn lemma_occurrences_push(s: Seq<u32>, v: u32)
    ensures
        occurrences(s.push(v), v) == occurrences(s, v) + 1,
{
    assert(s.push(v).drop_last() =~= s);
}

/// A value that is not in `s` does not occur in it.
pub proof fn lemma_occurrences_absent(s: Seq<u32>, v: u32)
    requires
        !s.contains(v),
    ensures
        occurrences(s, v) == 0,
    decreases s.len(),
{
    if s.len() > 0 {
        assert(s.drop_last().len() < s.len());
        assert forall|i: int| 0 <= i < s.drop_last().len() implies s.drop_last()[i] != v by {
            assert(s.drop_last()[i] == s[i]);
        }
        lemma_occurrences_absent(s.drop_last(), v);
        assert(s.last() == s[s.len() - 1]);
    }
}

/// Taking `v` out of a list without duplicates leaves no `v` and keeps every other member.
pub proof fn lemma_without(s: Seq<u32>, v: u32)
    requires
        s.no_duplicates(),
    ensures
        !without(s, v).contains(v),
        forall|x: u32| x != v ==> (#[trigger] without(s, v).contains(x) <==> s.contains(x)),
        without(s, v).no_duplicates(),
{
    if s.contains(v) {
        let j = s.index_of(v);
        let s2 = s.remove(j);
        assert(0 <= j < s.len() && s[j] == v);
        assert forall|i: int| 0 <= i < s2.len() implies s2[i] == if i < j { s[i] } else { s[i + 1] } by {}
        assert forall|i: int| 0 <= i < s2.len() implies s2[i] != v by {
            if i < j {
                assert(s[i] != s[j]);
            } else {
                assert(s[i + 1] != s[j]);
            }
        }
        assert forall|x: u32| x != v implies (#[trigger] s2.contains(x) <==> s.contains(x)) by {
            if s.contains(x) {
                let i = choose|i: int| 0 <= i < s.len() && s[i] == x;
                if i < j {
                    assert(s2[i] == x);
                } else {
                    assert(i != j);
                    assert(s2[i - 1] == x);
                }
            }
        }
        assert forall|a: int, b: int|
            0 <= a < s2.len() && 0 <= b < s2.len() && a != b implies s2[a] != s2[b] by {
            let a1 = if a < j { a } else { a + 1 };
            let b1 = if b < j { b } else { b + 1 };
            assert(s2[a] == s[a1] && s2[b] == s[b1]);
        }
    }
}

} // verus!
