//! Finite sets of step identifiers.

use vstd::prelude::*;
use vstd::string::StringExecFns;
use crate::edge::{debug_keys, keys_text};
use crate::node::{KeyView, NodeKey};

verus! {

/// A finite set of step identifiers that remembers the order in which its
/// members were added.
#[derive(Debug)]
pub struct KeySet {
    keys: Vec<NodeKey>,
}

impl View for KeySet {
    type V = Set<KeyView>;

    open spec fn view(&self) -> Set<KeyView> {
        self.order().to_set()
    }
}

impl Clone for KeySet {
    fn clone(&self) -> (copy: Self)
        ensures
            copy.order() == self.order(),
            copy@ == self@,
            self.wf() ==> copy.wf(),
    {
        self.duplicate()
    }
}

impl KeySet {
    /// The members in the order in which they were added.
    pub closed spec fn order(&self) -> Seq<KeyView> {
        self.keys@.map_values(|k: NodeKey| k@)
    }

    /// No member is held twice.
    pub open spec fn wf(&self) -> bool {
        self.order().no_duplicates()
    }

    /// A well-formed set is finite and has as many members as its order is long.
    pub proof fn lemma_cardinality(&self)
        requires
            self.wf(),
        ensures
            self@.finite(),
            self@.len() == self.order().len(),
    {
        vstd::seq_lib::seq_to_set_is_finite(self.order());
        self.order().unique_seq_to_set();
    }

    /// The empty set.
    pub fn new() -> (set: Self)
        ensures
            set.wf(),
            set.order() == Seq::<KeyView>::empty(),
            set@ == Set::<KeyView>::empty(),
    {
        let set = KeySet { keys: Vec::new() };
        assert(set.order() =~= Seq::<KeyView>::empty());
        assert(set@ =~= Set::<KeyView>::empty());
        set
    }

    /// The number of members.
    pub fn len(&self) -> (n: usize)
        ensures
            n == self.order().len(),
    {
        self.keys.len()
    }

    /// Whether the set has no member.
    pub fn is_empty(&self) -> (empty: bool)
        ensures
            empty == (self.order().len() == 0),
            empty == (self@ == Set::<KeyView>::empty()),
    {
        let empty = self.keys.len() == 0;
        proof {
            if empty {
                assert(self@ =~= Set::<KeyView>::empty());
            } else {
                assert(self.order()[0] == self.keys@[0]@);
                assert(self.order().contains(self.order()[0]));
                assert(self@.contains(self.order()[0]));
            }
        }
        empty
    }

    /// The member at position `index` of the order.
    pub fn get(&self, index: usize) -> (key: &NodeKey)
        requires
            index < self.order().len(),
        ensures
            key@ == self.order()[index as int],
    {
        &self.keys[index]
    }

    /// Whether `key` is a member.
    pub fn contains(&self, key: &NodeKey) -> (found: bool)
        ensures
            found == self@.contains(key@),
    {
        let mut i: usize = 0;
        while i < self.keys.len()
            invariant
                i <= self.keys.len(),
                forall|j: int| 0 <= j < i ==> self.order()[j] != key@,
            decreases self.keys.len() - i,
        {
            if self.keys[i].same(key) {
                assert(self.order()[i as int] == key@);
                assert(self.order().contains(key@));
                return true;
            }
            i += 1;
        }
        false
    }

    /// Adds `key`; returns whether it was new.
    pub fn insert(&mut self, key: NodeKey) -> (added: bool)
        requires
            old(self).wf(),
        ensures
            final(self).wf(),
            final(self)@ == old(self)@.insert(key@),
            added == !old(self)@.contains(key@),
            added ==> final(self).order() == old(self).order().push(key@),
            !added ==> final(self).order() == old(self).order(),
    {
        if self.contains(&key) {
            assert(self@.insert(key@) =~= self@);
            false
        } else {
            let ghost before = self.order();
            self.keys.push(key);
            proof {
                assert(self.order() =~= before.push(key@));
                before.lemma_push_to_set_commute(key@);
                assert forall|i: int, j: int|
                    0 <= i < self.order().len() && 0 <= j < self.order().len() && i != j
                implies self.order()[i] != self.order()[j] by {
                    if i < before.len() && j < before.len() {
                    } else if i < before.len() {
                        assert(before.contains(before[i]));
                    } else {
                        assert(before.contains(before[j]));
                    }
                }
            }
            true
        }
    }

    /// The one-member set holding `key`.
    pub fn single(key: NodeKey) -> (set: Self)
        ensures
            set.wf(),
            set.order() == seq![key@],
            set@ == set![key@],
    {
        let mut set = KeySet::new();
        set.insert(key);
        assert(set.order() =~= seq![key@]);
        assert(set@ =~= set![key@]);
        set
    }

    /// The set of the keys in `keys`.
    pub fn from_vec(keys: Vec<NodeKey>) -> (set: Self)
        ensures
            set.wf(),
            set@ == keys@.map_values(|k: NodeKey| k@).to_set(),
    {
        let ghost all = keys@.map_values(|k: NodeKey| k@);
        let mut set = KeySet::new();
        let mut i: usize = 0;
        while i < keys.len()
            invariant
                i <= keys.len(),
                set.wf(),
                all == keys@.map_values(|k: NodeKey| k@),
                set@ == all.take(i as int).to_set(),
            decreases keys.len() - i,
        {
            let key = keys[i].clone();
            proof {
                assert(all.take(i as int + 1) =~= all.take(i as int).push(key@));
                all.take(i as int).lemma_push_to_set_commute(key@);
            }
            set.insert(key);
            i += 1;
        }
        assert(all.take(keys.len() as int) =~= all);
        set
    }

    /// A copy of this set.
    pub fn duplicate(&self) -> (copy: Self)
        ensures
            copy.order() == self.order(),
            copy@ == self@,
            self.wf() ==> copy.wf(),
    {
        let mut keys: Vec<NodeKey> = Vec::new();
        let mut i: usize = 0;
        while i < self.keys.len()
            invariant
                i <= self.keys.len(),
                keys.len() == i,
                forall|j: int| 0 <= j < i ==> keys@[j]@ == self.keys@[j]@,
            decreases self.keys.len() - i,
        {
            keys.push(self.keys[i].clone());
            i += 1;
        }
        let copy = KeySet { keys };
        assert(copy.order() =~= self.order());
        copy
    }

    /// `prefix` followed by the members, listed in their order.
    pub fn describe(&self, prefix: &str) -> (text: String)
        ensures
            text@ == prefix@ + keys_text(self.order()),
    {
        let mut text = String::from_str(prefix);
        text.append(debug_keys(&self.keys).as_str());
        text
    }

    /// Adds every member of `other`.
    pub fn extend(&mut self, other: &KeySet)
        requires
            old(self).wf(),
        ensures
            final(self).wf(),
            final(self)@ == old(self)@.union(other@),
    {
        let mut i: usize = 0;
        while i < other.keys.len()
            invariant
                i <= other.keys.len(),
                self.wf(),
                self@ == old(self)@.union(other.order().take(i as int).to_set()),
            decreases other.keys.len() - i,
        {
            let key = other.keys[i].clone();
            proof {
                let seen = other.order().take(i as int);
                assert(other.order().take(i as int + 1) =~= seen.push(key@));
                seen.lemma_push_to_set_commute(key@);
                assert(old(self)@.union(seen.to_set()).insert(key@) =~= old(self)@.union(
                    seen.to_set().insert(key@),
                ));
            }
            self.insert(key);
            i += 1;
        }
        assert(other.order().take(other.keys.len() as int) =~= other.order());
    }
}

} // verus!
