//! The hero's inventory: item stacks counted per item kind.

use std::collections::HashMap;
use vstd::prelude::*;

verus! {

broadcast use vstd::std_specs::hash::group_hash_axioms;

#[derive(Clone, Copy, Debug, PartialEq, Eq, Hash, Structural)]
pub enum ItemKind {
    RatTail,
}

/// The key under which stacks of `kind` are counted.
pub open spec fn item_key_spec(kind: ItemKind) -> u64 {
    match kind {
        ItemKind::RatTail => 0,
    }
}

pub fn item_key(kind: ItemKind) -> (r: u64)
    ensures
        r == item_key_spec(kind),
{
    match kind {
        ItemKind::RatTail => 0,
    }
}

/// Stack counts after adding `count` items under `key`.
pub open spec fn stacks_after_add(stacks: Map<u64, u32>, key: u64, count: int) -> Map<u64, u32> {
    let had: int = if stacks.contains_key(key) {
        stacks[key] as int
    } else {
        0
    };
    stacks.insert(key, (had + count) as u32)
}

/// Item stacks, counted per kind (by `item_key`); a kind never added counts zero.
pub struct Inventory {
    pub stacks: HashMap<u64, u32>,
}

impl Inventory {
    /// How many items of `kind` the inventory holds.
    pub open spec fn count_spec(&self, kind: ItemKind) -> nat {
        if self.stacks@.contains_key(item_key_spec(kind)) {
            self.stacks@[item_key_spec(kind)] as nat
        } else {
            0
        }
    }

    /// An empty inventory.
    pub fn new() -> (r: Self)
        ensures
            r.stacks@ == Map::<u64, u32>::empty(),
            forall|k: ItemKind| r.count_spec(k) == 0,
    {
        Inventory { stacks: HashMap::new() }
    }

    /// Stacks `count` more items of `kind`.
    pub fn add(&mut self, kind: ItemKind, count: u32)
        requires
            old(self).count_spec(kind) + count <= u32::MAX,
        ensures
            final(self).stacks@ == stacks_after_add(old(self).stacks@, item_key_spec(kind), count as int),
            final(self).count_spec(kind) == old(self).count_spec(kind) + count,
            forall|k: ItemKind| k != kind ==> final(self).count_spec(k) == old(self).count_spec(k),
    {
        let key = item_key(kind);
        let had: u32 = match self.stacks.get(&key) {
            Some(c) => *c,
            None => 0,
        };
        self.stacks.insert(key, had + count);
    }

    /// How many items of `kind` the inventory holds.
    pub fn count(&self, kind: ItemKind) -> (r: u32)
        ensures
            r == self.count_spec(kind),
    {
        let key = item_key(kind);
        match self.stacks.get(&key) {
            Some(c) => *c,
            None => 0,
        }
    }
}

impl Default for Inventory {
    fn default() -> (r: Self)
        ensures
            r.stacks@ == Map::<u64, u32>::empty(),
    {
        Inventory::new()
    }
}

/// Items of one kind stack: adding `a` then `b` leaves the same counts as
/// adding `a + b` at once.
pub proof fn law_adds_stack(stacks: Map<u64, u32>, key: u64, a: int, b: int)
    requires
        0 <= a,
        0 <= b,
        (if stacks.contains_key(key) {
            stacks[key] as int
        } else {
            0
        }) + a + b <= u32::MAX,
    ensures
        stacks_after_add(stacks_after_add(stacks, key, a), key, b) == stacks_after_add(stacks, key, a + b),
{
    assert(stacks_after_add(stacks_after_add(stacks, key, a), key, b) =~= stacks_after_add(stacks, key, a + b));
}

} // verus!
