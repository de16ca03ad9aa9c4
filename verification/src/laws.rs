//! What holds of the map over whole histories of calls.
//!
//! The laws are stated over the entries of a map and the functions that say
//! what `insert` and `remove` do to them and return, which are the functions
//! that the contracts of `insert` and `remove` are stated with.

use crate::intrusive_map::{Entry, InsertError, IntrusiveMap};
use crate::layout::Block;
use vstd::prelude::*;

verus! {

/// One call on a map: an insertion, with the address that the allocator
/// returned for it, a removal, or the unlinking of all nodes.
pub enum Op<K, V> {
    Insert { key: K, value: V, addr: usize },
    Remove { key: K },
    Clear,
}

impl<K, V> IntrusiveMap<K, V> {
    /// The entries after the call `op` on a map with the entries `m`.
    pub open spec fn apply(m: Map<K, Entry<V>>, op: Op<K, V>) -> Map<K, Entry<V>> {
        match op {
            Op::Insert { key, value, addr } => Self::after_insert(m, key, value, addr),
            Op::Remove { key } => Self::after_remove(m, key),
            Op::Clear => Map::empty(),
        }
    }

    /// The entries of a new map after the calls `ops`, in order.
    pub open spec fn run(ops: Seq<Op<K, V>>) -> Map<K, Entry<V>>
        decreases ops.len(),
    {
        if ops.len() == 0 {
            Map::empty()
        } else {
            Self::apply(Self::run(ops.drop_last()), ops.last())
        }
    }

    /// The keys of `m` whose node is backed by a block at one of the
    /// addresses `among`.
    pub open spec fn held(m: Map<K, Entry<V>>, among: Set<usize>) -> Set<K> {
        m.dom().filter(|key: K| among.contains(m[key].addr))
    }

    /// How many blocks at one of the addresses `among` the map takes over in
    /// the call `op`: the block of an insertion that succeeds.
    pub open spec fn takes(m: Map<K, Entry<V>>, op: Op<K, V>, among: Set<usize>) -> nat {
        match op {
            Op::Insert { key, value, addr } => if Self::insert_outcome(m, key, addr) is Ok
                && among.contains(addr) {
                1
            } else {
                0
            },
            Op::Remove { key } => 0,
            Op::Clear => 0,
        }
    }

    /// How many blocks at one of the addresses `among` the map hands back
    /// for release in the call `op` on a map with the entries `m`.
    pub open spec fn gives(m: Map<K, Entry<V>>, op: Op<K, V>, among: Set<usize>) -> nat {
        match op {
            Op::Insert { key, value, addr } => match Self::insert_outcome(m, key, addr) {
                Ok(Some(block)) => if among.contains(block.addr) {
                    1
                } else {
                    0
                },
                _ => 0,
            },
            Op::Remove { key } => match Self::remove_outcome(m, key) {
                Some((_, block)) => if among.contains(block.addr) {
                    1
                } else {
                    0
                },
                None => 0,
            },
            Op::Clear => Self::held(m, among).len(),
        }
    }

    /// How many blocks at one of the addresses `among` a new map takes over
    /// during the calls `ops`.
    pub open spec fn taken(ops: Seq<Op<K, V>>, among: Set<usize>) -> nat
        decreases ops.len(),
    {
        if ops.len() == 0 {
            0
        } else {
            Self::taken(ops.drop_last(), among) + Self::takes(
                Self::run(ops.drop_last()),
                ops.last(),
                among,
            )
        }
    }

    /// How many blocks at one of the addresses `among` a new map hands back
    /// during the calls `ops`.
    pub open spec fn given(ops: Seq<Op<K, V>>, among: Set<usize>) -> nat
        decreases ops.len(),
    {
        if ops.len() == 0 {
            0
        } else {
            Self::given(ops.drop_last(), among) + Self::gives(
                Self::run(ops.drop_last()),
                ops.last(),
                among,
            )
        }
    }

    /// The call `op` is an insertion for `key` that is given a block.
    pub open spec fn links(op: Op<K, V>, key: K) -> bool {
        op matches Op::Insert { key: k, value, addr } && k == key && addr != 0
    }

    proof fn lemma_step_balance(m: Map<K, Entry<V>>, op: Op<K, V>, among: Set<usize>)
        requires
            m.dom().finite(),
        ensures
            Self::apply(m, op).dom().finite(),
            Self::held(m, among).finite(),
            Self::held(m, among).len() + Self::takes(m, op, among) == Self::gives(m, op, among)
                + Self::held(Self::apply(m, op), among).len(),
    {
        let before = Self::held(m, among);
        let after = Self::held(Self::apply(m, op), among);
        m.dom().lemma_len_filter(|key: K| among.contains(m[key].addr));
        match op {
            Op::Insert { key, value, addr } => {
                if addr != 0 {
                    if among.contains(addr) {
                        assert(after =~= before.insert(key));
                    } else {
                        assert(after =~= before.remove(key));
                    }
                } else {
                    assert(after =~= before);
                }
            },
            Op::Remove { key } => {
                assert(after =~= before.remove(key));
            },
            Op::Clear => {
                assert(after =~= Set::<K>::empty());
            },
        }
    }

    /// For any addresses `among`: after any calls on a new map, the blocks
    /// taken over are the blocks handed back and one block for each key
    /// that still has an entry. So each address is handed back as often as
    /// it was taken over, less the nodes it still backs: no block is kept
    /// without a node, and none is handed back twice.
    pub proof fn lemma_blocks_balance(ops: Seq<Op<K, V>>, among: Set<usize>)
        ensures
            Self::run(ops).dom().finite(),
            Self::taken(ops, among) == Self::given(ops, among) + Self::held(
                Self::run(ops),
                among,
            ).len(),
        decreases ops.len(),
    {
        if ops.len() > 0 {
            Self::lemma_blocks_balance(ops.drop_last(), among);
            Self::lemma_step_balance(Self::run(ops.drop_last()), ops.last(), among);
        } else {
            assert(Self::held(Self::run(ops), among) =~= Set::<K>::empty());
        }
    }

    /// After any calls on a new map, as many blocks were taken over as were
    /// handed back and as there are keys with an entry. Once every key has
    /// been removed, as many blocks were handed back as were taken over.
    pub proof fn lemma_calls_balance(ops: Seq<Op<K, V>>)
        ensures
            Self::run(ops).dom().finite(),
            Self::taken(ops, Set::full()) == Self::given(ops, Set::full()) + Self::run(
                ops,
            ).dom().len(),
            Self::run(ops) == Map::<K, Entry<V>>::empty() ==> Self::taken(ops, Set::full())
                == Self::given(ops, Set::full()),
    {
        Self::lemma_blocks_balance(ops, Set::full());
        assert(Self::held(Self::run(ops), Set::full()) =~= Self::run(ops).dom());
    }

    /// Every block that a call hands back is the block that backed the
    /// entry of the key, and carries the node layout: a block is released
    /// with the layout it was requested with.
    pub proof fn lemma_released_block(m: Map<K, Entry<V>>, key: K, addr: usize)
        ensures
            Self::block_of(m, key).addr == m[key].addr,
            Self::block_of(m, key).layout == Self::spec_node_layout(),
            forall|b: Block|
                Self::insert_outcome(m, key, addr) == Ok::<Option<Block>, InsertError>(Some(b))
                    ==> m.contains_key(key) && b == Self::block_of(m, key),
            forall|v: V, b: Block|
                Self::remove_outcome(m, key) == Some((v, b)) ==> m.contains_key(key) && v
                    == m[key].value && b == Self::block_of(m, key),
    {
    }

    /// The newest value wins: after two insertions for one key, the second
    /// of which succeeds, the key holds the second value, a removal returns
    /// it with the second block, and the key has no entry afterwards.
    pub proof fn lemma_newest_wins(
        m: Map<K, Entry<V>>,
        key: K,
        first: V,
        first_addr: usize,
        second: V,
        second_addr: usize,
    )
        requires
            second_addr != 0,
        ensures
            ({
                let m1 = Self::after_insert(m, key, first, first_addr);
                let m2 = Self::after_insert(m1, key, second, second_addr);
                &&& m2.contains_key(key)
                &&& m2[key].value == second
                &&& Self::remove_outcome(m2, key) == Some(
                    (second, Block { addr: second_addr, layout: Self::spec_node_layout() }),
                )
                &&& !Self::after_remove(m2, key).contains_key(key)
                &&& first_addr != 0 ==> Self::insert_outcome(m1, key, second_addr) == Ok::<
                    Option<Block>,
                    InsertError,
                >(Some(Block { addr: first_addr, layout: Self::spec_node_layout() }))
            }),
    {
    }

    /// A removal of a key that has no entry returns nothing and changes
    /// nothing, and a key has no entry after its removal.
    pub proof fn lemma_miss_is_empty(m: Map<K, Entry<V>>, key: K)
        ensures
            !m.contains_key(key) ==> Self::remove_outcome(m, key) is None && Self::after_remove(
                m,
                key,
            ) == m,
            !Self::after_remove(m, key).contains_key(key),
            Self::remove_outcome(Self::after_remove(m, key), key) is None,
    {
        if !m.contains_key(key) {
            assert(m.remove(key) =~= m);
        }
    }

    /// A key for which no call linked a node has no entry, whatever the
    /// calls were, and a removal of it returns nothing.
    pub proof fn lemma_never_linked(ops: Seq<Op<K, V>>, key: K)
        requires
            forall|i: int| 0 <= i < ops.len() ==> !Self::links(#[trigger] ops[i], key),
        ensures
            !Self::run(ops).contains_key(key),
            Self::remove_outcome(Self::run(ops), key) is None,
        decreases ops.len(),
    {
        if ops.len() > 0 {
            Self::lemma_never_linked(ops.drop_last(), key);
            assert(!Self::links(ops[ops.len() - 1], key));
        }
    }

    /// An insertion or a removal changes the entry of no key but its own.
    pub proof fn lemma_other_keys_untouched(
        m: Map<K, Entry<V>>,
        key: K,
        value: V,
        addr: usize,
        other: K,
    )
        requires
            other != key,
        ensures
            Self::after_insert(m, key, value, addr).contains_key(other) == m.contains_key(other),
            Self::after_remove(m, key).contains_key(other) == m.contains_key(other),
            m.contains_key(other) ==> Self::after_insert(m, key, value, addr)[other] == m[other]
                && Self::after_remove(m, key)[other] == m[other],
    {
    }
}

} // verus!
