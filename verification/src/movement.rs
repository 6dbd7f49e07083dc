use vstd::prelude::*;

verus! {

/// A pressed key, as far as walking is concerned.
#[derive(Clone, Copy, Debug, PartialEq, Eq, Structural)]
pub enum MoveKey {
    /// `W`: forward.
    KeyW,
    /// `A`: left.
    KeyA,
    /// `S`: backward.
    KeyS,
    /// `D`: right.
    KeyD,
    /// Any other key.
    Other,
}

/// Where the pressed keys send the player, before the direction is scaled:
/// how many steps along the camera's forward axis and its right axis.
#[derive(Clone, Copy, Debug, PartialEq, Eq, Structural)]
pub struct MoveIntent {
    pub forward: i128,
    pub right: i128,
}

/// How many times `k` occurs among the keys.
pub open spec fn key_count(keys: Seq<MoveKey>, k: MoveKey) -> int
    decreases keys.len(),
{
    if keys.len() == 0 {
        0
    } else {
        key_count(keys.drop_last(), k) + if keys.last() == k {
            1int
        } else {
            0int
        }
    }
}

/// The sum of the pressed keys' directions: `W` adds forward, `S` takes it
/// away, `D` adds right, `A` takes it away.
pub open spec fn intent_of(keys: Seq<MoveKey>) -> (int, int) {
    (
        key_count(keys, MoveKey::KeyW) - key_count(keys, MoveKey::KeyS),
        key_count(keys, MoveKey::KeyD) - key_count(keys, MoveKey::KeyA),
    )
}

proof fn lemma_key_count_bound(keys: Seq<MoveKey>, k: MoveKey)
    ensures
        0 <= key_count(keys, k) <= keys.len(),
    decreases keys.len(),
{
    if keys.len() > 0 {
        lemma_key_count_bound(keys.drop_last(), k);
    }
}

/// The walking direction that the currently pressed keys ask for, as the
/// sum of their directions along the forward and the right axis.
pub fn movement_intent(keys: &Vec<MoveKey>) -> (m: MoveIntent)
    ensures
        (m.forward as int, m.right as int) == intent_of(keys@),
{
    let mut forward: i128 = 0;
    let mut right: i128 = 0;
    for i in 0..keys.len()
        invariant
            (forward as int, right as int) == intent_of(keys@.take(i as int)),
    {
        let ghost t = keys@.take(i + 1);
        assert(t.drop_last() =~= keys@.take(i as int));
        proof {
            lemma_key_count_bound(keys@.take(i as int), MoveKey::KeyW);
            lemma_key_count_bound(keys@.take(i as int), MoveKey::KeyS);
            lemma_key_count_bound(keys@.take(i as int), MoveKey::KeyD);
            lemma_key_count_bound(keys@.take(i as int), MoveKey::KeyA);
        }
        match keys[i] {
            MoveKey::KeyW => forward = forward + 1,
            MoveKey::KeyS => forward = forward - 1,
            MoveKey::KeyA => right = right - 1,
            MoveKey::KeyD => right = right + 1,
            MoveKey::Other => {},
        }
    }
    assert(keys@.take(keys.len() as int) =~= keys@);
    MoveIntent { forward, right }
}

/// `key_count` is the number of copies of the key in the keys' multiset.
pub proof fn lemma_key_count_multiset(keys: Seq<MoveKey>, k: MoveKey)
    ensures
        key_count(keys, k) == keys.to_multiset().count(k),
    decreases keys.len(),
{
    broadcast use vstd::seq_lib::group_to_multiset_ensures;

    if keys.len() == 0 {
        assert(keys.to_multiset() =~= vstd::multiset::Multiset::empty());
    } else {
        lemma_key_count_multiset(keys.drop_last(), k);
        assert(keys.drop_last().push(keys.last()) =~= keys);
    }
}

/// The walking direction does not depend on the order in which the pressed
/// keys are listed.
pub proof fn lemma_intent_order_independent(keys1: Seq<MoveKey>, keys2: Seq<MoveKey>)
    requires
        keys1.to_multiset() == keys2.to_multiset(),
    ensures
        intent_of(keys1) == intent_of(keys2),
{
    lemma_key_count_multiset(keys1, MoveKey::KeyW);
    lemma_key_count_multiset(keys1, MoveKey::KeyS);
    lemma_key_count_multiset(keys1, MoveKey::KeyA);
    lemma_key_count_multiset(keys1, MoveKey::KeyD);
    lemma_key_count_multiset(keys2, MoveKey::KeyW);
    lemma_key_count_multiset(keys2, MoveKey::KeyS);
    lemma_key_count_multiset(keys2, MoveKey::KeyA);
    lemma_key_count_multiset(keys2, MoveKey::KeyD);
}

/// 1 where the key is among the keys, else 0.
pub open spec fn pressed(keys: Seq<MoveKey>, k: MoveKey) -> int {
    if keys.contains(k) {
        1
    } else {
        0
    }
}

/// For a set of pressed keys (no key twice), each axis is -1, 0 or 1, and
/// opposite keys cancel: `W` with `S`, or `A` with `D`, leave that axis at 0.
pub proof fn lemma_pressed_set_intent(keys: Seq<MoveKey>)
    requires
        keys.no_duplicates(),
    ensures
        intent_of(keys) == (
            (if keys.contains(MoveKey::KeyW) { 1int } else { 0int }) - (if keys.contains(MoveKey::KeyS) { 1int } else { 0int }),
            (if keys.contains(MoveKey::KeyD) { 1int } else { 0int }) - (if keys.contains(MoveKey::KeyA) { 1int } else { 0int }),
        ),
{
    lemma_count_in_set(keys, MoveKey::KeyW);
    lemma_count_in_set(keys, MoveKey::KeyS);
    lemma_count_in_set(keys, MoveKey::KeyA);
    lemma_count_in_set(keys, MoveKey::KeyD);
}

proof fn lemma_count_in_set(keys: Seq<MoveKey>, k: MoveKey)
    requires
        keys.no_duplicates(),
    ensures
        key_count(keys, k) == pressed(keys, k),
    decreases keys.len(),
{
    if keys.len() > 0 {
        let d = keys.drop_last();
        assert(d.no_duplicates());
        lemma_count_in_set(d, k);
        if keys.last() == k {
            assert(!d.contains(k)) by {
                if d.contains(k) {
                    let i = choose|i: int| 0 <= i < d.len() && d[i] == k;
                    assert(keys[i] == keys[keys.len() - 1]);
                }
            }
            assert(keys.contains(k)) by {
                assert(keys[keys.len() - 1] == k);
            }
        } else {
            assert(keys.contains(k) == d.contains(k)) by {
                if keys.contains(k) {
                    let i = choose|i: int| 0 <= i < keys.len() && keys[i] == k;
                    assert(d[i] == k);
                }
                if d.contains(k) {
                    let i = choose|i: int| 0 <= i < d.len() && d[i] == k;
                    assert(keys[i] == k);
                }
            }
        }
    }
}

/// The walking direction counts the pressed keys: forward is the number of
/// `W` minus the number of `S`, right the number of `D` minus the number of
/// `A`; no other key counts.
pub proof fn lemma_intent_counts_keys(keys: Seq<MoveKey>)
    ensures
        intent_of(keys) == (
            keys.to_multiset().count(MoveKey::KeyW) - keys.to_multiset().count(MoveKey::KeyS),
            keys.to_multiset().count(MoveKey::KeyD) - keys.to_multiset().count(MoveKey::KeyA),
        ),
{
    lemma_key_count_multiset(keys, MoveKey::KeyW);
    lemma_key_count_multiset(keys, MoveKey::KeyS);
    lemma_key_count_multiset(keys, MoveKey::KeyA);
    lemma_key_count_multiset(keys, MoveKey::KeyD);
}

} // verus!
