use vstd::prelude::*;

use crate::path::{is_ancestor, under, valid_name};
use crate::state::YakState;
use crate::store::{
    added, blocked_destination, fuzzy_hit, migrated, moved, relocated, resolve,
    with_ancestors, with_subtree_state, without_subtree, Resolution, TaskMap,
};

verus! {

/// After adding `p`, the task at `p` is Todo with an empty note, and every ancestor of
/// `p` exists.
pub proof fn lemma_add_then_get(m: TaskMap, p: Seq<char>)
    requires
        valid_name(p),
    ensures
        added(m, p).contains_key(p),
        added(m, p)[p].state == YakState::Todo,
        added(m, p)[p].context.len() == 0,
        forall|a: Seq<char>| is_ancestor(a, p) ==> #[trigger] added(m, p).contains_key(a),
{
}

/// A recursive state change reaches the task and every descendant, whatever their
/// prior state, and touches nothing else.
pub proof fn lemma_recursive_state(m: TaskMap, k: Seq<char>, s: YakState)
    ensures
        with_subtree_state(m, k, s).dom() == m.dom(),
        forall|c: Seq<char>| #[trigger] m.contains_key(c) && under(c, k) ==> with_subtree_state(m, k, s)[c].state == s,
        forall|c: Seq<char>| #[trigger] m.contains_key(c) && !under(c, k) ==> with_subtree_state(m, k, s)[c] == m[c],
{
    assert(with_subtree_state(m, k, s).dom() =~= m.dom());
}

/// Name resolution: an exact path resolves to itself; no containing path means
/// absence; one containing path resolves to it; two or more are ambiguous.
pub proof fn lemma_find_yak(m: TaskMap, t: Seq<char>)
    ensures
        m.contains_key(t) ==> resolve(m, t) == Resolution::Found(t),
        !m.contains_key(t) && (forall|k: Seq<char>| !fuzzy_hit(m, t, k)) ==> resolve(m, t) == Resolution::Missing,
        forall|k: Seq<char>|
            !m.contains_key(t) && #[trigger] fuzzy_hit(m, t, k) && (forall|k2: Seq<char>| fuzzy_hit(m, t, k2) ==> k2 == k)
                ==> resolve(m, t) == Resolution::Found(k),
        forall|k1: Seq<char>, k2: Seq<char>|
            !m.contains_key(t) && #[trigger] fuzzy_hit(m, t, k1) && #[trigger] fuzzy_hit(m, t, k2) && k1 != k2
                ==> resolve(m, t) == Resolution::Ambiguous,
{
    assert forall|k: Seq<char>|
        !m.contains_key(t) && #[trigger] fuzzy_hit(m, t, k) && (forall|k2: Seq<char>| fuzzy_hit(m, t, k2) ==> k2 == k)
            implies resolve(m, t) == Resolution::Found(k) by {
        let c = choose|c: Seq<char>| fuzzy_hit(m, t, c);
        assert(fuzzy_hit(m, t, c));
    }
}

/// After removing `k`, neither `k` nor any task below it is found.
pub proof fn lemma_remove_then_get(m: TaskMap, k: Seq<char>)
    ensures
        forall|c: Seq<char>| under(c, k) ==> !(#[trigger] without_subtree(m, k).contains_key(c)),
        forall|c: Seq<char>| #[trigger] m.contains_key(c) && !under(c, k) ==> without_subtree(m, k).contains_key(c)
            && without_subtree(m, k)[c] == m[c],
{
}

/// After moving `k` to `n`, `n` holds what `k` held, `k` is gone, and each descendant
/// sits at the same place below `n`.
pub proof fn lemma_rename_then_get(m: TaskMap, k: Seq<char>, n: Seq<char>)
    requires
        m.contains_key(k),
        valid_name(n),
        !blocked_destination(m, k, n),
    ensures
        moved(with_ancestors(m, n), k, n).contains_key(n),
        moved(with_ancestors(m, n), k, n)[n] == m[k],
        !moved(with_ancestors(m, n), k, n).contains_key(k),
        forall|c: Seq<char>| #[trigger] m.contains_key(c) && under(c, k) ==> moved(with_ancestors(m, n), k, n).contains_key(relocated(c, k, n))
            && moved(with_ancestors(m, n), k, n)[relocated(c, k, n)] == m[c],
{
    let r = moved(with_ancestors(m, n), k, n);
    assert(n.subrange(n.len() as int, n.len() as int) =~= Seq::<char>::empty());
    assert(k + n.subrange(n.len() as int, n.len() as int) =~= k);
    if under(k, n) {
        assert(m.contains_key(k) && under(k, n));
    }
    assert forall|c: Seq<char>| #[trigger] m.contains_key(c) && under(c, k) implies r.contains_key(relocated(c, k, n))
        && r[relocated(c, k, n)] == m[c] by {
        crate::store::lemma_relocate(c, k, n);
    }
}

/// Migration turns a legacy-marked task into a Done task without the marker, and a
/// second migration changes nothing.
pub proof fn lemma_migrate_round_trip(m: TaskMap)
    ensures
        forall|c: Seq<char>| #[trigger] m.contains_key(c) && m[c].legacy_done ==> migrated(m)[c].state == YakState::Done
            && !migrated(m)[c].legacy_done,
        migrated(migrated(m)) == migrated(m),
{
    assert(migrated(migrated(m)) =~= migrated(m));
}

} // verus!
