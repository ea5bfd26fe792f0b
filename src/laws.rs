use vstd::prelude::*;

use crate::mirror::{namespaces_with, namespaces_without, parent_key, register_refusal};

verus! {

/// Registering a name twice, first with `h1` then with `h2`, succeeds both
/// times and leaves one relation at that name, holding `h2`; the parent's
/// set of tables after the second registration is the one after the first.
pub proof fn lemma_overwrite<H>(
    relations: Map<Seq<char>, H>,
    namespaces: Map<Seq<char>, Set<Seq<char>>>,
    k: Seq<char>,
    h1: H,
    h2: H,
)
    requires
        register_refusal(relations, namespaces, k) is None,
    ensures
        register_refusal(relations.insert(k, h1), namespaces_with(namespaces, k), k) is None,
        relations.insert(k, h1).insert(k, h2) == relations.insert(k, h2),
        relations.insert(k, h1).insert(k, h2)[k] == h2,
        namespaces_with(namespaces_with(namespaces, k), k) == namespaces_with(namespaces, k),
{
    let pk = parent_key(k);
    assert(pk != k);
    assert(relations.insert(k, h1).insert(k, h2) =~= relations.insert(k, h2));
    let once = namespaces_with(namespaces, k);
    assert(once[pk] == namespaces[pk].insert(k));
    assert(once[pk].insert(k) =~= once[pk]);
    assert(namespaces_with(once, k) =~= once);
}

/// Right after a table is registered, the mirror holds it under its name
/// with the handle that was given.
pub proof fn lemma_read_after_write<H>(relations: Map<Seq<char>, H>, k: Seq<char>, h: H)
    ensures
        relations.insert(k, h).contains_key(k),
        relations.insert(k, h)[k] == h,
{
}

/// Removing a table right after registering it gives back the registered
/// handle; afterwards the name is no table, and its parent namespace no
/// longer lists it.
pub proof fn lemma_symmetric_removal<H>(
    relations: Map<Seq<char>, H>,
    namespaces: Map<Seq<char>, Set<Seq<char>>>,
    k: Seq<char>,
    h: H,
)
    requires
        register_refusal(relations, namespaces, k) is None,
    ensures
        relations.insert(k, h).contains_key(k),
        relations.insert(k, h)[k] == h,
        !relations.insert(k, h).remove(k).contains_key(k),
        namespaces_without(namespaces_with(namespaces, k), k).contains_key(parent_key(k)),
        !namespaces_without(namespaces_with(namespaces, k), k)[parent_key(k)].contains(k),
        namespaces_without(namespaces_with(namespaces, k), k)[parent_key(k)] == namespaces[parent_key(
            k,
        )].remove(k),
{
    let pk = parent_key(k);
    assert(namespaces[pk].insert(k).remove(k) =~= namespaces[pk].remove(k));
}

/// Registrations of two distinct names commute: whichever comes first, both
/// succeed and the mirror ends with the same relations and the same
/// namespaces, both tables listed.
pub proof fn lemma_registrations_commute<H>(
    relations: Map<Seq<char>, H>,
    namespaces: Map<Seq<char>, Set<Seq<char>>>,
    k1: Seq<char>,
    h1: H,
    k2: Seq<char>,
    h2: H,
)
    requires
        register_refusal(relations, namespaces, k1) is None,
        register_refusal(relations, namespaces, k2) is None,
        k1 != k2,
    ensures
        register_refusal(relations.insert(k1, h1), namespaces_with(namespaces, k1), k2) is None,
        register_refusal(relations.insert(k2, h2), namespaces_with(namespaces, k2), k1) is None,
        relations.insert(k1, h1).insert(k2, h2) == relations.insert(k2, h2).insert(k1, h1),
        namespaces_with(namespaces_with(namespaces, k1), k2) == namespaces_with(
            namespaces_with(namespaces, k2),
            k1,
        ),
        namespaces_with(namespaces_with(namespaces, k1), k2)[parent_key(k1)].contains(k1),
        namespaces_with(namespaces_with(namespaces, k1), k2)[parent_key(k2)].contains(k2),
{
    let p1 = parent_key(k1);
    let p2 = parent_key(k2);
    assert(relations.insert(k1, h1).insert(k2, h2) =~= relations.insert(k2, h2).insert(k1, h1));
    let a = namespaces_with(namespaces_with(namespaces, k1), k2);
    let b = namespaces_with(namespaces_with(namespaces, k2), k1);
    if p1 == p2 {
        assert(namespaces[p1].insert(k1).insert(k2) =~= namespaces[p1].insert(k2).insert(k1));
    }
    assert(a =~= b);
}

} // verus!
