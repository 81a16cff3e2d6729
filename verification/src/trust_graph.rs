//! Numbering the users of a trust graph: graph algorithms that work on
//! numbered nodes take the users by their position in key order.

use crate::ordered_map::{MapKey, OrderedMap};
use vstd::prelude::*;

verus! {

/// Whether `name` is an end of one of the first `n` edges.
pub open spec fn named_before(edges: Seq<(String, String)>, n: int, name: Seq<char>) -> bool {
    exists|k: int|
        0 <= k < n && k < edges.len() && ((#[trigger] edges[k]).0@ == name || edges[k].1@ == name)
}

/// Whether `name` is an end of one of the edges.
pub open spec fn is_user(edges: Seq<(String, String)>, name: Seq<char>) -> bool {
    named_before(edges, edges.len() as int, name)
}

/// Whether `numbers` holds the positions in `names` of the two ends of
/// `edge`.
pub open spec fn numbers_edge(names: Seq<String>, edge: (String, String), numbers: (u32, u32))
    -> bool {
    &&& numbers.0 < names.len()
    &&& numbers.1 < names.len()
    &&& names[numbers.0 as int]@ == edge.0@
    &&& names[numbers.1 as int]@ == edge.1@
}

/// Numbers the users of a trust graph. The first list holds every user that
/// is an end of an edge, once, in key order; a user's number is its position
/// there. The second list holds the edges in their order, each as the numbers
/// of its two users.
pub fn number_users(edges: &Vec<(String, String)>) -> (res: (Vec<String>, Vec<(u32, u32)>))
    requires
        2 * edges.len() <= u32::MAX,
    ensures
        forall|i: int, j: int|
            0 <= i < j < res.0.len() ==> String::key_lt(#[trigger] res.0[i]@, #[trigger] res.0[j]@),
        forall|i: int| 0 <= i < res.0.len() ==> is_user(edges@, (#[trigger] res.0[i])@),
        forall|name: Seq<char>| #[trigger]
            is_user(edges@, name) ==> exists|i: int|
                0 <= i < res.0.len() && (#[trigger] res.0[i])@ == name,
        res.1.len() == edges.len(),
        forall|i: int| 0 <= i < edges.len() ==> numbers_edge(res.0@, edges[i], #[trigger] res.1[i]),
{
    let ghost all = edges@;
    let mut users: OrderedMap<String, ()> = OrderedMap::new();
    let mut i: usize = 0;
    while i < edges.len()
        invariant
            i <= all.len(),
            all == edges@,
            users.wf(),
            users.entries().len() <= 2 * i,
            forall|name: Seq<char>| #[trigger]
                users@.contains_key(name) <==> named_before(all, i as int, name),
        decreases all.len() - i,
    {
        let ghost before = users@;
        users.set(edges[i].0.duplicate(), ());
        users.set(edges[i].1.duplicate(), ());
        proof {
            assert forall|name: Seq<char>| #[trigger]
                users@.contains_key(name) <==> named_before(all, i + 1, name) by {
                assert(before.contains_key(name) <==> named_before(all, i as int, name));
                if named_before(all, i + 1, name) {
                    let k = choose|k: int|
                        0 <= k < i + 1 && k < all.len() && ((#[trigger] all[k]).0@ == name
                            || all[k].1@ == name);
                    if k < i {
                        assert(named_before(all, i as int, name));
                    }
                }
                if before.contains_key(name) {
                    let k = choose|k: int|
                        0 <= k < i && k < all.len() && ((#[trigger] all[k]).0@ == name
                            || all[k].1@ == name);
                    assert(named_before(all, i + 1, name));
                } else if users@.contains_key(name) {
                    assert(all[i as int].0@ == name || all[i as int].1@ == name);
                }
            }
        }
        i += 1;
    }
    let names = users.keys();
    let mut numbered: Vec<(u32, u32)> = Vec::new();
    let mut j: usize = 0;
    while j < edges.len()
        invariant
            j <= all.len(),
            all == edges@,
            2 * all.len() <= u32::MAX,
            users.wf(),
            users.entries().len() <= 2 * all.len(),
            forall|name: Seq<char>| #[trigger] users@.contains_key(name) <==> is_user(all, name),
            names@.len() == users.entries().len(),
            forall|k: int| 0 <= k < names@.len() ==> (#[trigger] names@[k])@ == users.entries()[k].0,
            numbered.len() == j,
            forall|k: int| 0 <= k < j ==> numbers_edge(names@, all[k], #[trigger] numbered[k]),
        decreases all.len() - j,
    {
        assert(is_user(all, all[j as int].0@) && is_user(all, all[j as int].1@));
        assert(users@.contains_key(all[j as int].0@) && users@.contains_key(all[j as int].1@));
        let from: usize = users.position(&edges[j].0);
        let to: usize = users.position(&edges[j].1);
        numbered.push((from as u32, to as u32));
        j += 1;
    }
    let res = (names, numbered);
    proof {
        users.lemma_entries_view();
        assert forall|name: Seq<char>| #[trigger] is_user(all, name) implies exists|i: int|
            0 <= i < res.0.len() && (#[trigger] res.0[i])@ == name by {
            assert(users@.contains_key(name));
            let k = choose|k: int|
                0 <= k < users.entries().len() && #[trigger] users.entries()[k].0 == name;
            assert(res.0[k]@ == name);
        }
        assert forall|k: int| 0 <= k < res.0.len() implies is_user(all, (#[trigger] res.0[k])@) by {
            assert(users@.contains_key(users.entries()[k].0));
        }
    }
    res
}

} // verus!
