//! Trust ranks never run out of range: the ranks of all users add up to no
//! more than one, round after round, so the calculation cannot fail.
//!
//! All sums here are over encodings, in thousandths.

use vstd::prelude::*;
use crate::decimal_number_wrapper::{
    decode,
    encode,
    product_of,
    representable,
    sum_of,
    valid,
};
use crate::external_data_provider::trust_ranks;
use crate::page_rank::{
    base_rank,
    first_ranks,
    graph_size,
    inflow,
    lemma_empty_graph,
    lemma_with_id,
    lemma_with_ids,
    node_rank,
    page_ranks,
    pages_nodes,
    rank_or_zero,
    round,
    rounds,
    share,
    whole_number,
    with_id,
    with_ids,
    Edges,
    DAMPING_FACTOR,
    ITERATIONS,
};
use crate::ordered_map::distinct;
use crate::types::{DecimalNumber, VotingSystemError};

verus! {

/// Encoded rank of a user, zero for a user that has none.
pub open spec fn raw_rank(ranks: Map<Seq<char>, DecimalNumber>, id: Seq<char>) -> nat {
    encode(rank_or_zero(ranks, id))
}

/// The ranks of the given users, added up.
pub open spec fn mass(nodes: Seq<Seq<char>>, ranks: Map<Seq<char>, DecimalNumber>) -> nat
    decreases nodes.len(),
{
    if nodes.len() == 0 {
        0
    } else {
        mass(nodes.drop_last(), ranks) + raw_rank(ranks, nodes.last())
    }
}

/// The damped rank of a user: what it has to hand out in a round.
pub open spec fn damped(
    source: Seq<char>,
    ranks: Map<Seq<char>, DecimalNumber>,
    damping_factor: DecimalNumber,
) -> nat {
    encode(damping_factor) * raw_rank(ranks, source) / 1000
}

/// What a user hands to each user it trusts.
pub open spec fn share_raw(
    edges: Edges,
    ranks: Map<Seq<char>, DecimalNumber>,
    damping_factor: DecimalNumber,
) -> nat {
    if edges.1.len() == 0 {
        0
    } else {
        damped(edges.0, ranks, damping_factor) / edges.1.len()
    }
}

/// What `node` gets from all who trust it.
pub open spec fn inflow_raw(
    edges: Seq<Edges>,
    ranks: Map<Seq<char>, DecimalNumber>,
    damping_factor: DecimalNumber,
    node: Seq<char>,
) -> nat
    decreases edges.len(),
{
    if edges.len() == 0 {
        0
    } else if edges[0].1.contains(node) {
        share_raw(edges[0], ranks, damping_factor) + inflow_raw(
            edges.drop_first(),
            ranks,
            damping_factor,
            node,
        )
    } else {
        inflow_raw(edges.drop_first(), ranks, damping_factor, node)
    }
}

/// What the given users get in a round, added up.
pub open spec fn total_inflow(
    nodes: Seq<Seq<char>>,
    edges: Seq<Edges>,
    ranks: Map<Seq<char>, DecimalNumber>,
    damping_factor: DecimalNumber,
) -> nat
    decreases nodes.len(),
{
    if nodes.len() == 0 {
        0
    } else {
        total_inflow(nodes.drop_last(), edges, ranks, damping_factor) + inflow_raw(
            edges,
            ranks,
            damping_factor,
            nodes.last(),
        )
    }
}

/// How many of `nodes` are among `targets`.
pub open spec fn hits(nodes: Seq<Seq<char>>, targets: Seq<Seq<char>>) -> nat
    decreases nodes.len(),
{
    if nodes.len() == 0 {
        0
    } else {
        hits(nodes.drop_last(), targets) + if targets.contains(nodes.last()) {
            1nat
        } else {
            0nat
        }
    }
}

/// What all users have to hand out in a round, added up.
pub open spec fn damped_sum(
    edges: Seq<Edges>,
    ranks: Map<Seq<char>, DecimalNumber>,
    damping_factor: DecimalNumber,
) -> nat
    decreases edges.len(),
{
    if edges.len() == 0 {
        0
    } else {
        damped(edges[0].0, ranks, damping_factor) + damped_sum(
            edges.drop_first(),
            ranks,
            damping_factor,
        )
    }
}

/// The ranks of the users that trust somebody, added up.
pub open spec fn source_mass(edges: Seq<Edges>, ranks: Map<Seq<char>, DecimalNumber>) -> nat
    decreases edges.len(),
{
    if edges.len() == 0 {
        0
    } else {
        raw_rank(ranks, edges[0].0) + source_mass(edges.drop_first(), ranks)
    }
}

/// The users that trust somebody.
pub open spec fn sources(edges: Seq<Edges>) -> Seq<Seq<char>> {
    edges.map_values(|entry: Edges| entry.0)
}

/// A user is among distinct users at most once.
proof fn lemma_occurs_once(nodes: Seq<Seq<char>>, id: Seq<char>)
    requires
        distinct(nodes),
    ensures
        hits(nodes, seq![id]) <= 1,
        !nodes.contains(id) ==> hits(nodes, seq![id]) == 0,
    decreases nodes.len(),
{
    if nodes.len() > 0 {
        let rest = nodes.drop_last();
        assert(distinct(rest)) by {
            assert forall|i: int, j: int| 0 <= i < j < rest.len() implies #[trigger] rest[i]
                != #[trigger] rest[j] by {
                assert(rest[i] == nodes[i]);
                assert(rest[j] == nodes[j]);
            }
        }
        lemma_occurs_once(rest, id);
        if seq![id].contains(nodes.last()) {
            assert(nodes.last() == id) by {
                let k = choose|k: int| 0 <= k < seq![id].len() && seq![id][k] == nodes.last();
            }
            if rest.contains(id) {
                let j = choose|j: int| 0 <= j < rest.len() && rest[j] == id;
                assert(nodes[j] == rest[j]);
                assert(nodes[nodes.len() - 1] == id);
            }
        } else {
            if !nodes.contains(id) {
            }
        }
        if !nodes.contains(id) {
            if rest.contains(id) {
                let j = choose|j: int| 0 <= j < rest.len() && rest[j] == id;
                assert(nodes[j] == id);
            }
            if seq![id].contains(nodes.last()) {
                assert(nodes[nodes.len() - 1] == id);
            }
        }
    }
}

/// One more target is hit by at most one more of distinct users.
proof fn lemma_hits_push(nodes: Seq<Seq<char>>, targets: Seq<Seq<char>>, id: Seq<char>)
    ensures
        hits(nodes, targets.push(id)) <= hits(nodes, targets) + hits(nodes, seq![id]),
    decreases nodes.len(),
{
    if nodes.len() > 0 {
        lemma_hits_push(nodes.drop_last(), targets, id);
        let last = nodes.last();
        if targets.push(id).contains(last) {
            let k = choose|k: int| 0 <= k < targets.push(id).len() && targets.push(id)[k] == last;
            if k < targets.len() {
                assert(targets[k] == last);
            } else {
                assert(seq![id][0] == last);
            }
        }
    }
}

/// Distinct users hit no more targets than there are.
pub proof fn lemma_hits_bound(nodes: Seq<Seq<char>>, targets: Seq<Seq<char>>)
    requires
        distinct(nodes),
    ensures
        hits(nodes, targets) <= targets.len(),
    decreases targets.len(),
{
    if targets.len() == 0 {
        lemma_hits_none(nodes, targets);
    } else {
        let rest = targets.drop_last();
        lemma_hits_bound(nodes, rest);
        lemma_hits_push(nodes, rest, targets.last());
        lemma_occurs_once(nodes, targets.last());
        assert(rest.push(targets.last()) =~= targets);
    }
}

proof fn lemma_hits_none(nodes: Seq<Seq<char>>, targets: Seq<Seq<char>>)
    requires
        targets.len() == 0,
    ensures
        hits(nodes, targets) == 0,
    decreases nodes.len(),
{
    if nodes.len() > 0 {
        lemma_hits_none(nodes.drop_last(), targets);
    }
}

/// What the users get from one more user that trusts somebody is that
/// user's share, once for each of them that it trusts.
proof fn lemma_total_inflow_split(
    nodes: Seq<Seq<char>>,
    edges: Seq<Edges>,
    ranks: Map<Seq<char>, DecimalNumber>,
    damping_factor: DecimalNumber,
)
    requires
        edges.len() > 0,
    ensures
        total_inflow(nodes, edges, ranks, damping_factor) == hits(nodes, edges[0].1) * share_raw(
            edges[0],
            ranks,
            damping_factor,
        ) + total_inflow(nodes, edges.drop_first(), ranks, damping_factor),
    decreases nodes.len(),
{
    if nodes.len() > 0 {
        lemma_total_inflow_split(nodes.drop_last(), edges, ranks, damping_factor);
        let before = hits(nodes.drop_last(), edges[0].1);
        let part = share_raw(edges[0], ranks, damping_factor);
        assert((before + 1) * part == before * part + part) by (nonlinear_arith);
    } else {
        assert(0 * share_raw(edges[0], ranks, damping_factor) == 0) by (nonlinear_arith);
    }
}

/// Distinct users get no more than what is handed out.
pub proof fn lemma_total_inflow_bound(
    nodes: Seq<Seq<char>>,
    edges: Seq<Edges>,
    ranks: Map<Seq<char>, DecimalNumber>,
    damping_factor: DecimalNumber,
)
    requires
        distinct(nodes),
    ensures
        total_inflow(nodes, edges, ranks, damping_factor) <= damped_sum(
            edges,
            ranks,
            damping_factor,
        ),
    decreases edges.len(),
{
    if edges.len() == 0 {
        lemma_total_inflow_none(nodes, edges, ranks, damping_factor);
    } else {
        lemma_total_inflow_split(nodes, edges, ranks, damping_factor);
        lemma_total_inflow_bound(nodes, edges.drop_first(), ranks, damping_factor);
        lemma_hits_bound(nodes, edges[0].1);
        let count = hits(nodes, edges[0].1);
        let targets = edges[0].1.len();
        let whole = damped(edges[0].0, ranks, damping_factor);
        let part = share_raw(edges[0], ranks, damping_factor);
        if targets == 0 {
            assert(count * part == 0) by (nonlinear_arith)
                requires
                    part == 0,
            ;
        } else {
            assert(count * part <= whole) by (nonlinear_arith)
                requires
                    count <= targets,
                    targets > 0,
                    part == whole / targets,
            ;
        }
    }
}

proof fn lemma_total_inflow_none(
    nodes: Seq<Seq<char>>,
    edges: Seq<Edges>,
    ranks: Map<Seq<char>, DecimalNumber>,
    damping_factor: DecimalNumber,
)
    requires
        edges.len() == 0,
    ensures
        total_inflow(nodes, edges, ranks, damping_factor) == 0,
    decreases nodes.len(),
{
    if nodes.len() > 0 {
        lemma_total_inflow_none(nodes.drop_last(), edges, ranks, damping_factor);
    }
}

/// What is handed out is the damped part of what those who hand out have.
pub proof fn lemma_damped_sum_bound(
    edges: Seq<Edges>,
    ranks: Map<Seq<char>, DecimalNumber>,
    damping_factor: DecimalNumber,
)
    ensures
        1000 * damped_sum(edges, ranks, damping_factor) <= encode(damping_factor) * source_mass(
            edges,
            ranks,
        ),
    decreases edges.len(),
{
    if edges.len() > 0 {
        lemma_damped_sum_bound(edges.drop_first(), ranks, damping_factor);
        let d = encode(damping_factor);
        let r = raw_rank(ranks, edges[0].0);
        let rest = source_mass(edges.drop_first(), ranks);
        let handed = damped_sum(edges.drop_first(), ranks, damping_factor);
        assert(1000 * (d * r / 1000 + handed) <= d * (r + rest)) by (nonlinear_arith)
            requires
                1000 * handed <= d * rest,
        ;
    } else {
        assert(encode(damping_factor) * 0 == 0) by (nonlinear_arith);
    }
}

/// A list without its last user is one of distinct users if the list is.
proof fn lemma_distinct_drop_last(list: Seq<Seq<char>>)
    requires
        distinct(list),
        list.len() > 0,
    ensures
        distinct(list.drop_last()),
        !list.drop_last().contains(list.last()),
{
    let rest = list.drop_last();
    assert forall|i: int, j: int| 0 <= i < j < rest.len() implies #[trigger] rest[i]
        != #[trigger] rest[j] by {
        assert(rest[i] == list[i]);
        assert(rest[j] == list[j]);
    }
    if rest.contains(list.last()) {
        let j = choose|j: int| 0 <= j < rest.len() && rest[j] == list.last();
        assert(list[j] == rest[j]);
        assert(list[list.len() - 1] == list.last());
    }
}

/// The ranks of a list of users add up to the rank of one of them and the
/// ranks of the others.
proof fn lemma_mass_remove(list: Seq<Seq<char>>, ranks: Map<Seq<char>, DecimalNumber>, at: int)
    requires
        0 <= at < list.len(),
    ensures
        mass(list, ranks) == mass(list.remove(at), ranks) + raw_rank(ranks, list[at]),
    decreases list.len(),
{
    if at == list.len() - 1 {
        assert(list.remove(at) =~= list.drop_last());
    } else {
        lemma_mass_remove(list.drop_last(), ranks, at);
        assert(list.remove(at).drop_last() =~= list.drop_last().remove(at));
        assert(list.remove(at).last() == list.last());
    }
}

/// The ranks of the users of a list add up to the rank of the first and the
/// ranks of the others.
proof fn lemma_mass_front(list: Seq<Seq<char>>, ranks: Map<Seq<char>, DecimalNumber>)
    requires
        list.len() > 0,
    ensures
        mass(list, ranks) == raw_rank(ranks, list[0]) + mass(list.drop_first(), ranks),
{
    lemma_mass_remove(list, ranks, 0);
    assert(list.remove(0) =~= list.drop_first());
}

/// Some of distinct users have no more than all of them.
pub proof fn lemma_subset_mass(
    some: Seq<Seq<char>>,
    all: Seq<Seq<char>>,
    ranks: Map<Seq<char>, DecimalNumber>,
)
    requires
        distinct(some),
        distinct(all),
        forall|i: int| 0 <= i < some.len() ==> all.contains(#[trigger] some[i]),
    ensures
        mass(some, ranks) <= mass(all, ranks),
    decreases all.len(),
{
    if all.len() == 0 {
        if some.len() > 0 {
            assert(all.contains(some[0]));
        }
    } else {
        let last = all.last();
        let rest = all.drop_last();
        lemma_distinct_drop_last(all);
        if some.contains(last) {
            let at = choose|at: int| 0 <= at < some.len() && some[at] == last;
            let fewer = some.remove(at);
            lemma_mass_remove(some, ranks, at);
            assert(distinct(fewer)) by {
                assert forall|i: int, j: int| 0 <= i < j < fewer.len() implies #[trigger] fewer[i]
                    != #[trigger] fewer[j] by {
                    let a = if i < at { i } else { i + 1 };
                    let b = if j < at { j } else { j + 1 };
                    assert(fewer[i] == some[a]);
                    assert(fewer[j] == some[b]);
                }
            }
            assert forall|i: int| 0 <= i < fewer.len() implies rest.contains(
                #[trigger] fewer[i],
            ) by {
                let a = if i < at { i } else { i + 1 };
                assert(fewer[i] == some[a]);
                assert(some[a] != some[at]);
                assert(all.contains(some[a]));
                let k = choose|k: int| 0 <= k < all.len() && all[k] == some[a];
                assert(rest[k] == all[k]);
            }
            lemma_subset_mass(fewer, rest, ranks);
        } else {
            assert forall|i: int| 0 <= i < some.len() implies rest.contains(#[trigger] some[i]) by {
                assert(all.contains(some[i]));
                let k = choose|k: int| 0 <= k < all.len() && all[k] == some[i];
                if k == all.len() - 1 {
                    assert(some.contains(last));
                }
                assert(rest[k] == all[k]);
            }
            lemma_subset_mass(some, rest, ranks);
        }
    }
}

/// The ranks of the users that trust somebody are the ranks of the sources.
proof fn lemma_source_mass(edges: Seq<Edges>, ranks: Map<Seq<char>, DecimalNumber>)
    ensures
        source_mass(edges, ranks) == mass(sources(edges), ranks),
    decreases edges.len(),
{
    if edges.len() > 0 {
        lemma_source_mass(edges.drop_first(), ranks);
        lemma_mass_front(sources(edges), ranks);
        assert(sources(edges).drop_first() =~= sources(edges.drop_first()));
    }
}

/// What one user gets is no more than what is handed out in all.
pub proof fn lemma_inflow_bound(
    edges: Seq<Edges>,
    ranks: Map<Seq<char>, DecimalNumber>,
    damping_factor: DecimalNumber,
    node: Seq<char>,
)
    ensures
        inflow_raw(edges, ranks, damping_factor, node) <= damped_sum(edges, ranks, damping_factor),
    decreases edges.len(),
{
    if edges.len() > 0 {
        lemma_inflow_bound(edges.drop_first(), ranks, damping_factor, node);
        let whole = damped(edges[0].0, ranks, damping_factor);
        let targets = edges[0].1.len();
        if targets > 0 {
            assert(whole / targets <= whole) by (nonlinear_arith)
                requires
                    targets > 0,
            ;
        }
    }
}

/// Whether a graph is one that ranks can be calculated for: no user is a
/// node twice, every user that trusts somebody is a node and is listed once
/// with those it trusts, and all counts fit in 32 bits.
pub open spec fn graph_sound(nodes: Seq<Seq<char>>, edges: Seq<Edges>) -> bool {
    &&& distinct(nodes)
    &&& distinct(sources(edges))
    &&& nodes.len() <= u32::MAX
    &&& forall|i: int| 0 <= i < edges.len() ==> nodes.contains((#[trigger] edges[i]).0)
    &&& forall|i: int| 0 <= i < edges.len() ==> (#[trigger] edges[i]).1.len() <= u32::MAX
}

/// Whether ranks are numbers that add up to no more than one.
pub open spec fn ranks_sound(nodes: Seq<Seq<char>>, ranks: Map<Seq<char>, DecimalNumber>) -> bool {
    &&& forall|id: Seq<char>| #[trigger] ranks.contains_key(id) ==> valid(ranks[id])
    &&& mass(nodes, ranks) <= 1000
}

/// In a sound graph with sound ranks no more than the damping factor is
/// handed out in a round.
pub proof fn lemma_handed_out(
    nodes: Seq<Seq<char>>,
    edges: Seq<Edges>,
    ranks: Map<Seq<char>, DecimalNumber>,
    damping_factor: DecimalNumber,
)
    requires
        graph_sound(nodes, edges),
        ranks_sound(nodes, ranks),
    ensures
        damped_sum(edges, ranks, damping_factor) <= encode(damping_factor),
{
    lemma_damped_sum_bound(edges, ranks, damping_factor);
    lemma_source_mass(edges, ranks);
    assert forall|i: int| 0 <= i < sources(edges).len() implies nodes.contains(
        #[trigger] sources(edges)[i],
    ) by {
        assert(nodes.contains(edges[i].0));
    }
    lemma_subset_mass(sources(edges), nodes, ranks);
    let d = encode(damping_factor);
    let handed = damped_sum(edges, ranks, damping_factor);
    let have = source_mass(edges, ranks);
    assert(handed <= d) by (nonlinear_arith)
        requires
            1000 * handed <= d * have,
            have <= 1000,
    ;
}

/// What every node gets whoever trusts it, encoded.
pub open spec fn base_raw(node_count: nat, damping_factor: DecimalNumber) -> nat {
    if node_count == 0 || encode(damping_factor) >= 1000 {
        0
    } else {
        ((1000 - encode(damping_factor)) / node_count as int) as nat
    }
}

/// The rank of a node after one more round, encoded.
pub open spec fn new_rank_raw(
    node_count: nat,
    edges: Seq<Edges>,
    ranks: Map<Seq<char>, DecimalNumber>,
    damping_factor: DecimalNumber,
    node: Seq<char>,
) -> nat {
    base_raw(node_count, damping_factor) + inflow_raw(edges, ranks, damping_factor, node)
}

/// The rank of each node after one more round.
pub open spec fn new_rank_of(
    node_count: nat,
    edges: Seq<Edges>,
    ranks: Map<Seq<char>, DecimalNumber>,
    damping_factor: DecimalNumber,
) -> spec_fn(Seq<char>) -> DecimalNumber {
    |node: Seq<char>| decode(new_rank_raw(node_count, edges, ranks, damping_factor, node))
}

/// The rank with which each node starts.
pub open spec fn first_rank_of(node_count: nat) -> spec_fn(Seq<char>) -> DecimalNumber {
    |node: Seq<char>| decode(1000nat / node_count)
}

/// `done` with each of `nodes` given its rank.
pub open spec fn filled(
    nodes: Seq<Seq<char>>,
    rank_of: spec_fn(Seq<char>) -> DecimalNumber,
    done: Map<Seq<char>, DecimalNumber>,
) -> Map<Seq<char>, DecimalNumber>
    decreases nodes.len(),
{
    if nodes.len() == 0 {
        done
    } else {
        filled(nodes.drop_first(), rank_of, done.insert(nodes[0], rank_of(nodes[0])))
    }
}

/// A number that is no larger than one that fits fits too.
proof fn lemma_representable_less(small: nat, large: nat)
    requires
        small <= large,
        representable(large),
    ensures
        representable(small),
{
    assert(small / 1000 <= large / 1000) by (nonlinear_arith)
        requires
            small <= large,
    ;
}

/// The share that a user hands out is a number.
pub proof fn lemma_share(
    edges: Edges,
    ranks: Map<Seq<char>, DecimalNumber>,
    damping_factor: DecimalNumber,
)
    requires
        valid(damping_factor),
        encode(damping_factor) <= 1000,
        forall|id: Seq<char>| #[trigger] ranks.contains_key(id) ==> valid(ranks[id]),
        0 < edges.1.len() <= u32::MAX,
    ensures
        share(edges, ranks, damping_factor) == Ok::<DecimalNumber, VotingSystemError>(
            decode(share_raw(edges, ranks, damping_factor)),
        ),
        representable(share_raw(edges, ranks, damping_factor)),
{
    let d = encode(damping_factor);
    let rank = rank_or_zero(ranks, edges.0);
    let r = encode(rank);
    let whole = damped(edges.0, ranks, damping_factor);
    let targets = edges.1.len();
    assert(valid(rank));
    assert(whole <= r) by (nonlinear_arith)
        requires
            whole == d * r / 1000,
            d <= 1000,
    ;
    lemma_representable_less(whole, r);
    assert(product_of(damping_factor, rank) == Ok::<DecimalNumber, VotingSystemError>(
        decode(whole),
    ));
    let count = whole_number(targets);
    assert(encode(count) == targets * 1000);
    assert(whole * 1000 / (targets * 1000) == whole / targets) by (nonlinear_arith)
        requires
            targets > 0,
    ;
    assert(whole / targets <= whole) by (nonlinear_arith)
        requires
            targets > 0,
    ;
    lemma_representable_less(whole / targets, whole);
    assert(encode(decode(whole)) == whole);
}

/// What a node gets in a round is the sum of the shares of those that
/// trust it, as long as that sum fits.
pub proof fn lemma_inflow(
    edges: Seq<Edges>,
    ranks: Map<Seq<char>, DecimalNumber>,
    damping_factor: DecimalNumber,
    node: Seq<char>,
    so_far: DecimalNumber,
)
    requires
        valid(damping_factor),
        encode(damping_factor) <= 1000,
        valid(so_far),
        forall|id: Seq<char>| #[trigger] ranks.contains_key(id) ==> valid(ranks[id]),
        forall|i: int| 0 <= i < edges.len() ==> (#[trigger] edges[i]).1.len() <= u32::MAX,
        representable(encode(so_far) + inflow_raw(edges, ranks, damping_factor, node)),
    ensures
        inflow(edges, ranks, damping_factor, node, so_far) == Ok::<
            DecimalNumber,
            VotingSystemError,
        >(decode(encode(so_far) + inflow_raw(edges, ranks, damping_factor, node))),
    decreases edges.len(),
{
    if edges.len() > 0 {
        let rest = edges.drop_first();
        assert forall|i: int| 0 <= i < rest.len() implies (#[trigger] rest[i]).1.len()
            <= u32::MAX by {
            assert(rest[i] == edges[i + 1]);
        }
        if edges[0].1.contains(node) {
            assert(edges[0].1.len() > 0);
            lemma_share(edges[0], ranks, damping_factor);
            let part = share_raw(edges[0], ranks, damping_factor);
            let next = (encode(so_far) + part) as nat;
            lemma_representable_less(
                next,
                encode(so_far) + inflow_raw(edges, ranks, damping_factor, node),
            );
            assert(encode(decode(part)) == part);
            assert(sum_of(so_far, decode(part)) == Ok::<DecimalNumber, VotingSystemError>(
                decode(next),
            ));
            assert(encode(decode(next)) == next);
            lemma_inflow(rest, ranks, damping_factor, node, decode(next));
        } else {
            lemma_inflow(rest, ranks, damping_factor, node, so_far);
        }
    }
}

/// The rank that every node gets whoever trusts it is a number, and all
/// nodes together get no more of it than the damping factor leaves.
pub proof fn lemma_base(node_count: nat, damping_factor: DecimalNumber)
    requires
        0 < node_count <= u32::MAX,
        valid(damping_factor),
        encode(damping_factor) <= 1000,
    ensures
        base_rank(node_count, damping_factor) == Ok::<DecimalNumber, VotingSystemError>(
            decode(base_raw(node_count, damping_factor)),
        ),
        node_count * base_raw(node_count, damping_factor) + encode(damping_factor) <= 1000,
        base_raw(node_count, damping_factor) <= 1000,
{
    let d = encode(damping_factor);
    let left = (1000 - d) as nat;
    let base = base_raw(node_count, damping_factor);
    assert(encode(whole_number(node_count)) == node_count * 1000);
    assert(left * 1000 / (node_count * 1000) == left / node_count) by (nonlinear_arith)
        requires
            node_count > 0,
    ;
    assert(node_count * (left / node_count) <= left) by (nonlinear_arith)
        requires
            node_count > 0,
    ;
    assert(left / node_count <= left) by (nonlinear_arith)
        requires
            node_count > 0,
    ;
    if d == 1000 {
        assert(base == 0);
        assert(node_count * base == 0) by (nonlinear_arith)
            requires
                base == 0,
        ;
    }
}

/// In a sound graph with sound ranks the rank of a node after one more
/// round is a number: what every node gets, and what those hand to it that
/// trust it.
pub proof fn lemma_node_rank(
    nodes: Seq<Seq<char>>,
    edges: Seq<Edges>,
    ranks: Map<Seq<char>, DecimalNumber>,
    damping_factor: DecimalNumber,
    node: Seq<char>,
)
    requires
        graph_sound(nodes, edges),
        ranks_sound(nodes, ranks),
        nodes.len() > 0,
        valid(damping_factor),
        encode(damping_factor) <= 1000,
    ensures
        node_rank(nodes.len(), edges, ranks, damping_factor, node) == Ok::<
            DecimalNumber,
            VotingSystemError,
        >(new_rank_of(nodes.len(), edges, ranks, damping_factor)(node)),
        new_rank_raw(nodes.len(), edges, ranks, damping_factor, node) <= 2000,
{
    lemma_base(nodes.len(), damping_factor);
    lemma_inflow_bound(edges, ranks, damping_factor, node);
    lemma_handed_out(nodes, edges, ranks, damping_factor);
    let base = base_raw(nodes.len(), damping_factor);
    assert(encode(decode(base)) == base);
    lemma_inflow(edges, ranks, damping_factor, node, decode(base));
}

/// What a map holds once some nodes have been given their ranks.
pub proof fn lemma_filled(
    nodes: Seq<Seq<char>>,
    rank_of: spec_fn(Seq<char>) -> DecimalNumber,
    done: Map<Seq<char>, DecimalNumber>,
)
    ensures
        forall|id: Seq<char>| #[trigger]
            filled(nodes, rank_of, done).contains_key(id) <==> done.contains_key(id)
                || nodes.contains(id),
        forall|id: Seq<char>|
            done.contains_key(id) && !nodes.contains(id) ==> #[trigger] filled(
                nodes,
                rank_of,
                done,
            )[id] == done[id],
        distinct(nodes) ==> forall|i: int|
            0 <= i < nodes.len() ==> filled(nodes, rank_of, done)[#[trigger] nodes[i]] == rank_of(
                nodes[i],
            ),
    decreases nodes.len(),
{
    if nodes.len() > 0 {
        let rest = nodes.drop_first();
        let next = done.insert(nodes[0], rank_of(nodes[0]));
        lemma_filled(rest, rank_of, next);
        let result = filled(nodes, rank_of, done);
        assert(result == filled(rest, rank_of, next));
        assert(nodes.contains(nodes[0]));
        assert forall|id: Seq<char>| rest.contains(id) implies nodes.contains(id) by {
            let j = choose|j: int| 0 <= j < rest.len() && rest[j] == id;
            assert(nodes[j + 1] == id);
        }
        assert forall|id: Seq<char>| nodes.contains(id) && id != nodes[0] implies rest.contains(
            id,
        ) by {
            let j = choose|j: int| 0 <= j < nodes.len() && nodes[j] == id;
            assert(rest[j - 1] == id);
        }
        assert forall|id: Seq<char>| #[trigger]
            result.contains_key(id) <==> done.contains_key(id) || nodes.contains(id) by {
            assert(filled(rest, rank_of, next).contains_key(id) <==> next.contains_key(id)
                || rest.contains(id));
        }
        assert forall|id: Seq<char>|
            done.contains_key(id) && !nodes.contains(id) implies #[trigger] result[id]
            == done[id] by {
            assert(next.contains_key(id) && !rest.contains(id));
            assert(filled(rest, rank_of, next)[id] == next[id]);
        }
        if distinct(nodes) {
            assert(distinct(rest)) by {
                assert forall|i: int, j: int| 0 <= i < j < rest.len() implies #[trigger] rest[i]
                    != #[trigger] rest[j] by {
                    assert(rest[i] == nodes[i + 1]);
                    assert(rest[j] == nodes[j + 1]);
                }
            }
            assert forall|i: int| 0 <= i < nodes.len() implies result[#[trigger] nodes[i]]
                == rank_of(nodes[i]) by {
                if i > 0 {
                    assert(rest[i - 1] == nodes[i]);
                    assert(filled(rest, rank_of, next)[rest[i - 1]] == rank_of(rest[i - 1]));
                } else {
                    if rest.contains(nodes[0]) {
                        let j = choose|j: int| 0 <= j < rest.len() && rest[j] == nodes[0];
                        assert(nodes[j + 1] == rest[j]);
                    }
                    assert(next.contains_key(nodes[0]) && !rest.contains(nodes[0]));
                    assert(filled(rest, rank_of, next)[nodes[0]] == next[nodes[0]]);
                }
            }
        }
    }
}

/// A round gives each node its new rank.
pub proof fn lemma_round(
    nodes: Seq<Seq<char>>,
    edges: Seq<Edges>,
    ranks: Map<Seq<char>, DecimalNumber>,
    damping_factor: DecimalNumber,
    from: int,
    done: Map<Seq<char>, DecimalNumber>,
)
    requires
        graph_sound(nodes, edges),
        ranks_sound(nodes, ranks),
        0 <= from <= nodes.len(),
        valid(damping_factor),
        encode(damping_factor) <= 1000,
    ensures
        round(nodes.len(), edges, ranks, damping_factor, nodes.skip(from), done) == Ok::<
            Map<Seq<char>, DecimalNumber>,
            VotingSystemError,
        >(
            filled(
                nodes.skip(from),
                new_rank_of(nodes.len(), edges, ranks, damping_factor),
                done,
            ),
        ),
    decreases nodes.len() - from,
{
    if from < nodes.len() {
        let tail = nodes.skip(from);
        assert(tail[0] == nodes[from]);
        assert(tail.drop_first() =~= nodes.skip(from + 1));
        lemma_node_rank(nodes, edges, ranks, damping_factor, nodes[from]);
        let rank = new_rank_of(nodes.len(), edges, ranks, damping_factor)(nodes[from]);
        lemma_round(nodes, edges, ranks, damping_factor, from + 1, done.insert(nodes[from], rank));
    }
}

/// Whether exactly the nodes have a rank.
pub open spec fn covers(nodes: Seq<Seq<char>>, ranks: Map<Seq<char>, DecimalNumber>) -> bool {
    forall|id: Seq<char>| #[trigger] ranks.contains_key(id) <==> nodes.contains(id)
}

/// The new ranks of some nodes add up to what each of them gets whoever
/// trusts it and what is handed to them.
proof fn lemma_new_mass(
    nodes: Seq<Seq<char>>,
    edges: Seq<Edges>,
    ranks: Map<Seq<char>, DecimalNumber>,
    damping_factor: DecimalNumber,
    result: Map<Seq<char>, DecimalNumber>,
    upto: int,
)
    requires
        graph_sound(nodes, edges),
        ranks_sound(nodes, ranks),
        nodes.len() > 0,
        valid(damping_factor),
        encode(damping_factor) <= 1000,
        0 <= upto <= nodes.len(),
        forall|i: int|
            0 <= i < nodes.len() ==> result.contains_key(#[trigger] nodes[i]) && result[nodes[i]]
                == new_rank_of(nodes.len(), edges, ranks, damping_factor)(nodes[i]),
    ensures
        mass(nodes.take(upto), result) == upto * base_raw(nodes.len(), damping_factor)
            + total_inflow(nodes.take(upto), edges, ranks, damping_factor),
    decreases upto,
{
    let base = base_raw(nodes.len(), damping_factor);
    if upto > 0 {
        lemma_new_mass(nodes, edges, ranks, damping_factor, result, upto - 1);
        let some = nodes.take(upto);
        assert(some.drop_last() =~= nodes.take(upto - 1));
        assert(some.last() == nodes[upto - 1]);
        lemma_node_rank(nodes, edges, ranks, damping_factor, nodes[upto - 1]);
        let raw = new_rank_raw(nodes.len(), edges, ranks, damping_factor, nodes[upto - 1]);
        assert(encode(decode(raw)) == raw);
        assert(result.contains_key(nodes[upto - 1]));
        assert(raw_rank(result, nodes[upto - 1]) == raw);
        assert((upto - 1) * base + base == upto * base) by (nonlinear_arith);
    } else {
        assert(0 * base == 0) by (nonlinear_arith);
    }
}

/// A round of a sound graph with sound ranks gives sound ranks again.
pub proof fn lemma_round_sound(
    nodes: Seq<Seq<char>>,
    edges: Seq<Edges>,
    ranks: Map<Seq<char>, DecimalNumber>,
    damping_factor: DecimalNumber,
)
    requires
        graph_sound(nodes, edges),
        ranks_sound(nodes, ranks),
        nodes.len() > 0,
        valid(damping_factor),
        encode(damping_factor) <= 1000,
    ensures
        round(nodes.len(), edges, ranks, damping_factor, nodes, Map::empty()) matches Ok(result)
            && ranks_sound(nodes, result) && covers(nodes, result),
{
    let rank_of = new_rank_of(nodes.len(), edges, ranks, damping_factor);
    let result = filled(nodes, rank_of, Map::empty());
    lemma_round(nodes, edges, ranks, damping_factor, 0, Map::empty());
    assert(nodes.skip(0) =~= nodes);
    lemma_filled(nodes, rank_of, Map::empty());
    assert forall|id: Seq<char>| #[trigger] result.contains_key(id) implies valid(result[id]) by {
        let i = choose|i: int| 0 <= i < nodes.len() && nodes[i] == id;
        assert(result[nodes[i]] == rank_of(nodes[i]));
    }
    assert forall|i: int| 0 <= i < nodes.len() implies result.contains_key(#[trigger] nodes[i])
        && result[nodes[i]] == rank_of(nodes[i]) by {
        assert(nodes.contains(nodes[i]));
    }
    lemma_new_mass(nodes, edges, ranks, damping_factor, result, nodes.len() as int);
    assert(nodes.take(nodes.len() as int) =~= nodes);
    lemma_total_inflow_bound(nodes, edges, ranks, damping_factor);
    lemma_handed_out(nodes, edges, ranks, damping_factor);
    lemma_base(nodes.len(), damping_factor);
}

/// Any number of rounds of a sound graph with sound ranks gives sound ranks.
pub proof fn lemma_rounds_sound(
    nodes: Seq<Seq<char>>,
    edges: Seq<Edges>,
    ranks: Map<Seq<char>, DecimalNumber>,
    damping_factor: DecimalNumber,
    iterations: nat,
)
    requires
        graph_sound(nodes, edges),
        ranks_sound(nodes, ranks),
        covers(nodes, ranks),
        nodes.len() > 0,
        valid(damping_factor),
        encode(damping_factor) <= 1000,
    ensures
        rounds(nodes, edges, ranks, damping_factor, iterations) matches Ok(result) && ranks_sound(
            nodes,
            result,
        ) && covers(nodes, result),
    decreases iterations,
{
    if iterations > 0 {
        lemma_round_sound(nodes, edges, ranks, damping_factor);
        let next = round(nodes.len(), edges, ranks, damping_factor, nodes, Map::empty())->Ok_0;
        lemma_rounds_sound(nodes, edges, next, damping_factor, (iterations - 1) as nat);
    }
}

/// The ranks with which the calculation starts are the same for all nodes.
proof fn lemma_first_ranks(
    nodes: Seq<Seq<char>>,
    from: int,
    done: Map<Seq<char>, DecimalNumber>,
)
    requires
        0 < nodes.len() <= u32::MAX,
        0 <= from <= nodes.len(),
    ensures
        first_ranks(nodes.len(), nodes.skip(from), done) == Ok::<
            Map<Seq<char>, DecimalNumber>,
            VotingSystemError,
        >(filled(nodes.skip(from), first_rank_of(nodes.len()), done)),
    decreases nodes.len() - from,
{
    if from < nodes.len() {
        let count = nodes.len();
        let tail = nodes.skip(from);
        assert(tail[0] == nodes[from]);
        assert(tail.drop_first() =~= nodes.skip(from + 1));
        assert(encode(whole_number(count)) == count * 1000);
        assert(1000nat * 1000 / (count * 1000) == 1000nat / count) by (nonlinear_arith)
            requires
                count > 0,
        ;
        assert(1000nat / count <= 1000) by (nonlinear_arith)
            requires
                count > 0,
        ;
        lemma_representable_less(1000nat / count, 1000);
        lemma_first_ranks(nodes, from + 1, done.insert(nodes[from], decode(1000nat / count)));
    }
}

/// Equal ranks of some nodes add up to as many times the rank.
proof fn lemma_first_mass(
    nodes: Seq<Seq<char>>,
    result: Map<Seq<char>, DecimalNumber>,
    upto: int,
)
    requires
        nodes.len() > 0,
        0 <= upto <= nodes.len(),
        forall|i: int|
            0 <= i < nodes.len() ==> result.contains_key(#[trigger] nodes[i]) && result[nodes[i]]
                == decode(1000nat / nodes.len()),
    ensures
        mass(nodes.take(upto), result) == upto * (1000nat / nodes.len()),
    decreases upto,
{
    let each = 1000nat / nodes.len();
    if upto > 0 {
        lemma_first_mass(nodes, result, upto - 1);
        let some = nodes.take(upto);
        assert(some.drop_last() =~= nodes.take(upto - 1));
        assert(some.last() == nodes[upto - 1]);
        assert(each <= 1000) by (nonlinear_arith)
            requires
                each == 1000nat / nodes.len(),
                nodes.len() > 0,
        ;
        assert(encode(decode(each)) == each);
        assert(result.contains_key(nodes[upto - 1]));
        assert((upto - 1) * each + each == upto * each) by (nonlinear_arith);
    } else {
        assert(0 * each == 0) by (nonlinear_arith);
    }
}

/// The ranks of a sound graph can always be calculated.
///
/// Let no user be a node twice, let every user that trusts somebody be a
/// node, and let the damping factor be a number of at most one. Then the
/// calculation does not fail, whatever the number of rounds: exactly the
/// nodes get a rank, every rank is a number, and all ranks together are no
/// more than one.
pub proof fn lemma_page_ranks_exist(
    nodes: Seq<Seq<char>>,
    edges: Seq<Edges>,
    iterations: nat,
    damping_factor: DecimalNumber,
)
    requires
        graph_sound(nodes, edges),
        valid(damping_factor),
        encode(damping_factor) <= 1000,
    ensures
        page_ranks(nodes, edges, iterations, damping_factor) matches Ok(result) && ranks_sound(
            nodes,
            result,
        ) && covers(nodes, result),
{
    if nodes.len() == 0 {
        assert(nodes =~= Seq::<Seq<char>>::empty());
        lemma_empty_graph(edges, iterations, damping_factor);
    } else {
        let count = nodes.len();
        let first = filled(nodes, first_rank_of(count), Map::empty());
        lemma_first_ranks(nodes, 0, Map::empty());
        assert(nodes.skip(0) =~= nodes);
        lemma_filled(nodes, first_rank_of(count), Map::empty());
        assert forall|i: int| 0 <= i < nodes.len() implies first.contains_key(#[trigger] nodes[i])
            && first[nodes[i]] == decode(1000nat / count) by {
            assert(nodes.contains(nodes[i]));
        }
        assert forall|id: Seq<char>| #[trigger] first.contains_key(id) implies valid(first[id]) by {
            let i = choose|i: int| 0 <= i < nodes.len() && nodes[i] == id;
            assert(first[nodes[i]] == decode(1000nat / count));
        }
        lemma_first_mass(nodes, first, count as int);
        assert(nodes.take(count as int) =~= nodes);
        assert(count * (1000nat / count) <= 1000) by (nonlinear_arith)
            requires
                count > 0,
        ;
        lemma_rounds_sound(nodes, edges, first, damping_factor, iterations);
    }
}

/// The nodes of a trust map are distinct, every user that trusts somebody is
/// among them, and there are no more of them than the trust map has users
/// and links.
pub proof fn lemma_pages_nodes(pages: Seq<Edges>, nodes: Seq<Seq<char>>)
    requires
        distinct(nodes),
    ensures
        distinct(pages_nodes(pages, nodes)),
        forall|other: Seq<char>| nodes.contains(other) ==> #[trigger] pages_nodes(
            pages,
            nodes,
        ).contains(other),
        forall|i: int|
            0 <= i < pages.len() ==> pages_nodes(pages, nodes).contains((#[trigger] pages[i]).0),
        forall|i: int| 0 <= i < pages.len() ==> (#[trigger] pages[i]).1.len() <= graph_size(pages),
        pages_nodes(pages, nodes).len() <= nodes.len() + graph_size(pages),
    decreases pages.len(),
{
    if pages.len() > 0 {
        let with_page = with_id(nodes, pages[0].0);
        let next = with_ids(with_page, pages[0].1);
        let rest = pages.drop_first();
        lemma_with_id(nodes, pages[0].0);
        lemma_with_ids(with_page, pages[0].1);
        lemma_pages_nodes(rest, next);
        let result = pages_nodes(pages, nodes);
        assert forall|other: Seq<char>| nodes.contains(other) implies #[trigger] result.contains(
            other,
        ) by {
            assert(with_page.contains(other));
            assert(next.contains(other));
        }
        assert forall|i: int| 0 <= i < pages.len() implies result.contains(
            (#[trigger] pages[i]).0,
        ) by {
            if i == 0 {
                assert(with_page.contains(pages[0].0));
                assert(next.contains(pages[0].0));
            } else {
                assert(rest[i - 1] == pages[i]);
            }
        }
        assert forall|i: int| 0 <= i < pages.len() implies (#[trigger] pages[i]).1.len()
            <= graph_size(pages) by {
            if i > 0 {
                assert(rest[i - 1] == pages[i]);
            }
        }
    }
}

/// The trust ranks of a trust map can always be calculated, unless the
/// trust map is too large.
pub proof fn lemma_trust_ranks_exist(pages: Seq<Edges>)
    requires
        distinct(sources(pages)),
        graph_size(pages) <= u32::MAX,
    ensures
        trust_ranks(pages) matches Ok(ranks) && ranks_sound(
            pages_nodes(pages, Seq::empty()),
            ranks,
        ) && covers(pages_nodes(pages, Seq::empty()), ranks),
{
    let nodes = pages_nodes(pages, Seq::empty());
    lemma_pages_nodes(pages, Seq::empty());
    if pages.len() == 0 {
        assert(mass(nodes, Map::empty()) == 0);
    } else {
        lemma_page_ranks_exist(nodes, pages, ITERATIONS as nat, DAMPING_FACTOR);
    }
}

} // verus!
