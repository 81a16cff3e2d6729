//! Trust rank: PageRank over the graph of who trusts whom, in fixed-point
//! arithmetic.
//!
//! The nodes of the graph are all users that trust somebody or are trusted by
//! somebody. Every node starts with the rank `1 / N`. In each round a node `p`
//! gets the rank `(1 - d) / N` plus, for every user `q` that trusts `p`, the
//! share `d * rank(q) / outdegree(q)`. A user that trusts nobody hands its
//! rank to nobody. Every product and quotient is truncated to three digits
//! where it arises.

use vstd::prelude::*;
use crate::decimal_number_wrapper::{
    checked_add,
    checked_div,
    checked_mul,
    difference_of,
    encode,
    product_of,
    quotient_of,
    saturating_sub,
    sum_of,
    valid,
};
use crate::decomposed::nested_wf;
use crate::ordered_map::{
    distinct,
    ids,
    lemma_sorted_keys_distinct,
    strictly_sorted,
    MapKey,
    OrderedMap,
};
use crate::rank_mass::{graph_sound, lemma_page_ranks_exist, sources};
use crate::types::{DecimalNumber, VotingSystemError};

verus! {

/// Number of rounds of `Rank::calculate`.
pub const ITERATIONS: u32 = 1000;

/// Damping factor of `Rank::calculate`.
pub const DAMPING_FACTOR: DecimalNumber = (0, 850);

/// A user together with the users it trusts.
pub type Edges = (Seq<char>, Seq<Seq<char>>);

/// `list`, with `id` at its end if it was not in it.
pub open spec fn with_id(list: Seq<Seq<char>>, id: Seq<char>) -> Seq<Seq<char>> {
    if list.contains(id) {
        list
    } else {
        list.push(id)
    }
}

/// `list`, with each of `more` put at its end in turn unless it is in it.
pub open spec fn with_ids(list: Seq<Seq<char>>, more: Seq<Seq<char>>) -> Seq<Seq<char>>
    decreases more.len(),
{
    if more.len() == 0 {
        list
    } else {
        with_ids(with_id(list, more[0]), more.drop_first())
    }
}

/// The keys of a list of entries.
pub open spec fn keys_of<V>(entries: Seq<(Seq<char>, V)>) -> Seq<Seq<char>> {
    entries.map_values(|entry: (Seq<char>, V)| entry.0)
}

/// Rank of a user in `ranks`, zero for a user that has none.
pub open spec fn rank_or_zero(ranks: Map<Seq<char>, DecimalNumber>, id: Seq<char>) -> DecimalNumber {
    if ranks.contains_key(id) {
        ranks[id]
    } else {
        (0, 0)
    }
}

/// The whole number `count` as a fixed-point number.
pub open spec fn whole_number(count: nat) -> DecimalNumber {
    (count as u32, 0)
}

/// What a user hands to each user it trusts: its damped rank divided by the
/// number of users it trusts.
pub open spec fn share(
    edges: Edges,
    ranks: Map<Seq<char>, DecimalNumber>,
    damping_factor: DecimalNumber,
) -> Result<DecimalNumber, VotingSystemError> {
    match product_of(damping_factor, rank_or_zero(ranks, edges.0)) {
        Err(e) => Err(e),
        Ok(damped) => quotient_of(damped, whole_number(edges.1.len())),
    }
}

/// `so_far` plus what `node` gets from each of `edges` that trusts it.
pub open spec fn inflow(
    edges: Seq<Edges>,
    ranks: Map<Seq<char>, DecimalNumber>,
    damping_factor: DecimalNumber,
    node: Seq<char>,
    so_far: DecimalNumber,
) -> Result<DecimalNumber, VotingSystemError>
    decreases edges.len(),
{
    if edges.len() == 0 {
        Ok(so_far)
    } else if !edges[0].1.contains(node) {
        inflow(edges.drop_first(), ranks, damping_factor, node, so_far)
    } else {
        match share(edges[0], ranks, damping_factor) {
            Err(e) => Err(e),
            Ok(part) => match sum_of(so_far, part) {
                Err(e) => Err(e),
                Ok(next) => inflow(edges.drop_first(), ranks, damping_factor, node, next),
            },
        }
    }
}

/// The rank that every node gets whoever trusts it: `(1 - d) / N`.
pub open spec fn base_rank(node_count: nat, damping_factor: DecimalNumber) -> Result<
    DecimalNumber,
    VotingSystemError,
> {
    if !valid(damping_factor) {
        Err(VotingSystemError::InvalidFractional)
    } else {
        quotient_of(difference_of((1, 0), damping_factor), whole_number(node_count))
    }
}

/// The rank of `node` after one more round.
pub open spec fn node_rank(
    node_count: nat,
    edges: Seq<Edges>,
    ranks: Map<Seq<char>, DecimalNumber>,
    damping_factor: DecimalNumber,
    node: Seq<char>,
) -> Result<DecimalNumber, VotingSystemError> {
    match base_rank(node_count, damping_factor) {
        Err(e) => Err(e),
        Ok(base) => inflow(edges, ranks, damping_factor, node, base),
    }
}

/// `done` extended by the rank after one more round of each of `nodes`.
pub open spec fn round(
    node_count: nat,
    edges: Seq<Edges>,
    ranks: Map<Seq<char>, DecimalNumber>,
    damping_factor: DecimalNumber,
    nodes: Seq<Seq<char>>,
    done: Map<Seq<char>, DecimalNumber>,
) -> Result<Map<Seq<char>, DecimalNumber>, VotingSystemError>
    decreases nodes.len(),
{
    if nodes.len() == 0 {
        Ok(done)
    } else {
        match node_rank(node_count, edges, ranks, damping_factor, nodes[0]) {
            Err(e) => Err(e),
            Ok(rank) => round(
                node_count,
                edges,
                ranks,
                damping_factor,
                nodes.drop_first(),
                done.insert(nodes[0], rank),
            ),
        }
    }
}

/// `done` extended by the first rank `1 / N` of each of `nodes`.
pub open spec fn first_ranks(
    node_count: nat,
    nodes: Seq<Seq<char>>,
    done: Map<Seq<char>, DecimalNumber>,
) -> Result<Map<Seq<char>, DecimalNumber>, VotingSystemError>
    decreases nodes.len(),
{
    if nodes.len() == 0 {
        Ok(done)
    } else {
        match quotient_of((1, 0), whole_number(node_count)) {
            Err(e) => Err(e),
            Ok(rank) => first_ranks(node_count, nodes.drop_first(), done.insert(nodes[0], rank)),
        }
    }
}

/// The ranks after `iterations` more rounds.
pub open spec fn rounds(
    nodes: Seq<Seq<char>>,
    edges: Seq<Edges>,
    ranks: Map<Seq<char>, DecimalNumber>,
    damping_factor: DecimalNumber,
    iterations: nat,
) -> Result<Map<Seq<char>, DecimalNumber>, VotingSystemError>
    decreases iterations,
{
    if iterations == 0 {
        Ok(ranks)
    } else {
        match round(nodes.len(), edges, ranks, damping_factor, nodes, Map::empty()) {
            Err(e) => Err(e),
            Ok(next) => rounds(nodes, edges, next, damping_factor, (iterations - 1) as nat),
        }
    }
}

/// The ranks of the graph with the given nodes and edges.
pub open spec fn page_ranks(
    nodes: Seq<Seq<char>>,
    edges: Seq<Edges>,
    iterations: nat,
    damping_factor: DecimalNumber,
) -> Result<Map<Seq<char>, DecimalNumber>, VotingSystemError> {
    match first_ranks(nodes.len(), nodes, Map::empty()) {
        Err(e) => Err(e),
        Ok(ranks) => rounds(nodes, edges, ranks, damping_factor, iterations),
    }
}

/// A graph without nodes has no ranks, however many rounds are made.
pub proof fn lemma_empty_graph(edges: Seq<Edges>, iterations: nat, damping_factor: DecimalNumber)
    ensures
        page_ranks(Seq::empty(), edges, iterations, damping_factor) == Ok::<
            Map<Seq<char>, DecimalNumber>,
            VotingSystemError,
        >(Map::empty()),
    decreases iterations,
{
    let nodes = Seq::<Seq<char>>::empty();
    let none = Map::<Seq<char>, DecimalNumber>::empty();
    assert(rounds(nodes, edges, none, damping_factor, iterations) == Ok::<
        Map<Seq<char>, DecimalNumber>,
        VotingSystemError,
    >(none)) by {
        lemma_empty_rounds(edges, iterations, damping_factor);
    }
}

proof fn lemma_empty_rounds(edges: Seq<Edges>, iterations: nat, damping_factor: DecimalNumber)
    ensures
        rounds(Seq::empty(), edges, Map::empty(), damping_factor, iterations) == Ok::<
            Map<Seq<char>, DecimalNumber>,
            VotingSystemError,
        >(Map::empty()),
    decreases iterations,
{
    if iterations > 0 {
        lemma_empty_rounds(edges, (iterations - 1) as nat, damping_factor);
    }
}

/// Whether none of `edges` trusts `node`.
pub open spec fn untrusted(edges: Seq<Edges>, node: Seq<char>) -> bool {
    forall|i: int| 0 <= i < edges.len() ==> !(#[trigger] edges[i]).1.contains(node)
}

proof fn lemma_no_inflow(
    edges: Seq<Edges>,
    ranks: Map<Seq<char>, DecimalNumber>,
    damping_factor: DecimalNumber,
    node: Seq<char>,
    so_far: DecimalNumber,
)
    requires
        untrusted(edges, node),
    ensures
        inflow(edges, ranks, damping_factor, node, so_far) == Ok::<
            DecimalNumber,
            VotingSystemError,
        >(so_far),
    decreases edges.len(),
{
    if edges.len() > 0 {
        assert(!edges[0].1.contains(node));
        let rest = edges.drop_first();
        assert forall|i: int| 0 <= i < rest.len() implies !(#[trigger] rest[i]).1.contains(
            node,
        ) by {
            assert(rest[i] == edges[i + 1]);
        }
        lemma_no_inflow(rest, ranks, damping_factor, node, so_far);
    }
}

proof fn lemma_round_at(
    node_count: nat,
    edges: Seq<Edges>,
    ranks: Map<Seq<char>, DecimalNumber>,
    damping_factor: DecimalNumber,
    nodes: Seq<Seq<char>>,
    done: Map<Seq<char>, DecimalNumber>,
    node: Seq<char>,
)
    requires
        round(node_count, edges, ranks, damping_factor, nodes, done) is Ok,
    ensures
        nodes.contains(node) ==> round(
            node_count,
            edges,
            ranks,
            damping_factor,
            nodes,
            done,
        )->Ok_0.contains_key(node) && node_rank(node_count, edges, ranks, damping_factor, node)
            == Ok::<DecimalNumber, VotingSystemError>(
            round(node_count, edges, ranks, damping_factor, nodes, done)->Ok_0[node],
        ),
        !nodes.contains(node) && done.contains_key(node) ==> round(
            node_count,
            edges,
            ranks,
            damping_factor,
            nodes,
            done,
        )->Ok_0.contains_key(node) && round(
            node_count,
            edges,
            ranks,
            damping_factor,
            nodes,
            done,
        )->Ok_0[node] == done[node],
    decreases nodes.len(),
{
    if nodes.len() > 0 {
        let rank = node_rank(node_count, edges, ranks, damping_factor, nodes[0])->Ok_0;
        let rest = nodes.drop_first();
        lemma_round_at(
            node_count,
            edges,
            ranks,
            damping_factor,
            rest,
            done.insert(nodes[0], rank),
            node,
        );
        if nodes.contains(node) && !rest.contains(node) {
            let at = choose|at: int| 0 <= at < nodes.len() && nodes[at] == node;
            if at > 0 {
                assert(rest[at - 1] == node);
            }
        }
        if rest.contains(node) {
            let at = choose|at: int| 0 <= at < rest.len() && rest[at] == node;
            assert(nodes[at + 1] == node);
        }
    }
}

proof fn lemma_untrusted_rounds(
    nodes: Seq<Seq<char>>,
    edges: Seq<Edges>,
    ranks: Map<Seq<char>, DecimalNumber>,
    damping_factor: DecimalNumber,
    iterations: nat,
    node: Seq<char>,
)
    requires
        iterations >= 1,
        nodes.contains(node),
        untrusted(edges, node),
        rounds(nodes, edges, ranks, damping_factor, iterations) is Ok,
    ensures
        rounds(nodes, edges, ranks, damping_factor, iterations)->Ok_0.contains_key(node),
        base_rank(nodes.len(), damping_factor) == Ok::<DecimalNumber, VotingSystemError>(
            rounds(nodes, edges, ranks, damping_factor, iterations)->Ok_0[node],
        ),
    decreases iterations,
{
    let next = round(nodes.len(), edges, ranks, damping_factor, nodes, Map::empty())->Ok_0;
    if iterations == 1 {
        assert(rounds(nodes, edges, next, damping_factor, 0) == Ok::<
            Map<Seq<char>, DecimalNumber>,
            VotingSystemError,
        >(next));
        lemma_round_at(nodes.len(), edges, ranks, damping_factor, nodes, Map::empty(), node);
        let base = base_rank(nodes.len(), damping_factor)->Ok_0;
        lemma_no_inflow(edges, ranks, damping_factor, node, base);
    } else {
        lemma_untrusted_rounds(
            nodes,
            edges,
            next,
            damping_factor,
            (iterations - 1) as nat,
            node,
        );
    }
}

/// A user that nobody trusts has the rank `(1 - d) / N` after every round.
pub proof fn lemma_untrusted_rank(
    nodes: Seq<Seq<char>>,
    edges: Seq<Edges>,
    iterations: nat,
    damping_factor: DecimalNumber,
    node: Seq<char>,
)
    requires
        iterations >= 1,
        nodes.contains(node),
        untrusted(edges, node),
        page_ranks(nodes, edges, iterations, damping_factor) is Ok,
    ensures
        page_ranks(nodes, edges, iterations, damping_factor)->Ok_0.contains_key(node),
        base_rank(nodes.len(), damping_factor) == Ok::<DecimalNumber, VotingSystemError>(
            page_ranks(nodes, edges, iterations, damping_factor)->Ok_0[node],
        ),
{
    let ranks = first_ranks(nodes.len(), nodes, Map::empty())->Ok_0;
    lemma_untrusted_rounds(nodes, edges, ranks, damping_factor, iterations, node);
}

/// Whether `list` holds `id`.
pub fn list_contains(list: &Vec<String>, id: &String) -> (res: bool)
    ensures
        res == ids(list@).contains(id@),
{
    let mut i: usize = 0;
    while i < list.len()
        invariant
            i <= list.len(),
            forall|j: int| 0 <= j < i ==> ids(list@)[j] != id@,
        decreases list.len() - i,
    {
        if list[i] == *id {
            assert(ids(list@)[i as int] == id@);
            return true;
        }
        i += 1;
    }
    false
}

/// The trust graph as PageRank sees it.
#[derive(Clone, Debug, PartialEq, Eq)]
pub struct Rank {
    /// Every user of the graph once, in the order in which they came up.
    pub nodes: Vec<String>,
    /// For each user that was added as a page the users it trusts.
    pub edges: OrderedMap<String, Vec<String>>,
}

/// Putting a user at the end of a list of distinct users, unless it is in
/// it, leaves the users distinct.
pub proof fn lemma_with_id(list: Seq<Seq<char>>, id: Seq<char>)
    requires
        distinct(list),
    ensures
        distinct(with_id(list, id)),
        with_id(list, id).contains(id),
        forall|other: Seq<char>| list.contains(other) ==> #[trigger] with_id(list, id).contains(
            other,
        ),
        with_id(list, id).len() <= list.len() + 1,
{
    let longer = with_id(list, id);
    if !list.contains(id) {
        assert(longer[list.len() as int] == id);
        assert forall|other: Seq<char>| list.contains(other) implies #[trigger] longer.contains(
            other,
        ) by {
            let i = choose|i: int| 0 <= i < list.len() && list[i] == other;
            assert(longer[i] == other);
        }
        assert forall|i: int, j: int| 0 <= i < j < longer.len() implies #[trigger] longer[i]
            != #[trigger] longer[j] by {
            if j == list.len() {
                assert(list[i] == longer[i]);
                assert(list.contains(longer[i]));
            } else {
                assert(list[i] == longer[i]);
                assert(list[j] == longer[j]);
            }
        }
    }
}

/// Putting users at the end of a list of distinct users, each unless it is
/// in it, leaves the users distinct.
pub proof fn lemma_with_ids(list: Seq<Seq<char>>, more: Seq<Seq<char>>)
    requires
        distinct(list),
    ensures
        distinct(with_ids(list, more)),
        forall|other: Seq<char>| list.contains(other) ==> #[trigger] with_ids(list, more).contains(
            other,
        ),
        forall|i: int| 0 <= i < more.len() ==> with_ids(list, more).contains(#[trigger] more[i]),
        with_ids(list, more).len() <= list.len() + more.len(),
    decreases more.len(),
{
    if more.len() > 0 {
        let next = with_id(list, more[0]);
        let rest = more.drop_first();
        lemma_with_id(list, more[0]);
        lemma_with_ids(next, rest);
        assert forall|other: Seq<char>| list.contains(other) implies #[trigger] with_ids(
            list,
            more,
        ).contains(other) by {
            assert(next.contains(other));
        }
        assert forall|i: int| 0 <= i < more.len() implies with_ids(list, more).contains(
            #[trigger] more[i],
        ) by {
            if i == 0 {
                assert(next.contains(more[0]));
            } else {
                assert(rest[i - 1] == more[i]);
            }
        }
    }
}

impl Rank {
    /// The edges are in key order, no user is a node twice, every user that
    /// was added as a page is a node, and all counts fit in 32 bits.
    pub open spec fn wf(&self) -> bool {
        &&& self.edges.wf()
        &&& self.nodes@.len() <= u32::MAX
        &&& distinct(self.node_ids())
        &&& forall|i: int|
            0 <= i < self.edges.entries().len() ==> self.node_ids().contains(
                (#[trigger] self.edges.entries()[i]).0,
            )
        &&& forall|i: int|
            0 <= i < self.edges.entries().len() ==> (#[trigger] self.edges.entries()[i]).1@.len()
                <= u32::MAX
    }

    /// A well-formed graph is one that ranks can be calculated for.
    pub proof fn lemma_sound(&self)
        requires
            self.wf(),
        ensures
            graph_sound(self.node_ids(), self.edge_list()),
    {
        let edges = self.edge_list();
        let entries = self.edges.entries();
        assert forall|i: int, j: int| 0 <= i < j < sources(edges).len() implies #[trigger] sources(
            edges,
        )[i] != #[trigger] sources(edges)[j] by {
            if entries[i].0 == entries[j].0 {
                lemma_sorted_keys_distinct::<String, Vec<String>>(entries, i, j);
            }
        }
        assert forall|i: int| 0 <= i < edges.len() implies self.node_ids().contains(
            (#[trigger] edges[i]).0,
        ) by {
            assert(self.node_ids().contains(entries[i].0));
        }
        assert forall|i: int| 0 <= i < edges.len() implies (#[trigger] edges[i]).1.len()
            <= u32::MAX by {
            assert(entries[i].1@.len() <= u32::MAX);
        }
    }

    /// Whether the graph is well formed.
    pub fn is_well_formed(&self) -> (res: bool)
        ensures
            res == self.wf(),
    {
        if !self.edges.is_well_formed() || self.nodes.len() > 0xffff_ffff {
            return false;
        }
        let mut i: usize = 0;
        while i < self.edges.len()
            invariant
                i <= self.edges.entries().len(),
                forall|t: int|
                    0 <= t < i ==> (#[trigger] self.edges.entries()[t]).1@.len() <= u32::MAX,
                forall|t: int|
                    0 <= t < i ==> self.node_ids().contains((#[trigger] self.edges.entries()[t]).0),
            decreases self.edges.entries().len() - i,
        {
            if self.edges.value_at(i).len() > 0xffff_ffff || !list_contains(
                &self.nodes,
                self.edges.key_at(i),
            ) {
                return false;
            }
            i += 1;
        }
        let mut i: usize = 0;
        while i < self.nodes.len()
            invariant
                i <= self.nodes@.len(),
                forall|a: int, b: int|
                    0 <= a < b < i ==> #[trigger] self.node_ids()[a] != #[trigger] self.node_ids()[b],
            decreases self.nodes@.len() - i,
        {
            let mut j: usize = 0;
            while j < i
                invariant
                    j <= i < self.nodes@.len(),
                    forall|a: int| 0 <= a < j ==> #[trigger] self.node_ids()[a] != self.node_ids()[i as int],
                decreases i - j,
            {
                if self.nodes[j] == self.nodes[i] {
                    assert(self.node_ids()[j as int] == self.node_ids()[i as int]);
                    return false;
                }
                j += 1;
            }
            i += 1;
        }
        true
    }

    /// The nodes, in the order in which they came up.
    pub open spec fn node_ids(&self) -> Seq<Seq<char>> {
        ids(self.nodes@)
    }

    /// Each user that was added as a page with the users it trusts.
    pub open spec fn edge_list(&self) -> Seq<Edges> {
        self.edges.entries().map_values(|entry: (Seq<char>, Vec<String>)| (entry.0, ids(entry.1@)))
    }

    /// The users that `page` trusts; none if it was never added as a page.
    pub open spec fn trusted_by(&self, page: Seq<char>) -> Seq<Seq<char>> {
        if self.edges@.contains_key(page) {
            ids(self.edges@[page]@)
        } else {
            Seq::empty()
        }
    }

    /// The ranks after the given number of rounds.
    pub open spec fn ranks(&self, iterations: nat, damping_factor: DecimalNumber) -> Result<
        Map<Seq<char>, DecimalNumber>,
        VotingSystemError,
    > {
        page_ranks(self.node_ids(), self.edge_list(), iterations, damping_factor)
    }

    /// A graph without nodes.
    pub fn new() -> (res: Self)
        ensures
            res.wf(),
            res.nodes@.len() == 0,
            res.edges.entries().len() == 0,
            res.edges@ == Map::<Seq<char>, Vec<String>>::empty(),
    {
        Rank { nodes: Vec::new(), edges: OrderedMap::new() }
    }

    /// Adds a user and the users it trusts. Users that the graph has not seen
    /// become nodes: first the user itself, then those it trusts, in key order.
    pub fn add_page(&mut self, page: String, links: &OrderedMap<String, ()>)
        requires
            old(self).wf(),
            old(self).nodes@.len() + links.entries().len() + 1 <= u32::MAX,
            old(self).trusted_by(page@).len() + links.entries().len() <= u32::MAX,
        ensures
            final(self).wf(),
            final(self).node_ids() == with_ids(
                with_id(old(self).node_ids(), page@),
                keys_of(links.entries()),
            ),
            final(self).nodes@.len() <= old(self).nodes@.len() + links.entries().len() + 1,
            final(self).edges@.dom() == old(self).edges@.dom().insert(page@),
            final(self).trusted_by(page@) == with_ids(
                old(self).trusted_by(page@),
                keys_of(links.entries()),
            ),
            forall|other: Seq<char>|
                other != page@ ==> #[trigger] final(self).trusted_by(other) == old(self).trusted_by(
                    other,
                ),
            (forall|i: int|
                0 <= i < old(self).edges.entries().len() ==> String::key_lt(
                    (#[trigger] old(self).edges.entries()[i]).0,
                    page@,
                )) ==> final(self).edge_list() == old(self).edge_list().push(
                (page@, with_ids(Seq::empty(), keys_of(links.entries()))),
            ),
    {
        let ghost first = forall|i: int|
            0 <= i < old(self).edges.entries().len() ==> String::key_lt(
                (#[trigger] old(self).edges.entries()[i]).0,
                page@,
            );
        proof {
            old(self).edges.lemma_entries_view();
            if first && old(self).edges@.contains_key(page@) {
                String::lemma_key_lt_irreflexive(page@);
            }
        }
        let mut page_edges: Vec<String> = match self.edges.remove(&page) {
            Some(page_edges) => page_edges,
            None => Vec::new(),
        };
        assert(ids(page_edges@) =~= old(self).trusted_by(page@));
        if !list_contains(&self.nodes, &page) {
            self.nodes.push(page.duplicate());
            assert(ids(self.nodes@) =~= ids(old(self).nodes@).push(page@));
        }
        let ghost all = keys_of(links.entries());
        let ghost nodes_goal = with_ids(with_id(old(self).node_ids(), page@), all);
        let ghost edges_goal = with_ids(old(self).trusted_by(page@), all);
        let ghost removed = self.edges;
        let mut i: usize = 0;
        assert(all.skip(0) =~= all);
        while i < links.len()
            invariant
                i <= all.len(),
                all == keys_of(links.entries()),
                self.edges == removed,
                with_ids(ids(self.nodes@), all.skip(i as int)) == nodes_goal,
                with_ids(ids(page_edges@), all.skip(i as int)) == edges_goal,
                self.nodes@.len() + (all.len() - i) <= old(self).nodes@.len() + all.len() + 1,
                old(self).nodes@.len() + all.len() + 1 <= u32::MAX,
                page_edges@.len() + (all.len() - i) <= u32::MAX,
            decreases all.len() - i,
        {
            assert(all.skip(i as int).drop_first() =~= all.skip(i + 1));
            assert(all.skip(i as int)[0] == all[i as int]);
            let link = links.key_at(i);
            if !list_contains(&page_edges, link) {
                let ghost before = ids(page_edges@);
                page_edges.push(link.duplicate());
                assert(ids(page_edges@) =~= before.push(link@));
            }
            if !list_contains(&self.nodes, link) {
                let ghost before = ids(self.nodes@);
                self.nodes.push(link.duplicate());
                assert(ids(self.nodes@) =~= before.push(link@));
            }
            i += 1;
        }
        assert(removed@ =~= old(self).edges@.remove(page@));
        let ghost targets = ids(page_edges@);
        self.edges.set(page, page_edges);
        proof {
            self.edges.lemma_entries_view();
            removed.lemma_entries_view();
            lemma_with_id(old(self).node_ids(), page@);
            lemma_with_ids(with_id(old(self).node_ids(), page@), all);
            assert forall|i: int| 0 <= i < self.edges.entries().len() implies self.node_ids().contains(
                (#[trigger] self.edges.entries()[i]).0,
            ) by {
                let key = self.edges.entries()[i].0;
                assert(self.edges@.contains_key(key));
                if key != page@ {
                    assert(old(self).edges@.contains_key(key));
                    let j = choose|j: int|
                        0 <= j < old(self).edges.entries().len() && #[trigger] old(
                            self,
                        ).edges.entries()[j].0 == key;
                    assert(old(self).node_ids().contains(old(self).edges.entries()[j].0));
                    assert(with_id(old(self).node_ids(), page@).contains(key));
                } else {
                    assert(with_id(old(self).node_ids(), page@).contains(page@));
                }
            }
            assert(self.edges@.dom() =~= old(self).edges@.dom().insert(page@));
            assert forall|other: Seq<char>| other != page@ implies #[trigger] self.trusted_by(other)
                == old(self).trusted_by(other) by {
                assert(self.edges@.contains_key(other) == old(self).edges@.contains_key(other));
            }
            assert forall|i: int| 0 <= i < self.edges.entries().len() implies (
            #[trigger] self.edges.entries()[i]).1@.len() <= u32::MAX by {
                let key = self.edges.entries()[i].0;
                assert(self.edges@.contains_key(key));
                if key != page@ {
                    assert(old(self).edges@.contains_key(key));
                    let j = choose|j: int|
                        0 <= j < old(self).edges.entries().len() && #[trigger] old(
                            self,
                        ).edges.entries()[j].0 == key;
                    assert(old(self).edges.entries()[j].1@.len() <= u32::MAX);
                }
            }
            if first {
                assert(removed == old(self).edges);
                assert(self.edge_list() =~= old(self).edge_list().push((page@, targets)));
            }
        }
    }

    /// The graph of a whole trust map: its users are added as pages in key
    /// order.
    pub fn from_pages(pages: &OrderedMap<String, OrderedMap<String, ()>>) -> (res: Rank)
        requires
            nested_wf(*pages),
            graph_size(nested_keys(*pages)) <= u32::MAX,
        ensures
            res.wf(),
            res.node_ids() == pages_nodes(nested_keys(*pages), Seq::empty()),
            res.edge_list() == nested_keys(*pages),
    {
        let ghost all = nested_keys(*pages);
        let mut result = Rank::new();
        let mut i: usize = 0;
        assert(all.skip(0) =~= all);
        assert(ids(result.nodes@) =~= Seq::<Seq<char>>::empty());
        assert(result.edge_list() =~= all.take(0));
        while i < pages.len()
            invariant
                i <= all.len(),
                all == nested_keys(*pages),
                nested_wf(*pages),
                result.wf(),
                pages_nodes(all.skip(i as int), result.node_ids()) == pages_nodes(
                    all,
                    Seq::empty(),
                ),
                result.edge_list() == all.take(i as int),
                result.nodes@.len() + graph_size(all.skip(i as int)) <= u32::MAX,
            decreases all.len() - i,
        {
            assert(all.skip(i as int).drop_first() =~= all.skip(i + 1));
            assert(all.skip(i as int)[0] == all[i as int]);
            let page = pages.key_at(i);
            let links = pages.value_at(i);
            proof {
                assert(links.wf());
                lemma_with_distinct_ids::<()>(Seq::empty(), links.entries(), 0);
                assert(keys_of(links.entries()).skip(0) =~= keys_of(links.entries()));
                assert(Seq::<Seq<char>>::empty() + keys_of(links.entries()) =~= keys_of(
                    links.entries(),
                ));
                assert(all.take(i + 1) =~= all.take(i as int).push(all[i as int]));
                assert forall|j: int| 0 <= j < result.edges.entries().len() implies String::key_lt(
                    (#[trigger] result.edges.entries()[j]).0,
                    page@,
                ) by {
                    assert(result.edge_list()[j].0 == result.edges.entries()[j].0);
                    assert(all.take(i as int)[j] == all[j]);
                    assert(all[j].0 == pages.entries()[j].0);
                    assert(String::key_lt(pages.entries()[j].0, pages.entries()[i as int].0));
                }
                result.edges.lemma_entries_view();
                if result.edges@.contains_key(page@) {
                    String::lemma_key_lt_irreflexive(page@);
                }
            }
            result.add_page(page.duplicate(), links);
            i += 1;
        }
        assert(all.take(i as int) =~= all);
        result
    }

    fn count(len: usize) -> (res: DecimalNumber)
        requires
            len <= u32::MAX,
        ensures
            res == whole_number(len as nat),
    {
        (len as u32, 0)
    }

    /// The rank of one node after one more round.
    fn next_rank(
        &self,
        page_ranks: &OrderedMap<String, DecimalNumber>,
        damping_factor: DecimalNumber,
        node: &String,
    ) -> (res: Result<DecimalNumber, VotingSystemError>)
        requires
            self.wf(),
            page_ranks.wf(),
        ensures
            res == node_rank(
                self.node_ids().len(),
                self.edge_list(),
                page_ranks@,
                damping_factor,
                node@,
            ),
    {
        if damping_factor.1 >= 1000 {
            return Err(VotingSystemError::InvalidFractional);
        }
        let mut rank = match checked_div(
            saturating_sub((1, 0), damping_factor),
            Self::count(self.nodes.len()),
        ) {
            Ok(rank) => rank,
            Err(e) => {
                return Err(e);
            },
        };
        let ghost all = self.edge_list();
        let ghost goal = node_rank(
            self.node_ids().len(),
            all,
            page_ranks@,
            damping_factor,
            node@,
        );
        let mut j: usize = 0;
        assert(all.skip(0) =~= all);
        while j < self.edges.len()
            invariant
                j <= all.len(),
                all == self.edge_list(),
                all.len() == self.edges.entries().len(),
                goal == node_rank(
                    self.node_ids().len(),
                    all,
                    page_ranks@,
                    damping_factor,
                    node@,
                ),
                self.wf(),
                page_ranks.wf(),
                inflow(all.skip(j as int), page_ranks@, damping_factor, node@, rank) == goal,
            decreases all.len() - j,
        {
            assert(all.skip(j as int).drop_first() =~= all.skip(j + 1));
            assert(all.skip(j as int)[0] == all[j as int]);
            let edges_item = self.edges.value_at(j);
            if list_contains(edges_item, node) {
                rank = match Self::add_share(
                    page_ranks,
                    damping_factor,
                    self.edges.key_at(j),
                    edges_item,
                    rank,
                ) {
                    Ok(rank) => rank,
                    Err(e) => {
                        return Err(e);
                    },
                };
            }
            j += 1;
        }
        Ok(rank)
    }

    /// `rank` plus what one user hands to each user it trusts.
    fn add_share(
        page_ranks: &OrderedMap<String, DecimalNumber>,
        damping_factor: DecimalNumber,
        other_node: &String,
        edges_item: &Vec<String>,
        rank: DecimalNumber,
    ) -> (res: Result<DecimalNumber, VotingSystemError>)
        requires
            page_ranks.wf(),
            edges_item@.len() <= u32::MAX,
        ensures
            res == match share((other_node@, ids(edges_item@)), page_ranks@, damping_factor) {
                Err(e) => Err(e),
                Ok(part) => sum_of(rank, part),
            },
    {
        let other_rank = match page_ranks.get(other_node) {
            Some(other_rank) => *other_rank,
            None => (0, 0),
        };
        let mul_result = match checked_mul(damping_factor, other_rank) {
            Ok(mul_result) => mul_result,
            Err(e) => {
                return Err(e);
            },
        };
        let div_result = match checked_div(mul_result, Self::count(edges_item.len())) {
            Ok(div_result) => div_result,
            Err(e) => {
                return Err(e);
            },
        };
        checked_add(rank, div_result)
    }

    /// The ranks of all nodes after one more round.
    fn next_ranks(
        &self,
        page_ranks: &OrderedMap<String, DecimalNumber>,
        damping_factor: DecimalNumber,
    ) -> (res: Result<OrderedMap<String, DecimalNumber>, VotingSystemError>)
        requires
            self.wf(),
            page_ranks.wf(),
        ensures
            res matches Ok(ranks) ==> ranks.wf() && round(
                self.node_ids().len(),
                self.edge_list(),
                page_ranks@,
                damping_factor,
                self.node_ids(),
                Map::empty(),
            ) == Ok::<Map<Seq<char>, DecimalNumber>, VotingSystemError>(ranks@),
            res matches Err(e) ==> round(
                self.node_ids().len(),
                self.edge_list(),
                page_ranks@,
                damping_factor,
                self.node_ids(),
                Map::empty(),
            ) == Err::<Map<Seq<char>, DecimalNumber>, VotingSystemError>(e),
    {
        let ghost all = self.node_ids();
        let ghost goal = round(
            all.len(),
            self.edge_list(),
            page_ranks@,
            damping_factor,
            all,
            Map::empty(),
        );
        let mut new_ranks: OrderedMap<String, DecimalNumber> = OrderedMap::new();
        let mut i: usize = 0;
        assert(all.skip(0) =~= all);
        while i < self.nodes.len()
            invariant
                i <= all.len(),
                all == self.node_ids(),
                goal == round(
                    all.len(),
                    self.edge_list(),
                    page_ranks@,
                    damping_factor,
                    all,
                    Map::empty(),
                ),
                self.wf(),
                page_ranks.wf(),
                new_ranks.wf(),
                round(
                    all.len(),
                    self.edge_list(),
                    page_ranks@,
                    damping_factor,
                    all.skip(i as int),
                    new_ranks@,
                ) == goal,
            decreases all.len() - i,
        {
            assert(all.skip(i as int).drop_first() =~= all.skip(i + 1));
            assert(all.skip(i as int)[0] == all[i as int]);
            let node = &self.nodes[i];
            let rank = match self.next_rank(page_ranks, damping_factor, node) {
                Ok(rank) => rank,
                Err(e) => {
                    return Err(e);
                },
            };
            new_ranks.set(node.duplicate(), rank);
            i += 1;
        }
        Ok(new_ranks)
    }

    /// The ranks with which the calculation starts.
    fn initial_ranks(&self) -> (res: Result<OrderedMap<String, DecimalNumber>, VotingSystemError>)
        requires
            self.wf(),
        ensures
            res matches Ok(ranks) ==> ranks.wf() && first_ranks(
                self.node_ids().len(),
                self.node_ids(),
                Map::empty(),
            ) == Ok::<Map<Seq<char>, DecimalNumber>, VotingSystemError>(ranks@),
            res matches Err(e) ==> first_ranks(
                self.node_ids().len(),
                self.node_ids(),
                Map::empty(),
            ) == Err::<Map<Seq<char>, DecimalNumber>, VotingSystemError>(e),
    {
        let ghost all = self.node_ids();
        let ghost goal = first_ranks(all.len(), all, Map::empty());
        let mut page_ranks: OrderedMap<String, DecimalNumber> = OrderedMap::new();
        let mut i: usize = 0;
        assert(all.skip(0) =~= all);
        while i < self.nodes.len()
            invariant
                i <= all.len(),
                all == self.node_ids(),
                goal == first_ranks(all.len(), all, Map::empty()),
                self.wf(),
                page_ranks.wf(),
                first_ranks(all.len(), all.skip(i as int), page_ranks@) == goal,
            decreases all.len() - i,
        {
            assert(all.skip(i as int).drop_first() =~= all.skip(i + 1));
            assert(all.skip(i as int)[0] == all[i as int]);
            let rank = match checked_div((1, 0), Self::count(self.nodes.len())) {
                Ok(rank) => rank,
                Err(e) => {
                    return Err(e);
                },
            };
            page_ranks.set(self.nodes[i].duplicate(), rank);
            i += 1;
        }
        Ok(page_ranks)
    }

    /// Calculates the ranks with 1000 rounds and the damping factor 0.850.
    pub fn calculate(&self) -> (res: OrderedMap<String, DecimalNumber>)
        requires
            self.wf(),
        ensures
            res.wf(),
            self.ranks(ITERATIONS as nat, DAMPING_FACTOR) == Ok::<
                Map<Seq<char>, DecimalNumber>,
                VotingSystemError,
            >(res@),
    {
        proof {
            self.lemma_sound();
            lemma_page_ranks_exist(
                self.node_ids(),
                self.edge_list(),
                ITERATIONS as nat,
                DAMPING_FACTOR,
            );
        }
        match self.calculate_custom_params(ITERATIONS, DAMPING_FACTOR) {
            Ok(ranks) => ranks,
            Err(_) => OrderedMap::new(),
        }
    }

    /// Calculates the ranks with the given number of rounds and damping
    /// factor. With a damping factor of at most one this cannot fail.
    pub fn calculate_custom_params(&self, iterations: u32, damping_factor: DecimalNumber) -> (res:
        Result<OrderedMap<String, DecimalNumber>, VotingSystemError>)
        requires
            self.wf(),
        ensures
            res matches Ok(ranks) ==> ranks.wf() && self.ranks(iterations as nat, damping_factor)
                == Ok::<Map<Seq<char>, DecimalNumber>, VotingSystemError>(ranks@),
            res matches Err(e) ==> self.ranks(iterations as nat, damping_factor) == Err::<
                Map<Seq<char>, DecimalNumber>,
                VotingSystemError,
            >(e),
            valid(damping_factor) && encode(damping_factor) <= 1000 ==> res is Ok,
    {
        proof {
            if valid(damping_factor) && encode(damping_factor) <= 1000 {
                self.lemma_sound();
                lemma_page_ranks_exist(
                    self.node_ids(),
                    self.edge_list(),
                    iterations as nat,
                    damping_factor,
                );
            }
        }
        let mut page_ranks = match self.initial_ranks() {
            Ok(page_ranks) => page_ranks,
            Err(e) => {
                return Err(e);
            },
        };
        let ghost goal = self.ranks(iterations as nat, damping_factor);
        let mut done: u32 = 0;
        while done < iterations
            invariant
                done <= iterations,
                self.wf(),
                page_ranks.wf(),
                goal == self.ranks(iterations as nat, damping_factor),
                valid(damping_factor) && encode(damping_factor) <= 1000 ==> goal is Ok,
                rounds(
                    self.node_ids(),
                    self.edge_list(),
                    page_ranks@,
                    damping_factor,
                    (iterations - done) as nat,
                ) == goal,
            decreases iterations - done,
        {
            page_ranks = match self.next_ranks(&page_ranks, damping_factor) {
                Ok(new_ranks) => new_ranks,
                Err(e) => {
                    return Err(e);
                },
            };
            done += 1;
        }
        Ok(page_ranks)
    }
}

/// The keys of a map of maps, each with the keys of its inner map.
pub open spec fn nested_keys(pages: OrderedMap<String, OrderedMap<String, ()>>) -> Seq<Edges> {
    pages.entries().map_values(
        |entry: (Seq<char>, OrderedMap<String, ()>)| (entry.0, keys_of(entry.1.entries())),
    )
}

/// `nodes` extended by each page and the users it trusts, page by page.
pub open spec fn pages_nodes(pages: Seq<Edges>, nodes: Seq<Seq<char>>) -> Seq<Seq<char>>
    decreases pages.len(),
{
    if pages.len() == 0 {
        nodes
    } else {
        pages_nodes(pages.drop_first(), with_ids(with_id(nodes, pages[0].0), pages[0].1))
    }
}

/// Number of pages and links of a trust map: a bound on its number of nodes.
pub open spec fn graph_size(pages: Seq<Edges>) -> nat
    decreases pages.len(),
{
    if pages.len() == 0 {
        0
    } else {
        1 + pages[0].1.len() + graph_size(pages.drop_first())
    }
}

/// Adding keys that differ from each other and from all of `list` puts them
/// at its end as they are.
pub proof fn lemma_with_distinct_ids<V>(
    list: Seq<Seq<char>>,
    entries: Seq<(Seq<char>, V)>,
    from: int,
)
    requires
        0 <= from <= entries.len(),
        strictly_sorted::<String, V>(entries),
        forall|i: int, j: int|
            0 <= i < list.len() && from <= j < entries.len() ==> #[trigger] list[i] != (
            #[trigger] entries[j]).0,
    ensures
        with_ids(list, keys_of(entries).skip(from)) == list + keys_of(entries).skip(from),
    decreases entries.len() - from,
{
    let more = keys_of(entries).skip(from);
    if from < entries.len() {
        let next = with_id(list, more[0]);
        assert(more[0] == entries[from].0);
        assert(!list.contains(more[0]));
        assert(more.drop_first() =~= keys_of(entries).skip(from + 1));
        assert forall|i: int, j: int|
            0 <= i < next.len() && from + 1 <= j < entries.len() implies #[trigger] next[i] != (
        #[trigger] entries[j]).0 by {
            if i == list.len() && next[i] == entries[j].0 {
                lemma_sorted_keys_distinct::<String, V>(entries, from, j);
            }
        }
        lemma_with_distinct_ids(next, entries, from + 1);
        assert(next + keys_of(entries).skip(from + 1) =~= list + more);
    } else {
        assert(list + more =~= list);
    }
}

} // verus!
