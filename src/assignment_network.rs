use vstd::prelude::*;

use crate::dinic::{is_maximum, same_edges, solve};
use crate::flow_network::{
    Edge, EdgeData, FlowNetwork, Id, edge, edge_flow, flow_from, flow_to, lemma_in_flow_by_origins,
    lemma_out_flow_by_targets, lemma_sum_zero,
};
use crate::models::{Exchange, PlayedGame, Submission, UserId};

verus! {

/// Hands out consecutive vertex ids, from 0.
pub struct IndexAllocator {
    index: u16,
}

impl IndexAllocator {
    pub closed spec fn spec_index(&self) -> u16 {
        self.index
    }

    pub fn new() -> (r: IndexAllocator)
        ensures
            r.spec_index() == 0,
    {
        IndexAllocator { index: 0 }
    }

    /// The next free id.
    pub fn next(&mut self) -> (r: u16)
        requires
            old(self).spec_index() < u16::MAX,
        ensures
            r == old(self).spec_index(),
            final(self).spec_index() == old(self).spec_index() + 1,
    {
        let result = self.index;
        self.index = self.index + 1;
        result
    }
}

/// Most submissions a network can hold: two vertices each, after source and sink.
pub const MAX_SUBMISSIONS: usize = 32766;

/// Vertex of the rater who made submission `i`.
pub open spec fn submitter_node(i: int) -> int {
    2 + 2 * i
}

/// Vertex of submission `j`, as something to rate.
pub open spec fn submission_node(j: int) -> int {
    3 + 2 * j
}

/// The edge by which the maker of submission `i` rates submission `j`.
pub open spec fn rating_edge(i: int, j: int) -> Edge {
    Edge { start: submitter_node(i) as Id, end: submission_node(j) as Id }
}

/// `user` has a played-game record for `link`.
pub open spec fn has_played(played: Seq<PlayedGame>, user: UserId, link: Seq<char>) -> bool {
    exists|k: int| 0 <= k < played.len() && #[trigger] played[k].member == user && played[k].link@ == link
}

/// The maker of submission `i` may be asked to rate submission `j`: it is not their own and
/// they have not played it.
pub open spec fn may_rate(subs: Seq<Submission>, played: Seq<PlayedGame>, i: int, j: int) -> bool {
    &&& subs[i].submitter != subs[j].submitter
    &&& !has_played(played, subs[i].submitter, subs[j].link@)
}

pub open spec fn is_submitter_node(v: int, m: int) -> bool {
    2 <= v < 2 + 2 * m && v % 2 == 0
}

pub open spec fn is_submission_node(v: int, m: int) -> bool {
    3 <= v < 3 + 2 * m && v % 2 == 1
}

/// The vertex of the rater who made submission `i`.
pub fn submitter_vertex(i: usize) -> (r: Id)
    requires
        i < MAX_SUBMISSIONS,
    ensures
        r == submitter_node(i as int),
{
    (2 + 2 * i) as Id
}

/// The vertex of submission `j`.
pub fn submission_vertex(j: usize) -> (r: Id)
    requires
        j < MAX_SUBMISSIONS,
    ensures
        r == submission_node(j as int),
{
    (3 + 2 * j) as Id
}

/// The edges of the bipartite network for `subs`: source to each rater, each submission to
/// the sink, and rater `i` to submission `j` wherever `i` may rate `j`.
pub open spec fn planned_edge(subs: Seq<Submission>, played: Seq<PlayedGame>, e: Edge) -> bool {
    let m = subs.len() as int;
    ||| e.start == 0 && is_submitter_node(e.end as int, m)
    ||| e.end == 1 && is_submission_node(e.start as int, m)
    ||| is_submitter_node(e.start as int, m) && is_submission_node(e.end as int, m) && may_rate(
        subs,
        played,
        (e.start - 2) / 2,
        (e.end - 3) / 2,
    )
}

/// Capacity of a planned edge: `games` at source and sink, 1 between rater and submission.
pub open spec fn planned_capacity(games: u8, e: Edge) -> int {
    if e.start == 0 || e.end == 1 {
        games as int
    } else {
        1
    }
}

/// Submissions that rater `i` is assigned among the first `j`, in submission order: those
/// whose rating edge carries flow.
pub open spec fn assigned(subs: Seq<Submission>, net: FlowNetwork, i: int, j: int) -> Seq<Submission>
    decreases j,
{
    if j <= 0 {
        Seq::empty()
    } else {
        assigned(subs, net, i, j - 1) + if net.spec_flow(rating_edge(i, j - 1)) > 0 {
            seq![subs[j - 1]]
        } else {
            Seq::empty()
        }
    }
}

/// The flow network of one exchange's assignment, with the submissions it was built from.
pub struct AssignmentNetwork {
    pub network: FlowNetwork,
    pub submissions: Vec<Submission>,
}

impl AssignmentNetwork {
    /// The network holds exactly the planned edges, with their planned capacities.
    pub open spec fn plans(&self, played: Seq<PlayedGame>, games: u8) -> bool {
        &&& self.submissions@.len() <= MAX_SUBMISSIONS
        &&& self.network.wf()
        &&& self.network.spec_source() == 0
        &&& self.network.spec_sink() == 1
        &&& forall|e: Edge| #[trigger]
            self.network.has_edge(e) <==> planned_edge(self.submissions@, played, e)
        &&& forall|e: Edge| #[trigger]
            self.network.has_edge(e) ==> self.network.spec_capacity(e) == planned_capacity(games, e)
    }

    /// Builds the network for `submissions`, every flow 0.
    pub fn build(exchange: &Exchange, submissions: Vec<Submission>, played_games: &[PlayedGame]) -> (r:
        AssignmentNetwork)
        requires
            submissions@.len() <= MAX_SUBMISSIONS,
        ensures
            r.submissions@ == submissions@,
            r.plans(played_games@, exchange.games_per_member),
            r.network.is_feasible(),
            r.network.value() == 0,
            forall|k: int|
                0 <= k < r.network.edge_seq().len() ==> (#[trigger] r.network.edge_seq()[k]).flow == 0,
    {
        let games = exchange.games_per_member as u16;
        let m = submissions.len();
        let ghost subs = submissions@;
        let ghost played = played_games@;
        let mut allocator = IndexAllocator::new();
        let source = allocator.next();
        let sink = allocator.next();
        let mut network = FlowNetwork::empty(source, sink);
        let mut i: usize = 0;
        while i < m
            invariant
                m == subs.len(),
                m <= MAX_SUBMISSIONS,
                i <= m,
                games == exchange.games_per_member,
                allocator.spec_index() == 2 + 2 * i,
                source == 0,
                sink == 1,
                network.wf(),
                network.spec_source() == 0,
                network.spec_sink() == 1,
                forall|k: int| 0 <= k < network.edge_seq().len() ==> (#[trigger] network.edge_seq()[k]).flow == 0,
                forall|e: Edge| #[trigger]
                    network.has_edge(e) <==> (e.start == 0 && is_submitter_node(e.end as int, i as int)) || (
                    e.end == 1 && is_submission_node(e.start as int, i as int)),
                forall|e: Edge| #[trigger]
                    network.has_edge(e) ==> network.spec_capacity(e) == planned_capacity(exchange.games_per_member, e),
            decreases m - i,
        {
            let submitter_node = allocator.next();
            let e1 = edge(source, submitter_node);
            proof {
                assert(!network.edge_set().contains(e1));
            }
            let ghost n0 = network;
            network.add_new_edge(e1, games, 0);
            proof {
                assert(network.edge_seq()[n0.edge_seq().len() as int].flow == 0);
            }
            let submission_node = allocator.next();
            let e2 = edge(submission_node, sink);
            proof {
                assert(submitter_node == 2 + 2 * i);
                assert(submission_node == 3 + 2 * i);
                assert(n0.edge_set().contains(e2) == n0.has_edge(e2));
                assert(!n0.has_edge(e2));
                assert(network.edge_set() == n0.edge_set().insert(e1));
                assert(!network.edge_set().contains(e2));
            }
            let ghost n1 = network;
            network.add_new_edge(e2, games, 0);
            proof {
                assert(network.edge_seq()[n1.edge_seq().len() as int].flow == 0);
                assert forall|e: Edge| #[trigger]
                    network.has_edge(e) <==> (e.start == 0 && is_submitter_node(e.end as int, i + 1)) || (
                    e.end == 1 && is_submission_node(e.start as int, i + 1)) by {
                    assert(network.edge_set() == n0.edge_set().insert(e1).insert(e2));
                    assert(network.edge_set().contains(e) == network.has_edge(e));
                    assert(n1.edge_set().contains(e) == n1.has_edge(e));
                    assert(n0.edge_set().contains(e) == n0.has_edge(e));
                }
                assert forall|e: Edge| #[trigger]
                    network.has_edge(e) implies network.spec_capacity(e) == planned_capacity(exchange.games_per_member, e) by {
                    assert(network.edge_set().contains(e) == network.has_edge(e));
                    assert(n1.edge_set().contains(e) == n1.has_edge(e));
                    assert(n0.edge_set().contains(e) == n0.has_edge(e));
                }
            }
            i += 1;
        }
        let mut i: usize = 0;
        while i < m
            invariant
                m == subs.len(),
                m <= MAX_SUBMISSIONS,
                i <= m,
                subs == submissions@,
                played == played_games@,
                games == exchange.games_per_member,
                network.wf(),
                network.spec_source() == 0,
                network.spec_sink() == 1,
                forall|k: int| 0 <= k < network.edge_seq().len() ==> (#[trigger] network.edge_seq()[k]).flow == 0,
                forall|e: Edge| #[trigger]
                    network.has_edge(e) <==> (e.start == 0 && is_submitter_node(e.end as int, m as int)) || (
                    e.end == 1 && is_submission_node(e.start as int, m as int)) || (is_submitter_node(e.start as int, i as int)
                    && is_submission_node(e.end as int, m as int) && may_rate(subs, played, (e.start - 2) / 2, (e.end - 3) / 2)),
                forall|e: Edge| #[trigger]
                    network.has_edge(e) ==> network.spec_capacity(e) == planned_capacity(exchange.games_per_member, e),
            decreases m - i,
        {
            let rater = submissions[i].submitter;
            let mut j: usize = 0;
            while j < m
                invariant
                    m == subs.len(),
                    m <= MAX_SUBMISSIONS,
                    i < m,
                    j <= m,
                    subs == submissions@,
                    played == played_games@,
                    rater == subs[i as int].submitter,
                    games == exchange.games_per_member,
                    network.wf(),
                    network.spec_source() == 0,
                    network.spec_sink() == 1,
                    forall|k: int| 0 <= k < network.edge_seq().len() ==> (#[trigger] network.edge_seq()[k]).flow == 0,
                    forall|e: Edge| #[trigger]
                        network.has_edge(e) <==> (e.start == 0 && is_submitter_node(e.end as int, m as int)) || (
                        e.end == 1 && is_submission_node(e.start as int, m as int)) || (is_submitter_node(e.start as int, m as int)
                        && is_submission_node(e.end as int, m as int) && may_rate(subs, played, (e.start - 2) / 2, (e.end - 3) / 2)
                        && ((e.start - 2) / 2 < i || ((e.start - 2) / 2 == i && (e.end - 3) / 2 < j))),
                    forall|e: Edge| #[trigger]
                        network.has_edge(e) ==> network.spec_capacity(e) == planned_capacity(exchange.games_per_member, e),
                decreases m - j,
            {
                let other = &submissions[j];
                if other.submitter != rater && !has_played_exec(played_games, rater, &other.link) {
                    let e = edge((2 + 2 * i) as u16, (3 + 2 * j) as u16);
                    proof {
                        assert(!network.edge_set().contains(e));
                    }
                    let ghost n0 = network;
                    network.add_new_edge(e, 1, 0);
                    proof {
                        assert(network.edge_seq()[n0.edge_seq().len() as int].flow == 0);
                        assert forall|o: Edge| #[trigger]
                            network.has_edge(o) <==> (o.start == 0 && is_submitter_node(o.end as int, m as int)) || (
                            o.end == 1 && is_submission_node(o.start as int, m as int)) || (is_submitter_node(o.start as int, m as int)
                            && is_submission_node(o.end as int, m as int) && may_rate(subs, played, (o.start - 2) / 2, (o.end - 3) / 2)
                            && ((o.start - 2) / 2 < i || ((o.start - 2) / 2 == i && (o.end - 3) / 2 < j + 1))) by {
                            assert(network.edge_set().contains(o) == network.has_edge(o));
                            assert(n0.edge_set().contains(o) == n0.has_edge(o));
                        }
                        assert forall|o: Edge| #[trigger]
                            network.has_edge(o) implies network.spec_capacity(o) == planned_capacity(exchange.games_per_member, o) by {
                            assert(network.edge_set().contains(o) == network.has_edge(o));
                            assert(n0.edge_set().contains(o) == n0.has_edge(o));
                        }
                    }
                } else {
                    proof {
                        assert(!may_rate(subs, played, i as int, j as int));
                        assert forall|o: Edge| #[trigger]
                            network.has_edge(o) <==> (o.start == 0 && is_submitter_node(o.end as int, m as int)) || (
                            o.end == 1 && is_submission_node(o.start as int, m as int)) || (is_submitter_node(o.start as int, m as int)
                            && is_submission_node(o.end as int, m as int) && may_rate(subs, played, (o.start - 2) / 2, (o.end - 3) / 2)
                            && ((o.start - 2) / 2 < i || ((o.start - 2) / 2 == i && (o.end - 3) / 2 < j + 1))) by {}
                    }
                }
                j += 1;
            }
            i += 1;
        }
        proof {
            assert forall|v: Id| v != network.spec_source() && v != network.spec_sink() implies #[trigger] network.in_flow(v)
                == network.out_flow(v) by {
                lemma_sum_zero(network.edge_seq(), v);
            }
            lemma_sum_zero(network.edge_seq(), 0);
        }
        AssignmentNetwork { network, submissions }
    }
}

impl AssignmentNetwork {
    /// For each submission, its maker and the submissions they are to rate: those whose rating
    /// edge carries flow, in submission order.
    pub fn get_assignments(&self) -> (r: Vec<(UserId, Vec<Submission>)>)
        requires
            self.network.wf(),
            self.submissions@.len() <= MAX_SUBMISSIONS,
        ensures
            r@.len() == self.submissions@.len(),
            forall|i: int|
                0 <= i < r@.len() ==> (#[trigger] r@[i]).0 == self.submissions@[i].submitter && r@[i].1@
                    == assigned(self.submissions@, self.network, i, self.submissions@.len() as int),
    {
        let m = self.submissions.len();
        let mut r: Vec<(UserId, Vec<Submission>)> = Vec::new();
        let mut i: usize = 0;
        while i < m
            invariant
                self.network.wf(),
                m == self.submissions@.len(),
                m <= MAX_SUBMISSIONS,
                i <= m,
                r@.len() == i,
                forall|q: int|
                    0 <= q < i ==> (#[trigger] r@[q]).0 == self.submissions@[q].submitter && r@[q].1@
                        == assigned(self.submissions@, self.network, q, m as int),
            decreases m - i,
        {
            let mut list: Vec<Submission> = Vec::new();
            let mut j: usize = 0;
            while j < m
                invariant
                    self.network.wf(),
                    m == self.submissions@.len(),
                    m <= MAX_SUBMISSIONS,
                    i < m,
                    j <= m,
                    list@ == assigned(self.submissions@, self.network, i as int, j as int),
                decreases m - j,
            {
                let e = edge(submitter_vertex(i), submission_vertex(j));
                if self.network.flow(e) > 0 {
                    list.push(self.submissions[j].copy());
                }
                proof {
                    assert(list@ =~= assigned(self.submissions@, self.network, i as int, j + 1));
                }
                j += 1;
            }
            r.push((self.submissions[i].submitter, list));
            i += 1;
        }
        r
    }
}

/// What rater `i` is assigned among the first `j` submissions is some of those submissions,
/// each with flow on its rating edge.
pub proof fn lemma_assigned_member(subs: Seq<Submission>, net: FlowNetwork, i: int, j: int, x: Submission)
    requires
        assigned(subs, net, i, j).contains(x),
    ensures
        exists|k: int| 0 <= k < j && k < subs.len() + j && x == subs[k] && #[trigger] net.spec_flow(rating_edge(i, k)) > 0,
    decreases j,
{
    if j > 0 {
        let prev = assigned(subs, net, i, j - 1);
        if prev.contains(x) {
            lemma_assigned_member(subs, net, i, j - 1, x);
        } else {
            let idx = choose|idx: int| 0 <= idx < assigned(subs, net, i, j).len() && assigned(subs, net, i, j)[idx] == x;
            assert(idx >= prev.len()) by {
                if idx < prev.len() {
                    assert(prev[idx] == x);
                }
            }
            assert(net.spec_flow(rating_edge(i, j - 1)) > 0);
        }
    }
}

/// A network keeps its plan when only its flows change.
pub proof fn lemma_plans_kept(
    before: AssignmentNetwork,
    after: AssignmentNetwork,
    played: Seq<PlayedGame>,
    games: u8,
)
    requires
        before.plans(played, games),
        after.network.wf(),
        after.submissions@.len() <= MAX_SUBMISSIONS,
        after.network.spec_source() == before.network.spec_source(),
        after.network.spec_sink() == before.network.spec_sink(),
        after.submissions@ == before.submissions@,
        same_edges(before.network.edge_seq(), after.network.edge_seq()),
    ensures
        after.plans(played, games),
{
    let b = before.network;
    let a = after.network;
    assert forall|e: Edge| #[trigger] a.has_edge(e) == b.has_edge(e) by {
        if a.has_edge(e) {
            let k = a.index_of(e);
            assert(b.edge_seq()[k].edge == e);
        }
        if b.has_edge(e) {
            let k = b.index_of(e);
            assert(a.edge_seq()[k].edge == e);
        }
    }
    assert forall|e: Edge| #[trigger] a.has_edge(e) implies a.spec_capacity(e) == planned_capacity(games, e) by {
        let k = a.index_of(e);
        a.lemma_entry(k);
        b.lemma_entry(k);
        assert(b.has_edge(e));
    }
}

/// No rater is assigned their own submission, nor a game they have already played.
pub proof fn lemma_assignments_valid(
    net: AssignmentNetwork,
    played: Seq<PlayedGame>,
    games: u8,
    i: int,
    x: Submission,
)
    requires
        net.plans(played, games),
        0 <= i < net.submissions@.len(),
        assigned(net.submissions@, net.network, i, net.submissions@.len() as int).contains(x),
    ensures
        x.submitter != net.submissions@[i].submitter,
        !has_played(played, net.submissions@[i].submitter, x.link@),
{
    let subs = net.submissions@;
    let m = subs.len() as int;
    lemma_assigned_member(subs, net.network, i, m, x);
    let k = choose|k: int| 0 <= k < m && k < m + m && x == subs[k] && #[trigger] net.network.spec_flow(rating_edge(i, k)) > 0;
    let e = rating_edge(i, k);
    assert(net.network.has_edge(e));
    assert(planned_edge(subs, played, e));
    assert((e.start - 2) / 2 == i);
    assert((e.end - 3) / 2 == k);
}

/// Vertices of the first `m` submissions.
pub open spec fn submission_nodes(m: nat) -> Seq<Id> {
    Seq::new(m, |k: int| submission_node(k) as Id)
}

/// Vertices of the makers of the first `m` submissions.
pub open spec fn submitter_nodes(m: nat) -> Seq<Id> {
    Seq::new(m, |k: int| submitter_node(k) as Id)
}

/// Flow from rater `i` to the first `j` submissions.
pub open spec fn row_flow(net: FlowNetwork, i: int, j: int) -> int
    decreases j,
{
    if j <= 0 {
        0
    } else {
        row_flow(net, i, j - 1) + net.spec_flow(rating_edge(i, j - 1))
    }
}

/// Flow into submission `j` from the first `i` raters.
pub open spec fn column_flow(net: FlowNetwork, j: int, i: int) -> int
    decreases i,
{
    if i <= 0 {
        0
    } else {
        column_flow(net, j, i - 1) + net.spec_flow(rating_edge(i - 1, j))
    }
}

/// How many of the first `i` raters are assigned submission `j`.
pub open spec fn rater_count(net: FlowNetwork, j: int, i: int) -> int
    decreases i,
{
    if i <= 0 {
        0
    } else {
        rater_count(net, j, i - 1) + if net.spec_flow(rating_edge(i - 1, j)) > 0 {
            1int
        } else {
            0
        }
    }
}

proof fn lemma_assigned_len(subs: Seq<Submission>, net: FlowNetwork, i: int, j: int)
    ensures
        assigned(subs, net, i, j).len() <= row_flow(net, i, j),
    decreases j,
{
    if j > 0 {
        lemma_assigned_len(subs, net, i, j - 1);
    }
}

proof fn lemma_rater_count(net: FlowNetwork, j: int, i: int)
    ensures
        rater_count(net, j, i) <= column_flow(net, j, i),
    decreases i,
{
    if i > 0 {
        lemma_rater_count(net, j, i - 1);
    }
}

proof fn lemma_row_flow(net: FlowNetwork, i: int, j: nat)
    requires
        net.wf(),
        0 <= i < MAX_SUBMISSIONS,
        j <= MAX_SUBMISSIONS,
    ensures
        flow_to(net.edge_seq(), submitter_node(i) as Id, submission_nodes(j)) == row_flow(net, i, j as int),
    decreases j,
{
    if j > 0 {
        assert(submission_nodes(j).drop_last() =~= submission_nodes((j - 1) as nat));
        lemma_row_flow(net, i, (j - 1) as nat);
        net.lemma_spec_flow(rating_edge(i, j - 1));
    }
}

proof fn lemma_column_flow(net: FlowNetwork, j: int, i: nat)
    requires
        net.wf(),
        0 <= j < MAX_SUBMISSIONS,
        i <= MAX_SUBMISSIONS,
    ensures
        flow_from(net.edge_seq(), submission_node(j) as Id, submitter_nodes(i)) == column_flow(net, j, i as int),
    decreases i,
{
    if i > 0 {
        assert(submitter_nodes(i).drop_last() =~= submitter_nodes((i - 1) as nat));
        lemma_column_flow(net, j, (i - 1) as nat);
        net.lemma_spec_flow(rating_edge(i - 1, j));
    }
}

/// The one edge at `v`'s other end carries at most `games`.
proof fn lemma_terminal_edge(net: AssignmentNetwork, played: Seq<PlayedGame>, games: u8, e: Edge)
    requires
        net.plans(played, games),
        net.network.within_capacity(),
        net.network.has_edge(e),
        e.start == 0 || e.end == 1,
    ensures
        edge_flow(net.network.edge_seq(), e) <= games,
{
    net.network.lemma_spec_flow(e);
    let k = net.network.index_of(e);
    net.network.lemma_entry(k);
}

/// Each rater is assigned at most `games` submissions.
pub proof fn lemma_rater_cap(net: AssignmentNetwork, played: Seq<PlayedGame>, games: u8, i: int)
    requires
        net.plans(played, games),
        net.network.is_feasible(),
        0 <= i < net.submissions@.len(),
    ensures
        assigned(net.submissions@, net.network, i, net.submissions@.len() as int).len() <= games,
{
    let subs = net.submissions@;
    let m = subs.len();
    let n = net.network;
    let s = n.edge_seq();
    let u = submitter_node(i) as Id;
    let targets = submission_nodes(m);
    assert(targets.no_duplicates()) by {
        assert forall|a: int, b: int| 0 <= a < targets.len() && 0 <= b < targets.len() && a != b implies targets[a] != targets[b] by {}
    }
    assert forall|q: int| 0 <= q < s.len() && (#[trigger] s[q]).edge.start == u implies targets.contains(s[q].edge.end) by {
        let e = s[q].edge;
        assert(n.has_edge(e));
        assert(planned_edge(subs, played, e));
        let k = (e.end - 3) / 2;
        assert(targets[k] == e.end);
    }
    lemma_out_flow_by_targets(s, u, targets);
    lemma_row_flow(n, i, m);
    let origins = seq![0u16];
    assert(origins.no_duplicates());
    assert forall|q: int| 0 <= q < s.len() && (#[trigger] s[q]).edge.end == u implies origins.contains(s[q].edge.start) by {
        let e = s[q].edge;
        assert(n.has_edge(e));
        assert(planned_edge(subs, played, e));
        assert(origins[0] == e.start);
    }
    lemma_in_flow_by_origins(s, u, origins);
    let source_edge = Edge { start: 0, end: u };
    assert(origins.drop_last() =~= Seq::<Id>::empty());
    assert(flow_from(s, u, origins.drop_last()) == 0);
    assert(origins.last() == 0);
    assert(flow_from(s, u, origins) == edge_flow(s, source_edge));
    if n.has_edge(source_edge) {
        lemma_terminal_edge(net, played, games, source_edge);
    } else {
        n.lemma_spec_flow(source_edge);
    }
    assert(n.in_flow(u) == n.out_flow(u));
    lemma_assigned_len(subs, n, i, m as int);
}

/// Each submission is assigned to at most `games` raters.
pub proof fn lemma_submission_cap(net: AssignmentNetwork, played: Seq<PlayedGame>, games: u8, j: int)
    requires
        net.plans(played, games),
        net.network.is_feasible(),
        0 <= j < net.submissions@.len(),
    ensures
        rater_count(net.network, j, net.submissions@.len() as int) <= games,
{
    let subs = net.submissions@;
    let m = subs.len();
    let n = net.network;
    let s = n.edge_seq();
    let v = submission_node(j) as Id;
    let origins = submitter_nodes(m);
    assert(origins.no_duplicates()) by {
        assert forall|a: int, b: int| 0 <= a < origins.len() && 0 <= b < origins.len() && a != b implies origins[a] != origins[b] by {}
    }
    assert forall|q: int| 0 <= q < s.len() && (#[trigger] s[q]).edge.end == v implies origins.contains(s[q].edge.start) by {
        let e = s[q].edge;
        assert(n.has_edge(e));
        assert(planned_edge(subs, played, e));
        let k = (e.start - 2) / 2;
        assert(origins[k] == e.start);
    }
    lemma_in_flow_by_origins(s, v, origins);
    lemma_column_flow(n, j, m);
    let targets = seq![1u16];
    assert(targets.no_duplicates());
    assert forall|q: int| 0 <= q < s.len() && (#[trigger] s[q]).edge.start == v implies targets.contains(s[q].edge.end) by {
        let e = s[q].edge;
        assert(n.has_edge(e));
        assert(planned_edge(subs, played, e));
        assert(targets[0] == e.end);
    }
    lemma_out_flow_by_targets(s, v, targets);
    let sink_edge = Edge { start: v, end: 1 };
    assert(targets.drop_last() =~= Seq::<Id>::empty());
    assert(flow_to(s, v, targets.drop_last()) == 0);
    assert(targets.last() == 1);
    assert(flow_to(s, v, targets) == edge_flow(s, sink_edge));
    if n.has_edge(sink_edge) {
        lemma_terminal_edge(net, played, games, sink_edge);
    } else {
        n.lemma_spec_flow(sink_edge);
    }
    assert(n.in_flow(v) == n.out_flow(v));
    lemma_rater_count(n, j, m as int);
}

/// How many of the first `i` lists hold `x`.
pub open spec fn holders(lists: Seq<Seq<Submission>>, x: Submission, i: int) -> int
    decreases i,
{
    if i <= 0 {
        0
    } else {
        holders(lists, x, i - 1) + if lists[i - 1].contains(x) {
            1int
        } else {
            0
        }
    }
}

/// The lists of a result, without the users.
pub open spec fn assignment_lists(r: Seq<(UserId, Vec<Submission>)>) -> Seq<Seq<Submission>> {
    Seq::new(r.len(), |i: int| r[i].1@)
}

/// No submission occurs twice.
pub open spec fn distinct_submissions(subs: Seq<Submission>) -> bool {
    forall|j: int, k: int| 0 <= j < subs.len() && 0 <= k < subs.len() && j != k ==> subs[j] != subs[k]
}

proof fn lemma_holders(subs: Seq<Submission>, net: FlowNetwork, lists: Seq<Seq<Submission>>, j: int, i: int)
    requires
        distinct_submissions(subs),
        0 <= j < subs.len(),
        0 <= i <= lists.len(),
        forall|q: int| 0 <= q < i ==> #[trigger] lists[q] == assigned(subs, net, q, subs.len() as int),
    ensures
        holders(lists, subs[j], i) <= rater_count(net, j, i),
    decreases i,
{
    if i > 0 {
        lemma_holders(subs, net, lists, j, i - 1);
        if lists[i - 1].contains(subs[j]) {
            assert(lists[i - 1] == assigned(subs, net, i - 1, subs.len() as int));
            lemma_assigned_member(subs, net, i - 1, subs.len() as int, subs[j]);
            let k = choose|k: int|
                0 <= k < subs.len() && k < subs.len() + subs.len() && subs[j] == subs[k]
                    && #[trigger] net.spec_flow(rating_edge(i - 1, k)) > 0;
            assert(k == j);
        }
    }
}

/// Builds the network for an exchange, solves it, and reads off who rates what.
pub fn compute_assignments(exchange: &Exchange, submissions: Vec<Submission>, played_games: &[PlayedGame]) -> (r: Vec<
    (UserId, Vec<Submission>),
>)
    requires
        submissions@.len() <= MAX_SUBMISSIONS,
    ensures
        r@.len() == submissions@.len(),
        forall|i: int| 0 <= i < r@.len() ==> (#[trigger] r@[i]).0 == submissions@[i].submitter,
        forall|i: int| 0 <= i < r@.len() ==> (#[trigger] r@[i]).1@.len() <= exchange.games_per_member,
        distinct_submissions(submissions@) ==> forall|j: int|
            0 <= j < submissions@.len() ==> #[trigger] holders(
                assignment_lists(r@),
                submissions@[j],
                r@.len() as int,
            ) <= exchange.games_per_member,
        forall|i: int, x: Submission|
            #![trigger r@[i].1@.contains(x)]
            0 <= i < r@.len() && r@[i].1@.contains(x) ==> x.submitter != submissions@[i].submitter
                && !has_played(played_games@, submissions@[i].submitter, x.link@)
                && submissions@.contains(x),
        exists|net: AssignmentNetwork|
            #![trigger net.plans(played_games@, exchange.games_per_member)]
            net.submissions@ == submissions@ && net.plans(played_games@, exchange.games_per_member)
                && net.network.is_feasible() && is_maximum(net.network) && forall|i: int|
                0 <= i < r@.len() ==> (#[trigger] r@[i]).1@ == assigned(
                    submissions@,
                    net.network,
                    i,
                    submissions@.len() as int,
                ),
{
    let mut an = AssignmentNetwork::build(exchange, submissions, played_games);
    let ghost built = an;
    solve(&mut an.network);
    proof {
        lemma_plans_kept(built, an, played_games@, exchange.games_per_member);
    }
    let r = an.get_assignments();
    proof {
        assert forall|i: int| 0 <= i < r@.len() implies (#[trigger] r@[i]).1@.len() <= exchange.games_per_member by {
            lemma_rater_cap(an, played_games@, exchange.games_per_member, i);
        }
        assert forall|i: int, x: Submission|
            #![trigger r@[i].1@.contains(x)]
            0 <= i < r@.len() && r@[i].1@.contains(x) implies x.submitter != an.submissions@[i].submitter
                && !has_played(played_games@, an.submissions@[i].submitter, x.link@)
                && an.submissions@.contains(x) by {
            lemma_assignments_valid(an, played_games@, exchange.games_per_member, i, x);
            lemma_assigned_member(an.submissions@, an.network, i, an.submissions@.len() as int, x);
        }
        assert(an.plans(played_games@, exchange.games_per_member));
        if distinct_submissions(an.submissions@) {
            let lists = assignment_lists(r@);
            assert forall|j: int| 0 <= j < an.submissions@.len() implies #[trigger] holders(
                lists,
                an.submissions@[j],
                r@.len() as int,
            ) <= exchange.games_per_member by {
                assert forall|q: int| 0 <= q < r@.len() implies #[trigger] lists[q] == assigned(
                    an.submissions@,
                    an.network,
                    q,
                    an.submissions@.len() as int,
                ) by {
                    assert(lists[q] == r@[q].1@);
                }
                lemma_holders(an.submissions@, an.network, lists, j, r@.len() as int);
                lemma_submission_cap(an, played_games@, exchange.games_per_member, j);
            }
        }
    }
    r
}

/// Whether `user` has a played-game record for `link`.
fn has_played_exec(played: &[PlayedGame], user: UserId, link: &String) -> (r: bool)
    ensures
        r == has_played(played@, user, link@),
{
    let mut k: usize = 0;
    while k < played.len()
        invariant
            k <= played@.len(),
            forall|q: int| 0 <= q < k ==> !(#[trigger] played@[q].member == user && played@[q].link@ == link@),
        decreases played@.len() - k,
    {
        if played[k].member == user && played[k].link == *link {
            return true;
        }
        k += 1;
    }
    false
}

} // verus!
