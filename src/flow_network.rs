use vstd::prelude::*;

verus! {

/// A vertex of a flow network.
pub type Id = u16;

/// An amount of flow or capacity.
pub type Flow = u16;

/// A directed edge between two vertices.
#[derive(Clone, Copy, Debug, PartialEq, Eq, Hash, Structural)]
pub struct Edge {
    pub start: Id,
    pub end: Id,
}

impl Edge {
    /// The edge with the same vertices, in the other direction.
    pub fn opposite(&self) -> (r: Edge)
        ensures
            r.start == self.end,
            r.end == self.start,
    {
        edge(self.end, self.start)
    }
}

pub fn edge(start: Id, end: Id) -> (r: Edge)
    ensures
        r.start == start,
        r.end == end,
{
    Edge { start, end }
}

/// One edge of a network together with its capacity and its current flow.
#[derive(Clone, Copy, Debug, PartialEq, Eq, Structural)]
pub struct EdgeData {
    pub edge: Edge,
    pub capacity: Flow,
    pub flow: Flow,
}

/// Total flow on the edges of `s` that start at `v`.
pub open spec fn sum_out(s: Seq<EdgeData>, v: Id) -> int
    decreases s.len(),
{
    if s.len() == 0 {
        0
    } else {
        sum_out(s.drop_last(), v) + if s.last().edge.start == v {
            s.last().flow as int
        } else {
            0
        }
    }
}

/// Total flow on the edges of `s` that end in `v`.
pub open spec fn sum_in(s: Seq<EdgeData>, v: Id) -> int
    decreases s.len(),
{
    if s.len() == 0 {
        0
    } else {
        sum_in(s.drop_last(), v) + if s.last().edge.end == v {
            s.last().flow as int
        } else {
            0
        }
    }
}

/// No edge occurs twice in `s`.
pub open spec fn unique_edges(s: Seq<EdgeData>) -> bool {
    forall|i: int, j: int|
        0 <= i < s.len() && 0 <= j < s.len() && i != j ==> #[trigger] s[i].edge != #[trigger] s[j].edge
}


/// Flow that `d` contributes to what leaves `v`.
pub open spec fn out_term(d: EdgeData, v: Id) -> int {
    if d.edge.start == v {
        d.flow as int
    } else {
        0
    }
}

/// Flow that `d` contributes to what enters `v`.
pub open spec fn in_term(d: EdgeData, v: Id) -> int {
    if d.edge.end == v {
        d.flow as int
    } else {
        0
    }
}

pub proof fn lemma_sum_bounds(s: Seq<EdgeData>, v: Id)
    ensures
        0 <= sum_out(s, v) <= s.len() * 65535,
        0 <= sum_in(s, v) <= s.len() * 65535,
    decreases s.len(),
{
    if s.len() > 0 {
        lemma_sum_bounds(s.drop_last(), v);
    }
}

pub proof fn lemma_sum_absent(s: Seq<EdgeData>, v: Id)
    ensures
        (forall|i: int| 0 <= i < s.len() ==> #[trigger] s[i].edge.start != v) ==> sum_out(s, v) == 0,
        (forall|i: int| 0 <= i < s.len() ==> #[trigger] s[i].edge.end != v) ==> sum_in(s, v) == 0,
    decreases s.len(),
{
    if s.len() > 0 {
        lemma_sum_absent(s.drop_last(), v);
        if forall|i: int| 0 <= i < s.len() ==> #[trigger] s[i].edge.start != v {
            assert forall|i: int| 0 <= i < s.drop_last().len() implies #[trigger] s.drop_last()[i].edge.start != v by {
                assert(s[i].edge.start != v);
            }
        }
        if forall|i: int| 0 <= i < s.len() ==> #[trigger] s[i].edge.end != v {
            assert forall|i: int| 0 <= i < s.drop_last().len() implies #[trigger] s.drop_last()[i].edge.end != v by {
                assert(s[i].edge.end != v);
            }
        }
    }
}

/// Replacing one entry changes each sum by the difference of the two entries' terms.
pub proof fn lemma_sum_update(s: Seq<EdgeData>, k: int, x: EdgeData, v: Id)
    requires
        0 <= k < s.len(),
    ensures
        sum_out(s.update(k, x), v) == sum_out(s, v) - out_term(s[k], v) + out_term(x, v),
        sum_in(s.update(k, x), v) == sum_in(s, v) - in_term(s[k], v) + in_term(x, v),
    decreases s.len(),
{
    let t = s.update(k, x);
    if k == s.len() - 1 {
        assert(t.drop_last() =~= s.drop_last());
    } else {
        lemma_sum_update(s.drop_last(), k, x, v);
        assert(t.drop_last() =~= s.drop_last().update(k, x));
    }
}

/// Where every edge carries no flow, every vertex has none entering or leaving.
pub proof fn lemma_sum_zero(s: Seq<EdgeData>, v: Id)
    requires
        forall|i: int| 0 <= i < s.len() ==> #[trigger] s[i].flow == 0,
    ensures
        sum_out(s, v) == 0,
        sum_in(s, v) == 0,
    decreases s.len(),
{
    if s.len() > 0 {
        assert(s.last() == s[s.len() - 1]);
        lemma_sum_zero(s.drop_last(), v);
    }
}

/// Flow on the entries of `s` whose edge is `e`.
pub open spec fn edge_flow(s: Seq<EdgeData>, e: Edge) -> int
    decreases s.len(),
{
    if s.len() == 0 {
        0
    } else {
        edge_flow(s.drop_last(), e) + if s.last().edge == e {
            s.last().flow as int
        } else {
            0
        }
    }
}

/// Total flow from `v` to the vertices of `targets`.
pub open spec fn flow_to(s: Seq<EdgeData>, v: Id, targets: Seq<Id>) -> int
    decreases targets.len(),
{
    if targets.len() == 0 {
        0
    } else {
        flow_to(s, v, targets.drop_last()) + edge_flow(s, Edge { start: v, end: targets.last() })
    }
}

/// Total flow into `v` from the vertices of `origins`.
pub open spec fn flow_from(s: Seq<EdgeData>, v: Id, origins: Seq<Id>) -> int
    decreases origins.len(),
{
    if origins.len() == 0 {
        0
    } else {
        flow_from(s, v, origins.drop_last()) + edge_flow(s, Edge { start: origins.last(), end: v })
    }
}

proof fn lemma_flow_to_push(s: Seq<EdgeData>, x: EdgeData, v: Id, targets: Seq<Id>)
    requires
        targets.no_duplicates(),
    ensures
        flow_to(s.push(x), v, targets) == flow_to(s, v, targets) + if x.edge.start == v
            && targets.contains(x.edge.end) {
            x.flow as int
        } else {
            0
        },
    decreases targets.len(),
{
    assert(s.push(x).drop_last() =~= s);
    if targets.len() > 0 {
        let rest = targets.drop_last();
        assert(rest.no_duplicates()) by {
            assert forall|a: int, b: int| 0 <= a < rest.len() && 0 <= b < rest.len() && a != b implies rest[a] != rest[b] by {
                assert(rest[a] == targets[a] && rest[b] == targets[b]);
            }
        }
        lemma_flow_to_push(s, x, v, rest);
        if x.edge.start == v && x.edge.end == targets.last() {
            assert(targets.contains(x.edge.end)) by {
                assert(targets[targets.len() - 1] == x.edge.end);
            }
            if rest.contains(x.edge.end) {
                let a = choose|a: int| 0 <= a < rest.len() && rest[a] == x.edge.end;
                assert(targets[a] == targets[targets.len() - 1]);
            }
        } else {
            if targets.contains(x.edge.end) && x.edge.start == v {
                let a = choose|a: int| 0 <= a < targets.len() && targets[a] == x.edge.end;
                assert(a != targets.len() - 1);
                assert(rest[a] == x.edge.end);
            }
            if rest.contains(x.edge.end) {
                let a = choose|a: int| 0 <= a < rest.len() && rest[a] == x.edge.end;
                assert(targets[a] == x.edge.end);
            }
        }
    }
}

proof fn lemma_flow_from_push(s: Seq<EdgeData>, x: EdgeData, v: Id, origins: Seq<Id>)
    requires
        origins.no_duplicates(),
    ensures
        flow_from(s.push(x), v, origins) == flow_from(s, v, origins) + if x.edge.end == v
            && origins.contains(x.edge.start) {
            x.flow as int
        } else {
            0
        },
    decreases origins.len(),
{
    assert(s.push(x).drop_last() =~= s);
    if origins.len() > 0 {
        let rest = origins.drop_last();
        assert(rest.no_duplicates()) by {
            assert forall|a: int, b: int| 0 <= a < rest.len() && 0 <= b < rest.len() && a != b implies rest[a] != rest[b] by {
                assert(rest[a] == origins[a] && rest[b] == origins[b]);
            }
        }
        lemma_flow_from_push(s, x, v, rest);
        if x.edge.end == v && x.edge.start == origins.last() {
            assert(origins.contains(x.edge.start)) by {
                assert(origins[origins.len() - 1] == x.edge.start);
            }
            if rest.contains(x.edge.start) {
                let a = choose|a: int| 0 <= a < rest.len() && rest[a] == x.edge.start;
                assert(origins[a] == origins[origins.len() - 1]);
            }
        } else {
            if origins.contains(x.edge.start) && x.edge.end == v {
                let a = choose|a: int| 0 <= a < origins.len() && origins[a] == x.edge.start;
                assert(a != origins.len() - 1);
                assert(rest[a] == x.edge.start);
            }
            if rest.contains(x.edge.start) {
                let a = choose|a: int| 0 <= a < rest.len() && rest[a] == x.edge.start;
                assert(origins[a] == x.edge.start);
            }
        }
    }
}

/// Where every edge leaving `v` ends in `targets`, the flow leaving `v` is the flow to `targets`.
pub proof fn lemma_out_flow_by_targets(s: Seq<EdgeData>, v: Id, targets: Seq<Id>)
    requires
        targets.no_duplicates(),
        forall|i: int| 0 <= i < s.len() && (#[trigger] s[i]).edge.start == v ==> targets.contains(s[i].edge.end),
    ensures
        sum_out(s, v) == flow_to(s, v, targets),
    decreases s.len(),
{
    if s.len() == 0 {
        assert(flow_to(s, v, targets) == 0) by {
            lemma_flow_to_empty(s, v, targets);
        }
    } else {
        let p = s.drop_last();
        assert forall|i: int| 0 <= i < p.len() && (#[trigger] p[i]).edge.start == v implies targets.contains(p[i].edge.end) by {
            assert(p[i] == s[i]);
        }
        lemma_out_flow_by_targets(p, v, targets);
        assert(p.push(s.last()) =~= s);
        lemma_flow_to_push(p, s.last(), v, targets);
        assert(s.last() == s[s.len() - 1]);
    }
}

/// Where every edge entering `v` starts in `origins`, the flow entering `v` is the flow from
/// `origins`.
pub proof fn lemma_in_flow_by_origins(s: Seq<EdgeData>, v: Id, origins: Seq<Id>)
    requires
        origins.no_duplicates(),
        forall|i: int| 0 <= i < s.len() && (#[trigger] s[i]).edge.end == v ==> origins.contains(s[i].edge.start),
    ensures
        sum_in(s, v) == flow_from(s, v, origins),
    decreases s.len(),
{
    if s.len() == 0 {
        assert(flow_from(s, v, origins) == 0) by {
            lemma_flow_from_empty(s, v, origins);
        }
    } else {
        let p = s.drop_last();
        assert forall|i: int| 0 <= i < p.len() && (#[trigger] p[i]).edge.end == v implies origins.contains(p[i].edge.start) by {
            assert(p[i] == s[i]);
        }
        lemma_in_flow_by_origins(p, v, origins);
        assert(p.push(s.last()) =~= s);
        lemma_flow_from_push(p, s.last(), v, origins);
        assert(s.last() == s[s.len() - 1]);
    }
}

proof fn lemma_flow_to_empty(s: Seq<EdgeData>, v: Id, targets: Seq<Id>)
    requires
        s.len() == 0,
    ensures
        flow_to(s, v, targets) == 0,
    decreases targets.len(),
{
    if targets.len() > 0 {
        lemma_flow_to_empty(s, v, targets.drop_last());
    }
}

proof fn lemma_flow_from_empty(s: Seq<EdgeData>, v: Id, origins: Seq<Id>)
    requires
        s.len() == 0,
    ensures
        flow_from(s, v, origins) == 0,
    decreases origins.len(),
{
    if origins.len() > 0 {
        lemma_flow_from_empty(s, v, origins.drop_last());
    }
}

/// With unique edges, the flow on the entries for `e` is the flow of `e`'s one entry, or 0.
pub proof fn lemma_edge_flow(s: Seq<EdgeData>, e: Edge)
    requires
        unique_edges(s),
    ensures
        forall|i: int| 0 <= i < s.len() && (#[trigger] s[i]).edge == e ==> edge_flow(s, e) == s[i].flow,
        (forall|i: int| 0 <= i < s.len() ==> (#[trigger] s[i]).edge != e) ==> edge_flow(s, e) == 0,
    decreases s.len(),
{
    if s.len() > 0 {
        let p = s.drop_last();
        assert(unique_edges(p)) by {
            assert forall|a: int, b: int| 0 <= a < p.len() && 0 <= b < p.len() && a != b implies #[trigger] p[a].edge != #[trigger] p[b].edge by {
                assert(p[a] == s[a] && p[b] == s[b]);
            }
        }
        lemma_edge_flow(p, e);
        assert(s.last() == s[s.len() - 1]);
        if s.last().edge == e {
            assert forall|i: int| 0 <= i < p.len() implies (#[trigger] p[i]).edge != e by {
                assert(p[i] == s[i]);
            }
        }
        assert forall|i: int| 0 <= i < s.len() && (#[trigger] s[i]).edge == e implies edge_flow(s, e) == s[i].flow by {
            if i < s.len() - 1 {
                assert(p[i] == s[i]);
            }
        }
        if forall|i: int| 0 <= i < s.len() ==> (#[trigger] s[i]).edge != e {
            assert forall|i: int| 0 <= i < p.len() implies (#[trigger] p[i]).edge != e by {
                assert(p[i] == s[i]);
            }
        }
    }
}

/// Why a network failed validation.
#[derive(Clone, Copy, Debug, PartialEq, Eq, Structural)]
pub enum FlowError {
    /// An edge carries more flow than its capacity.
    ExceedsCapacity { edge: Edge, flow: Flow, capacity: Flow },
    /// A vertex other than source and sink does not pass on what it receives.
    Unbalanced { vertex: Id, incoming: u128, outgoing: u128 },
    /// The source does not send the expected total.
    SourceMismatch { source_flow: u128, total: Flow },
    /// The sink does not receive the expected total.
    SinkMismatch { sink_flow: u128, total: Flow },
}

/// A directed graph with integer capacities and flows, between a source and a sink.
pub struct FlowNetwork {
    data: Vec<EdgeData>,
    source: Id,
    sink: Id,
}

impl FlowNetwork {
    /// The edges of the network with their capacities and flows, in insertion order.
    pub closed spec fn edge_seq(&self) -> Seq<EdgeData> {
        self.data@
    }

    pub closed spec fn spec_source(&self) -> Id {
        self.source
    }

    pub closed spec fn spec_sink(&self) -> Id {
        self.sink
    }

    /// Each edge is stored once.
    pub open spec fn wf(&self) -> bool {
        unique_edges(self.edge_seq())
    }

    pub open spec fn has_edge(&self, e: Edge) -> bool {
        exists|i: int| 0 <= i < self.edge_seq().len() && #[trigger] self.edge_seq()[i].edge == e
    }

    /// Position of `e` in `edge_seq`, where it is present.
    pub open spec fn index_of(&self, e: Edge) -> int {
        choose|i: int| 0 <= i < self.edge_seq().len() && #[trigger] self.edge_seq()[i].edge == e
    }

    pub open spec fn spec_capacity(&self, e: Edge) -> Flow {
        if self.has_edge(e) {
            self.edge_seq()[self.index_of(e)].capacity
        } else {
            0
        }
    }

    pub open spec fn spec_flow(&self, e: Edge) -> Flow {
        if self.has_edge(e) {
            self.edge_seq()[self.index_of(e)].flow
        } else {
            0
        }
    }

    /// The set of edges.
    pub open spec fn edge_set(&self) -> Set<Edge> {
        Set::new(|e: Edge| self.has_edge(e))
    }

    /// Total flow leaving `v`.
    pub open spec fn out_flow(&self, v: Id) -> int {
        sum_out(self.edge_seq(), v)
    }

    /// Total flow entering `v`.
    pub open spec fn in_flow(&self, v: Id) -> int {
        sum_in(self.edge_seq(), v)
    }

    /// No edge carries more flow than its capacity.
    pub open spec fn within_capacity(&self) -> bool {
        forall|i: int|
            0 <= i < self.edge_seq().len() ==> #[trigger] self.edge_seq()[i].flow
                <= self.edge_seq()[i].capacity
    }

    /// Every vertex other than source and sink has as much flow entering as leaving.
    pub open spec fn conserves_flow(&self) -> bool {
        forall|v: Id|
            v != self.spec_source() && v != self.spec_sink() ==> #[trigger] self.in_flow(v)
                == self.out_flow(v)
    }

    /// `v` is source or sink, or has as much flow entering as leaving.
    pub open spec fn balanced_at(&self, v: Id) -> bool {
        v == self.spec_source() || v == self.spec_sink() || self.in_flow(v) == self.out_flow(v)
    }

    /// The flow value: what leaves the source, less what enters it.
    pub open spec fn value(&self) -> int {
        self.out_flow(self.spec_source()) - self.in_flow(self.spec_source())
    }

    /// A feasible flow: capacities respected and flow conserved.
    pub open spec fn is_feasible(&self) -> bool {
        self.within_capacity() && self.conserves_flow()
    }

    /// The entry of a present edge is the one stored at its position.
    pub proof fn lemma_entry(&self, i: int)
        requires
            self.wf(),
            0 <= i < self.edge_seq().len(),
        ensures
            self.has_edge(self.edge_seq()[i].edge),
            self.index_of(self.edge_seq()[i].edge) == i,
            self.spec_capacity(self.edge_seq()[i].edge) == self.edge_seq()[i].capacity,
            self.spec_flow(self.edge_seq()[i].edge) == self.edge_seq()[i].flow,
    {
        let e = self.edge_seq()[i].edge;
        assert(self.has_edge(e));
        let j = self.index_of(e);
        assert(self.edge_seq()[j].edge == e);
    }

    /// The flow of `e` is the flow on its entries.
    pub proof fn lemma_spec_flow(&self, e: Edge)
        requires
            self.wf(),
        ensures
            self.spec_flow(e) == edge_flow(self.edge_seq(), e),
    {
        lemma_edge_flow(self.edge_seq(), e);
        if self.has_edge(e) {
            self.lemma_entry(self.index_of(e));
        }
    }

    pub fn empty(source: Id, sink: Id) -> (r: FlowNetwork)
        ensures
            r.wf(),
            r.spec_source() == source,
            r.spec_sink() == sink,
            r.edge_seq() == Seq::<EdgeData>::empty(),
    {
        FlowNetwork { data: Vec::new(), source, sink }
    }

    /// Position of `e` among the edges, if present.
    fn position(&self, e: Edge) -> (r: Option<usize>)
        requires
            self.wf(),
        ensures
            r is Some <==> self.has_edge(e),
            r is Some ==> r->0 < self.edge_seq().len() && self.edge_seq()[r->0 as int].edge == e
                && self.index_of(e) == r->0,
    {
        let mut i: usize = 0;
        while i < self.data.len()
            invariant
                self.wf(),
                i <= self.data@.len(),
                forall|j: int| 0 <= j < i ==> #[trigger] self.data@[j].edge != e,
            decreases self.data@.len() - i,
        {
            if self.data[i].edge == e {
                proof {
                    self.lemma_entry(i as int);
                }
                return Some(i);
            }
            i += 1;
        }
        None
    }

    /// Inserts the edge, or overwrites its capacity and flow where it is present.
    pub fn add_edge(&mut self, e: Edge, capacity: Flow, flow: Flow)
        requires
            old(self).wf(),
        ensures
            final(self).wf(),
            final(self).spec_source() == old(self).spec_source(),
            final(self).spec_sink() == old(self).spec_sink(),
            old(self).has_edge(e) ==> final(self).edge_seq() == old(self).edge_seq().update(
                old(self).index_of(e),
                EdgeData { edge: e, capacity, flow },
            ),
            !old(self).has_edge(e) ==> final(self).edge_seq() == old(self).edge_seq().push(
                EdgeData { edge: e, capacity, flow },
            ),
            final(self).edge_set() == old(self).edge_set().insert(e),
            final(self).spec_capacity(e) == capacity,
            final(self).spec_flow(e) == flow,
            forall|o: Edge|
                o != e ==> final(self).spec_capacity(o) == old(self).spec_capacity(o)
                    && final(self).spec_flow(o) == old(self).spec_flow(o),
    {
        let entry = EdgeData { edge: e, capacity, flow };
        let ghost pre = *self;
        match self.position(e) {
            Some(i) => {
                self.data.set(i, entry);
                proof {
                    assert forall|j: int| 0 <= j < self.edge_seq().len() implies #[trigger] self.edge_seq()[j].edge
                        == pre.edge_seq()[j].edge by {}
                    self.lemma_entry(i as int);
                    assert forall|o: Edge| o != e implies self.spec_capacity(o) == pre.spec_capacity(o)
                        && self.spec_flow(o) == pre.spec_flow(o) by {
                        if pre.has_edge(o) {
                            let k = pre.index_of(o);
                            pre.lemma_entry(k);
                            self.lemma_entry(k);
                        } else {
                            if self.has_edge(o) {
                                let k = self.index_of(o);
                                assert(pre.edge_seq()[k].edge == o);
                            }
                        }
                    }
                    assert forall|o: Edge| self.edge_set().contains(o) <==> pre.edge_set().insert(e).contains(o) by {
                        if self.has_edge(o) && o != e {
                            let k = self.index_of(o);
                            assert(pre.edge_seq()[k].edge == o);
                        }
                        if pre.has_edge(o) {
                            let k = pre.index_of(o);
                            assert(self.edge_seq()[k].edge == o);
                        }
                    }
                    assert(self.edge_set() =~= pre.edge_set().insert(e));
                }
            },
            None => {
                self.add_new_edge(e, capacity, flow);
            },
        }
    }

    /// Inserts an edge known to be absent.
    pub fn add_new_edge(&mut self, e: Edge, capacity: Flow, flow: Flow)
        requires
            old(self).wf(),
            !old(self).has_edge(e),
        ensures
            final(self).wf(),
            final(self).spec_source() == old(self).spec_source(),
            final(self).spec_sink() == old(self).spec_sink(),
            final(self).edge_seq() == old(self).edge_seq().push(EdgeData { edge: e, capacity, flow }),
            final(self).edge_set() == old(self).edge_set().insert(e),
            final(self).spec_capacity(e) == capacity,
            final(self).spec_flow(e) == flow,
            forall|o: Edge|
                o != e ==> final(self).spec_capacity(o) == old(self).spec_capacity(o)
                    && final(self).spec_flow(o) == old(self).spec_flow(o),
    {
        let entry = EdgeData { edge: e, capacity, flow };
        let ghost pre = *self;
        self.data.push(entry);
        proof {
            let n = pre.edge_seq().len() as int;
            assert forall|j: int| 0 <= j < n implies #[trigger] self.edge_seq()[j] == pre.edge_seq()[j]
                && self.edge_seq()[j].edge != e by {
                if pre.edge_seq()[j].edge == e {
                    assert(pre.has_edge(e));
                }
            }
            self.lemma_entry(n);
            assert forall|o: Edge| o != e implies self.spec_capacity(o) == pre.spec_capacity(o)
                && self.spec_flow(o) == pre.spec_flow(o) by {
                if pre.has_edge(o) {
                    let k = pre.index_of(o);
                    pre.lemma_entry(k);
                    self.lemma_entry(k);
                } else {
                    if self.has_edge(o) {
                        let k = self.index_of(o);
                        assert(pre.edge_seq()[k].edge == o);
                    }
                }
            }
            assert forall|o: Edge| self.edge_set().contains(o) <==> pre.edge_set().insert(e).contains(o) by {
                if self.has_edge(o) && o != e {
                    let k = self.index_of(o);
                    assert(pre.edge_seq()[k].edge == o);
                }
                if pre.has_edge(o) {
                    let k = pre.index_of(o);
                    assert(self.edge_seq()[k].edge == o);
                }
            }
            assert(self.edge_set() =~= pre.edge_set().insert(e));
        }
    }

    /// Removes the edge where it is present.
    pub fn remove_edge(&mut self, e: Edge)
        requires
            old(self).wf(),
        ensures
            final(self).wf(),
            final(self).spec_source() == old(self).spec_source(),
            final(self).spec_sink() == old(self).spec_sink(),
            old(self).has_edge(e) ==> final(self).edge_seq() == old(self).edge_seq().remove(
                old(self).index_of(e),
            ),
            !old(self).has_edge(e) ==> final(self).edge_seq() == old(self).edge_seq(),
            final(self).edge_set() == old(self).edge_set().remove(e),
    {
        let ghost pre = *self;
        match self.position(e) {
            Some(i) => {
                self.data.remove(i);
                proof {
                    let n = pre.edge_seq().len() as int;
                    assert forall|j: int| 0 <= j < n - 1 implies #[trigger] self.edge_seq()[j] == (
                    if j < i {
                        pre.edge_seq()[j]
                    } else {
                        pre.edge_seq()[j + 1]
                    }) by {}
                    assert forall|a: int, b: int|
                        0 <= a < self.edge_seq().len() && 0 <= b < self.edge_seq().len() && a
                            != b implies #[trigger] self.edge_seq()[a].edge
                        != #[trigger] self.edge_seq()[b].edge by {
                        let pa = if a < i {
                            a
                        } else {
                            a + 1
                        };
                        let pb = if b < i {
                            b
                        } else {
                            b + 1
                        };
                        assert(pre.edge_seq()[pa].edge != pre.edge_seq()[pb].edge);
                    }
                    assert forall|o: Edge| self.edge_set().contains(o) <==> pre.edge_set().remove(e).contains(o) by {
                        if self.has_edge(o) {
                            let k = self.index_of(o);
                            let pk = if k < i {
                                k
                            } else {
                                k + 1
                            };
                            assert(pre.edge_seq()[pk].edge == o);
                            assert(pre.edge_seq()[i as int].edge == e);
                        }
                        if pre.has_edge(o) && o != e {
                            let k = pre.index_of(o);
                            if k < i {
                                assert(self.edge_seq()[k].edge == o);
                            } else if k > i {
                                assert(self.edge_seq()[k - 1].edge == o);
                            }
                        }
                    }
                    assert(self.edge_set() =~= pre.edge_set().remove(e));
                }
            },
            None => {
                proof {
                    assert(self.edge_set() =~= pre.edge_set().remove(e));
                }
            },
        }
    }

    /// Removes every edge; source and sink stay.
    pub fn clear(&mut self)
        ensures
            final(self).wf(),
            final(self).spec_source() == old(self).spec_source(),
            final(self).spec_sink() == old(self).spec_sink(),
            final(self).edge_seq() == Seq::<EdgeData>::empty(),
    {
        self.data.clear();
    }

    pub fn source(&self) -> (r: Id)
        ensures
            r == self.spec_source(),
    {
        self.source
    }

    pub fn sink(&self) -> (r: Id)
        ensures
            r == self.spec_sink(),
    {
        self.sink
    }

    /// Number of edges.
    pub fn edge_count(&self) -> (r: usize)
        ensures
            r == self.edge_seq().len(),
    {
        self.data.len()
    }

    /// The edge stored at position `i`, with its capacity and flow.
    pub fn edge_at(&self, i: usize) -> (r: EdgeData)
        requires
            i < self.edge_seq().len(),
        ensures
            r == self.edge_seq()[i as int],
    {
        self.data[i]
    }

    /// Sets the flow of the edge stored at position `i`.
    pub fn set_flow_at(&mut self, i: usize, flow: Flow)
        requires
            old(self).wf(),
            i < old(self).edge_seq().len(),
        ensures
            final(self).wf(),
            final(self).spec_source() == old(self).spec_source(),
            final(self).spec_sink() == old(self).spec_sink(),
            final(self).edge_seq() == old(self).edge_seq().update(
                i as int,
                EdgeData { flow, ..old(self).edge_seq()[i as int] },
            ),
    {
        let ghost pre = *self;
        let mut entry = self.data[i];
        entry.flow = flow;
        self.data.set(i, entry);
        proof {
            assert forall|j: int| 0 <= j < self.edge_seq().len() implies #[trigger] self.edge_seq()[j].edge
                == pre.edge_seq()[j].edge by {}
        }
    }

    /// All edges, in insertion order.
    pub fn edges(&self) -> (r: Vec<Edge>)
        ensures
            r@.len() == self.edge_seq().len(),
            forall|i: int| 0 <= i < r@.len() ==> #[trigger] r@[i] == self.edge_seq()[i].edge,
    {
        let mut r: Vec<Edge> = Vec::new();
        let mut i: usize = 0;
        while i < self.data.len()
            invariant
                i <= self.data@.len(),
                r@.len() == i,
                forall|j: int| 0 <= j < i ==> #[trigger] r@[j] == self.data@[j].edge,
            decreases self.data@.len() - i,
        {
            r.push(self.data[i].edge);
            i += 1;
        }
        r
    }

    /// The edges that leave `vertex`, in insertion order.
    pub fn outgoing_edges(&self, vertex: Id) -> (r: Vec<Edge>)
        requires
            self.wf(),
        ensures
            r@.no_duplicates(),
            forall|e: Edge| r@.contains(e) <==> self.has_edge(e) && e.start == vertex,
    {
        let mut r: Vec<Edge> = Vec::new();
        let mut i: usize = 0;
        while i < self.data.len()
            invariant
                self.wf(),
                i <= self.data@.len(),
                r@.no_duplicates(),
                forall|e: Edge|
                    r@.contains(e) <==> (exists|j: int|
                        0 <= j < i && #[trigger] self.data@[j].edge == e && e.start == vertex),
            decreases self.data@.len() - i,
        {
            let e = self.data[i].edge;
            if e.start == vertex {
                proof {
                    if r@.contains(e) {
                        let j = choose|j: int| 0 <= j < i && #[trigger] self.data@[j].edge == e && e.start == vertex;
                        assert(self.data@[j].edge == self.data@[i as int].edge);
                    }
                }
                let ghost prev = r@;
                r.push(e);
                proof {
                    assert forall|o: Edge| r@.contains(o) <==> (exists|j: int|
                        0 <= j < i + 1 && #[trigger] self.data@[j].edge == o && o.start == vertex) by {
                        if r@.contains(o) {
                            let k = choose|k: int| 0 <= k < r@.len() && r@[k] == o;
                            if k < prev.len() {
                                assert(prev[k] == o);
                                assert(prev.contains(o));
                            } else {
                                assert(self.data@[i as int].edge == o);
                            }
                        }
                        if exists|j: int| 0 <= j < i + 1 && #[trigger] self.data@[j].edge == o && o.start == vertex {
                            if o != e {
                                let j = choose|j: int| 0 <= j < i + 1 && #[trigger] self.data@[j].edge == o && o.start == vertex;
                                assert(j != i);
                                assert(prev.contains(o));
                                let k = choose|k: int| 0 <= k < prev.len() && prev[k] == o;
                                assert(r@[k] == o);
                            } else {
                                assert(r@[r@.len() - 1] == o);
                            }
                        }
                    }
                }
            } else {
                proof {
                    assert forall|o: Edge| r@.contains(o) <==> (exists|j: int|
                        0 <= j < i + 1 && #[trigger] self.data@[j].edge == o && o.start == vertex) by {
                        if exists|j: int| 0 <= j < i + 1 && #[trigger] self.data@[j].edge == o && o.start == vertex {
                            let j = choose|j: int| 0 <= j < i + 1 && #[trigger] self.data@[j].edge == o && o.start == vertex;
                            assert(j != i);
                        }
                    }
                }
            }
            i += 1;
        }
        r
    }
    /// The edges that enter `vertex`, in insertion order.
    pub fn incoming_edges(&self, vertex: Id) -> (r: Vec<Edge>)
        requires
            self.wf(),
        ensures
            r@.no_duplicates(),
            forall|e: Edge| r@.contains(e) <==> self.has_edge(e) && e.end == vertex,
    {
        let mut r: Vec<Edge> = Vec::new();
        let mut i: usize = 0;
        while i < self.data.len()
            invariant
                self.wf(),
                i <= self.data@.len(),
                r@.no_duplicates(),
                forall|e: Edge|
                    r@.contains(e) <==> (exists|j: int|
                        0 <= j < i && #[trigger] self.data@[j].edge == e && e.end == vertex),
            decreases self.data@.len() - i,
        {
            let e = self.data[i].edge;
            if e.end == vertex {
                proof {
                    if r@.contains(e) {
                        let j = choose|j: int| 0 <= j < i && #[trigger] self.data@[j].edge == e && e.end == vertex;
                        assert(self.data@[j].edge == self.data@[i as int].edge);
                    }
                }
                let ghost prev = r@;
                r.push(e);
                proof {
                    assert forall|o: Edge| r@.contains(o) <==> (exists|j: int|
                        0 <= j < i + 1 && #[trigger] self.data@[j].edge == o && o.end == vertex) by {
                        if r@.contains(o) {
                            let k = choose|k: int| 0 <= k < r@.len() && r@[k] == o;
                            if k < prev.len() {
                                assert(prev[k] == o);
                                assert(prev.contains(o));
                            } else {
                                assert(self.data@[i as int].edge == o);
                            }
                        }
                        if exists|j: int| 0 <= j < i + 1 && #[trigger] self.data@[j].edge == o && o.end == vertex {
                            if o != e {
                                let j = choose|j: int| 0 <= j < i + 1 && #[trigger] self.data@[j].edge == o && o.end == vertex;
                                assert(j != i);
                                assert(prev.contains(o));
                                let k = choose|k: int| 0 <= k < prev.len() && prev[k] == o;
                                assert(r@[k] == o);
                            } else {
                                assert(r@[r@.len() - 1] == o);
                            }
                        }
                    }
                }
            } else {
                proof {
                    assert forall|o: Edge| r@.contains(o) <==> (exists|j: int|
                        0 <= j < i + 1 && #[trigger] self.data@[j].edge == o && o.end == vertex) by {
                        if exists|j: int| 0 <= j < i + 1 && #[trigger] self.data@[j].edge == o && o.end == vertex {
                            let j = choose|j: int| 0 <= j < i + 1 && #[trigger] self.data@[j].edge == o && o.end == vertex;
                            assert(j != i);
                        }
                    }
                }
            }
            i += 1;
        }
        r
    }

    /// Every edge with its flow, in insertion order.
    pub fn flows(&self) -> (r: Vec<(Edge, Flow)>)
        ensures
            r@.len() == self.edge_seq().len(),
            forall|i: int|
                0 <= i < r@.len() ==> #[trigger] r@[i] == (self.edge_seq()[i].edge, self.edge_seq()[i].flow),
    {
        let mut r: Vec<(Edge, Flow)> = Vec::new();
        let mut i: usize = 0;
        while i < self.data.len()
            invariant
                i <= self.data@.len(),
                r@.len() == i,
                forall|j: int| 0 <= j < i ==> #[trigger] r@[j] == (self.data@[j].edge, self.data@[j].flow),
            decreases self.data@.len() - i,
        {
            r.push((self.data[i].edge, self.data[i].flow));
            i += 1;
        }
        r
    }

    /// Every edge with its capacity, in insertion order.
    pub fn capacities(&self) -> (r: Vec<(Edge, Flow)>)
        ensures
            r@.len() == self.edge_seq().len(),
            forall|i: int|
                0 <= i < r@.len() ==> #[trigger] r@[i] == (self.edge_seq()[i].edge, self.edge_seq()[i].capacity),
    {
        let mut r: Vec<(Edge, Flow)> = Vec::new();
        let mut i: usize = 0;
        while i < self.data.len()
            invariant
                i <= self.data@.len(),
                r@.len() == i,
                forall|j: int| 0 <= j < i ==> #[trigger] r@[j] == (self.data@[j].edge, self.data@[j].capacity),
            decreases self.data@.len() - i,
        {
            r.push((self.data[i].edge, self.data[i].capacity));
            i += 1;
        }
        r
    }

    /// Flow on `e`; 0 where the edge is absent.
    pub fn flow(&self, e: Edge) -> (r: Flow)
        requires
            self.wf(),
        ensures
            r == self.spec_flow(e),
    {
        match self.position(e) {
            Some(i) => self.data[i].flow,
            None => 0,
        }
    }

    /// Capacity of `e`; 0 where the edge is absent.
    pub fn capacity(&self, e: Edge) -> (r: Flow)
        requires
            self.wf(),
        ensures
            r == self.spec_capacity(e),
    {
        match self.position(e) {
            Some(i) => self.data[i].capacity,
            None => 0,
        }
    }

    /// Capacity left on `e`: its capacity less its flow, and never below 0.
    pub fn available_capacity(&self, e: Edge) -> (r: Flow)
        requires
            self.wf(),
        ensures
            r == if self.spec_flow(e) >= self.spec_capacity(e) {
                0
            } else {
                self.spec_capacity(e) - self.spec_flow(e)
            },
    {
        let capacity = self.capacity(e);
        let flow = self.flow(e);
        if flow >= capacity {
            0
        } else {
            capacity - flow
        }
    }

    /// Sets the flow on a present edge, within its capacity.
    pub fn set_flow(&mut self, e: Edge, flow: Flow)
        requires
            old(self).wf(),
            old(self).has_edge(e),
            flow <= old(self).spec_capacity(e),
        ensures
            final(self).wf(),
            final(self).spec_source() == old(self).spec_source(),
            final(self).spec_sink() == old(self).spec_sink(),
            final(self).edge_seq() == old(self).edge_seq().update(
                old(self).index_of(e),
                EdgeData { flow, ..old(self).edge_seq()[old(self).index_of(e)] },
            ),
            final(self).spec_flow(e) == flow,
            final(self).edge_set() == old(self).edge_set(),
            forall|o: Edge|
                #![trigger final(self).spec_capacity(o)]
                #![trigger final(self).spec_flow(o)]
                final(self).spec_capacity(o) == old(self).spec_capacity(o) && (o != e
                    ==> final(self).spec_flow(o) == old(self).spec_flow(o)),
    {
        let ghost pre = *self;
        let i = self.position(e).unwrap();
        self.set_flow_at(i, flow);
        proof {
            self.lemma_entry(i as int);
            assert forall|o: Edge|
                #![trigger self.spec_capacity(o)]
                #![trigger self.spec_flow(o)]
                self.spec_capacity(o) == pre.spec_capacity(o) && (o != e ==> self.spec_flow(o)
                    == pre.spec_flow(o)) by {
                if pre.has_edge(o) {
                    let k = pre.index_of(o);
                    pre.lemma_entry(k);
                    self.lemma_entry(k);
                } else if self.has_edge(o) {
                    let k = self.index_of(o);
                    assert(pre.edge_seq()[k].edge == o);
                }
            }
            assert forall|o: Edge| self.edge_set().contains(o) <==> pre.edge_set().contains(o) by {
                if self.has_edge(o) {
                    let k = self.index_of(o);
                    assert(pre.edge_seq()[k].edge == o);
                }
                if pre.has_edge(o) {
                    let k = pre.index_of(o);
                    assert(self.edge_seq()[k].edge == o);
                }
            }
            assert(self.edge_set() =~= pre.edge_set());
        }
    }

    /// Total flow on the edges that leave `v`.
    pub fn total_out(&self, v: Id) -> (r: u128)
        ensures
            r == self.out_flow(v),
    {
        let mut acc: u128 = 0;
        let mut i: usize = 0;
        while i < self.data.len()
            invariant
                i <= self.data@.len(),
                acc == sum_out(self.data@.subrange(0, i as int), v),
            decreases self.data@.len() - i,
        {
            proof {
                let t = self.data@.subrange(0, i + 1);
                assert(t.drop_last() =~= self.data@.subrange(0, i as int));
                lemma_sum_bounds(self.data@.subrange(0, i as int), v);
                assert(i * 65535 <= u64::MAX * 65535) by (nonlinear_arith)
                    requires i <= u64::MAX;
            }
            if self.data[i].edge.start == v {
                acc = acc + self.data[i].flow as u128;
            }
            i += 1;
        }
        proof {
            assert(self.data@.subrange(0, self.data@.len() as int) =~= self.data@);
        }
        acc
    }

    /// Total flow on the edges that enter `v`.
    pub fn total_in(&self, v: Id) -> (r: u128)
        ensures
            r == self.in_flow(v),
    {
        let mut acc: u128 = 0;
        let mut i: usize = 0;
        while i < self.data.len()
            invariant
                i <= self.data@.len(),
                acc == sum_in(self.data@.subrange(0, i as int), v),
            decreases self.data@.len() - i,
        {
            proof {
                let t = self.data@.subrange(0, i + 1);
                assert(t.drop_last() =~= self.data@.subrange(0, i as int));
                lemma_sum_bounds(self.data@.subrange(0, i as int), v);
                assert(i * 65535 <= u64::MAX * 65535) by (nonlinear_arith)
                    requires i <= u64::MAX;
            }
            if self.data[i].edge.end == v {
                acc = acc + self.data[i].flow as u128;
            }
            i += 1;
        }
        proof {
            assert(self.data@.subrange(0, self.data@.len() as int) =~= self.data@);
        }
        acc
    }

    /// Checks capacities on every edge, conservation at every vertex but source and sink, and,
    /// where a total is given, that the source sends and the sink receives exactly that total.
    pub fn validate(&self, expected_total_flow: Option<Flow>) -> (r: Result<(), FlowError>)
        ensures
            r is Ok <==> self.within_capacity() && self.conserves_flow() && (
            expected_total_flow is Some ==> self.out_flow(self.spec_source())
                == expected_total_flow->0 as int && self.in_flow(self.spec_sink())
                == expected_total_flow->0 as int),
            (r matches Err(FlowError::ExceedsCapacity { .. })) <==> !self.within_capacity(),
            (r matches Err(FlowError::Unbalanced { .. })) <==> self.within_capacity()
                && !self.conserves_flow(),
            (r matches Err(FlowError::SourceMismatch { .. })) <==> self.within_capacity()
                && self.conserves_flow() && expected_total_flow is Some && self.out_flow(
                self.spec_source(),
            ) != expected_total_flow->0 as int,
            (r matches Err(FlowError::SinkMismatch { .. })) <==> self.within_capacity()
                && self.conserves_flow() && expected_total_flow is Some && self.out_flow(
                self.spec_source(),
            ) == expected_total_flow->0 as int && self.in_flow(self.spec_sink())
                != expected_total_flow->0 as int,
    {
        let mut i: usize = 0;
        while i < self.data.len()
            invariant
                i <= self.data@.len(),
                forall|j: int| 0 <= j < i ==> #[trigger] self.data@[j].flow <= self.data@[j].capacity,
            decreases self.data@.len() - i,
        {
            let d = self.data[i];
            if d.flow > d.capacity {
                assert(self.edge_seq()[i as int] == d);
                return Err(FlowError::ExceedsCapacity { edge: d.edge, flow: d.flow, capacity: d.capacity });
            }
            i += 1;
        }
        let mut i: usize = 0;
        while i < self.data.len()
            invariant
                self.within_capacity(),
                i <= self.data@.len(),
                forall|j: int|
                    0 <= j < i ==> self.balanced_at(#[trigger] self.data@[j].edge.start)
                        && self.balanced_at(self.data@[j].edge.end),
            decreases self.data@.len() - i,
        {
            let d = self.data[i];
            let a = d.edge.start;
            if a != self.source && a != self.sink {
                let incoming = self.total_in(a);
                let outgoing = self.total_out(a);
                if incoming != outgoing {
                    return Err(FlowError::Unbalanced { vertex: a, incoming, outgoing });
                }
            }
            let b = d.edge.end;
            if b != self.source && b != self.sink {
                let incoming = self.total_in(b);
                let outgoing = self.total_out(b);
                if incoming != outgoing {
                    return Err(FlowError::Unbalanced { vertex: b, incoming, outgoing });
                }
            }
            assert(self.balanced_at(a) && self.balanced_at(b));
            assert(self.data@[i as int] == d);
            assert forall|j: int| 0 <= j < i + 1 implies self.balanced_at(#[trigger] self.data@[j].edge.start)
                && self.balanced_at(self.data@[j].edge.end) by {
                if j < i {
                    assert(self.balanced_at(self.data@[j].edge.start));
                }
            }
            i += 1;
        }
        proof {
            assert forall|v: Id| v != self.spec_source() && v != self.spec_sink() implies #[trigger] self.in_flow(v)
                == self.out_flow(v) by {
                lemma_sum_absent(self.data@, v);
                if exists|j: int| 0 <= j < self.data@.len() && #[trigger] self.data@[j].edge.start == v {
                    let j = choose|j: int| 0 <= j < self.data@.len() && #[trigger] self.data@[j].edge.start == v;
                    assert(self.balanced_at(self.data@[j].edge.start));
                } else if exists|j: int| 0 <= j < self.data@.len() && #[trigger] self.data@[j].edge.end == v {
                    let j = choose|j: int| 0 <= j < self.data@.len() && #[trigger] self.data@[j].edge.end == v;
                    assert(self.balanced_at(self.data@[j].edge.start));
                    assert(self.balanced_at(self.data@[j].edge.end));
                }
            }
        }
        if let Some(total) = expected_total_flow {
            let source_flow = self.total_out(self.source);
            if source_flow != total as u128 {
                return Err(FlowError::SourceMismatch { source_flow, total });
            }
            let sink_flow = self.total_in(self.sink);
            if sink_flow != total as u128 {
                return Err(FlowError::SinkMismatch { sink_flow, total });
            }
        }
        Ok(())
    }
}

} // verus!
