//! Per-date graphs: one node per county, one node per state with the state's
//! totals and an edge to each of its counties.

use vstd::prelude::*;
use crate::aggregate::{fits_i64, CountyAggregate, DateBucket};
use crate::timestamp::{day_timestamp, rfc3339_of, SECS_PER_DAY, TIMESTAMP_DAY_RANGE};

verus! {

/// A metric carried by a node.
#[derive(Clone, Copy, Debug, PartialEq, Eq, Structural)]
pub enum Metric {
    Confirmed,
    Deaths,
}

/// A node of a graph. A county node carries its display name; a state node
/// carries edges to its counties' keys.
#[derive(Debug)]
pub struct Node {
    pub name: String,
    pub confirmed: Option<i64>,
    pub deaths: Option<i64>,
    /// Names of the nodes this node points to, without repetition.
    pub edges: Vec<String>,
    pub display_name: Option<String>,
}

/// A graph of one date, stamped with the date's canonical timestamp.
#[derive(Debug)]
pub struct Graph {
    pub timestamp: String,
    pub nodes: Vec<Node>,
}

/// The value a node holds for a metric, if any.
pub open spec fn metric_of(n: Node, m: Metric) -> Option<i64> {
    match m {
        Metric::Confirmed => n.confirmed,
        Metric::Deaths => n.deaths,
    }
}

/// The node holds exactly `v` for the metric.
pub open spec fn metric_is(n: Node, m: Metric, v: int) -> bool {
    match metric_of(n, m) {
        Some(x) => x as int == v,
        None => false,
    }
}

/// The set of names a node points to.
pub open spec fn edge_set(n: Node) -> Set<Seq<char>> {
    Set::new(|k: Seq<char>| exists|i: int| 0 <= i < n.edges.len() && (#[trigger] n.edges@[i])@ == k)
}

/// No name occurs twice among a node's edges.
pub open spec fn edges_distinct(n: Node) -> bool {
    forall|i: int, j: int| 0 <= i < j < n.edges.len() ==> (#[trigger] n.edges@[i])@ != (#[trigger] n.edges@[j])@
}

/// The name of a county's node: its state and its name, joined by `" - "`.
pub open spec fn county_key(state: Seq<char>, county: Seq<char>) -> Seq<char> {
    state + " - "@ + county
}

impl Node {
    /// A node with the given name, no metrics, no edges and no display name.
    pub fn named(name: String) -> (n: Node)
        ensures
            n.name == name,
            n.confirmed is None,
            n.deaths is None,
            n.edges@.len() == 0,
            n.display_name is None,
    {
        Node { name, confirmed: None, deaths: None, edges: Vec::new(), display_name: None }
    }

    /// Adds `v` to a metric, which starts from zero when absent.
    pub fn add_metric(&mut self, m: Metric, v: i64)
        requires
            i64::MIN <= (match metric_of(*old(self), m) {
                Some(x) => x as int,
                None => 0,
            }) + v <= i64::MAX,
        ensures
            metric_of(*final(self), m) == Some(
                ((match metric_of(*old(self), m) {
                    Some(x) => x as int,
                    None => 0,
                }) + v) as i64,
            ),
            m == Metric::Confirmed ==> final(self).deaths == old(self).deaths,
            m == Metric::Deaths ==> final(self).confirmed == old(self).confirmed,
            final(self).name == old(self).name,
            final(self).edges == old(self).edges,
            final(self).display_name == old(self).display_name,
    {
        match m {
            Metric::Confirmed => {
                let cur: i64 = match self.confirmed {
                    Some(x) => x,
                    None => 0,
                };
                self.confirmed = Some(cur + v);
            },
            Metric::Deaths => {
                let cur: i64 = match self.deaths {
                    Some(x) => x,
                    None => 0,
                };
                self.deaths = Some(cur + v);
            },
        }
    }

    /// Adds an edge to the named node unless it is already there.
    pub fn add_edge(&mut self, target: String)
        ensures
            edges_distinct(*old(self)) ==> edges_distinct(*final(self)),
            edge_set(*final(self)) == edge_set(*old(self)).insert(target@),
            final(self).name == old(self).name,
            final(self).confirmed == old(self).confirmed,
            final(self).deaths == old(self).deaths,
            final(self).display_name == old(self).display_name,
    {
        let ghost pre = *self;
        let mut i: usize = 0;
        while i < self.edges.len()
            invariant
                i <= self.edges.len(),
                *self == pre,
                forall|j: int| 0 <= j < i ==> (#[trigger] self.edges@[j])@ != target@,
            decreases self.edges.len() - i,
        {
            if self.edges[i] == target {
                assert(edge_set(pre).insert(target@) =~= edge_set(pre));
                return;
            }
            i += 1;
        }
        self.edges.push(target);
        proof {
            let e = self.edges@;
            assert forall|k: Seq<char>| #[trigger] edge_set(*self).contains(k) == edge_set(pre).insert(target@).contains(k) by {
                if edge_set(pre).contains(k) {
                    let j = choose|j: int| 0 <= j < pre.edges.len() && (#[trigger] pre.edges@[j])@ == k;
                    assert(e[j] == pre.edges@[j]);
                }
                if k == target@ {
                    assert(e[pre.edges.len() as int]@ == k);
                }
                if edge_set(*self).contains(k) && k != target@ {
                    let j = choose|j: int| 0 <= j < e.len() && (#[trigger] e[j])@ == k;
                    assert(pre.edges@[j] == e[j]);
                }
            }
            assert(edge_set(*self) =~= edge_set(pre).insert(target@));
        }
    }
}


/// The value of a county's metric.
pub open spec fn county_metric(c: CountyAggregate, m: Metric) -> int {
    match m {
        Metric::Confirmed => c.confirmed as int,
        Metric::Deaths => c.deaths as int,
    }
}

/// The sum of a metric over the counties of a state.
pub open spec fn state_total(s: Seq<CountyAggregate>, st: Seq<char>, m: Metric) -> int
    decreases s.len(),
{
    if s.len() == 0 {
        0
    } else {
        state_total(s.drop_last(), st, m) + if s.last().state@ == st {
            county_metric(s.last(), m)
        } else {
            0
        }
    }
}

/// Some county of the sequence lies in the state.
pub open spec fn in_state(s: Seq<CountyAggregate>, st: Seq<char>) -> bool {
    exists|j: int| 0 <= j < s.len() && (#[trigger] s[j]).state@ == st
}

/// The keys of the counties of a state.
pub open spec fn state_members(s: Seq<CountyAggregate>, st: Seq<char>) -> Set<Seq<char>> {
    Set::new(
        |k: Seq<char>|
            exists|j: int|
                0 <= j < s.len() && (#[trigger] s[j]).state@ == st && county_key(s[j].state@, s[j].display_name@)
                    == k,
    )
}

/// `n` is the node of county `c`: named by its key, carrying its metrics and its
/// display name, with no edges.
pub open spec fn is_county_node(n: Node, c: CountyAggregate) -> bool {
    &&& n.name@ == county_key(c.state@, c.display_name@)
    &&& metric_is(n, Metric::Confirmed, c.confirmed as int)
    &&& metric_is(n, Metric::Deaths, c.deaths as int)
    &&& n.edges.len() == 0
    &&& match n.display_name {
        Some(d) => d@ == c.display_name@,
        None => false,
    }
}

/// `n` is the node of a state of `s`: its metrics are the sums over the state's
/// counties, and its edges are exactly those counties' keys.
pub open spec fn is_state_node(n: Node, s: Seq<CountyAggregate>) -> bool {
    &&& in_state(s, n.name@)
    &&& metric_is(n, Metric::Confirmed, state_total(s, n.name@, Metric::Confirmed))
    &&& metric_is(n, Metric::Deaths, state_total(s, n.name@, Metric::Deaths))
    &&& edge_set(n) == state_members(s, n.name@)
    &&& edges_distinct(n)
    &&& n.display_name is None
}

/// `t` holds exactly one state node for each state of `s`.
pub open spec fn state_nodes_of(t: Seq<Node>, s: Seq<CountyAggregate>) -> bool {
    &&& forall|x: int| 0 <= x < t.len() ==> is_state_node(#[trigger] t[x], s)
    &&& forall|x: int, y: int| 0 <= x < y < t.len() ==> (#[trigger] t[x]).name@ != (#[trigger] t[y]).name@
    &&& forall|j: int| 0 <= j < s.len() ==> exists|x: int| 0 <= x < t.len() && (#[trigger] t[x]).name@ == (#[trigger] s[j]).state@
}

/// `g` is the graph of counties `s` stamped `ts`: the county nodes in the order of
/// `s`, followed by one state node per state.
pub open spec fn is_graph_of(g: Graph, ts: Seq<char>, s: Seq<CountyAggregate>) -> bool {
    &&& g.timestamp@ == ts
    &&& s.len() <= g.nodes.len()
    &&& forall|i: int| 0 <= i < s.len() ==> is_county_node(#[trigger] g.nodes@[i], s[i])
    &&& state_nodes_of(g.nodes@.subrange(s.len() as int, g.nodes.len() as int), s)
}

proof fn lemma_state_push(s: Seq<CountyAggregate>, c: CountyAggregate, st: Seq<char>, m: Metric)
    ensures
        state_total(s.push(c), st, m) == state_total(s, st, m) + if c.state@ == st { county_metric(c, m) } else { 0 },
        in_state(s.push(c), st) == (in_state(s, st) || c.state@ == st),
        state_members(s.push(c), st) == if c.state@ == st {
            state_members(s, st).insert(county_key(c.state@, c.display_name@))
        } else {
            state_members(s, st)
        },
{
    let t = s.push(c);
    assert(t.drop_last() =~= s);
    assert(t[s.len() as int] == c);
    if in_state(s, st) {
        let j = choose|j: int| 0 <= j < s.len() && (#[trigger] s[j]).state@ == st;
        assert(t[j] == s[j]);
    }
    if in_state(t, st) && c.state@ != st {
        let j = choose|j: int| 0 <= j < t.len() && (#[trigger] t[j]).state@ == st;
        assert(s[j] == t[j]);
    }
    let want = if c.state@ == st {
        state_members(s, st).insert(county_key(c.state@, c.display_name@))
    } else {
        state_members(s, st)
    };
    assert forall|k: Seq<char>| #[trigger] state_members(t, st).contains(k) == want.contains(k) by {
        if state_members(s, st).contains(k) {
            let j = choose|j: int|
                0 <= j < s.len() && (#[trigger] s[j]).state@ == st && county_key(s[j].state@, s[j].display_name@) == k;
            assert(t[j] == s[j]);
        }
        if state_members(t, st).contains(k) {
            let j = choose|j: int|
                0 <= j < t.len() && (#[trigger] t[j]).state@ == st && county_key(t[j].state@, t[j].display_name@) == k;
            if j < s.len() {
                assert(s[j] == t[j]);
            }
        }
    }
    assert(state_members(t, st) =~= want);
}

/// Every state total fits in an `i64` after each county of a pass over `s`.
pub open spec fn state_totals_fit(s: Seq<CountyAggregate>) -> bool {
    forall|i: int, st: Seq<char>, m: Metric|
        0 <= i <= s.len() ==> fits_i64(#[trigger] state_total(s.take(i), st, m))
}

proof fn lemma_state_totals_fit(t: Seq<Node>, s: Seq<CountyAggregate>)
    requires
        state_nodes_of(t, s),
    ensures
        forall|st: Seq<char>, m: Metric| fits_i64(#[trigger] state_total(s, st, m)),
{
    assert forall|st: Seq<char>, m: Metric| fits_i64(#[trigger] state_total(s, st, m)) by {
        if in_state(s, st) {
            let j = choose|j: int| 0 <= j < s.len() && (#[trigger] s[j]).state@ == st;
            let x = choose|x: int| 0 <= x < t.len() && (#[trigger] t[x]).name@ == (#[trigger] s[j]).state@;
            assert(is_state_node(t[x], s));
        } else {
            lemma_total_absent(s, st, m);
        }
    }
}

/// The index of the node with the given name, if any.
fn find_node(t: &Vec<Node>, name: &String) -> (r: Option<usize>)
    ensures
        match r {
            Some(x) => x < t.len() && t@[x as int].name@ == name@,
            None => forall|x: int| 0 <= x < t.len() ==> (#[trigger] t@[x]).name@ != name@,
        },
{
    let mut i: usize = 0;
    while i < t.len()
        invariant
            i <= t.len(),
            forall|x: int| 0 <= x < i ==> (#[trigger] t@[x]).name@ != name@,
        decreases t.len() - i,
    {
        if t[i].name == *name {
            return Some(i);
        }
        i += 1;
    }
    None
}

/// The key of a county: its state and its name joined by `" - "`.
pub fn county_key_of(state: &String, county: &String) -> (k: String)
    ensures
        k@ == county_key(state@, county@),
{
    let mut k = state.clone();
    k.append(" - ");
    k.append(county.as_str());
    proof {
        reveal_strlit(" - ");
    }
    k
}


/// Builds the graph of one date's counties, as `build_graph` does, or gives `None`
/// exactly when some state total would leave the `i64` range during the pass.
pub fn try_build_graph(timestamp: String, counties: &Vec<CountyAggregate>) -> (r: Option<Graph>)
    ensures
        r is Some == state_totals_fit(counties@),
        match r {
            Some(g) => is_graph_of(g, timestamp@, counties@),
            None => true,
        },
{
    let ghost s = counties@;
    let mut nodes: Vec<Node> = Vec::new();
    let mut states: Vec<Node> = Vec::new();
    let mut i: usize = 0;
    while i < counties.len()
        invariant
            i <= counties.len(),
            s == counties@,
            forall|j: int, st: Seq<char>, m: Metric|
                0 <= j <= i ==> fits_i64(#[trigger] state_total(s.take(j), st, m)),
            nodes.len() == i,
            forall|x: int| 0 <= x < i ==> is_county_node(#[trigger] nodes@[x], s[x]),
            state_nodes_of(states@, s.take(i as int)),
        decreases counties.len() - i,
    {
        let c = &counties[i];
        let ghost s0 = s.take(i as int);
        let ghost s1 = s.take(i + 1);
        let ghost st = c.state@;
        let ghost t0 = states@;
        let key = county_key_of(&c.state, &c.display_name);
        nodes.push(
            Node {
                name: key.clone(),
                confirmed: Some(c.confirmed),
                deaths: Some(c.deaths),
                edges: Vec::new(),
                display_name: Some(c.display_name.clone()),
            },
        );
        proof {
            assert(s1 =~= s0.push(*c));
            lemma_state_push(s0, *c, st, Metric::Confirmed);
            lemma_state_push(s0, *c, st, Metric::Deaths);
        }
        let idx = find_node(&states, &c.state);
        let mut node = match idx {
            Some(x) => states.remove(x),
            None => Node::named(c.state.clone()),
        };
        proof {
            match idx {
                Some(x) => {
                    assert(node == t0[x as int]);
                    assert(is_state_node(t0[x as int], s0));
                },
                None => {
                    assert(!in_state(s0, st)) by {
                        if in_state(s0, st) {
                            let j = choose|j: int| 0 <= j < s0.len() && (#[trigger] s0[j]).state@ == st;
                            let x = choose|x: int| 0 <= x < t0.len() && (#[trigger] t0[x]).name@ == (#[trigger] s0[j]).state@;
                        }
                    }
                    assert(state_total(s0, st, Metric::Confirmed) == 0) by {
                        lemma_total_absent(s0, st, Metric::Confirmed);
                    }
                    assert(state_total(s0, st, Metric::Deaths) == 0) by {
                        lemma_total_absent(s0, st, Metric::Deaths);
                    }
                    assert(state_members(s0, st) =~= Set::empty());
                    assert(edge_set(node) =~= Set::empty());
                },
            }
        }
        let cur_c: i64 = match node.confirmed {
            Some(v) => v,
            None => 0,
        };
        let cur_d: i64 = match node.deaths {
            Some(v) => v,
            None => 0,
        };
        if cur_c.checked_add(c.confirmed).is_none() || cur_d.checked_add(c.deaths).is_none() {
            proof {
                assert(!fits_i64(state_total(s.take(i + 1), st, Metric::Confirmed))
                    || !fits_i64(state_total(s.take(i + 1), st, Metric::Deaths)));
            }
            return None;
        }
        node.add_metric(Metric::Confirmed, c.confirmed);
        node.add_metric(Metric::Deaths, c.deaths);
        node.add_edge(key);
        proof {
            assert(is_state_node(node, s1));
        }
        match idx {
            Some(x) => {
                states.insert(x, node);
                proof {
                    let t1 = states@;
                    assert(t1 =~= t0.update(x as int, node));
                    assert forall|y: int| 0 <= y < t1.len() implies is_state_node(#[trigger] t1[y], s1) by {
                        if y != x {
                            assert(t1[y] == t0[y]);
                            assert(is_state_node(t0[y], s0));
                            assert(t0[y].name@ != t0[x as int].name@);
                            lemma_state_push(s0, *c, t0[y].name@, Metric::Confirmed);
                            lemma_state_push(s0, *c, t0[y].name@, Metric::Deaths);
                        }
                    }
                    assert forall|j: int| 0 <= j < s1.len() implies exists|y: int| 0 <= y < t1.len() && (#[trigger] t1[y]).name@ == (#[trigger] s1[j]).state@ by {
                        if j < s0.len() {
                            assert(s1[j] == s0[j]);
                            let y = choose|y: int| 0 <= y < t0.len() && (#[trigger] t0[y]).name@ == (#[trigger] s0[j]).state@;
                            assert(t1[y].name@ == t0[y].name@);
                        } else {
                            assert(t1[x as int].name@ == s1[j].state@);
                        }
                    }
                    assert forall|a: int, b: int| 0 <= a < b < t1.len() implies (#[trigger] t1[a]).name@ != (#[trigger] t1[b]).name@ by {
                        assert(t0[a].name@ != t0[b].name@);
                    }
                }
            },
            None => {
                states.push(node);
                proof {
                    let t1 = states@;
                    assert(t1 =~= t0.push(node));
                    assert forall|y: int| 0 <= y < t1.len() implies is_state_node(#[trigger] t1[y], s1) by {
                        if y < t0.len() {
                            assert(t1[y] == t0[y]);
                            assert(is_state_node(t0[y], s0));
                            lemma_state_push(s0, *c, t0[y].name@, Metric::Confirmed);
                            lemma_state_push(s0, *c, t0[y].name@, Metric::Deaths);
                        }
                    }
                    assert forall|j: int| 0 <= j < s1.len() implies exists|y: int| 0 <= y < t1.len() && (#[trigger] t1[y]).name@ == (#[trigger] s1[j]).state@ by {
                        if j < s0.len() {
                            assert(s1[j] == s0[j]);
                            let y = choose|y: int| 0 <= y < t0.len() && (#[trigger] t0[y]).name@ == (#[trigger] s0[j]).state@;
                            assert(t1[y] == t0[y]);
                        } else {
                            assert(t1[t0.len() as int].name@ == s1[j].state@);
                        }
                    }
                    assert forall|a: int, b: int| 0 <= a < b < t1.len() implies (#[trigger] t1[a]).name@ != (#[trigger] t1[b]).name@ by {
                        if b < t0.len() {
                            assert(t0[a].name@ != t0[b].name@);
                        } else {
                            assert(t1[a] == t0[a]);
                        }
                    }
                }
            },
        }
        proof {
            lemma_state_totals_fit(states@, s1);
        }
        i += 1;
    }
    let ghost county_nodes = nodes@;
    let ghost state_nodes = states@;
    nodes.append(&mut states);
    proof {
        assert(s.take(s.len() as int) =~= s);
        assert(nodes@.subrange(s.len() as int, nodes@.len() as int) =~= state_nodes);
        assert forall|i: int| 0 <= i < s.len() implies is_county_node(#[trigger] nodes@[i], s[i]) by {
            assert(nodes@[i] == county_nodes[i]);
        }
    }
    Some(Graph { timestamp, nodes })
}

/// Builds the graph of one date's counties: a node per county, in order, then a
/// node per state holding the sums of its counties' metrics and an edge to each of
/// its counties' keys.
pub fn build_graph(timestamp: String, counties: &Vec<CountyAggregate>) -> (g: Graph)
    requires
        state_totals_fit(counties@),
    ensures
        is_graph_of(g, timestamp@, counties@),
{
    match try_build_graph(timestamp, counties) {
        Some(g) => g,
        None => {
            assert(false);
            Graph { timestamp: String::new(), nodes: Vec::new() }
        },
    }
}

proof fn lemma_total_absent(s: Seq<CountyAggregate>, st: Seq<char>, m: Metric)
    requires
        !in_state(s, st),
    ensures
        state_total(s, st, m) == 0,
    decreases s.len(),
{
    if s.len() > 0 {
        assert(s[s.len() - 1].state@ != st);
        assert forall|j: int| 0 <= j < s.drop_last().len() implies (#[trigger] s.drop_last()[j]).state@ != st by {
            assert(s.drop_last()[j] == s[j]);
        }
        lemma_total_absent(s.drop_last(), st, m);
    }
}


/// Whether every state total of the counties fits in an `i64` at each step, the
/// bound under which their graph can be built.
pub fn counties_fit(counties: &Vec<CountyAggregate>) -> (r: bool)
    ensures
        r == state_totals_fit(counties@),
{
    try_build_graph(String::new(), counties).is_some()
}

/// The graph of one date's bucket, stamped with the canonical timestamp of its
/// day, or `None` where that day lies too far from the epoch to have a timestamp.
pub fn graph_for(bucket: &DateBucket) -> (r: Option<Graph>)
    requires
        state_totals_fit(bucket.counties@),
    ensures
        -TIMESTAMP_DAY_RANGE <= bucket.date <= TIMESTAMP_DAY_RANGE ==> r is Some,
        match r {
            Some(g) => is_graph_of(g, rfc3339_of(bucket.date * SECS_PER_DAY), bucket.counties@),
            None => true,
        },
{
    match day_timestamp(bucket.date) {
        Some(ts) => Some(build_graph(ts, &bucket.counties)),
        None => None,
    }
}

/// Counties of the same name in different states get different node names.
pub proof fn lemma_county_key_namespaced(st1: Seq<char>, st2: Seq<char>, county: Seq<char>)
    requires
        st1 != st2,
    ensures
        county_key(st1, county) != county_key(st2, county),
{
    reveal_strlit(" - ");
    let k1 = county_key(st1, county);
    let k2 = county_key(st2, county);
    assert(k1.len() == st1.len() + 3 + county.len());
    assert(k2.len() == st2.len() + 3 + county.len());
    if k1 == k2 {
        assert(st1.len() == st2.len());
        assert(k1.subrange(0, st1.len() as int) =~= st1);
        assert(k2.subrange(0, st2.len() as int) =~= st2);
    }
}

} // verus!
