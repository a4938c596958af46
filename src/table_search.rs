//! The schema graph: tables as nodes, foreign keys as edges labelled
//! `"column:foreign_column"`, with shortest paths, reachability and the join
//! resolver built on them.

use vstd::prelude::*;

use petgraph::graph::Graph;
use petgraph::Undirected;

use crate::catalog::{qualified_name, table_id, ForeignKey, TableSearchInfo};
use crate::graph::{
    add_edge, add_node, connects, edge_weight, find_edge, found_edge, graph_edges, graph_nodes,
    is_walk, lemma_walk_single, new_graph, node_count, node_weight, reachable, shortest_path,
    unit_astar,
};
use crate::graph::{into_labeling, lemma_reachable_symmetric, lemma_reachable_transitive, new_union_find, uf_labels, union};
use crate::text::{
    chars_of, find_from, find_pattern, lemma_concat_contains, lemma_lex_trichotomy, lex_lt,
    slice_chars, sort_unique, str_lt, string_of, strictly_sorted, views, lemma_views,
};

verus! {

/// Why a graph query or a join resolution failed.
#[derive(PartialEq, Debug, Clone)]
pub enum TableSearchError {
    /// No table of the graph has this identifier.
    TableNotFoundInGraph(String),
    /// The attributes' tables do not all lie in one connected component.
    AtributesCantBeJoined,
}

impl TableSearchError {
    /// A description of the failure.
    pub fn message(&self) -> (r: String)
        ensures
            r@ == (match self {
                TableSearchError::TableNotFoundInGraph(t) => "table not found in graph: "@ + t@,
                TableSearchError::AtributesCantBeJoined => "attributes cannot be joined"@,
            }),
    {
        match self {
            TableSearchError::TableNotFoundInGraph(t) => {
                let mut r = String::from_str("table not found in graph: ");
                r.append(t.as_str());
                r
            },
            TableSearchError::AtributesCantBeJoined => String::from_str("attributes cannot be joined"),
        }
    }
}

/// The schema graph of a catalog.
pub struct TableSearch {
    table_search_graph: Graph<String, String, Undirected>,
}

/// The first index of `x` in `s`, at or after `i`.
pub open spec fn position_from(s: Seq<Seq<char>>, x: Seq<char>, i: int) -> Option<nat>
    decreases s.len() - i,
{
    if i < 0 || i >= s.len() {
        None
    } else if s[i] == x {
        Some(i as nat)
    } else {
        position_from(s, x, i + 1)
    }
}

/// The first index of `x` in `s`.
pub open spec fn position(s: Seq<Seq<char>>, x: Seq<char>) -> Option<nat> {
    position_from(s, x, 0)
}

proof fn lemma_position_from(s: Seq<Seq<char>>, x: Seq<char>, i: int)
    requires
        0 <= i,
    ensures
        position_from(s, x, i) matches Some(k) ==> i <= k < s.len() && s[k as int] == x,
        position_from(s, x, i) is None ==> forall|j: int| i <= j < s.len() ==> s[j] != x,
    decreases s.len() - i,
{
    if i < s.len() && s[i] != x {
        lemma_position_from(s, x, i + 1);
    }
}

/// The identifiers of the given tables, in order.
pub open spec fn table_ids(tables: Seq<TableSearchInfo>) -> Seq<Seq<char>> {
    tables.map_values(|t: TableSearchInfo| table_id(t.schema@, t.name@))
}

/// The label of the edge a foreign key becomes.
pub open spec fn fk_label(fk: ForeignKey) -> Seq<char> {
    fk.attribute_name@ + seq![':'] + fk.attribute_name_foreign@
}

/// Both endpoints of the foreign key name one of the tables.
pub open spec fn fk_resolves(ids: Seq<Seq<char>>, fk: ForeignKey) -> bool {
    position(ids, table_id(fk.schema_name@, fk.table_name@)) is Some && position(
        ids,
        table_id(fk.schema_name_foreign@, fk.table_name_foreign@),
    ) is Some
}

/// The edge a foreign key becomes.
pub open spec fn fk_edge(ids: Seq<Seq<char>>, fk: ForeignKey) -> (nat, nat, Seq<char>) {
    (
        position(ids, table_id(fk.schema_name@, fk.table_name@))->Some_0,
        position(ids, table_id(fk.schema_name_foreign@, fk.table_name_foreign@))->Some_0,
        fk_label(fk),
    )
}

/// The tables along the nodes of a path.
pub open spec fn path_tables(nodes: Seq<Seq<char>>, p: Seq<nat>) -> Seq<Seq<char>> {
    p.map_values(|i: nat| nodes[i as int])
}

/// The labels of the edges `find_edge` reports between consecutive nodes of a path.
pub open spec fn path_labels(edges: Seq<(nat, nat, Seq<char>)>, p: Seq<nat>) -> Seq<Seq<char>> {
    Seq::new(
        (p.len() - 1) as nat,
        |k: int| edges[found_edge(edges, p[k], p[k + 1])->Some_0 as int].2,
    )
}

/// The tables and edge labels of the path that the shortest-path search
/// reports between two nodes; both empty where there is none.
pub open spec fn route(
    nodes: Seq<Seq<char>>,
    edges: Seq<(nat, nat, Seq<char>)>,
    a: nat,
    b: nat,
) -> (Seq<Seq<char>>, Seq<Seq<char>>) {
    match unit_astar(nodes.len(), edges, a, b) {
        Some(p) => (path_tables(nodes, p), path_labels(edges, p)),
        None => (Seq::empty(), Seq::empty()),
    }
}

/// The `schema.table` part of an attribute `schema.table.column`: all before
/// its second period, or the whole text where it has fewer.
pub open spec fn table_of(a: Seq<char>) -> Seq<char> {
    match find_from(a, seq!['.'], 0) {
        Some(dot_a) => match find_from(a, seq!['.'], dot_a + 1) {
            Some(dot_b) => a.subrange(0, dot_b),
            None => a,
        },
        None => a,
    }
}

/// The table part of each attribute.
pub open spec fn tables_of(attrs: Seq<Seq<char>>) -> Seq<Seq<char>> {
    Seq::new(attrs.len(), |m: int| table_of(attrs[m]))
}

/// The two columns of an edge label `"c1:c2"`, split at its first colon.
pub open spec fn split_label(l: Seq<char>) -> (Seq<char>, Seq<char>) {
    match find_from(l, seq![':'], 0) {
        Some(p) => (l.subrange(0, p), l.subrange(p + 1, l.len() as int)),
        None => (l, Seq::empty()),
    }
}

/// `"{min}:{max}"` of two columns, in lexicographic order.
pub open spec fn canonical_pair(x: Seq<char>, y: Seq<char>) -> Seq<char> {
    if lex_lt(y, x) {
        y + seq![':'] + x
    } else {
        x + seq![':'] + y
    }
}

/// The join predicate of the `k`-th hop of a path with tables `ts` and edge
/// labels `ls`: `ts[k].c1` paired with `ts[k + 1].c2`.
pub open spec fn hop_predicate(ts: Seq<Seq<char>>, ls: Seq<Seq<char>>, k: int) -> Seq<char> {
    canonical_pair(
        table_id(ts[k], split_label(ls[k]).0),
        table_id(ts[k + 1], split_label(ls[k]).1),
    )
}

/// The join predicates of every hop of a path.
pub open spec fn hop_predicates(ts: Seq<Seq<char>>, ls: Seq<Seq<char>>) -> Seq<Seq<char>> {
    Seq::new(ls.len(), |k: int| hop_predicate(ts, ls, k))
}

/// A canonical pair reads `a:b` with `a` not after `b`.
pub proof fn lemma_canonical_pair_ordered(x: Seq<char>, y: Seq<char>)
    ensures
        exists|a: Seq<char>, b: Seq<char>|
            canonical_pair(x, y) == a + seq![':'] + b && !lex_lt(b, a),
{
    lemma_lex_trichotomy(x, y);
    if lex_lt(y, x) {
        assert(canonical_pair(x, y) == y + seq![':'] + x && !lex_lt(x, y));
    } else {
        assert(canonical_pair(x, y) == x + seq![':'] + y && !lex_lt(y, x));
    }
}

/// Pair `(a, b)` comes before pair `(i, j)` in the order the resolver visits
/// pairs.
pub open spec fn pair_before(a: int, b: int, i: int, j: int) -> bool {
    0 <= a < b && (a < i || (a == i && b < j))
}

/// Edge `k` of `edges`, as `found_edge` names it, joins `a` and `b`.
pub open spec fn joins(edges: Seq<(nat, nat, Seq<char>)>, f: Option<nat>, a: nat, b: nat) -> bool {
    &&& f is Some
    &&& f->Some_0 < edges.len()
    &&& connects(edges[f->Some_0 as int], a, b)
}

/// `p` is a walk from `a` to `b` with the fewest edges and no node twice,
/// `t` its tables, and each label of `l` the weight of an edge joining
/// consecutive nodes.
pub open spec fn labelled_walk(
    nodes: Seq<Seq<char>>,
    edges: Seq<(nat, nat, Seq<char>)>,
    p: Seq<nat>,
    a: nat,
    b: nat,
    t: Seq<Seq<char>>,
    l: Seq<Seq<char>>,
) -> bool {
    &&& is_walk(nodes.len(), edges, p, a, b)
    &&& forall|q: Seq<nat>| #[trigger] is_walk(nodes.len(), edges, q, a, b) ==> p.len() <= q.len()
    &&& forall|i: int, j: int| 0 <= i < j < p.len() ==> p[i] != p[j]
    &&& t == path_tables(nodes, p)
    &&& l.len() + 1 == p.len()
    &&& forall|i: int|
        #![trigger l[i]]
        0 <= i < l.len() ==> exists|k: int|
            0 <= k < edges.len() && connects(#[trigger] edges[k], p[i], p[i + 1]) && l[i] == edges[k].2
}

/// `label` is the weight of the last edge of `p`, a walk from `o` to `j`
/// with the fewest edges: the edge joining `j` to its parent in a
/// shortest-path tree rooted at `o`.
pub open spec fn tree_edge(
    n: nat,
    edges: Seq<(nat, nat, Seq<char>)>,
    o: nat,
    j: nat,
    p: Seq<nat>,
    e: int,
    label: Seq<char>,
) -> bool {
    &&& is_walk(n, edges, p, o, j)
    &&& forall|q: Seq<nat>| #[trigger] is_walk(n, edges, q, o, j) ==> p.len() <= q.len()
    &&& p.len() >= 2
    &&& 0 <= e < edges.len()
    &&& connects(edges[e], p[p.len() - 2], p[p.len() - 1])
    &&& label == edges[e].2
}

/// The nodes reachable from `o` are `idx`, ascending, with tables `t`; the
/// other reachable nodes are `js`, ascending, and label `l[k]` is the tree
/// edge of `js[k]`, the last edge of the shortest walk `walks[k]`.
pub open spec fn spanning_tree(
    nodes: Seq<Seq<char>>,
    edges: Seq<(nat, nat, Seq<char>)>,
    o: nat,
    idx: Seq<nat>,
    js: Seq<nat>,
    walks: Seq<Seq<nat>>,
    tree: Seq<int>,
    t: Seq<Seq<char>>,
    l: Seq<Seq<char>>,
) -> bool {
    &&& forall|a: int, b: int| 0 <= a < b < idx.len() ==> idx[a] < idx[b]
    &&& forall|a: int| 0 <= a < idx.len() ==> #[trigger] idx[a] < nodes.len()
    &&& forall|j: nat| j < nodes.len() ==> (reachable(nodes.len(), edges, o, j) <==> #[trigger] idx.contains(j))
    &&& t == path_tables(nodes, idx)
    &&& forall|a: int, b: int| 0 <= a < b < js.len() ==> js[a] < js[b]
    &&& forall|j: nat|
        j < nodes.len() ==> (reachable(nodes.len(), edges, o, j) && j != o <==> #[trigger] js.contains(j))
    &&& js.len() == l.len()
    &&& walks.len() == l.len()
    &&& tree.len() == l.len()
    &&& forall|k: int| 0 <= k < l.len() ==> #[trigger] tree_edge(nodes.len(), edges, o, js[k], walks[k], tree[k], l[k])
}

proof fn lemma_push_contains_nat(s: Seq<nat>, x: nat, y: nat)
    ensures
        s.push(x).contains(y) <==> (s.contains(y) || y == x),
{
    if s.contains(y) {
        let q = choose|q: int| 0 <= q < s.len() && s[q] == y;
        assert(s.push(x)[q] == y);
    }
    if y == x {
        assert(s.push(x)[s.len() as int] == y);
    }
    if s.push(x).contains(y) && y != x {
        let q = choose|q: int| 0 <= q < s.push(x).len() && s.push(x)[q] == y;
        assert(s[q] == y);
    }
}

impl TableSearch {
    /// The table identifiers, by node index.
    pub closed spec fn nodes(&self) -> Seq<Seq<char>> {
        graph_nodes(self.table_search_graph)
    }

    /// The edges, by edge index.
    pub closed spec fn edges(&self) -> Seq<(nat, nat, Seq<char>)> {
        graph_edges(self.table_search_graph)
    }

    /// Both tables are in the graph and a path joins them.
    pub open spec fn connected(&self, x: Seq<char>, y: Seq<char>) -> bool {
        &&& position(self.nodes(), x) is Some
        &&& position(self.nodes(), y) is Some
        &&& reachable(
            self.nodes().len(),
            self.edges(),
            position(self.nodes(), x)->Some_0,
            position(self.nodes(), y)->Some_0,
        )
    }

    /// `connected` is symmetric.
    pub proof fn lemma_connected_symmetric(&self, x: Seq<char>, y: Seq<char>)
        requires
            self.connected(x, y),
        ensures
            self.connected(y, x),
    {
        crate::graph::lemma_reachable_symmetric(
            self.nodes().len(),
            self.edges(),
            position(self.nodes(), x)->Some_0,
            position(self.nodes(), y)->Some_0,
        );
    }

    /// `connected` is transitive.
    pub proof fn lemma_connected_transitive(&self, x: Seq<char>, y: Seq<char>, z: Seq<char>)
        requires
            self.connected(x, y),
            self.connected(y, z),
        ensures
            self.connected(x, z),
    {
        crate::graph::lemma_reachable_transitive(
            self.nodes().len(),
            self.edges(),
            position(self.nodes(), x)->Some_0,
            position(self.nodes(), y)->Some_0,
            position(self.nodes(), z)->Some_0,
        );
    }

    /// A table of the graph is connected to itself.
    pub proof fn lemma_connected_reflexive(&self, x: Seq<char>)
        requires
            position(self.nodes(), x) is Some,
        ensures
            self.connected(x, x),
    {
        lemma_position_from(self.nodes(), x, 0);
        lemma_walk_single(self.nodes().len(), self.edges(), position(self.nodes(), x)->Some_0);
    }

    /// What `path_to` returns for two tables of the graph.
    pub open spec fn route_of(&self, x: Seq<char>, y: Seq<char>) -> (Seq<Seq<char>>, Seq<Seq<char>>) {
        route(
            self.nodes(),
            self.edges(),
            position(self.nodes(), x)->Some_0,
            position(self.nodes(), y)->Some_0,
        )
    }

    /// Builds the graph: one node `schema.name` per table, in order, and one
    /// edge per foreign key, labelled `"attribute:attribute_foreign"`.
    pub fn new(tables: Vec<TableSearchInfo>, foreign_keys: Vec<ForeignKey>) -> (r: Self)
        requires
            tables.len() < u32::MAX,
            foreign_keys.len() < u32::MAX,
            forall|k: int|
                0 <= k < foreign_keys.len() ==> fk_resolves(
                    table_ids(tables@),
                    #[trigger] foreign_keys@[k],
                ),
        ensures
            r.nodes() == table_ids(tables@),
            r.edges() == foreign_keys@.map_values(|fk: ForeignKey| fk_edge(table_ids(tables@), fk)),
    {
        let mut g = new_graph();
        let ghost ids = table_ids(tables@);
        let mut i: usize = 0;
        while i < tables.len()
            invariant
                i <= tables.len(),
                tables.len() < u32::MAX,
                ids == table_ids(tables@),
                graph_nodes(g) == ids.subrange(0, i as int),
                graph_edges(g) == Seq::<(nat, nat, Seq<char>)>::empty(),
            decreases tables.len() - i,
        {
            let id = qualified_name(&tables[i].schema, &tables[i].name);
            add_node(&mut g, id);
            assert(ids.subrange(0, i + 1) =~= ids.subrange(0, i as int).push(ids[i as int]));
            i = i + 1;
        }
        assert(ids.subrange(0, tables.len() as int) =~= ids);
        let ts = TableSearch { table_search_graph: g };
        let mut g = ts.table_search_graph;
        let mut k: usize = 0;
        while k < foreign_keys.len()
            invariant
                k <= foreign_keys.len(),
                foreign_keys.len() < u32::MAX,
                ids == table_ids(tables@),
                graph_nodes(g) == ids,
                graph_edges(g) == foreign_keys@.subrange(0, k as int).map_values(
                    |fk: ForeignKey| fk_edge(ids, fk),
                ),
                forall|j: int|
                    0 <= j < foreign_keys.len() ==> fk_resolves(ids, #[trigger] foreign_keys@[j]),
            decreases foreign_keys.len() - k,
        {
            let fk = &foreign_keys[k];
            assert(fk_resolves(ids, foreign_keys@[k as int]));
            let origin = qualified_name(&fk.schema_name, &fk.table_name);
            let foreign = qualified_name(&fk.schema_name_foreign, &fk.table_name_foreign);
            let a = index_in(&g, &origin);
            let b = index_in(&g, &foreign);
            let mut label = fk.attribute_name.clone();
            let colon = String::from_str(":");
            proof {
                reveal_strlit(":");
            }
            label.append(colon.as_str());
            label.append(fk.attribute_name_foreign.as_str());
            assert(label@ =~= fk_label(*fk));
            match (a, b) {
                (Some(a), Some(b)) => {
                    add_edge(&mut g, a, b, label);
                },
                _ => {},
            }
            assert(foreign_keys@.subrange(0, k + 1).map_values(|fk: ForeignKey| fk_edge(ids, fk))
                =~= foreign_keys@.subrange(0, k as int).map_values(
                |fk: ForeignKey| fk_edge(ids, fk),
            ).push(fk_edge(ids, foreign_keys@[k as int])));
            k = k + 1;
        }
        assert(foreign_keys@.subrange(0, foreign_keys.len() as int) =~= foreign_keys@);
        TableSearch { table_search_graph: g }
    }

    /// The shortest path between two tables by edge count: the tables along
    /// it, from `origin` to `destiny`, and the label of each edge taken. Both
    /// are empty where no path exists.
    pub fn path_to(&self, origin: String, destiny: String) -> (r: Result<
        (Vec<String>, Vec<String>),
        TableSearchError,
    >)
        ensures
            match r {
                Ok((t, l)) => {
                    &&& position(self.nodes(), origin@) is Some
                    &&& position(self.nodes(), destiny@) is Some
                    &&& (views(t@), views(l@)) == self.route_of(origin@, destiny@)
                    &&& (t.len() > 0 <==> self.connected(origin@, destiny@))
                    &&& t.len() > 0 ==> l.len() + 1 == t.len() && t@[0]@ == origin@ && t@[t.len()
                        - 1]@ == destiny@
                    &&& origin@ == destiny@ ==> views(t@) == seq![origin@] && l.len() == 0
                    &&& t.len() == 0 ==> l.len() == 0
                    &&& t.len() > 0 ==> exists|p: Seq<nat>|
                        #[trigger] labelled_walk(
                            self.nodes(),
                            self.edges(),
                            p,
                            position(self.nodes(), origin@)->Some_0,
                            position(self.nodes(), destiny@)->Some_0,
                            views(t@),
                            views(l@),
                        )
                },
                Err(TableSearchError::TableNotFoundInGraph(x)) => {
                    ||| position(self.nodes(), origin@) is None && x@ == origin@
                    ||| position(self.nodes(), origin@) is Some && position(self.nodes(), destiny@)
                        is None && x@ == destiny@
                },
                Err(TableSearchError::AtributesCantBeJoined) => false,
            },
    {
        let o = match self.index_of(&origin) {
            Some(i) => i,
            None => return Err(TableSearchError::TableNotFoundInGraph(origin)),
        };
        let d = match self.index_of(&destiny) {
            Some(i) => i,
            None => return Err(TableSearchError::TableNotFoundInGraph(destiny)),
        };
        Ok(self.route_between(o, d))
    }

    /// Every table reachable from `origin`, itself included, and the labels
    /// of the edges of a shortest-path tree rooted at it: for each other
    /// reachable table, the last edge of the path `path_to` reports.
    pub fn joinable_tables(&self, origin: String) -> (r: Result<
        (Vec<String>, Vec<String>),
        TableSearchError,
    >)
        ensures
            match r {
                Ok((t, l)) => {
                    &&& position(self.nodes(), origin@) is Some
                    &&& views(t@).contains(origin@)
                    &&& forall|y: Seq<char>|
                        self.connected(origin@, y) ==> #[trigger] views(t@).contains(y)
                    &&& forall|y: Seq<char>|
                        #[trigger] views(t@).contains(y) ==> exists|i: int|
                            0 <= i < self.nodes().len() && self.nodes()[i] == y && reachable(
                                self.nodes().len(),
                                self.edges(),
                                position(self.nodes(), origin@)->Some_0,
                                i as nat,
                            )
                    &&& l.len() + 1 == t.len()
                    &&& exists|idx: Seq<nat>, js: Seq<nat>, walks: Seq<Seq<nat>>, tree: Seq<int>|
                        #[trigger] spanning_tree(
                            self.nodes(),
                            self.edges(),
                            position(self.nodes(), origin@)->Some_0,
                            idx,
                            js,
                            walks,
                            tree,
                            views(t@),
                            views(l@),
                        )
                },
                Err(TableSearchError::TableNotFoundInGraph(x)) => position(self.nodes(), origin@)
                    is None && x@ == origin@,
                Err(TableSearchError::AtributesCantBeJoined) => false,
            },
    {
        let o = match self.index_of(&origin) {
            Some(i) => i,
            None => return Err(TableSearchError::TableNotFoundInGraph(origin)),
        };
        let g = &self.table_search_graph;
        let n = node_count(g);
        let ghost nodes = self.nodes();
        let ghost edges = self.edges();
        let mut t: Vec<String> = Vec::new();
        let mut l: Vec<String> = Vec::new();
        let ghost mut idx: Seq<nat> = Seq::empty();
        let ghost mut js: Seq<nat> = Seq::empty();
        let ghost mut wps: Seq<Seq<nat>> = Seq::empty();
        let ghost mut wes: Seq<int> = Seq::empty();
        let mut i: usize = 0;
        while i < n
            invariant
                i <= n,
                o < n,
                forall|a: int, b: int| 0 <= a < b < idx.len() ==> idx[a] < idx[b],
                forall|a: int| 0 <= a < idx.len() ==> #[trigger] idx[a] < i,
                forall|j: nat| j < i ==> (reachable(n as nat, edges, o as nat, j) <==> #[trigger] idx.contains(j)),
                views(t@) == path_tables(nodes, idx),
                forall|a: int, b: int| 0 <= a < b < js.len() ==> js[a] < js[b],
                forall|a: int| 0 <= a < js.len() ==> #[trigger] js[a] < i,
                forall|j: nat|
                    j < i ==> (reachable(n as nat, edges, o as nat, j) && j != o <==> #[trigger] js.contains(j)),
                js.len() == l.len(),
                wps.len() == l.len(),
                wes.len() == l.len(),
                forall|k: int| 0 <= k < l.len() ==> #[trigger] tree_edge(n as nat, edges, o as nat, js[k], wps[k], wes[k], l@[k]@),
                n == nodes.len(),
                nodes == self.nodes(),
                edges == self.edges(),
                g == &self.table_search_graph,
                nodes[o as int] == origin@,
                o < i ==> views(t@).contains(origin@),
                forall|j: int|
                    0 <= j < i && reachable(n as nat, edges, o as nat, j as nat) ==> #[trigger] views(
                        t@,
                    ).contains(nodes[j]),
                forall|y: Seq<char>|
                    #[trigger] views(t@).contains(y) ==> exists|j: int|
                        0 <= j < n && nodes[j] == y && reachable(n as nat, edges, o as nat, j as nat),
                o < i ==> l.len() + 1 == t.len(),
                i <= o ==> l.len() == t.len(),
            decreases n - i,
        {
            let ghost before = t@;
            match shortest_path(g, o, i) {
                Some(p) => {
                    let w = node_weight(g, i);
                    match w {
                        Some(w) => t.push(w),
                        None => {},
                    }
                    assert(views(t@) =~= views(before).push(nodes[i as int]));
                    assert(views(t@)[before.len() as int] == nodes[i as int]);
                    let ghost old_idx = idx;
                    proof {
                        idx = idx.push(i as nat);
                        assert(path_tables(nodes, idx) =~= path_tables(nodes, old_idx).push(nodes[i as int]));
                        assert forall|j: nat| j < i + 1 implies (reachable(n as nat, edges, o as nat, j) <==> #[trigger] idx.contains(j)) by {
                            lemma_push_contains_nat(old_idx, i as nat, j);
                        }
                        assert forall|a: int| 0 <= a < idx.len() implies #[trigger] idx[a] < i + 1 by {
                            if a < old_idx.len() {
                                assert(idx[a] == old_idx[a]);
                            }
                        }
                        assert forall|a: int, b: int| 0 <= a < b < idx.len() implies idx[a] < idx[b] by {
                            if b < old_idx.len() {
                                assert(idx[a] == old_idx[a] && idx[b] == old_idx[b]);
                            } else {
                                assert(idx[a] == old_idx[a]);
                            }
                        }
                    }
                    assert forall|y: Seq<char>| #[trigger] views(t@).contains(y) implies exists|j: int|
                        0 <= j < n && nodes[j] == y && reachable(n as nat, edges, o as nat, j as nat) by {
                        let q = choose|q: int| 0 <= q < views(t@).len() && views(t@)[q] == y;
                        if q < before.len() {
                            assert(views(before)[q] == y);
                            assert(views(before).contains(y));
                        }
                    }
                    assert forall|j: int|
                        0 <= j < i + 1 && reachable(n as nat, edges, o as nat, j as nat) implies #[trigger] views(
                            t@,
                        ).contains(nodes[j]) by {
                        if j < i {
                            assert(views(before).contains(nodes[j]));
                            let q = choose|q: int| 0 <= q < views(before).len() && views(before)[q] == nodes[j];
                            assert(views(t@)[q] == nodes[j]);
                        }
                    }
                    if i == o {
                        assert(views(t@).contains(origin@));
                    } else {
                        if o < i {
                            proof {
                                let q = choose|q: int| 0 <= q < views(before).len() && views(before)[q] == origin@;
                                assert(views(t@)[q] == origin@);
                            }
                        }
                        let ghost pn = p@.map_values(|x: usize| x as nat);
                        assert(pn[0] == o as nat);
                        assert(p.len() >= 2);
                        let a = p[p.len() - 2];
                        let b = p[p.len() - 1];
                        assert(pn[p.len() - 2] == a as nat && pn[p.len() - 1] == b as nat);
                        assert(crate::graph::adjacent(edges, pn[p.len() - 2], pn[p.len() - 2 + 1]));
                        let ghost old_l = l@;
                        let ghost old_js = js;
                        let ghost old_wps = wps;
                        let ghost old_wes = wes;
                        match find_edge(g, a, b) {
                            Some(k) => {
                                match edge_weight(g, k) {
                                    Some(lab) => {
                                        proof {
                                            assert(tree_edge(n as nat, edges, o as nat, i as nat, pn, k as int, lab@));
                                            wps = wps.push(pn);
                                            wes = wes.push(k as int);
                                        }
                                        l.push(lab);
                                    },
                                    None => {},
                                }
                            },
                            None => {},
                        }
                        proof {
                            js = js.push(i as nat);
                            assert forall|j: nat|
                                j < i + 1 implies (reachable(n as nat, edges, o as nat, j) && j != o <==> #[trigger] js.contains(j)) by {
                                lemma_push_contains_nat(old_js, i as nat, j);
                            }
                            assert forall|a: int| 0 <= a < js.len() implies #[trigger] js[a] < i + 1 by {
                                if a < old_js.len() {
                                    assert(js[a] == old_js[a]);
                                }
                            }
                            assert forall|a: int, b: int| 0 <= a < b < js.len() implies js[a] < js[b] by {
                                if b < old_js.len() {
                                    assert(js[a] == old_js[a] && js[b] == old_js[b]);
                                } else {
                                    assert(js[a] == old_js[a]);
                                }
                            }
                            assert forall|kk: int| 0 <= kk < l.len() implies #[trigger] tree_edge(n as nat, edges, o as nat, js[kk], wps[kk], wes[kk], l@[kk]@) by {
                                if kk < old_l.len() {
                                    assert(l@[kk] == old_l[kk]);
                                    assert(js[kk] == old_js[kk]);
                                    assert(wps[kk] == old_wps[kk] && wes[kk] == old_wes[kk]);
                                } else {
                                    assert(js[kk] == i as nat);
                                }
                            }
                        }
                    }
                    if i == o {
                        proof {
                            assert forall|j: nat|
                                j < i + 1 implies (reachable(n as nat, edges, o as nat, j) && j != o <==> #[trigger] js.contains(j)) by {
                                if j == i {
                                    if js.contains(j) {
                                        let q = choose|q: int| 0 <= q < js.len() && js[q] == j;
                                    }
                                }
                            }
                        }
                    }
                },
                None => {
                    if i == o {
                        proof {
                            lemma_walk_single(n as nat, edges, o as nat);
                        }
                    }
                    proof {

                        assert forall|j: nat| j < i + 1 implies (reachable(n as nat, edges, o as nat, j) <==> #[trigger] idx.contains(j)) by {
                            if j == i && idx.contains(j) {
                                let q = choose|q: int| 0 <= q < idx.len() && idx[q] == j;
                            }
                        }
                        assert forall|j: nat|
                            j < i + 1 implies (reachable(n as nat, edges, o as nat, j) && j != o <==> #[trigger] js.contains(j)) by {
                            if j == i && js.contains(j) {
                                let q = choose|q: int| 0 <= q < js.len() && js[q] == j;
                            }
                        }
                    }
                },
            }
            i = i + 1;
        }
        proof {
            assert forall|y: Seq<char>| self.connected(origin@, y) implies #[trigger] views(t@).contains(y) by {
                let j = position(nodes, y)->Some_0;
                lemma_position_from(nodes, y, 0);
                assert(reachable(n as nat, edges, o as nat, j));
                assert(views(t@).contains(nodes[j as int]));
            }
            lemma_position_from(nodes, origin@, 0);
            lemma_views(l@);
            assert(n as nat == nodes.len());
            assert forall|k: int| 0 <= k < views(l@).len() implies #[trigger] tree_edge(nodes.len(), edges, o as nat, js[k], wps[k], wes[k], views(l@)[k]) by {
                assert(views(l@)[k] == l@[k]@);
            }
            assert(spanning_tree(nodes, edges, o as nat, idx, js, wps, wes, views(t@), views(l@)));
        }
        Ok((t, l))
    }

    /// The route between the tables of attributes `i` and `j`.
    pub open spec fn pair_route(&self, attrs: Seq<Seq<char>>, i: int, j: int) -> (Seq<Seq<char>>, Seq<Seq<char>>) {
        self.route_of(table_of(attrs[i]), table_of(attrs[j]))
    }

    /// `t` and `p` are the tables and join predicates that resolve `attrs`:
    /// both sorted and free of duplicates, every attribute's table among the
    /// tables, every predicate `a:b` with `a` not after `b`; for fewer than
    /// two attributes their tables and no predicates, otherwise the tables
    /// and hop predicates of the routes of all pairs, which must all exist.
    #[verifier::opaque]
    pub open spec fn resolves(&self, attrs: Seq<Seq<char>>, t: Seq<Seq<char>>, p: Seq<Seq<char>>) -> bool {
        &&& strictly_sorted(t)
        &&& strictly_sorted(p)
        &&& forall|k: int| 0 <= k < attrs.len() ==> t.contains(table_of(#[trigger] attrs[k]))
        &&& forall|q: Seq<char>|
            #[trigger] p.contains(q) ==> exists|a: Seq<char>, b: Seq<char>|
                q == a + seq![':'] + b && !lex_lt(b, a)
        &&& attrs.len() <= 1 ==> t == tables_of(attrs) && p.len() == 0
        &&& attrs.len() >= 2 ==> {
            &&& self.all_known(attrs)
            &&& self.all_joined(attrs)
            &&& forall|x: Seq<char>| #[trigger] t.contains(x) <==> self.needs_table(attrs, x)
            &&& forall|x: Seq<char>| #[trigger] p.contains(x) <==> self.needs_predicate(attrs, x)
        }
    }

    /// A set of attributes resolves to one pair of tables and predicates.
    pub proof fn lemma_resolves_unique(
        &self,
        attrs: Seq<Seq<char>>,
        ta: Seq<Seq<char>>,
        pa: Seq<Seq<char>>,
        tb: Seq<Seq<char>>,
        pb: Seq<Seq<char>>,
    )
        requires
            self.resolves(attrs, ta, pa),
            self.resolves(attrs, tb, pb),
        ensures
            ta == tb,
            pa == pb,
    {
        reveal(TableSearch::resolves);
        if attrs.len() <= 1 {
            assert(pa =~= pb);
        } else {
            assert forall|x: Seq<char>| ta.contains(x) <==> tb.contains(x) by {
                assert(ta.contains(x) <==> self.needs_table(attrs, x));
                assert(tb.contains(x) <==> self.needs_table(attrs, x));
            }
            assert forall|x: Seq<char>| pa.contains(x) <==> pb.contains(x) by {
                assert(pa.contains(x) <==> self.needs_predicate(attrs, x));
                assert(pb.contains(x) <==> self.needs_predicate(attrs, x));
            }
            crate::text::lemma_sorted_unique(ta, tb);
            crate::text::lemma_sorted_unique(pa, pb);
        }
    }

    proof fn lemma_resolves_small(&self, attrs: Seq<Seq<char>>, t: Seq<Seq<char>>)
        requires
            attrs.len() <= 1,
            t == tables_of(attrs),
        ensures
            self.resolves(attrs, t, Seq::empty()),
    {
        reveal(TableSearch::resolves);
        if attrs.len() == 1 {
            assert(t[0] == table_of(attrs[0]));
        }
    }

    proof fn lemma_resolves_joined(
        &self,
        attrs: Seq<Seq<char>>,
        idx: Seq<usize>,
        labels: Seq<usize>,
        t: Seq<Seq<char>>,
        p: Seq<Seq<char>>,
    )
        requires
            self.indexes_tables(attrs, idx),
            attrs.len() >= 2,
            labels.len() == attrs.len(),
            forall|m: int| 0 <= m < labels.len() ==> #[trigger] labels[m] == labels[0],
            forall|a: int, b: int|
                0 <= a < idx.len() && 0 <= b < idx.len() && labels[a] == labels[b] ==> reachable(
                    self.nodes().len(),
                    self.edges(),
                    idx[a] as nat,
                    idx[b] as nat,
                ),
            strictly_sorted(t),
            strictly_sorted(p),
            forall|a: int, b: int|
                0 <= a < b < idx.len() ==> #[trigger] route_known(
                    self.nodes(),
                    self.edges(),
                    idx[a] as nat,
                    idx[b] as nat,
                ),
            forall|x: Seq<char>| #[trigger] t.contains(x) <==> on_pair_routes(self.nodes(), self.edges(), idx, x),
            forall|x: Seq<char>| #[trigger] p.contains(x) <==> among_pair_hops(self.nodes(), self.edges(), idx, x),
        ensures
            self.resolves(attrs, t, p),
    {
        self.lemma_joined(attrs, idx, labels);
        self.lemma_resolved_tables(attrs, idx, t, p);
        self.lemma_resolved_predicates(attrs, idx, t, p);
        self.lemma_resolved_cover(attrs, idx, t, p);
        self.lemma_resolved_ordered(attrs, idx, t, p);
        reveal(TableSearch::resolves);
    }

    /// Why resolving `attrs` fails with `e`: the table of the first attribute
    /// whose table is not in the graph, or, with all tables known, tables in
    /// more than one connected component. Only with two attributes or more.
    pub open spec fn join_failure(&self, attrs: Seq<Seq<char>>, e: TableSearchError) -> bool {
        match e {
            TableSearchError::TableNotFoundInGraph(x) => attrs.len() >= 2 && exists|k: int|
                0 <= k < attrs.len() && x@ == table_of(#[trigger] attrs[k]) && position(
                    self.nodes(),
                    x@,
                ) is None && forall|m: int|
                    0 <= m < k ==> position(self.nodes(), table_of(#[trigger] attrs[m])) is Some,
            TableSearchError::AtributesCantBeJoined => attrs.len() >= 2 && self.all_known(attrs)
                && !self.all_joined(attrs),
        }
    }

    /// `x` lies on the route of some pair of attributes.
    pub open spec fn needs_table(&self, attrs: Seq<Seq<char>>, x: Seq<char>) -> bool {
        exists|i: int, j: int, k: int|
            0 <= i < j < attrs.len() && 0 <= k < self.pair_route(attrs, i, j).0.len()
                && #[trigger] self.pair_route(attrs, i, j).0[k] == x
    }

    /// `x` is the join predicate of a hop on the route of some pair of attributes.
    pub open spec fn needs_predicate(&self, attrs: Seq<Seq<char>>, x: Seq<char>) -> bool {
        exists|i: int, j: int, k: int|
            0 <= i < j < attrs.len() && 0 <= k < self.pair_route(attrs, i, j).1.len()
                && #[trigger] hop_predicate(
                self.pair_route(attrs, i, j).0,
                self.pair_route(attrs, i, j).1,
                k,
            ) == x
    }

    /// Every attribute's table is in the graph.
    pub open spec fn all_known(&self, attrs: Seq<Seq<char>>) -> bool {
        forall|k: int| 0 <= k < attrs.len() ==> #[trigger] position(self.nodes(), table_of(attrs[k])) is Some
    }

    /// The tables of all attributes lie in one connected component.
    pub open spec fn all_joined(&self, attrs: Seq<Seq<char>>) -> bool {
        forall|i: int, j: int|
            0 <= i < j < attrs.len() ==> #[trigger] self.connected(table_of(attrs[i]), table_of(attrs[j]))
    }

    /// The tables to join and the equi-join predicates that connect the
    /// given attributes, both sorted and free of duplicates.
    ///
    /// With fewer than two attributes the tables are theirs and there are no
    /// predicates. Otherwise the first attribute whose table is not in the
    /// graph is reported, then a set that is not connected; else the tables
    /// are those on the shortest path of every pair, and the predicates those
    /// of every hop of these paths.
    pub fn get_join_requirements(&self, atrs: &Vec<String>) -> (r: Result<
        (Vec<String>, Vec<String>),
        TableSearchError,
    >)
        ensures
            match r {
                Ok((t, p)) => self.resolves(views(atrs@), views(t@), views(p@)),
                Err(TableSearchError::TableNotFoundInGraph(x)) => atrs.len() >= 2 && exists|k: int|
                    0 <= k < atrs.len() && x@ == table_of(#[trigger] atrs@[k]@) && position(
                        self.nodes(),
                        x@,
                    ) is None && forall|m: int|
                        0 <= m < k ==> position(self.nodes(), table_of(#[trigger] atrs@[m]@)) is Some,
                Err(TableSearchError::AtributesCantBeJoined) => atrs.len() >= 2 && self.all_known(
                    views(atrs@),
                ) && !self.all_joined(views(atrs@)),
            },
    {
        let n = atrs.len();
        let ghost attrs = views(atrs@);
        let parts = table_parts(atrs);
        let ghost tabs = views(parts@);
        proof {
            lemma_views(atrs@);
            lemma_views(parts@);
        }
        if n <= 1 {
            let none: Vec<String> = Vec::new();
            assert(views(none@) =~= Seq::<Seq<char>>::empty());
            proof {
                self.lemma_resolves_small(attrs, tabs);
            }
            return Ok((parts, none));
        }
        let idx = match self.lookup_all(&parts) {
            Ok(idx) => idx,
            Err(k) => {
                let missing = parts[k].clone();
                proof {
                    assert(tabs[k as int] == parts@[k as int]@);
                    assert(attrs[k as int] == atrs@[k as int]@);
                    assert(missing@ == table_of(atrs@[k as int]@));
                    assert forall|m: int| 0 <= m < k implies position(
                        self.nodes(),
                        table_of(#[trigger] atrs@[m]@),
                    ) is Some by {
                        assert(tabs[m] == parts@[m]@);
                        assert(attrs[m] == atrs@[m]@);
                        assert(position(self.nodes(), parts@[m]@) is Some);
                    }
                }
                return Err(TableSearchError::TableNotFoundInGraph(missing));
            },
        };
        proof {
            assert(self.indexes_tables(attrs, idx@)) by {
                assert forall|m: int| 0 <= m < attrs.len() implies {
                    &&& position(self.nodes(), table_of(attrs[m])) == Some(#[trigger] idx@[m] as nat)
                    &&& idx@[m] < self.nodes().len()
                } by {
                    assert(tabs.len() == parts@.len());
                    assert(tabs[m] == parts@[m]@);
                }
            }
        }
        let (tables, preds, labels) = self.resolve_pairs(&idx);
        match first_split(&labels) {
            Some(k) => {
                proof {
                    self.lemma_not_joined(attrs, idx@, labels@, k as int);
                }
                return Err(TableSearchError::AtributesCantBeJoined);
            },
            None => {},
        }
        let t = sort_unique(tables);
        let p = sort_unique(preds);
        proof {
            self.lemma_resolves_joined(attrs, idx@, labels@, views(t@), views(p@));
        }
        Ok((t, p))
    }

    /// The node index of each name, or the index of the first name that is
    /// not in the graph.
    fn lookup_all(&self, names: &Vec<String>) -> (r: Result<Vec<usize>, usize>)
        ensures
            match r {
                Ok(idx) => idx.len() == names.len() && forall|m: int|
                    0 <= m < names.len() ==> position(self.nodes(), names@[m]@) == Some(
                        #[trigger] idx@[m] as nat,
                    ) && idx@[m] < self.nodes().len(),
                Err(k) => k < names.len() && position(self.nodes(), names@[k as int]@) is None
                    && forall|m: int| 0 <= m < k ==> #[trigger] position(self.nodes(), names@[m]@) is Some,
            },
    {
        let mut idx: Vec<usize> = Vec::new();
        let mut k: usize = 0;
        while k < names.len()
            invariant
                k <= names.len(),
                idx.len() == k,
                forall|m: int|
                    0 <= m < k ==> position(self.nodes(), names@[m]@) == Some(#[trigger] idx@[m] as nat)
                        && idx@[m] < self.nodes().len(),
            decreases names.len() - k,
        {
            match self.index_of(&names[k]) {
                Some(i) => idx.push(i),
                None => {
                    assert forall|m: int| 0 <= m < k implies #[trigger] position(self.nodes(), names@[m]@) is Some by {
                        assert(position(self.nodes(), names@[m]@) == Some(idx@[m] as nat));
                    }
                    return Err(k);
                },
            }
            k = k + 1;
        }
        Ok(idx)
    }

    /// `idx` holds the node index of each attribute's table.
    pub open spec fn indexes_tables(&self, attrs: Seq<Seq<char>>, idx: Seq<usize>) -> bool {
        &&& idx.len() == attrs.len()
        &&& forall|m: int|
            0 <= m < attrs.len() ==> {
                &&& position(self.nodes(), table_of(attrs[m])) == Some(#[trigger] idx[m] as nat)
                &&& idx[m] < self.nodes().len()
            }
    }

    proof fn lemma_indexed(&self, attrs: Seq<Seq<char>>, idx: Seq<usize>, a: int, b: int)
        requires
            self.indexes_tables(attrs, idx),
            0 <= a < attrs.len(),
            0 <= b < attrs.len(),
        ensures
            self.connected(table_of(attrs[a]), table_of(attrs[b])) == reachable(
                self.nodes().len(),
                self.edges(),
                idx[a] as nat,
                idx[b] as nat,
            ),
            self.pair_route(attrs, a, b) == route(self.nodes(), self.edges(), idx[a] as nat, idx[b] as nat),
            position(self.nodes(), table_of(attrs[a])) is Some,
    {
        assert(position(self.nodes(), table_of(attrs[a])) == Some(idx[a] as nat));
        assert(position(self.nodes(), table_of(attrs[b])) == Some(idx[b] as nat));
    }

    proof fn lemma_not_joined(&self, attrs: Seq<Seq<char>>, idx: Seq<usize>, labels: Seq<usize>, k: int)
        requires
            self.indexes_tables(attrs, idx),
            labels.len() == attrs.len(),
            0 <= k < k + 1 < attrs.len(),
            labels[k] != labels[k + 1],
            forall|a: int, b: int|
                0 <= a < b < idx.len() && reachable(
                    self.nodes().len(),
                    self.edges(),
                    idx[a] as nat,
                    idx[b] as nat,
                ) ==> labels[a] == labels[b],
        ensures
            self.all_known(attrs),
            !self.all_joined(attrs),
    {
        self.lemma_indexed(attrs, idx, k, k + 1);
        assert forall|m: int| 0 <= m < attrs.len() implies #[trigger] position(
            self.nodes(),
            table_of(attrs[m]),
        ) is Some by {
            self.lemma_indexed(attrs, idx, m, m);
        }
    }

    proof fn lemma_joined(&self, attrs: Seq<Seq<char>>, idx: Seq<usize>, labels: Seq<usize>)
        requires
            self.indexes_tables(attrs, idx),
            labels.len() == attrs.len(),
            attrs.len() >= 1,
            forall|m: int| 0 <= m < labels.len() ==> #[trigger] labels[m] == labels[0],
            forall|a: int, b: int|
                0 <= a < idx.len() && 0 <= b < idx.len() && labels[a] == labels[b] ==> reachable(
                    self.nodes().len(),
                    self.edges(),
                    idx[a] as nat,
                    idx[b] as nat,
                ),
        ensures
            self.all_known(attrs),
            self.all_joined(attrs),
    {
        assert forall|m: int| 0 <= m < attrs.len() implies #[trigger] position(
            self.nodes(),
            table_of(attrs[m]),
        ) is Some by {
            self.lemma_indexed(attrs, idx, m, m);
        }
        assert forall|a: int, b: int| 0 <= a < b < attrs.len() implies #[trigger] self.connected(
            table_of(attrs[a]),
            table_of(attrs[b]),
        ) by {
            assert(labels[a] == labels[0] && labels[b] == labels[0]);
            self.lemma_indexed(attrs, idx, a, b);
        }
    }

    proof fn lemma_resolved_tables(&self, attrs: Seq<Seq<char>>, idx: Seq<usize>, t: Seq<Seq<char>>, p: Seq<Seq<char>>)
        requires
            self.indexes_tables(attrs, idx),
            attrs.len() >= 2,
            self.all_joined(attrs),
            forall|a: int, b: int|
                0 <= a < b < idx.len() ==> #[trigger] route_known(
                    self.nodes(),
                    self.edges(),
                    idx[a] as nat,
                    idx[b] as nat,
                ),
            forall|x: Seq<char>| #[trigger] t.contains(x) <==> on_pair_routes(self.nodes(), self.edges(), idx, x),
            forall|x: Seq<char>| #[trigger] p.contains(x) <==> among_pair_hops(self.nodes(), self.edges(), idx, x),
        ensures
            forall|x: Seq<char>| #[trigger] t.contains(x) <==> self.needs_table(attrs, x),
    {
        assert forall|x: Seq<char>| #[trigger] t.contains(x) <==> self.needs_table(attrs, x) by {
            if t.contains(x) {
                let (a, b, q) = choose|a: int, b: int, q: int|
                    0 <= a < b < idx.len() && 0 <= q < route(
                        self.nodes(),
                        self.edges(),
                        idx[a] as nat,
                        idx[b] as nat,
                    ).0.len() && route(self.nodes(), self.edges(), idx[a] as nat, idx[b] as nat).0[q] == x;
                self.lemma_indexed(attrs, idx, a, b);
                assert(self.pair_route(attrs, a, b).0[q] == x);
            }
            if self.needs_table(attrs, x) {
                let (a, b, q) = choose|a: int, b: int, q: int|
                    0 <= a < b < attrs.len() && 0 <= q < self.pair_route(attrs, a, b).0.len()
                        && #[trigger] self.pair_route(attrs, a, b).0[q] == x;
                self.lemma_indexed(attrs, idx, a, b);
            }
        }
    }

    proof fn lemma_resolved_predicates(&self, attrs: Seq<Seq<char>>, idx: Seq<usize>, t: Seq<Seq<char>>, p: Seq<Seq<char>>)
        requires
            self.indexes_tables(attrs, idx),
            attrs.len() >= 2,
            self.all_joined(attrs),
            forall|a: int, b: int|
                0 <= a < b < idx.len() ==> #[trigger] route_known(
                    self.nodes(),
                    self.edges(),
                    idx[a] as nat,
                    idx[b] as nat,
                ),
            forall|x: Seq<char>| #[trigger] t.contains(x) <==> on_pair_routes(self.nodes(), self.edges(), idx, x),
            forall|x: Seq<char>| #[trigger] p.contains(x) <==> among_pair_hops(self.nodes(), self.edges(), idx, x),
        ensures
            forall|x: Seq<char>| #[trigger] p.contains(x) <==> self.needs_predicate(attrs, x),
    {
        assert forall|x: Seq<char>| #[trigger] p.contains(x) <==> self.needs_predicate(attrs, x) by {
            if p.contains(x) {
                let (a, b, q) = choose|a: int, b: int, q: int|
                    0 <= a < b < idx.len() && 0 <= q < route(
                        self.nodes(),
                        self.edges(),
                        idx[a] as nat,
                        idx[b] as nat,
                    ).1.len() && hop_predicate(
                        route(self.nodes(), self.edges(), idx[a] as nat, idx[b] as nat).0,
                        route(self.nodes(), self.edges(), idx[a] as nat, idx[b] as nat).1,
                        q,
                    ) == x;
                self.lemma_indexed(attrs, idx, a, b);
                assert(hop_predicate(self.pair_route(attrs, a, b).0, self.pair_route(attrs, a, b).1, q) == x);
            }
            if self.needs_predicate(attrs, x) {
                let (a, b, q) = choose|a: int, b: int, q: int|
                    0 <= a < b < attrs.len() && 0 <= q < self.pair_route(attrs, a, b).1.len()
                        && #[trigger] hop_predicate(
                        self.pair_route(attrs, a, b).0,
                        self.pair_route(attrs, a, b).1,
                        q,
                    ) == x;
                self.lemma_indexed(attrs, idx, a, b);
            }
        }
    }

    proof fn lemma_resolved_cover(&self, attrs: Seq<Seq<char>>, idx: Seq<usize>, t: Seq<Seq<char>>, p: Seq<Seq<char>>)
        requires
            self.indexes_tables(attrs, idx),
            attrs.len() >= 2,
            self.all_joined(attrs),
            forall|a: int, b: int|
                0 <= a < b < idx.len() ==> #[trigger] route_known(
                    self.nodes(),
                    self.edges(),
                    idx[a] as nat,
                    idx[b] as nat,
                ),
            forall|x: Seq<char>| #[trigger] t.contains(x) <==> on_pair_routes(self.nodes(), self.edges(), idx, x),
            forall|x: Seq<char>| #[trigger] p.contains(x) <==> among_pair_hops(self.nodes(), self.edges(), idx, x),
        ensures
            forall|m: int| 0 <= m < attrs.len() ==> t.contains(table_of(#[trigger] attrs[m])),
    {
        assert forall|m: int| 0 <= m < attrs.len() implies t.contains(table_of(#[trigger] attrs[m])) by {
            let (a, b) = if m == 0 {
                (0int, 1int)
            } else {
                (0int, m)
            };
            self.lemma_indexed(attrs, idx, a, b);
            assert(route_known(self.nodes(), self.edges(), idx[a] as nat, idx[b] as nat));
            assert(self.connected(table_of(attrs[a]), table_of(attrs[b])));
            let rt = route(self.nodes(), self.edges(), idx[a] as nat, idx[b] as nat);
            assert(position(self.nodes(), table_of(attrs[a])) == Some(idx[a] as nat));
            assert(position(self.nodes(), table_of(attrs[b])) == Some(idx[b] as nat));
            lemma_position_from(self.nodes(), table_of(attrs[a]), 0);
            lemma_position_from(self.nodes(), table_of(attrs[b]), 0);
            if m == 0 {
                assert(rt.0[0] == table_of(attrs[0]));
                assert(self.needs_table(attrs, table_of(attrs[0])));
            } else {
                assert(rt.0[rt.0.len() - 1] == table_of(attrs[m]));
                assert(self.needs_table(attrs, table_of(attrs[m])));
            }
        }
    }

    proof fn lemma_resolved_ordered(&self, attrs: Seq<Seq<char>>, idx: Seq<usize>, t: Seq<Seq<char>>, p: Seq<Seq<char>>)
        requires
            self.indexes_tables(attrs, idx),
            attrs.len() >= 2,
            self.all_joined(attrs),
            forall|a: int, b: int|
                0 <= a < b < idx.len() ==> #[trigger] route_known(
                    self.nodes(),
                    self.edges(),
                    idx[a] as nat,
                    idx[b] as nat,
                ),
            forall|x: Seq<char>| #[trigger] t.contains(x) <==> on_pair_routes(self.nodes(), self.edges(), idx, x),
            forall|x: Seq<char>| #[trigger] p.contains(x) <==> among_pair_hops(self.nodes(), self.edges(), idx, x),
        ensures
            forall|q: Seq<char>|
                #[trigger] p.contains(q) ==> exists|a: Seq<char>, b: Seq<char>|
                    q == a + seq![':'] + b && !lex_lt(b, a),
    {
        self.lemma_resolved_predicates(attrs, idx, t, p);
        assert forall|q: Seq<char>| #[trigger] p.contains(q) implies exists|a: Seq<char>, b: Seq<char>|
            q == a + seq![':'] + b && !lex_lt(b, a) by {
            assert(self.needs_predicate(attrs, q));
            let (a, b, k) = choose|a: int, b: int, k: int|
                0 <= a < b < attrs.len() && 0 <= k < self.pair_route(attrs, a, b).1.len()
                    && #[trigger] hop_predicate(
                    self.pair_route(attrs, a, b).0,
                    self.pair_route(attrs, a, b).1,
                    k,
                ) == q;
            let ts = self.pair_route(attrs, a, b).0;
            let ls = self.pair_route(attrs, a, b).1;
            lemma_canonical_pair_ordered(
                table_id(ts[k], split_label(ls[k]).0),
                table_id(ts[k + 1], split_label(ls[k]).1),
            );
        }
    }

    /// Visits every pair of attributes in order, joins the union-find sets
    /// of connected pairs and gathers the tables and hop predicates of their
    /// routes; returns them with the final labelling of the union-find.
    #[verifier::loop_isolation(false)]
    #[verifier::rlimit(50)]
    fn resolve_pairs(&self, idx: &Vec<usize>) -> (r: (Vec<String>, Vec<String>, Vec<usize>))
        requires
            idx.len() >= 2,
            forall|m: int| 0 <= m < idx.len() ==> #[trigger] idx@[m] < self.nodes().len(),
        ensures
            r.2.len() == idx.len(),
            forall|a: int, b: int|
                0 <= a < idx.len() && 0 <= b < idx.len() && r.2@[a] == r.2@[b] ==> reachable(
                    self.nodes().len(),
                    self.edges(),
                    idx@[a] as nat,
                    idx@[b] as nat,
                ),
            forall|a: int, b: int|
                0 <= a < b < idx.len() && reachable(
                    self.nodes().len(),
                    self.edges(),
                    idx@[a] as nat,
                    idx@[b] as nat,
                ) ==> r.2@[a] == r.2@[b],
            forall|a: int, b: int|
                0 <= a < b < idx.len() ==> #[trigger] route_known(
                    self.nodes(),
                    self.edges(),
                    idx@[a] as nat,
                    idx@[b] as nat,
                ),
            forall|x: Seq<char>| #[trigger] views(r.0@).contains(x) <==> on_pair_routes(self.nodes(), self.edges(), idx@, x),
            forall|x: Seq<char>| #[trigger] views(r.1@).contains(x) <==> among_pair_hops(self.nodes(), self.edges(), idx@, x),
    {
        let n = idx.len();
        let ghost nodes = self.nodes();
        let ghost edges = self.edges();
        let ghost nn = nodes.len();
        let mut uf = new_union_find(n);
        proof {
            assert forall|a: int, b: int|
                0 <= a < n && 0 <= b < n && uf_labels(uf)[a] == uf_labels(uf)[b] implies reachable(
                nn,
                edges,
                idx@[a] as nat,
                idx@[b] as nat,
            ) by {
                assert(idx@[a] < nn);
                lemma_walk_single(nn, edges, idx@[a] as nat);
            }
        }
        let mut tables: Vec<String> = Vec::new();
        let mut preds: Vec<String> = Vec::new();
        let mut i: usize = 0;
        while i < n
            invariant
                i <= n,
                n >= 2,
                nodes == self.nodes(),
                edges == self.edges(),
                nn == nodes.len(),
                idx.len() == n,
                forall|m: int| 0 <= m < n ==> #[trigger] idx@[m] < nn,
                uf_labels(uf).len() == n,
                forall|a: int, b: int|
                    0 <= a < n && 0 <= b < n && uf_labels(uf)[a] == uf_labels(uf)[b] ==> reachable(
                        nn,
                        edges,
                        idx@[a] as nat,
                        idx@[b] as nat,
                    ),
                forall|a: int, b: int|
                    pair_before(a, b, i as int, 0) && 0 <= b < n && reachable(
                        nn,
                        edges,
                        idx@[a] as nat,
                        idx@[b] as nat,
                    ) ==> uf_labels(uf)[a] == uf_labels(uf)[b],
                forall|a: int, b: int|
                    pair_before(a, b, i as int, 0) && 0 <= b < n ==> #[trigger] route_known(
                        nodes,
                        edges,
                        idx@[a] as nat,
                        idx@[b] as nat,
                    ),
                forall|x: Seq<char>|
                    #[trigger] views(tables@).contains(x) <==> exists|a: int, b: int, q: int|
                        pair_before(a, b, i as int, 0) && 0 <= b < n && 0 <= q < route(
                            nodes,
                            edges,
                            idx@[a] as nat,
                            idx@[b] as nat,
                        ).0.len() && route(nodes, edges, idx@[a] as nat, idx@[b] as nat).0[q] == x,
                forall|x: Seq<char>|
                    #[trigger] views(preds@).contains(x) <==> exists|a: int, b: int, q: int|
                        pair_before(a, b, i as int, 0) && 0 <= b < n && 0 <= q < route(
                            nodes,
                            edges,
                            idx@[a] as nat,
                            idx@[b] as nat,
                        ).1.len() && hop_predicate(
                            route(nodes, edges, idx@[a] as nat, idx@[b] as nat).0,
                            route(nodes, edges, idx@[a] as nat, idx@[b] as nat).1,
                            q,
                        ) == x,
            decreases n - i,
        {
            proof {
                assert forall|a: int, b: int|
                    0 <= b < n implies (pair_before(a, b, i as int, i + 1) <==> pair_before(a, b, i as int, 0)) by {}
                assert forall|a: int, b: int|
                    pair_before(a, b, i as int, i + 1) && 0 <= b < n && reachable(
                        nn,
                        edges,
                        idx@[a] as nat,
                        idx@[b] as nat,
                    ) implies uf_labels(uf)[a] == uf_labels(uf)[b] by {
                    assert(pair_before(a, b, i as int, 0));
                }
            }
            let mut j: usize = i + 1;
            while j < n
                invariant
                    i < n,
                    i + 1 <= j <= n,
                    n >= 2,
                    nodes == self.nodes(),
                    edges == self.edges(),
                    nn == nodes.len(),
                    idx.len() == n,
                    forall|m: int| 0 <= m < n ==> #[trigger] idx@[m] < nn,
                    uf_labels(uf).len() == n,
                    forall|a: int, b: int|
                        0 <= a < n && 0 <= b < n && uf_labels(uf)[a] == uf_labels(uf)[b] ==> reachable(
                            nn,
                            edges,
                            idx@[a] as nat,
                            idx@[b] as nat,
                        ),
                    forall|a: int, b: int|
                        pair_before(a, b, i as int, j as int) && 0 <= b < n && reachable(
                            nn,
                            edges,
                            idx@[a] as nat,
                            idx@[b] as nat,
                        ) ==> uf_labels(uf)[a] == uf_labels(uf)[b],
                    forall|a: int, b: int|
                        pair_before(a, b, i as int, j as int) && 0 <= b < n ==> #[trigger] route_known(
                            nodes,
                            edges,
                            idx@[a] as nat,
                            idx@[b] as nat,
                        ),
                    forall|x: Seq<char>|
                        #[trigger] views(tables@).contains(x) <==> exists|a: int, b: int, q: int|
                            pair_before(a, b, i as int, j as int) && 0 <= b < n && 0 <= q < route(
                                nodes,
                                edges,
                                idx@[a] as nat,
                                idx@[b] as nat,
                            ).0.len() && route(nodes, edges, idx@[a] as nat, idx@[b] as nat).0[q] == x,
                    forall|x: Seq<char>|
                        #[trigger] views(preds@).contains(x) <==> exists|a: int, b: int, q: int|
                            pair_before(a, b, i as int, j as int) && 0 <= b < n && 0 <= q < route(
                                nodes,
                                edges,
                                idx@[a] as nat,
                                idx@[b] as nat,
                            ).1.len() && hop_predicate(
                                route(nodes, edges, idx@[a] as nat, idx@[b] as nat).0,
                                route(nodes, edges, idx@[a] as nat, idx@[b] as nat).1,
                                q,
                            ) == x,
                decreases n - j,
            {
                let ghost t_before = views(tables@);
                let ghost p_before = views(preds@);
                let ghost old_labels = uf_labels(uf);
                let linked = self.absorb_pair(idx[i], idx[j], &mut tables, &mut preds);
                let ghost rt = route(nodes, edges, idx@[i as int] as nat, idx@[j as int] as nat);
                if linked {
                    union(&mut uf, i, j);
                    proof {
                        assert forall|a: int, b: int|
                            0 <= a < n && 0 <= b < n && uf_labels(uf)[a] == uf_labels(uf)[b] implies reachable(
                            nn,
                            edges,
                            idx@[a] as nat,
                            idx@[b] as nat,
                        ) by {
                            if old_labels[a] == old_labels[b] {
                            } else if old_labels[a] == old_labels[i as int] && old_labels[b]
                                == old_labels[j as int] {
                                lemma_reachable_transitive(nn, edges, idx@[a] as nat, idx@[i as int] as nat, idx@[j as int] as nat);
                                lemma_reachable_symmetric(nn, edges, idx@[b] as nat, idx@[j as int] as nat);
                                assert(reachable(nn, edges, idx@[j as int] as nat, idx@[b] as nat)) by {
                                    lemma_reachable_symmetric(nn, edges, idx@[b] as nat, idx@[j as int] as nat);
                                }
                                lemma_reachable_transitive(nn, edges, idx@[a] as nat, idx@[j as int] as nat, idx@[b] as nat);
                            } else {
                                assert(old_labels[a] == old_labels[j as int] && old_labels[b]
                                    == old_labels[i as int]);
                                lemma_reachable_symmetric(nn, edges, idx@[i as int] as nat, idx@[j as int] as nat);
                                lemma_reachable_transitive(nn, edges, idx@[a] as nat, idx@[j as int] as nat, idx@[i as int] as nat);
                                lemma_reachable_symmetric(nn, edges, idx@[b] as nat, idx@[i as int] as nat);
                                lemma_reachable_transitive(nn, edges, idx@[a] as nat, idx@[i as int] as nat, idx@[b] as nat);
                            }
                        }
                    }
                }
                proof {
                    assert forall|x: Seq<char>|
                        #[trigger] views(tables@).contains(x) <==> exists|a: int, b: int, q: int|
                            pair_before(a, b, i as int, j + 1) && 0 <= b < n && 0 <= q < route(
                                nodes,
                                edges,
                                idx@[a] as nat,
                                idx@[b] as nat,
                            ).0.len() && route(nodes, edges, idx@[a] as nat, idx@[b] as nat).0[q] == x by {
                        lemma_concat_contains(t_before, rt.0, x);
                        if rt.0.contains(x) {
                            let q = choose|q: int| 0 <= q < rt.0.len() && rt.0[q] == x;
                            assert(pair_before(i as int, j as int, i as int, j + 1));
                        }
                        if exists|a: int, b: int, q: int|
                            pair_before(a, b, i as int, j + 1) && 0 <= b < n && 0 <= q < route(
                                nodes,
                                edges,
                                idx@[a] as nat,
                                idx@[b] as nat,
                            ).0.len() && route(nodes, edges, idx@[a] as nat, idx@[b] as nat).0[q] == x {
                            let (a, b, q) = choose|a: int, b: int, q: int|
                                pair_before(a, b, i as int, j + 1) && 0 <= b < n && 0 <= q < route(
                                    nodes,
                                    edges,
                                    idx@[a] as nat,
                                    idx@[b] as nat,
                                ).0.len() && route(nodes, edges, idx@[a] as nat, idx@[b] as nat).0[q] == x;
                            if a == i && b == j {
                                assert(rt.0[q] == x);
                            } else {
                                assert(pair_before(a, b, i as int, j as int));
                            }
                        }
                    }
                    assert forall|x: Seq<char>|
                        #[trigger] views(preds@).contains(x) <==> exists|a: int, b: int, q: int|
                            pair_before(a, b, i as int, j + 1) && 0 <= b < n && 0 <= q < route(
                                nodes,
                                edges,
                                idx@[a] as nat,
                                idx@[b] as nat,
                            ).1.len() && hop_predicate(
                                route(nodes, edges, idx@[a] as nat, idx@[b] as nat).0,
                                route(nodes, edges, idx@[a] as nat, idx@[b] as nat).1,
                                q,
                            ) == x by {
                        lemma_concat_contains(p_before, hop_predicates(rt.0, rt.1), x);
                        if hop_predicates(rt.0, rt.1).contains(x) {
                            let q = choose|q: int| 0 <= q < hop_predicates(rt.0, rt.1).len() && hop_predicates(rt.0, rt.1)[q] == x;
                            assert(hop_predicate(rt.0, rt.1, q) == x);
                            assert(pair_before(i as int, j as int, i as int, j + 1));
                        }
                        if exists|a: int, b: int, q: int|
                            pair_before(a, b, i as int, j + 1) && 0 <= b < n && 0 <= q < route(
                                nodes,
                                edges,
                                idx@[a] as nat,
                                idx@[b] as nat,
                            ).1.len() && hop_predicate(
                                route(nodes, edges, idx@[a] as nat, idx@[b] as nat).0,
                                route(nodes, edges, idx@[a] as nat, idx@[b] as nat).1,
                                q,
                            ) == x {
                            let (a, b, q) = choose|a: int, b: int, q: int|
                                pair_before(a, b, i as int, j + 1) && 0 <= b < n && 0 <= q < route(
                                    nodes,
                                    edges,
                                    idx@[a] as nat,
                                    idx@[b] as nat,
                                ).1.len() && hop_predicate(
                                    route(nodes, edges, idx@[a] as nat, idx@[b] as nat).0,
                                    route(nodes, edges, idx@[a] as nat, idx@[b] as nat).1,
                                    q,
                                ) == x;
                            if a == i && b == j {
                                assert(hop_predicates(rt.0, rt.1)[q] == x);
                            } else {
                                assert(pair_before(a, b, i as int, j as int));
                            }
                        }
                    }
                    assert forall|a: int, b: int|
                        pair_before(a, b, i as int, j + 1) && 0 <= b < n && reachable(
                            nn,
                            edges,
                            idx@[a] as nat,
                            idx@[b] as nat,
                        ) implies uf_labels(uf)[a] == uf_labels(uf)[b] by {
                        if a == i && b == j {
                            assert(linked);
                            assert(old_labels[a] == old_labels[i as int] && old_labels[b] == old_labels[j as int]);
                        } else {
                            assert(pair_before(a, b, i as int, j as int));
                            assert(old_labels[a] == old_labels[b]);
                        }
                        if linked {
                            assert(0 <= a < old_labels.len() && 0 <= b < old_labels.len());
                        } else {
                            assert(uf_labels(uf) == old_labels);
                        }
                    }
                    assert forall|a: int, b: int|
                        pair_before(a, b, i as int, j + 1) && 0 <= b < n implies #[trigger] route_known(
                            nodes,
                            edges,
                            idx@[a] as nat,
                            idx@[b] as nat,
                        ) by {
                        if !(a == i && b == j) {
                            assert(pair_before(a, b, i as int, j as int));
                        }
                    }
                }
                j = j + 1;
            }
            proof {
                assert forall|a: int, b: int|
                    0 <= b < n implies (pair_before(a, b, i + 1, 0) <==> pair_before(a, b, i as int, n as int)) by {}
                assert forall|a: int, b: int|
                    pair_before(a, b, i + 1, 0) && 0 <= b < n && reachable(
                        nn,
                        edges,
                        idx@[a] as nat,
                        idx@[b] as nat,
                    ) implies uf_labels(uf)[a] == uf_labels(uf)[b] by {
                    assert(pair_before(a, b, i as int, n as int));
                }
            }
            i = i + 1;
        }
        let ghost fl = uf_labels(uf);
        proof {
            assert forall|a: int, b: int|
                0 <= a < b < n && reachable(nn, edges, idx@[a] as nat, idx@[b] as nat) implies fl[a] == fl[b] by {
                assert(pair_before(a, b, n as int, 0));
            }
            assert forall|a: int, b: int| 0 <= a < b < n implies #[trigger] route_known(
                nodes,
                edges,
                idx@[a] as nat,
                idx@[b] as nat,
            ) by {
                assert(pair_before(a, b, n as int, 0));
            }
        }
        let labels = into_labeling(uf);
        (tables, preds, labels)
    }

    /// Walks the route between two nodes and appends its tables and hop
    /// predicates; reports whether the route exists.
    fn absorb_pair(&self, a: usize, b: usize, tables: &mut Vec<String>, preds: &mut Vec<String>) -> (linked: bool)
        requires
            a < self.nodes().len(),
            b < self.nodes().len(),
        ensures
            linked == reachable(self.nodes().len(), self.edges(), a as nat, b as nat),
            route_known(self.nodes(), self.edges(), a as nat, b as nat),
            views(final(tables)@) == views(old(tables)@) + route(self.nodes(), self.edges(), a as nat, b as nat).0,
            views(final(preds)@) == views(old(preds)@) + hop_predicates(
                route(self.nodes(), self.edges(), a as nat, b as nat).0,
                route(self.nodes(), self.edges(), a as nat, b as nat).1,
            ),
    {
        let (ts, ls) = self.route_between(a, b);
        let ghost tables_before = views(tables@);
        let ghost preds_before = views(preds@);
        let mut k: usize = 0;
        while k < ts.len()
            invariant
                k <= ts.len(),
                views(tables@) == tables_before + views(ts@).subrange(0, k as int),
            decreases ts.len() - k,
        {
            let ghost prev = tables@;
            tables.push(ts[k].clone());
            assert(views(tables@) =~= views(prev).push(ts@[k as int]@));
            assert(views(ts@).subrange(0, k + 1) =~= views(ts@).subrange(0, k as int).push(ts@[k as int]@));
            k = k + 1;
        }
        assert(views(ts@).subrange(0, ts.len() as int) =~= views(ts@));
        let ghost hops = hop_predicates(views(ts@), views(ls@));
        let mut k: usize = 0;
        while k < ls.len()
            invariant
                k <= ls.len(),
                ts.len() > 0 ==> ls.len() + 1 == ts.len(),
                ts.len() == 0 ==> ls.len() == 0,
                hops == hop_predicates(views(ts@), views(ls@)),
                views(preds@) == preds_before + hops.subrange(0, k as int),
            decreases ls.len() - k,
        {
            let ghost prev = preds@;
            let pred = hop_predicate_exec(&ts, &ls, k);
            preds.push(pred);
            assert(views(preds@) =~= views(prev).push(hops[k as int]));
            assert(hops.subrange(0, k + 1) =~= hops.subrange(0, k as int).push(hops[k as int]));
            k = k + 1;
        }
        assert(hops.subrange(0, ls.len() as int) =~= hops);
        ts.len() > 0
    }

    /// The node index of a table identifier.
    fn index_of(&self, name: &String) -> (r: Option<usize>)
        ensures
            match r {
                Some(i) => position(self.nodes(), name@) == Some(i as nat),
                None => position(self.nodes(), name@) is None,
            },
            r matches Some(i) ==> i < self.nodes().len() && self.nodes()[i as int] == name@,
    {
        index_in(&self.table_search_graph, name)
    }

    /// The tables and edge labels of the shortest path between two nodes.
    fn route_between(&self, o: usize, d: usize) -> (r: (Vec<String>, Vec<String>))
        requires
            o < self.nodes().len(),
            d < self.nodes().len(),
        ensures
            (views(r.0@), views(r.1@)) == route(self.nodes(), self.edges(), o as nat, d as nat),
            r.0.len() > 0 <==> reachable(self.nodes().len(), self.edges(), o as nat, d as nat),
            r.0.len() == 0 ==> r.1.len() == 0,
            r.0.len() > 0 ==> r.1.len() + 1 == r.0.len() && r.0@[0]@ == self.nodes()[o as int]
                && r.0@[r.0.len() - 1]@ == self.nodes()[d as int],
            o == d ==> views(r.0@) == seq![self.nodes()[o as int]] && r.1.len() == 0,
            r.0.len() > 0 ==> exists|p: Seq<nat>|
                #[trigger] labelled_walk(self.nodes(), self.edges(), p, o as nat, d as nat, views(r.0@), views(r.1@)),
    {
        let g = &self.table_search_graph;
        let ghost n = self.nodes().len();
        let ghost edges = self.edges();
        match shortest_path(g, o, d) {
            None => {
                if o == d {
                    proof {
                        lemma_walk_single(n, edges, o as nat);
                    }
                }
                let t: Vec<String> = Vec::new();
                let l: Vec<String> = Vec::new();
                assert(views(t@) =~= Seq::<Seq<char>>::empty());
                assert(views(l@) =~= Seq::<Seq<char>>::empty());
                (t, l)
            },
            Some(p) => {
                let ghost pn = p@.map_values(|x: usize| x as nat);
                assert(is_walk(n, edges, pn, o as nat, d as nat));
                let mut t: Vec<String> = Vec::new();
                let mut l: Vec<String> = Vec::new();
                let mut i: usize = 0;
                while i < p.len()
                    invariant
                        i <= p.len(),
                        g == &self.table_search_graph,
                        n == self.nodes().len(),
                        edges == self.edges(),
                        pn == p@.map_values(|x: usize| x as nat),
                        is_walk(n, edges, pn, o as nat, d as nat),
                        views(t@) == path_tables(self.nodes(), pn).subrange(0, i as int),
                        i > 0 ==> views(l@) == path_labels(edges, pn).subrange(0, i - 1),
                        i == 0 ==> l.len() == 0,
                        forall|m: int|
                            0 <= m < i - 1 ==> joins(edges, #[trigger] found_edge(edges, pn[m], pn[m + 1]), pn[m], pn[m + 1]),
                    decreases p.len() - i,
                {
                    assert(pn[i as int] == p@[i as int] as nat);
                    let w = node_weight(g, p[i]);
                    let ghost before_t = t@;
                    match w {
                        Some(w) => t.push(w),
                        None => {},
                    }
                    assert(views(t@) =~= views(before_t).push(self.nodes()[p@[i as int] as int]));
                    assert(path_tables(self.nodes(), pn).subrange(0, i + 1) =~= path_tables(
                        self.nodes(),
                        pn,
                    ).subrange(0, i as int).push(self.nodes()[p@[i as int] as int]));
                    if i > 0 {
                        assert(pn[i - 1] == p@[i - 1] as nat);
                        assert(crate::graph::adjacent(edges, pn[i - 1], pn[i - 1 + 1]));
                        let ghost before_l = l@;
                        match find_edge(g, p[i - 1], p[i]) {
                            Some(k) => {
                                match edge_weight(g, k) {
                                    Some(lab) => l.push(lab),
                                    None => {},
                                }
                            },
                            None => {},
                        }
                        assert(views(l@) =~= views(before_l).push(path_labels(edges, pn)[i - 1]));
                        assert(joins(edges, found_edge(edges, pn[i - 1], pn[i - 1 + 1]), pn[i - 1], pn[i - 1 + 1]));
                        assert(path_labels(edges, pn).subrange(0, i as int) =~= path_labels(
                            edges,
                            pn,
                        ).subrange(0, i - 1).push(path_labels(edges, pn)[i - 1]));
                    }
                    i = i + 1;
                }
                assert(path_tables(self.nodes(), pn).subrange(0, p.len() as int) =~= path_tables(
                    self.nodes(),
                    pn,
                ));
                assert(path_labels(edges, pn).subrange(0, p.len() - 1) =~= path_labels(edges, pn));
                proof {
                    crate::graph::lemma_shortest_walk_simple(n, edges, pn, o as nat, d as nat);
                    let lv = views(l@);
                    assert forall|m: int| #![trigger lv[m]] 0 <= m < lv.len() implies exists|k: int|
                        0 <= k < edges.len() && connects(#[trigger] edges[k], pn[m], pn[m + 1]) && lv[m] == edges[k].2 by {
                        assert(joins(edges, found_edge(edges, pn[m], pn[m + 1]), pn[m], pn[m + 1]));
                        let k = found_edge(edges, pn[m], pn[m + 1])->Some_0 as int;
                        assert(lv[m] == path_labels(edges, pn)[m]);
                        assert(connects(edges[k], pn[m], pn[m + 1]));
                    }
                    assert(labelled_walk(self.nodes(), edges, pn, o as nat, d as nat, views(t@), lv));
                }
                assert(views(t@)[0] == self.nodes()[pn[0] as int]);
                assert(views(t@)[p.len() - 1] == self.nodes()[pn[p.len() - 1] as int]);
                if o == d {
                    proof {
                        lemma_walk_single(n, edges, o as nat);
                    }
                    assert(p@.len() <= 1);
                    assert(views(t@) =~= seq![self.nodes()[o as int]]);
                    assert(views(l@).len() == 0);
                }
                (t, l)
            },
        }
    }
}

/// The first place where two neighbouring labels differ.
fn first_split(labels: &Vec<usize>) -> (r: Option<usize>)
    ensures
        match r {
            Some(k) => k + 1 < labels.len() && labels@[k as int] != labels@[k + 1],
            None => forall|m: int| 0 <= m < labels.len() ==> #[trigger] labels@[m] == labels@[0],
        },
{
    let mut k: usize = 0;
    while k + 1 < labels.len()
        invariant
            k <= labels.len(),
            labels.len() == 0 || k < labels.len(),
            forall|m: int| 0 <= m <= k && m < labels.len() ==> #[trigger] labels@[m] == labels@[0],
        decreases labels.len() - k,
    {
        if labels[k] != labels[k + 1] {
            return Some(k);
        }
        k = k + 1;
    }
    None
}

/// The table part of each attribute.
fn table_parts(atrs: &Vec<String>) -> (parts: Vec<String>)
    ensures
        views(parts@) == tables_of(views(atrs@)),
{
    let n = atrs.len();
    let ghost attrs = views(atrs@);
    let mut parts: Vec<String> = Vec::new();
    let mut k: usize = 0;
    while k < n
        invariant
            k <= n,
            n == atrs.len(),
            attrs == views(atrs@),
            views(parts@) == tables_of(attrs.subrange(0, k as int)),
        decreases n - k,
    {
        let part = table_part(&atrs[k]);
        let ghost pv = part@;
        let ghost prev = parts@;
        parts.push(part);
        proof {
            lemma_views(prev);
            lemma_views(parts@);
            lemma_views(atrs@);
            assert(views(parts@) =~= views(prev).push(pv));
        }
        assert(tables_of(attrs.subrange(0, k + 1)) =~= attrs.subrange(
            0,
            k as int,
        ).map_values(|a: Seq<char>| table_of(a)).push(table_of(attrs[k as int])));
        assert(views(parts@) =~= tables_of(attrs.subrange(0, k + 1)));
        k = k + 1;
    }
    assert(attrs.subrange(0, n as int) =~= attrs);
    parts
}

/// `x` is a table on the route between the tables of some pair of
/// attributes, given by their node indices.
pub open spec fn on_pair_routes(
    nodes: Seq<Seq<char>>,
    edges: Seq<(nat, nat, Seq<char>)>,
    idx: Seq<usize>,
    x: Seq<char>,
) -> bool {
    exists|a: int, b: int, q: int|
        0 <= a < b < idx.len() && 0 <= q < route(nodes, edges, idx[a] as nat, idx[b] as nat).0.len()
            && route(nodes, edges, idx[a] as nat, idx[b] as nat).0[q] == x
}

/// `x` is the join predicate of a hop on the route between the tables of
/// some pair of attributes.
pub open spec fn among_pair_hops(
    nodes: Seq<Seq<char>>,
    edges: Seq<(nat, nat, Seq<char>)>,
    idx: Seq<usize>,
    x: Seq<char>,
) -> bool {
    exists|a: int, b: int, q: int|
        0 <= a < b < idx.len() && 0 <= q < route(nodes, edges, idx[a] as nat, idx[b] as nat).1.len()
            && hop_predicate(
            route(nodes, edges, idx[a] as nat, idx[b] as nat).0,
            route(nodes, edges, idx[a] as nat, idx[b] as nat).1,
            q,
        ) == x
}

/// What the resolver learns of a route when it walks it: it exists exactly
/// when the nodes are connected, and it runs from the one to the other.
pub open spec fn route_known(
    nodes: Seq<Seq<char>>,
    edges: Seq<(nat, nat, Seq<char>)>,
    a: nat,
    b: nat,
) -> bool {
    let rt = route(nodes, edges, a, b);
    &&& (rt.0.len() > 0 <==> reachable(nodes.len(), edges, a, b))
    &&& rt.0.len() > 0 ==> rt.1.len() + 1 == rt.0.len() && rt.0[0] == nodes[a as int]
        && rt.0[rt.0.len() - 1] == nodes[b as int]
}

/// The `schema.table` part of an attribute.
pub fn table_part(a: &String) -> (r: String)
    ensures
        r@ == table_of(a@),
{
    let t = chars_of(a.as_str());
    let dot = vec!['.'];
    assert(dot@ =~= seq!['.']);
    match find_pattern(&t, &dot, 0) {
        Some(dot_a) => match find_pattern(&t, &dot, dot_a + 1) {
            Some(dot_b) => string_of(slice_chars(&t, 0, dot_b).as_slice()),
            None => a.clone(),
        },
        None => a.clone(),
    }
}

/// The join predicate of hop `k` of a path.
fn hop_predicate_exec(ts: &Vec<String>, ls: &Vec<String>, k: usize) -> (r: String)
    requires
        k < ls.len(),
        k + 1 < ts.len(),
    ensures
        r@ == hop_predicate(views(ts@), views(ls@), k as int),
{
    let label = chars_of(ls[k].as_str());
    let colon = vec![':'];
    assert(colon@ =~= seq![':']);
    let (c1, c2) = match find_pattern(&label, &colon, 0) {
        Some(p) => (slice_chars(&label, 0, p), slice_chars(&label, p + 1, label.len())),
        None => (label.clone(), Vec::new()),
    };
    assert(c1@ == split_label(ls@[k as int]@).0);
    assert(c2@ =~= split_label(ls@[k as int]@).1);
    let x = qualified_name(&ts[k], &string_of(c1.as_slice()));
    let y = qualified_name(&ts[k + 1], &string_of(c2.as_slice()));
    let sep = String::from_str(":");
    proof {
        reveal_strlit(":");
    }
    let (lo, hi) = if str_lt(y.as_str(), x.as_str()) {
        (y, x)
    } else {
        (x, y)
    };
    let mut r = lo;
    r.append(sep.as_str());
    r.append(hi.as_str());
    assert(r@ =~= hop_predicate(views(ts@), views(ls@), k as int));
    r
}

fn index_in(g: &Graph<String, String, Undirected>, name: &String) -> (r: Option<usize>)
    ensures
        match r {
            Some(i) => position(graph_nodes(*g), name@) == Some(i as nat),
            None => position(graph_nodes(*g), name@) is None,
        },
        r matches Some(i) ==> i < graph_nodes(*g).len() && graph_nodes(*g)[i as int] == name@,
{
    let n = node_count(g);
    let ghost nodes = graph_nodes(*g);
    let mut i: usize = 0;
    while i < n
        invariant
            i <= n,
            n == nodes.len(),
            nodes == graph_nodes(*g),
            position(nodes, name@) == position_from(nodes, name@, i as int),
        decreases n - i,
    {
        let w = node_weight(g, i);
        match w {
            Some(w) => {
                if w == *name {
                    return Some(i);
                }
            },
            None => {},
        }
        i = i + 1;
    }
    None
}

} // verus!
