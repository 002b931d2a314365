//! An undirected weighted graph over named nodes, kept as an adjacency table.
//!
//! The table lists each node once, in the order in which nodes were added,
//! with the neighbours reached from it and the weight of each edge.
use vstd::prelude::*;

verus! {

/// The error for an access to a node that the graph does not hold.
#[derive(Debug, Clone, Copy)]
pub struct NodeNotInGraph;

impl NodeNotInGraph {
    /// The error's message.
    pub fn message(&self) -> (r: String)
        ensures
            r@ == "accessing a node that is not in the graph"@,
    {
        "accessing a node that is not in the graph".to_owned()
    }
}

/// One row of the table: a node's name and its neighbours with the weights.
pub type Row = (Seq<char>, Seq<(Seq<char>, i32)>);

/// An edge: where it starts, where it ends, its weight.
pub type Edge = (Seq<char>, Seq<char>, i32);

/// Whether `t` has a row for `k`.
pub open spec fn has_node(t: Seq<Row>, k: Seq<char>) -> bool {
    exists|i: int| 0 <= i < t.len() && #[trigger] t[i].0 == k
}

/// No name has two rows.
pub open spec fn names_distinct(t: Seq<Row>) -> bool {
    forall|i: int, j: int| 0 <= i < j < t.len() ==> #[trigger] t[i].0 != #[trigger] t[j].0
}

/// `t` with a row for `k`: unchanged if it has one, else with an empty row
/// for `k` at the end.
pub open spec fn with_node(t: Seq<Row>, k: Seq<char>) -> Seq<Row> {
    if has_node(t, k) {
        t
    } else {
        t.push((k, Seq::empty()))
    }
}

/// `t` with `nb` appended to the neighbours of `k`.
pub open spec fn with_neighbour(t: Seq<Row>, k: Seq<char>, nb: (Seq<char>, i32)) -> Seq<Row> {
    t.map_values(|row: Row| if row.0 == k { (row.0, row.1.push(nb)) } else { row })
}

/// `t` after an undirected edge of weight `w` between `a` and `b`: both
/// nodes are present, `b` is appended to the neighbours of `a`, then `a` to
/// those of `b`.
pub open spec fn with_edge(t: Seq<Row>, a: Seq<char>, b: Seq<char>, w: i32) -> Seq<Row> {
    let t1 = with_node(with_node(t, a), b);
    with_neighbour(with_neighbour(t1, a, (b, w)), b, (a, w))
}

/// The names of the rows, in order.
pub open spec fn names(t: Seq<Row>) -> Seq<Seq<char>> {
    t.map_values(|row: Row| row.0)
}

/// The edges that leave the node of `row`, in the order of its neighbours.
pub open spec fn out_edges(row: Row) -> Seq<Edge> {
    row.1.map_values(|nb: (Seq<char>, i32)| (row.0, nb.0, nb.1))
}

/// All edges of `t`, row by row.
pub open spec fn edges_of(t: Seq<Row>) -> Seq<Edge>
    decreases t.len(),
{
    if t.len() == 0 {
        Seq::empty()
    } else {
        edges_of(t.drop_last()) + out_edges(t.last())
    }
}

/// The value of an edge handed out by `edges`.
pub open spec fn edge_view(e: (String, String, i32)) -> Edge {
    (e.0@, e.1@, e.2)
}

/// `r` holds, one for one, the edges `e`.
pub open spec fn views_as(r: Seq<(String, String, i32)>, e: Seq<Edge>) -> bool {
    &&& r.len() == e.len()
    &&& forall|k: int| 0 <= k < r.len() ==> #[trigger] edge_view(r[k]) == e[k]
}

proof fn lemma_with_node_has(t: Seq<Row>, k: Seq<char>, x: Seq<char>)
    requires
        has_node(t, x) || x == k,
    ensures
        has_node(with_node(t, k), x),
{
    if !has_node(t, k) {
        let t2 = t.push((k, Seq::empty()));
        if x == k {
            assert(t2[t.len() as int].0 == x);
        } else {
            let i = choose|i: int| 0 <= i < t.len() && #[trigger] t[i].0 == x;
            assert(t2[i].0 == x);
        }
    }
}

proof fn lemma_with_neighbour_names(t: Seq<Row>, k: Seq<char>, nb: (Seq<char>, i32), x: Seq<char>)
    requires
        has_node(t, x),
    ensures
        has_node(with_neighbour(t, k, nb), x),
{
    let i = choose|i: int| 0 <= i < t.len() && #[trigger] t[i].0 == x;
    assert(with_neighbour(t, k, nb)[i].0 == x);
}

/// A graph kept as an adjacency table.
pub trait Graph: Sized {
    /// The adjacency table.
    spec fn table(&self) -> Seq<Row>;

    /// The representation invariant; every method that makes or changes a
    /// graph also states `names_distinct` of its table.
    spec fn well_formed(&self) -> bool;

    /// A graph with no nodes.
    fn new() -> (r: Self)
        ensures
            r.well_formed(),
            names_distinct(r.table()),
            r.table() == Seq::<Row>::empty(),
    ;

    /// The stored table, each row a node's name with its neighbours.
    fn adjacency_table(&self) -> (r: &Vec<(String, Vec<(String, i32)>)>)
        ensures
            r@.map_values(|row: (String, Vec<(String, i32)>)| row_view(row)) == self.table(),
    ;

    /// Adds `node` with no neighbours; `false`, and no change, if it is there.
    fn add_node(&mut self, node: &str) -> (r: bool)
        requires
            old(self).well_formed(),
        ensures
            final(self).well_formed(),
            names_distinct(final(self).table()),
            r == !has_node(old(self).table(), node@),
            final(self).table() == with_node(old(self).table(), node@),
    ;

    /// Adds the edge `(from, to, weight)`, and the nodes it names where missing.
    fn add_edge(&mut self, edge: (&str, &str, i32))
        requires
            old(self).well_formed(),
        ensures
            final(self).well_formed(),
            names_distinct(final(self).table()),
            final(self).table() == with_edge(old(self).table(), edge.0@, edge.1@, edge.2),
    ;

    /// Whether the graph holds `node`.
    fn contains(&self, node: &str) -> (r: bool)
        requires
            self.well_formed(),
        ensures
            r == has_node(self.table(), node@),
    ;

    /// The names of the nodes.
    fn nodes(&self) -> (r: Vec<String>)
        requires
            self.well_formed(),
        ensures
            r@.map_values(|s: String| s@) == names(self.table()),
            r@.map_values(|s: String| s@).no_duplicates(),
    ;

    /// Every edge, as (from, to, weight).
    fn edges(&self) -> (r: Vec<(String, String, i32)>)
        requires
            self.well_formed(),
        ensures
            names_distinct(self.table()),
            r@.map_values(|e: (String, String, i32)| edge_view(e)) == edges_of(self.table()),
    ;
}

/// An undirected graph: each edge is listed from both of its ends.
pub struct UndirectedGraph {
    adjacency_table: Vec<(String, Vec<(String, i32)>)>,
}

/// The value of one stored row.
pub open spec fn row_view(row: (String, Vec<(String, i32)>)) -> Row {
    (row.0@, row.1@.map_values(|nb: (String, i32)| (nb.0@, nb.1)))
}

impl UndirectedGraph {
    /// Position of the row for `node`, if there is one.
    fn find(&self, node: &String) -> (r: Option<usize>)
        requires
            self.well_formed(),
        ensures
            match r {
                Some(i) => i < self.table().len() && self.table()[i as int].0 == node@,
                None => !has_node(self.table(), node@),
            },
    {
        let mut i: usize = 0;
        while i < self.adjacency_table.len()
            invariant
                i <= self.adjacency_table@.len(),
                forall|j: int| 0 <= j < i ==> #[trigger] self.table()[j].0 != node@,
            decreases self.adjacency_table@.len() - i,
        {
            if self.adjacency_table[i].0 == *node {
                return Some(i);
            }
            i = i + 1;
        }
        None
    }

    /// Appends `(to, weight)` to the neighbours in row `i`.
    fn push_neighbour(&mut self, i: usize, to: String, weight: i32)
        requires
            old(self).well_formed(),
            i < old(self).table().len(),
        ensures
            final(self).well_formed(),
            final(self).table() == with_neighbour(
                old(self).table(),
                old(self).table()[i as int].0,
                (to@, weight),
            ),
    {
        let ghost t = self.table();
        let row = &mut self.adjacency_table[i];
        row.1.push((to, weight));
        proof {
            let k = t[i as int].0;
            assert forall|j: int| 0 <= j < t.len() implies #[trigger] self.table()[j] == with_neighbour(
                t,
                k,
                (to@, weight),
            )[j] by {
                if j == i {
                    assert(self.table()[j].1 =~= t[j].1.push((to@, weight)));
                } else {
                    assert(t[j].0 != k);
                }
            }
            assert(self.table() =~= with_neighbour(t, k, (to@, weight)));
        }
    }
}

impl Graph for UndirectedGraph {
    closed spec fn table(&self) -> Seq<Row> {
        self.adjacency_table@.map_values(|row: (String, Vec<(String, i32)>)| row_view(row))
    }

    closed spec fn well_formed(&self) -> bool {
        names_distinct(self.table())
    }

    fn new() -> (r: UndirectedGraph) {
        let r = UndirectedGraph { adjacency_table: Vec::new() };
        assert(r.table() =~= Seq::<Row>::empty());
        r
    }

    fn adjacency_table(&self) -> (r: &Vec<(String, Vec<(String, i32)>)>) {
        &self.adjacency_table
    }

    fn add_node(&mut self, node: &str) -> (r: bool) {
        let name = node.to_owned();
        match self.find(&name) {
            Some(_) => false,
            None => {
                let ghost t = self.table();
                self.adjacency_table.push((name, Vec::new()));
                proof {
                    let row: Row = (node@, Seq::empty());
                    assert(row_view(self.adjacency_table@.last()) =~= row);
                    assert(self.table() =~= t.push(row));
                    assert forall|i: int, j: int| 0 <= i < j < t.len() + 1 implies #[trigger] self.table()[i].0
                        != #[trigger] self.table()[j].0 by {
                        if j == t.len() {
                            assert(self.table()[i] == t[i]);
                        } else {
                            assert(self.table()[i] == t[i] && self.table()[j] == t[j]);
                        }
                    }
                }
                true
            },
        }
    }

    fn add_edge(&mut self, edge: (&str, &str, i32)) {
        let ghost t = self.table();
        self.add_node(edge.0);
        self.add_node(edge.1);
        let (node1, node2, weight) = edge;
        proof {
            lemma_with_node_has(t, node1@, node1@);
            lemma_with_node_has(with_node(t, node1@), node2@, node1@);
            lemma_with_node_has(with_node(t, node1@), node2@, node2@);
        }
        let ghost t1 = self.table();
        let name1 = node1.to_owned();
        let name2 = node2.to_owned();
        if let Some(i1) = self.find(&name1) {
            self.push_neighbour(i1, name2, weight);
        }
        proof {
            lemma_with_neighbour_names(t1, node1@, (node2@, weight), node2@);
        }
        let name1 = node1.to_owned();
        let name2 = node2.to_owned();
        if let Some(i2) = self.find(&name2) {
            self.push_neighbour(i2, name1, weight);
        }
    }

    fn contains(&self, node: &str) -> (r: bool) {
        let name = node.to_owned();
        self.find(&name).is_some()
    }

    fn nodes(&self) -> (r: Vec<String>) {
        let ghost t = self.table();
        let mut r: Vec<String> = Vec::new();
        let mut i: usize = 0;
        while i < self.adjacency_table.len()
            invariant
                t == self.table(),
                i <= t.len(),
                r@.len() == i,
                forall|k: int| 0 <= k < i ==> #[trigger] r@[k]@ == t[k].0,
            decreases t.len() - i,
        {
            r.push(self.adjacency_table[i].0.clone());
            i = i + 1;
        }
        assert(r@.map_values(|s: String| s@) =~= names(t));
        r
    }

    fn edges(&self) -> (r: Vec<(String, String, i32)>) {
        let ghost t = self.table();
        let mut r: Vec<(String, String, i32)> = Vec::new();
        let mut i: usize = 0;
        while i < self.adjacency_table.len()
            invariant
                t == self.table(),
                i <= t.len(),
                views_as(r@, edges_of(t.take(i as int))),
            decreases t.len() - i,
        {
            let row = &self.adjacency_table[i];
            let ghost before = edges_of(t.take(i as int));
            let ghost out = out_edges(t[i as int]);
            let mut j: usize = 0;
            while j < row.1.len()
                invariant
                    t == self.table(),
                    i < t.len(),
                    *row == self.adjacency_table@[i as int],
                    out == out_edges(t[i as int]),
                    j <= row.1@.len(),
                    views_as(r@, before + out.take(j as int)),
                decreases row.1@.len() - j,
            {
                let nb = &row.1[j];
                r.push((row.0.clone(), nb.0.clone(), nb.1));
                j = j + 1;
                assert(before + out.take(j as int) =~= (before + out.take(j - 1)).push(out[j - 1]));
            }
            assert(out.take(j as int) =~= out);
            assert(t.take(i + 1).drop_last() =~= t.take(i as int));
            i = i + 1;
        }
        assert(t.take(i as int) =~= t);
        assert(r@.map_values(|e: (String, String, i32)| edge_view(e)) =~= edges_of(t));
        r
    }
}

} // verus!
