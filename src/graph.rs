use vstd::prelude::*;
use vstd::std_specs::cmp::PartialEqSpec;

verus! {

/// One end of an undirected edge, kept in the edge list of the vertex it leaves from.
#[derive(Clone, Copy, Debug, PartialEq, Eq, Structural)]
pub struct EdgeHalf {
    /// Slot of the edge's label in the graph's label table: both halves of one edge share it.
    pub label: usize,
    /// Handle of the vertex at the other end.
    pub neighbor: usize,
}

/// A vertex: its identifier, its optional value and the halves of the edges that touch it.
pub struct Node<I, V> {
    id: I,
    value: Option<V>,
    edges: Vec<EdgeHalf>,
}

/// Why an operation on a graph, or the decoding of one, failed.
#[derive(Clone, Copy, Debug, PartialEq, Eq, Structural)]
pub enum GraphError {
    /// No edge half links the first vertex to the second.
    NotFound,
    /// A traversal was asked for without a start vertex on a graph with no vertices.
    EmptyGraph,
    /// The text holds no `#` between the vertex block and the edge block.
    MissingSeparator,
    /// An edge line holds fewer than two identifiers.
    MalformedEdge,
    /// An edge line names an identifier that no vertex line declares.
    UnknownVertex,
}

/// An undirected graph with labelled edges.
///
/// Vertices live in an arena and are named by their index there (a handle). A handle stays
/// valid for the life of the graph, also once the vertex has left the graph's own sequence.
pub struct Graph<E, I, V> {
    vertices: Vec<Node<I, V>>,
    labels: Vec<Option<E>>,
    nodes: Vec<usize>,
}

/// Position of the first half in `s`, at `from` or after it, whose neighbour is `w`;
/// `s.len()` where there is none.
pub open spec fn first_link(s: Seq<EdgeHalf>, w: usize, from: int) -> int
    decreases s.len() - from,
{
    if from < 0 || from >= s.len() {
        s.len() as int
    } else if s[from].neighbor == w {
        from
    } else {
        first_link(s, w, from + 1)
    }
}

/// The label slots of the halves in `s` that name `w`, in order.
pub open spec fn labels_to(s: Seq<EdgeHalf>, w: usize) -> Seq<usize>
    decreases s.len(),
{
    if s.len() == 0 {
        Seq::empty()
    } else if s.last().neighbor == w {
        labels_to(s.drop_last(), w).push(s.last().label)
    } else {
        labels_to(s.drop_last(), w)
    }
}

/// `l` is made of equal neighbours taken two by two.
pub open spec fn is_doubled(l: Seq<usize>) -> bool {
    &&& l.len() % 2 == 0
    &&& forall|i: int| 0 <= i && 2 * i + 1 < l.len() ==> #[trigger] l[2 * i] == l[2 * i + 1]
}

proof fn lemma_labels_to_concat(x: Seq<EdgeHalf>, y: Seq<EdgeHalf>, w: usize)
    ensures
        labels_to(x + y, w) == labels_to(x, w) + labels_to(y, w),
    decreases y.len(),
{
    if y.len() == 0 {
        assert(x + y =~= x);
        assert(labels_to(x, w) + labels_to(y, w) =~= labels_to(x, w));
    } else {
        lemma_labels_to_concat(x, y.drop_last(), w);
        assert((x + y).drop_last() =~= x + y.drop_last());
        if y.last().neighbor == w {
            assert((labels_to(x, w) + labels_to(y.drop_last(), w)).push(y.last().label) =~= labels_to(x, w)
                + labels_to(y.drop_last(), w).push(y.last().label));
        }
    }
}

proof fn lemma_labels_to_none(s: Seq<EdgeHalf>, w: usize)
    requires
        forall|j: int| 0 <= j < s.len() ==> s[j].neighbor != w,
    ensures
        labels_to(s, w).len() == 0,
    decreases s.len(),
{
    if s.len() > 0 {
        lemma_labels_to_none(s.drop_last(), w);
    }
}

proof fn lemma_labels_to_remove(s: Seq<EdgeHalf>, p: int, w: usize)
    requires
        0 <= p < s.len(),
    ensures
        s[p].neighbor == w ==> labels_to(s.subrange(0, p), w).len() < labels_to(s, w).len()
            && labels_to(s.remove(p), w) == labels_to(s, w).remove(labels_to(s.subrange(0, p), w).len() as int),
        s[p].neighbor != w ==> labels_to(s.remove(p), w) == labels_to(s, w),
{
    let a = s.subrange(0, p);
    let b = s.subrange(p + 1, s.len() as int);
    assert(s =~= a + seq![s[p]] + b);
    assert(s.remove(p) =~= a + b);
    lemma_labels_to_concat(a + seq![s[p]], b, w);
    lemma_labels_to_concat(a, seq![s[p]], w);
    lemma_labels_to_concat(a, b, w);
    assert(seq![s[p]].drop_last() =~= Seq::<EdgeHalf>::empty());
    assert(labels_to(Seq::<EdgeHalf>::empty(), w) == Seq::<usize>::empty());
    assert(seq![s[p]].last() == s[p]);
    if s[p].neighbor == w {
        assert(labels_to(seq![s[p]], w) =~= seq![s[p].label]);
        assert((labels_to(a, w) + seq![s[p].label] + labels_to(b, w)).remove(labels_to(a, w).len() as int)
            =~= labels_to(a, w) + labels_to(b, w));
    } else {
        assert(labels_to(seq![s[p]], w) =~= Seq::<usize>::empty());
        assert(labels_to(a, w) + Seq::<usize>::empty() =~= labels_to(a, w));
    }
}

proof fn lemma_labels_to_push(s: Seq<EdgeHalf>, h: EdgeHalf, w: usize)
    ensures
        labels_to(s.push(h), w) == if h.neighbor == w {
            labels_to(s, w).push(h.label)
        } else {
            labels_to(s, w)
        },
{
    assert(s.push(h).drop_last() =~= s);
}

proof fn lemma_doubled_tail(l: Seq<usize>)
    requires
        is_doubled(l),
        l.len() >= 2,
    ensures
        is_doubled(l.subrange(2, l.len() as int)),
{
    let t = l.subrange(2, l.len() as int);
    assert forall|i: int| 0 <= i && 2 * i + 1 < t.len() implies #[trigger] t[2 * i] == t[2 * i + 1] by {
        assert(t[2 * i] == l[2 * (i + 1)]);
        assert(t[2 * i + 1] == l[2 * (i + 1) + 1]);
    }
}

proof fn lemma_doubled_push_two(l: Seq<usize>, k: usize)
    requires
        is_doubled(l),
    ensures
        is_doubled(l.push(k).push(k)),
{
    let t = l.push(k).push(k);
    assert forall|i: int| 0 <= i && 2 * i + 1 < t.len() implies #[trigger] t[2 * i] == t[2 * i + 1] by {
        if 2 * i + 1 < l.len() {
            assert(t[2 * i] == l[2 * i]);
            assert(t[2 * i + 1] == l[2 * i + 1]);
        }
    }
}

proof fn lemma_first_link_skip(s: Seq<EdgeHalf>, w: usize, from: int, to: int)
    requires
        0 <= from <= to <= s.len(),
        forall|j: int| from <= j < to ==> s[j].neighbor != w,
    ensures
        first_link(s, w, from) == first_link(s, w, to),
    decreases to - from,
{
    if from < to {
        lemma_first_link_skip(s, w, from + 1, to);
    }
}

proof fn lemma_first_link_bounds(s: Seq<EdgeHalf>, w: usize, from: int)
    requires
        0 <= from,
    ensures
        from <= first_link(s, w, from) <= s.len() || (from > s.len() && first_link(s, w, from)
            == s.len()),
        first_link(s, w, from) < s.len() ==> s[first_link(s, w, from)].neighbor == w,
        forall|j: int| from <= j < first_link(s, w, from) ==> s[j].neighbor != w,
    decreases s.len() - from,
{
    if from < s.len() && s[from].neighbor != w {
        lemma_first_link_skip(s, w, from, from + 1);
        lemma_first_link_bounds(s, w, from + 1);
    }
}

/// Distinct handles below `n` are at most `n` in number.
proof fn lemma_distinct_bounded(s: Seq<usize>, n: int)
    requires
        s.no_duplicates(),
        forall|k: int| 0 <= k < s.len() ==> s[k] < n,
    ensures
        s.len() <= if n < 0 { 0 } else { n },
    decreases if n < 0 { 0 } else { n },
{
    if n <= 0 {
        if s.len() > 0 {
            assert(s[0] < n);
        }
    } else if exists|k: int| 0 <= k < s.len() && s[k] == n - 1 {
        let k = choose|k: int| 0 <= k < s.len() && s[k] == n - 1;
        let t = s.remove(k);
        assert forall|a: int, b: int| 0 <= a < t.len() && 0 <= b < t.len() && a != b implies t[a]
            != t[b] by {
            let a1 = if a < k { a } else { a + 1 };
            let b1 = if b < k { b } else { b + 1 };
            assert(t[a] == s[a1] && t[b] == s[b1]);
        }
        assert forall|m: int| 0 <= m < t.len() implies t[m] < n - 1 by {
            let m1 = if m < k { m } else { m + 1 };
            assert(t[m] == s[m1]);
        }
        lemma_distinct_bounded(t, n - 1);
    } else {
        lemma_distinct_bounded(s, n - 1);
    }
}

impl<E, I: PartialEq, V: PartialEq> Graph<E, I, V> {
    /// Number of vertices ever added: every handle below it is valid.
    pub closed spec fn vertex_count(&self) -> nat {
        self.vertices@.len()
    }

    /// The identifier of vertex `v`.
    pub closed spec fn id_of(&self, v: int) -> I {
        self.vertices@[v].id
    }

    /// The value of vertex `v`.
    pub closed spec fn value_of(&self, v: int) -> Option<V> {
        self.vertices@[v].value
    }

    /// The edge list of vertex `v`.
    pub closed spec fn edges_of(&self, v: int) -> Seq<EdgeHalf> {
        self.vertices@[v].edges@
    }

    /// The label table: slot `k` holds the label of the `k`-th edge ever added.
    pub closed spec fn labels_of(&self) -> Seq<Option<E>> {
        self.labels@
    }

    /// The graph's own sequence of vertices, in insertion order.
    pub closed spec fn members(&self) -> Seq<usize> {
        self.nodes@
    }

    /// Every handle that the graph holds names a vertex, and every half names a label slot.
    pub open spec fn wf(&self) -> bool {
        &&& forall|k: int| 0 <= k < self.members().len() ==> self.members()[k] < self.vertex_count()
        &&& forall|v: int, j: int|
            0 <= v < self.vertex_count() && 0 <= j < self.edges_of(v).len() ==> {
                &&& (#[trigger] self.edges_of(v)[j]).neighbor < self.vertex_count()
                &&& self.edges_of(v)[j].label < self.labels_of().len()
            }
        &&& self.slots_owned()
    }

    /// Halves that hold the same label slot join the same two vertices: a slot belongs to
    /// one edge.
    pub open spec fn slots_owned(&self) -> bool {
        forall|v1: int, j1: int, v2: int, j2: int|
            0 <= v1 < self.vertex_count() && 0 <= j1 < self.edges_of(v1).len() && 0 <= v2
                < self.vertex_count() && 0 <= j2 < self.edges_of(v2).len() && (#[trigger] self.edges_of(
                v1,
            )[j1]).label == (#[trigger] self.edges_of(v2)[j2]).label ==> ((v1 == v2
                && self.edges_of(v1)[j1].neighbor == self.edges_of(v2)[j2].neighbor) || (v1
                == self.edges_of(v2)[j2].neighbor && self.edges_of(v1)[j1].neighbor == v2))
    }

    proof fn lemma_add_keeps_slots(&self, before: &Self, label: Option<E>, v1: usize, v2: usize)
        requires
            before.wf(),
            v1 < before.vertex_count(),
            v2 < before.vertex_count(),
            self.is_edge_added(before, label, v1, v2),
        ensures
            self.slots_owned(),
    {
        let k = before.labels_of().len() as usize;
        before.lemma_label_count_fits();
        assert forall|v: int, j: int| 0 <= v < self.vertex_count() && 0 <= j < self.edges_of(v).len() implies
            (j < before.edges_of(v).len() && #[trigger] self.edges_of(v)[j] == before.edges_of(v)[j]) || (
            self.edges_of(v)[j].label == k && ((v == v1 && self.edges_of(v)[j].neighbor == v2) || (v
                == v2 && self.edges_of(v)[j].neighbor == v1))) by {
            let e = before.edges_of(v);
            if v != v1 && v != v2 {
                assert(self.edges_of(v) == e);
            } else if v1 != v2 && v == v1 {
                assert(self.edges_of(v) == e.push(EdgeHalf { label: k, neighbor: v2 }));
            } else if v1 != v2 {
                assert(self.edges_of(v) == e.push(EdgeHalf { label: k, neighbor: v1 }));
            } else {
                let hh = EdgeHalf { label: k, neighbor: v1 };
                assert(self.edges_of(v) == e.push(hh).push(hh));
                if j < e.len() {
                    assert(e.push(hh)[j] == e[j]);
                }
            }
        }
        assert forall|a: int, ja: int, b: int, jb: int|
            0 <= a < self.vertex_count() && 0 <= ja < self.edges_of(a).len() && 0 <= b
                < self.vertex_count() && 0 <= jb < self.edges_of(b).len() && (#[trigger] self.edges_of(
                a,
            )[ja]).label == (#[trigger] self.edges_of(b)[jb]).label implies ((a == b
                && self.edges_of(a)[ja].neighbor == self.edges_of(b)[jb].neighbor) || (a
                == self.edges_of(b)[jb].neighbor && self.edges_of(a)[ja].neighbor == b)) by {
            if ja < before.edges_of(a).len() && self.edges_of(a)[ja] == before.edges_of(a)[ja] {
                assert(before.edges_of(a)[ja].label < k);
            }
            if jb < before.edges_of(b).len() && self.edges_of(b)[jb] == before.edges_of(b)[jb] {
                assert(before.edges_of(b)[jb].label < k);
            }
        }
    }

    /// Two graphs hold the same vertices with the same identifiers and values, and the same labels.
    pub open spec fn same_data(&self, other: &Self) -> bool {
        &&& self.vertex_count() == other.vertex_count()
        &&& forall|v: int| 0 <= v < self.vertex_count() ==> #[trigger] self.id_of(v) == other.id_of(v)
        &&& forall|v: int| 0 <= v < self.vertex_count() ==> #[trigger] self.value_of(v)
            == other.value_of(v)
        &&& self.labels_of() == other.labels_of()
        &&& self.members() == other.members()
    }

    /// Outside the listed vertices, the edge lists of two graphs agree.
    pub open spec fn same_edges_except(&self, other: &Self, a: int, b: int) -> bool {
        forall|v: int| 0 <= v < self.vertex_count() && v != a && v != b
            ==> #[trigger] self.edges_of(v) == other.edges_of(v)
    }

    /// `u` and `v` are the same vertex, or vertices with equal identifiers and equal values.
    pub open spec fn same_vertex(&self, u: usize, v: usize) -> bool {
        u == v || (self.id_of(u as int).eq_spec(&self.id_of(v as int)) && self.value_of(
            u as int,
        ).eq_spec(&self.value_of(v as int)))
    }

    /// Position of the first half in `s`, at `from` or after, whose neighbour is the same
    /// vertex as `w`; `s.len()` where there is none.
    pub open spec fn first_match(&self, s: Seq<EdgeHalf>, w: usize, from: int) -> int
        decreases s.len() - from,
    {
        if from < 0 || from >= s.len() {
            s.len() as int
        } else if self.same_vertex(s[from].neighbor, w) {
            from
        } else {
            self.first_match(s, w, from + 1)
        }
    }

    proof fn lemma_first_match_skip(&self, s: Seq<EdgeHalf>, w: usize, from: int, to: int)
        requires
            0 <= from <= to <= s.len(),
            forall|j: int| from <= j < to ==> !self.same_vertex(#[trigger] s[j].neighbor, w),
        ensures
            self.first_match(s, w, from) == self.first_match(s, w, to),
        decreases to - from,
    {
        if from < to {
            self.lemma_first_match_skip(s, w, from + 1, to);
        }
    }

    proof fn lemma_first_match_bounds(&self, s: Seq<EdgeHalf>, w: usize, from: int)
        requires
            0 <= from,
        ensures
            from <= self.first_match(s, w, from) <= s.len() || (from > s.len() && self.first_match(
                s,
                w,
                from,
            ) == s.len()),
            self.first_match(s, w, from) < s.len() ==> self.same_vertex(
                s[self.first_match(s, w, from)].neighbor,
                w,
            ),
            forall|j: int| from <= j < self.first_match(s, w, from) ==> s[j].neighbor != w,
            forall|j: int| from <= j < self.first_match(s, w, from) ==> !self.same_vertex(
                #[trigger] s[j].neighbor,
                w,
            ),
        decreases s.len() - from,
    {
        if from < s.len() && !self.same_vertex(s[from].neighbor, w) {
            self.lemma_first_match_bounds(s, w, from + 1);
        }
    }

    /// The halves that deleting an edge between `v1` and `v2` would remove name exactly `v2`
    /// and `v1`, not merely vertices equal to them.
    pub open spec fn deletes_named_halves(&self, v1: usize, v2: usize) -> bool {
        let e1 = self.edges_of(v1 as int);
        let e2 = self.edges_of(v2 as int);
        let p1 = self.first_match(e1, v2, 0);
        let p2 = self.first_match(e2, v1, 0);
        let q = self.first_match(e1, v1, p1 + 1);
        &&& p1 < e1.len() ==> e1[p1].neighbor == v2
        &&& (v1 != v2 && p2 < e2.len()) ==> e2[p2].neighbor == v1
        &&& (v1 == v2 && p1 < e1.len() && q < e1.len()) ==> e1[q].neighbor == v1
    }

    /// `self` is `before` with one edge between `v1` and `v2` added: a new label slot holds
    /// `label`, and each end got one half naming the other (a self-loop got two).
    pub open spec fn is_edge_added(&self, before: &Self, label: Option<E>, v1: usize, v2: usize) -> bool {
        let k = before.labels_of().len() as usize;
        &&& self.labels_of() == before.labels_of().push(label)
        &&& self.vertex_count() == before.vertex_count()
        &&& self.members() == before.members()
        &&& forall|v: int| 0 <= v < before.vertex_count() ==> #[trigger] self.id_of(v) == before.id_of(v)
        &&& forall|v: int| 0 <= v < before.vertex_count() ==> #[trigger] self.value_of(v)
            == before.value_of(v)
        &&& self.same_edges_except(before, v1 as int, v2 as int)
        &&& v1 != v2 ==> self.edges_of(v1 as int) == before.edges_of(v1 as int).push(
            EdgeHalf { label: k, neighbor: v2 },
        )
        &&& v1 != v2 ==> self.edges_of(v2 as int) == before.edges_of(v2 as int).push(
            EdgeHalf { label: k, neighbor: v1 },
        )
        &&& v1 == v2 ==> self.edges_of(v1 as int) == before.edges_of(v1 as int).push(
            EdgeHalf { label: k, neighbor: v1 },
        ).push(EdgeHalf { label: k, neighbor: v1 })
    }

    /// The deletion of an edge between `v1` and `v2` from `before` succeeds (`ok`) exactly when
    /// `v1` has a half whose neighbour is the same vertex as `v2`, and `v2` one whose neighbour
    /// is the same vertex as `v1` (for a self-loop, two such halves of `v1`). On success `self` is `before` without the first such halves; on failure
    /// it is `before` itself.
    pub open spec fn is_edge_deleted(&self, before: &Self, v1: usize, v2: usize, ok: bool) -> bool {
        let e1 = before.edges_of(v1 as int);
        let e2 = before.edges_of(v2 as int);
        let p1 = before.first_match(e1, v2, 0);
        let p2 = before.first_match(e2, v1, 0);
        let q = before.first_match(e1, v1, p1 + 1);
        &&& v1 != v2 ==> (ok <==> p1 < e1.len() && p2 < e2.len())
        &&& v1 == v2 ==> (ok <==> p1 < e1.len() && q < e1.len())
        &&& ok ==> self.same_data(before)
        &&& ok ==> self.same_edges_except(before, v1 as int, v2 as int)
        &&& (ok && v1 != v2) ==> self.edges_of(v1 as int) == e1.remove(p1) && self.edges_of(
            v2 as int,
        ) == e2.remove(p2)
        &&& (ok && v1 == v2) ==> self.edges_of(v1 as int) == e1.remove(q).remove(p1)
        &&& !ok ==> *self == *before
    }

    /// Edge symmetry: for any two distinct vertices `a` and `b`, the halves of `a` that name
    /// `b` carry the same label slots, in the same order, as the halves of `b` that name `a`;
    /// and the halves of a vertex that name itself come in pairs with the same slot.
    pub open spec fn is_symmetric(&self) -> bool {
        &&& forall|a: usize, b: usize|
            a < self.vertex_count() && b < self.vertex_count() && a != b ==> #[trigger] labels_to(
                self.edges_of(a as int),
                b,
            ) == #[trigger] labels_to(self.edges_of(b as int), a)
        &&& forall|a: usize| a < self.vertex_count() ==> is_doubled(
            #[trigger] labels_to(self.edges_of(a as int), a),
        )
    }

    proof fn lemma_add_keeps_symmetry(&self, before: &Self, label: Option<E>, v1: usize, v2: usize)
        requires
            before.wf(),
            before.is_symmetric(),
            v1 < before.vertex_count(),
            v2 < before.vertex_count(),
            self.is_edge_added(before, label, v1, v2),
        ensures
            self.is_symmetric(),
    {
        let k = before.labels_of().len() as usize;
        let h1 = EdgeHalf { label: k, neighbor: v2 };
        let h2 = EdgeHalf { label: k, neighbor: v1 };
        assert forall|x: usize, w: usize| x < self.vertex_count() implies #[trigger] labels_to(
            self.edges_of(x as int),
            w,
        ) == labels_to(before.edges_of(x as int), w) + if v1 != v2 && ((x == v1 && w == v2) || (x == v2
            && w == v1)) {
            seq![k]
        } else if v1 == v2 && x == v1 && w == v1 {
            seq![k, k]
        } else {
            Seq::<usize>::empty()
        } by {
            let e = before.edges_of(x as int);
            if x != v1 && x != v2 {
                assert(self.edges_of(x as int) == e);
                assert(labels_to(e, w) + Seq::<usize>::empty() =~= labels_to(e, w));
            } else if v1 != v2 && x == v1 {
                lemma_labels_to_push(e, h1, w);
                if w == v2 {
                    assert(labels_to(e, w).push(k) =~= labels_to(e, w) + seq![k]);
                } else {
                    assert(labels_to(e, w) + Seq::<usize>::empty() =~= labels_to(e, w));
                }
            } else if v1 != v2 {
                lemma_labels_to_push(e, h2, w);
                if w == v1 {
                    assert(labels_to(e, w).push(k) =~= labels_to(e, w) + seq![k]);
                } else {
                    assert(labels_to(e, w) + Seq::<usize>::empty() =~= labels_to(e, w));
                }
            } else {
                lemma_labels_to_push(e, h2, w);
                lemma_labels_to_push(e.push(h2), h2, w);
                if w == v1 {
                    assert(labels_to(e, w).push(k).push(k) =~= labels_to(e, w) + seq![k, k]);
                } else {
                    assert(labels_to(e, w) + Seq::<usize>::empty() =~= labels_to(e, w));
                }
            }
        }
        assert forall|a: usize| a < self.vertex_count() implies is_doubled(
            #[trigger] labels_to(self.edges_of(a as int), a),
        ) by {
            let l = labels_to(before.edges_of(a as int), a);
            assert(is_doubled(l));
            if v1 == v2 && a == v1 {
                assert(l + seq![k, k] =~= l.push(k).push(k));
                lemma_doubled_push_two(l, k);
            } else {
                assert(l + Seq::<usize>::empty() =~= l);
            }
        }
    }

    proof fn lemma_delete_keeps_symmetry(&self, before: &Self, v1: usize, v2: usize, ok: bool)
        requires
            before.wf(),
            before.is_symmetric(),
            before.deletes_named_halves(v1, v2),
            v1 < before.vertex_count(),
            v2 < before.vertex_count(),
            self.is_edge_deleted(before, v1, v2, ok),
        ensures
            self.is_symmetric(),
    {
        if ok {
            let e1 = before.edges_of(v1 as int);
            let e2 = before.edges_of(v2 as int);
            let p1 = before.first_match(e1, v2, 0);
            let p2 = before.first_match(e2, v1, 0);
            before.lemma_first_match_bounds(e1, v2, 0);
            before.lemma_first_match_bounds(e2, v1, 0);
            lemma_first_link_skip(e1, v2, 0, p1);
            lemma_first_link_bounds(e1, v2, 0);
            if v1 != v2 {
                lemma_first_link_skip(e2, v1, 0, p2);
                lemma_first_link_bounds(e2, v1, 0);
            }
            lemma_labels_to_none(e1.subrange(0, p1), v2);
            lemma_labels_to_none(e2.subrange(0, p2), v1);
            if v1 != v2 {
                assert forall|x: usize, w: usize| x < self.vertex_count() implies #[trigger] labels_to(
                    self.edges_of(x as int),
                    w,
                ) == if (x == v1 && w == v2) || (x == v2 && w == v1) {
                    labels_to(before.edges_of(x as int), w).drop_first()
                } else {
                    labels_to(before.edges_of(x as int), w)
                } by {
                    if x == v1 {
                        lemma_labels_to_remove(e1, p1, w);
                    } else if x == v2 {
                        lemma_labels_to_remove(e2, p2, w);
                    } else {
                        assert(self.edges_of(x as int) == before.edges_of(x as int));
                    }
                    if (x == v1 && w == v2) || (x == v2 && w == v1) {
                        let l = labels_to(before.edges_of(x as int), w);
                        assert(l.remove(0) =~= l.drop_first());
                    }
                }
                assert forall|a: usize| a < self.vertex_count() implies is_doubled(
                    #[trigger] labels_to(self.edges_of(a as int), a),
                ) by {
                    assert(is_doubled(labels_to(before.edges_of(a as int), a)));
                }
                assert forall|a: usize, b: usize|
                    a < self.vertex_count() && b < self.vertex_count() && a != b implies #[trigger] labels_to(
                    self.edges_of(a as int),
                    b,
                ) == #[trigger] labels_to(self.edges_of(b as int), a) by {
                    assert(labels_to(before.edges_of(a as int), b) == labels_to(before.edges_of(b as int), a));
                }
            } else {
                let q = before.first_match(e1, v1, p1 + 1);
                before.lemma_first_match_bounds(e1, v1, p1 + 1);
                let l = labels_to(e1, v1);
                let f = e1.remove(q);
                assert(e1.subrange(0, q) =~= e1.subrange(0, p1) + seq![e1[p1]] + e1.subrange(p1 + 1, q));
                lemma_labels_to_none(e1.subrange(p1 + 1, q), v1);
                lemma_labels_to_concat(e1.subrange(0, p1) + seq![e1[p1]], e1.subrange(p1 + 1, q), v1);
                lemma_labels_to_concat(e1.subrange(0, p1), seq![e1[p1]], v1);
                lemma_labels_to_push(Seq::<EdgeHalf>::empty(), e1[p1], v1);
                assert(seq![e1[p1]] =~= Seq::<EdgeHalf>::empty().push(e1[p1]));
                assert(labels_to(e1.subrange(0, q), v1).len() == 1);
                assert(f.subrange(0, p1) =~= e1.subrange(0, p1));
                assert(f[p1] == e1[p1]);
                lemma_labels_to_remove(e1, q, v1);
                assert(l.len() >= 2);
                assert forall|w: usize| #[trigger] labels_to(self.edges_of(v1 as int), w) == if w == v1 {
                    l.subrange(2, l.len() as int)
                } else {
                    labels_to(e1, w)
                } by {
                    lemma_labels_to_remove(e1, q, w);
                    lemma_labels_to_remove(f, p1, w);
                    if w == v1 {
                        assert(l.remove(1).remove(0) =~= l.subrange(2, l.len() as int));
                    }
                }
                assert forall|a: usize| a < self.vertex_count() implies is_doubled(
                    #[trigger] labels_to(self.edges_of(a as int), a),
                ) by {
                    assert(is_doubled(labels_to(before.edges_of(a as int), a)));
                    if a == v1 {
                        lemma_doubled_tail(l);
                    } else {
                        assert(self.edges_of(a as int) == before.edges_of(a as int));
                    }
                }
                assert forall|a: usize, b: usize|
                    a < self.vertex_count() && b < self.vertex_count() && a != b implies #[trigger] labels_to(
                    self.edges_of(a as int),
                    b,
                ) == #[trigger] labels_to(self.edges_of(b as int), a) by {
                    assert(labels_to(before.edges_of(a as int), b) == labels_to(before.edges_of(b as int), a));
                    if a != v1 {
                        assert(self.edges_of(a as int) == before.edges_of(a as int));
                    }
                    if b != v1 {
                        assert(self.edges_of(b as int) == before.edges_of(b as int));
                    }
                }
            }
        }
    }

    /// An empty graph.
    pub fn new() -> (g: Self)
        ensures
            g.wf(),
            g.is_symmetric(),
            g.vertex_count() == 0,
            g.members().len() == 0,
            g.labels_of().len() == 0,
    {
        Graph { vertices: Vec::new(), labels: Vec::new(), nodes: Vec::new() }
    }

    /// Appends a vertex with no edges to the arena and to the graph's sequence, and returns
    /// its handle. Identifiers need not be unique.
    pub fn add_vertex(&mut self, id: I, value: Option<V>) -> (h: usize)
        requires
            old(self).wf(),
        ensures
            final(self).wf(),
            h == old(self).vertex_count(),
            final(self).vertex_count() == old(self).vertex_count() + 1,
            final(self).id_of(h as int) == id,
            final(self).value_of(h as int) == value,
            final(self).edges_of(h as int).len() == 0,
            forall|v: int| 0 <= v < old(self).vertex_count() ==> #[trigger] final(self).id_of(v)
                == old(self).id_of(v),
            forall|v: int| 0 <= v < old(self).vertex_count() ==> #[trigger] final(self).value_of(v)
                == old(self).value_of(v),
            forall|v: int| 0 <= v < old(self).vertex_count() ==> #[trigger] final(self).edges_of(v)
                == old(self).edges_of(v),
            final(self).labels_of() == old(self).labels_of(),
            final(self).members() == old(self).members().push(h),
            old(self).is_symmetric() ==> final(self).is_symmetric(),
    {
        let h = self.vertices.len();
        self.vertices.push(Node { id, value, edges: Vec::new() });
        self.nodes.push(h);
        assert forall|v: int, j: int|
            0 <= v < self.vertex_count() && 0 <= j < self.edges_of(v).len() implies
            (#[trigger] self.edges_of(v)[j]).neighbor < self.vertex_count()
                && self.edges_of(v)[j].label < self.labels_of().len() by {
            if v < h {
                assert(self.edges_of(v) == old(self).edges_of(v));
            }
        }
        assert forall|k: int| 0 <= k < self.members().len() implies self.members()[k]
            < self.vertex_count() by {
            if k < old(self).members().len() {
                assert(self.members()[k] == old(self).members()[k]);
            }
        }
        assert forall|v: int| 0 <= v < self.vertex_count() implies #[trigger] self.edges_of(v)
            == if v < h { old(self).edges_of(v) } else { Seq::<EdgeHalf>::empty() } by {
            if v == h {
                assert(self.edges_of(v) =~= Seq::<EdgeHalf>::empty());
            }
        }
        assert(self.slots_owned());
        proof {
            if old(self).is_symmetric() {
                assert(labels_to(Seq::<EdgeHalf>::empty(), h) == Seq::<usize>::empty());
                assert forall|v: usize, w: usize| v < self.vertex_count() && (v == h || w == h) implies
                    (#[trigger] labels_to(self.edges_of(v as int), w)).len() == 0 by {
                    if v == h {
                        assert(self.edges_of(v as int) =~= Seq::<EdgeHalf>::empty());
                        lemma_labels_to_none(self.edges_of(v as int), w);
                    } else {
                        assert(self.edges_of(v as int) == old(self).edges_of(v as int));
                        assert forall|j: int| 0 <= j < self.edges_of(v as int).len() implies
                            self.edges_of(v as int)[j].neighbor != w by {
                            assert(old(self).edges_of(v as int)[j].neighbor < old(self).vertex_count());
                        }
                        lemma_labels_to_none(self.edges_of(v as int), w);
                    }
                }
                assert forall|a: usize, b: usize|
                    a < self.vertex_count() && b < self.vertex_count() && a != b implies #[trigger] labels_to(
                    self.edges_of(a as int),
                    b,
                ) == #[trigger] labels_to(self.edges_of(b as int), a) by {
                    if a != h && b != h {
                        assert(self.edges_of(a as int) == old(self).edges_of(a as int));
                        assert(self.edges_of(b as int) == old(self).edges_of(b as int));
                    } else {
                        assert(labels_to(self.edges_of(a as int), b) =~= labels_to(self.edges_of(b as int), a));
                    }
                }
                assert forall|a: usize| a < self.vertex_count() implies is_doubled(
                    #[trigger] labels_to(self.edges_of(a as int), a),
                ) by {
                    if a != h {
                        assert(self.edges_of(a as int) == old(self).edges_of(a as int));
                    }
                }
            }
        }
        h
    }

    /// Removes the first entry of the graph's sequence that is `v`, and says whether there was
    /// one. The vertex stays in the arena, and edges that name it are left as they are.
    pub fn delete_vertex(&mut self, v: usize) -> (found: bool)
        requires
            old(self).wf(),
        ensures
            final(self).wf(),
            found == old(self).members().contains(v),
            found ==> exists|k: int|
                0 <= k < old(self).members().len() && old(self).members()[k] == v
                    && (forall|j: int| 0 <= j < k ==> old(self).members()[j] != v)
                    && final(self).members() == old(self).members().remove(k),
            !found ==> final(self).members() == old(self).members(),
            old(self).is_symmetric() ==> final(self).is_symmetric(),
            final(self).vertex_count() == old(self).vertex_count(),
            forall|u: int| 0 <= u < old(self).vertex_count() ==> #[trigger] final(self).id_of(u)
                == old(self).id_of(u),
            forall|u: int| 0 <= u < old(self).vertex_count() ==> #[trigger] final(self).value_of(u)
                == old(self).value_of(u),
            forall|u: int| 0 <= u < old(self).vertex_count() ==> #[trigger] final(self).edges_of(u)
                == old(self).edges_of(u),
            final(self).labels_of() == old(self).labels_of(),
    {
        let mut k: usize = 0;
        while k < self.nodes.len()
            invariant
                0 <= k <= self.nodes@.len(),
                *self == *old(self),
                old(self).wf(),
                forall|j: int| 0 <= j < k ==> self.nodes@[j] != v,
            decreases self.nodes@.len() - k,
        {
            if self.nodes[k] == v {
                self.nodes.remove(k);
                assert(old(self).members()[k as int] == v);
                assert forall|m: int| 0 <= m < self.members().len() implies self.members()[m]
                    < self.vertex_count() by {
                    if m < k {
                        assert(self.members()[m] == old(self).members()[m]);
                    } else {
                        assert(self.members()[m] == old(self).members()[m + 1]);
                    }
                }
                assert(forall|u: int| #[trigger] self.edges_of(u) == old(self).edges_of(u));
                assert(self.wf());
                assert(forall|a: usize, b: usize| #[trigger] labels_to(self.edges_of(a as int), b) == labels_to(old(self).edges_of(a as int), b));
                return true;
            }
            k = k + 1;
        }
        false
    }

    /// Adds an edge between `v1` and `v2`: a new label slot holds `label`, a half naming `v2`
    /// is appended to the edge list of `v1`, then a half naming `v1` to that of `v2`. A self-loop
    /// puts both halves on the one vertex.
    pub fn add_edge(&mut self, label: Option<E>, v1: usize, v2: usize)
        requires
            old(self).wf(),
            v1 < old(self).vertex_count(),
            v2 < old(self).vertex_count(),
        ensures
            final(self).wf(),
            final(self).is_edge_added(old(self), label, v1, v2),
            old(self).is_symmetric() ==> final(self).is_symmetric(),
    {
        let k = self.labels.len();
        self.labels.push(label);
        self.vertices[v1].edges.push(EdgeHalf { label: k, neighbor: v2 });
        self.vertices[v2].edges.push(EdgeHalf { label: k, neighbor: v1 });
        assert forall|v: int, j: int|
            0 <= v < self.vertex_count() && 0 <= j < self.edges_of(v).len() implies
            (#[trigger] self.edges_of(v)[j]).neighbor < self.vertex_count()
                && self.edges_of(v)[j].label < self.labels_of().len() by {
            if v != v1 && v != v2 {
                assert(self.edges_of(v) == old(self).edges_of(v));
            } else if v == v1 && v1 != v2 {
                assert(self.edges_of(v) == old(self).edges_of(v).push(EdgeHalf { label: k, neighbor: v2 }));
                if j < old(self).edges_of(v).len() {
                    assert(self.edges_of(v)[j] == old(self).edges_of(v)[j]);
                }
            } else if v == v2 && v1 != v2 {
                assert(self.edges_of(v) == old(self).edges_of(v).push(EdgeHalf { label: k, neighbor: v1 }));
                if j < old(self).edges_of(v).len() {
                    assert(self.edges_of(v)[j] == old(self).edges_of(v)[j]);
                }
            } else {
                if j < old(self).edges_of(v).len() {
                    assert(self.edges_of(v)[j] == old(self).edges_of(v)[j]);
                }
            }
        }
        assert(self.members() == old(self).members());
        proof {
            let lab = self.labels_of()[k as int];
            assert(self.labels_of() =~= old(self).labels_of().push(lab));
            assert(self.is_edge_added(old(self), lab, v1, v2));
            self.lemma_add_keeps_slots(old(self), lab, v1, v2);
            if old(self).is_symmetric() {
                self.lemma_add_keeps_symmetry(old(self), lab, v1, v2);
            }
        }
        assert(self.wf());
    }

    /// Whether `u` and `v` are the same vertex, or have equal identifiers and equal values.
    fn same_vertex_exec(&self, u: usize, v: usize) -> (r: bool)
        requires
            u < self.vertex_count(),
            v < self.vertex_count(),
            I::obeys_eq_spec(),
            V::obeys_eq_spec(),
        ensures
            r == self.same_vertex(u, v),
    {
        if u == v {
            return true;
        }
        let a = &self.vertices[u];
        let b = &self.vertices[v];
        a.id.eq(&b.id) && a.value.eq(&b.value)
    }

    /// Position of the first half of `v1`'s edge list, at `from` or after, whose neighbour is
    /// the same vertex as `v2`.
    fn find_link(&self, v1: usize, v2: usize, from: usize) -> (r: Result<usize, GraphError>)
        requires
            self.wf(),
            v1 < self.vertex_count(),
            v2 < self.vertex_count(),
            I::obeys_eq_spec(),
            V::obeys_eq_spec(),
        ensures
            match r {
                Ok(p) => p == self.first_match(self.edges_of(v1 as int), v2, from as int) && p
                    < self.edges_of(v1 as int).len(),
                Err(e) => e == GraphError::NotFound && self.first_match(
                    self.edges_of(v1 as int),
                    v2,
                    from as int,
                ) == self.edges_of(v1 as int).len(),
            },
    {
        let edges = &self.vertices[v1].edges;
        if from >= edges.len() {
            return Err(GraphError::NotFound);
        }
        let mut i: usize = from;
        while i < edges.len()
            invariant
                self.wf(),
                v1 < self.vertex_count(),
                v2 < self.vertex_count(),
                I::obeys_eq_spec(),
                V::obeys_eq_spec(),
                from <= i <= edges@.len(),
                edges@ == self.edges_of(v1 as int),
                forall|j: int| from <= j < i ==> !self.same_vertex(#[trigger] edges@[j].neighbor, v2),
            decreases edges@.len() - i,
        {
            assert(edges@[i as int] == self.edges_of(v1 as int)[i as int]);
            if self.same_vertex_exec(edges[i].neighbor, v2) {
                proof {
                    self.lemma_first_match_skip(edges@, v2, from as int, i as int);
                }
                return Ok(i);
            }
            i = i + 1;
        }
        proof {
            self.lemma_first_match_skip(edges@, v2, from as int, i as int);
        }
        Err(GraphError::NotFound)
    }

    /// Deletes one edge between `v1` and `v2`: the half that `check_edge(v1, v2)` finds and
    /// the one that `check_edge(v2, v1)` finds (for a self-loop, the first two halves of `v1`
    /// whose neighbour is the same vertex as `v1`). Both halves are found before either list
    /// changes; where one is missing the call fails with `NotFound` and leaves the graph as it
    /// was. Symmetry is kept where those halves name `v2` and `v1` themselves.
    pub fn delete_edge(&mut self, v1: usize, v2: usize) -> (r: Result<(), GraphError>)
        requires
            old(self).wf(),
            v1 < old(self).vertex_count(),
            v2 < old(self).vertex_count(),
            I::obeys_eq_spec(),
            V::obeys_eq_spec(),
        ensures
            final(self).wf(),
            final(self).is_edge_deleted(old(self), v1, v2, r is Ok),
            r is Err ==> r == Err::<(), GraphError>(GraphError::NotFound),
            old(self).is_symmetric() && old(self).deletes_named_halves(v1, v2)
                ==> final(self).is_symmetric(),
    {
        let p1 = match self.check_edge(v1, v2) {
            Ok(p) => p,
            Err(e) => return Err(e),
        };
        proof {
            self.lemma_first_match_bounds(self.edges_of(v1 as int), v2, 0);
        }
        if v1 != v2 {
            let p2 = match self.check_edge(v2, v1) {
                Ok(p) => p,
                Err(e) => return Err(e),
            };
            self.vertices[v1].edges.remove(p1);
            self.vertices[v2].edges.remove(p2);
        } else {
            let n1 = self.vertices[v1].edges.len();
            assert(p1 < n1);
            let q = match self.find_link(v1, v1, p1 + 1) {
                Ok(p) => p,
                Err(e) => return Err(e),
            };
            proof {
                self.lemma_first_match_bounds(self.edges_of(v1 as int), v1, p1 + 1);
            }
            self.vertices[v1].edges.remove(q);
            self.vertices[v1].edges.remove(p1);
        }
        proof {
            self.lemma_removal_keeps_wf(old(self), v1 as int, v2 as int);
            if old(self).is_symmetric() && old(self).deletes_named_halves(v1, v2) {
                assert(self.is_edge_deleted(old(self), v1, v2, true));
                self.lemma_delete_keeps_symmetry(old(self), v1, v2, true);
            }
        }
        Ok(())
    }

    proof fn lemma_removal_keeps_wf(&self, before: &Self, a: int, b: int)
        requires
            before.wf(),
            self.same_data(before),
            self.same_edges_except(before, a, b),
            forall|j: int| 0 <= j < self.edges_of(a).len() ==> exists|i: int|
                0 <= i < before.edges_of(a).len() && #[trigger] self.edges_of(a)[j]
                    == before.edges_of(a)[i],
            forall|j: int| 0 <= j < self.edges_of(b).len() ==> exists|i: int|
                0 <= i < before.edges_of(b).len() && #[trigger] self.edges_of(b)[j]
                    == before.edges_of(b)[i],
            0 <= a < before.vertex_count(),
            0 <= b < before.vertex_count(),
        ensures
            self.wf(),
    {
        assert forall|v: int, j: int|
            0 <= v < self.vertex_count() && 0 <= j < self.edges_of(v).len() implies
            (#[trigger] self.edges_of(v)[j]).neighbor < self.vertex_count()
                && self.edges_of(v)[j].label < self.labels_of().len() by {
            if v != a && v != b {
                assert(self.edges_of(v) == before.edges_of(v));
            } else if v == a {
                let i = choose|i: int|
                    0 <= i < before.edges_of(a).len() && self.edges_of(a)[j]
                        == before.edges_of(a)[i];
                assert(before.edges_of(v)[i].neighbor < before.vertex_count());
            } else {
                let i = choose|i: int|
                    0 <= i < before.edges_of(b).len() && self.edges_of(b)[j]
                        == before.edges_of(b)[i];
                assert(before.edges_of(v)[i].neighbor < before.vertex_count());
            }
        }
        assert forall|x: int, j: int| 0 <= x < self.vertex_count() && 0 <= j < self.edges_of(x).len() implies
            exists|i: int| 0 <= i < before.edges_of(x).len() && #[trigger] self.edges_of(x)[j]
                == before.edges_of(x)[i] by {
            if x != a && x != b {
                assert(self.edges_of(x) == before.edges_of(x));
                assert(self.edges_of(x)[j] == before.edges_of(x)[j]);
            } else if x == a {
                let e = self.edges_of(a)[j];
                let i = choose|i: int| 0 <= i < before.edges_of(a).len() && e == before.edges_of(a)[i];
                assert(self.edges_of(x)[j] == before.edges_of(x)[i]);
            } else {
                let e = self.edges_of(b)[j];
                let i = choose|i: int| 0 <= i < before.edges_of(b).len() && e == before.edges_of(b)[i];
                assert(self.edges_of(x)[j] == before.edges_of(x)[i]);
            }
        }
        assert forall|x: int, jx: int, y: int, jy: int|
            0 <= x < self.vertex_count() && 0 <= jx < self.edges_of(x).len() && 0 <= y
                < self.vertex_count() && 0 <= jy < self.edges_of(y).len() && (#[trigger] self.edges_of(
                x,
            )[jx]).label == (#[trigger] self.edges_of(y)[jy]).label implies ((x == y
                && self.edges_of(x)[jx].neighbor == self.edges_of(y)[jy].neighbor) || (x
                == self.edges_of(y)[jy].neighbor && self.edges_of(x)[jx].neighbor == y)) by {
            let ix = choose|i: int| 0 <= i < before.edges_of(x).len() && self.edges_of(x)[jx]
                == before.edges_of(x)[i];
            let iy = choose|i: int| 0 <= i < before.edges_of(y).len() && self.edges_of(y)[jy]
                == before.edges_of(y)[i];
            assert(before.edges_of(x)[ix].label == before.edges_of(y)[iy].label);
        }
    }

    /// Some half of `u`'s edge list names `v`.
    pub open spec fn linked(&self, u: usize, v: usize) -> bool {
        exists|j: int| 0 <= j < self.edges_of(u as int).len() && #[trigger] self.edges_of(
            u as int,
        )[j].neighbor == v
    }

    /// `v` can be reached from `s` by following at most `n` halves.
    pub open spec fn reachable_within(&self, s: usize, v: usize, n: nat) -> bool
        decreases n,
    {
        if n == 0 {
            v == s
        } else {
            self.reachable_within(s, v, (n - 1) as nat) || exists|u: usize|
                self.reachable_within(s, u, (n - 1) as nat) && #[trigger] self.linked(u, v)
        }
    }

    /// `v` can be reached from `s` by following halves.
    pub open spec fn reachable(&self, s: usize, v: usize) -> bool {
        exists|n: nat| self.reachable_within(s, v, n)
    }

    /// Where a traversal starts: the given vertex, else the first of the graph's sequence.
    pub open spec fn bfs_seed(&self, start: Option<usize>) -> usize {
        match start {
            Some(v) => v,
            None => self.members()[0],
        }
    }

    /// Some vertex named before position `k` of `q` has a half naming `q[k]`.
    pub open spec fn reached_earlier(&self, q: Seq<usize>, k: int) -> bool {
        exists|p: int| 0 <= p < k && #[trigger] self.linked(q[p], q[k])
    }

    /// Position of the first vertex of `q`, at `p` or after, with a half naming `q[k]`;
    /// `q.len()` where there is none.
    pub open spec fn first_linker(&self, q: Seq<usize>, k: int, p: int) -> int
        decreases q.len() - p,
    {
        if p < 0 || p >= q.len() {
            q.len() as int
        } else if self.linked(q[p], q[k]) {
            p
        } else {
            self.first_linker(q, k, p + 1)
        }
    }

    proof fn lemma_first_linker_is(&self, q: Seq<usize>, k: int, p: int, from: int)
        requires
            0 <= from <= p < q.len(),
            self.linked(q[p], q[k]),
            forall|t: int| from <= t < p ==> !#[trigger] self.linked(q[t], q[k]),
        ensures
            self.first_linker(q, k, from) == p,
        decreases p - from,
    {
        if from < p {
            self.lemma_first_linker_is(q, k, p, from + 1);
        }
    }

    /// What a breadth-first visit order `q` from `s` satisfies: it starts at `s`, names no
    /// vertex twice, reaches each later vertex through a half of an earlier one, and names
    /// every neighbour of every vertex it names. It goes layer by layer: the first vertex
    /// that links to a later entry never comes before the one that links to an earlier entry;
    /// and entries first linked from one vertex come in the order of that vertex's edge list.
    pub open spec fn is_visit_order(&self, s: usize, q: Seq<usize>) -> bool {
        &&& q.len() >= 1
        &&& q[0] == s
        &&& q.no_duplicates()
        &&& forall|k: int| 0 <= k < q.len() ==> q[k] < self.vertex_count()
        &&& forall|k: int| 1 <= k < q.len() ==> #[trigger] self.reached_earlier(q, k)
        &&& forall|k: int| 1 <= k < q.len() ==> #[trigger] self.first_linker(q, k, 0) < k
        &&& forall|k1: int, k2: int| 1 <= k1 < k2 < q.len() ==> #[trigger] self.first_linker(q, k1, 0)
            <= #[trigger] self.first_linker(q, k2, 0)
        &&& forall|k1: int, k2: int|
            1 <= k1 < k2 < q.len() && #[trigger] self.first_linker(q, k1, 0) == #[trigger] self.first_linker(
                q,
                k2,
                0,
            ) ==> first_link(self.edges_of(q[self.first_linker(q, k1, 0)] as int), q[k1], 0)
                < first_link(self.edges_of(q[self.first_linker(q, k1, 0)] as int), q[k2], 0)
        &&& forall|k: int, j: int|
            0 <= k < q.len() && 0 <= j < self.edges_of(q[k] as int).len() ==> q.contains(
                #[trigger] self.edges_of(q[k] as int)[j].neighbor,
            )
    }

    /// Breadth-first traversal from `start`, or from the first vertex of the graph's sequence.
    /// Returns the handles in visit order; fails with `EmptyGraph` when there is neither.
    pub fn bfs(&self, start: Option<usize>) -> (r: Result<Vec<usize>, GraphError>)
        requires
            self.wf(),
            start matches Some(v) ==> v < self.vertex_count(),
        ensures
            r is Err <==> start is None && self.members().len() == 0,
            r is Err ==> r == Err::<Vec<usize>, GraphError>(GraphError::EmptyGraph),
            r matches Ok(q) ==> self.is_visit_order(self.bfs_seed(start), q@),
    {
        let s = match start {
            Some(v) => v,
            None => {
                if self.nodes.len() == 0 {
                    return Err(GraphError::EmptyGraph);
                }
                assert(self.members()[0] < self.vertex_count());
                self.nodes[0]
            },
        };
        let n = self.vertices.len();
        let mut seen: Vec<bool> = vec![false; n];
        seen[s] = true;
        let mut queue: Vec<usize> = Vec::new();
        queue.push(s);
        let ghost mut parent: Seq<int> = seq![0int];
        assert forall|v: int| 0 <= v < n implies (seen@[v] <==> queue@.contains(v as usize)) by {
            if v == s {
                assert(queue@[0] == s);
            }
            if queue@.contains(v as usize) {
                assert(queue@[0] == v);
            }
        }
        let mut i: usize = 0;
        while i < queue.len()
            invariant
                self.wf(),
                n == self.vertex_count(),
                s < n,
                s == self.bfs_seed(start),
                seen@.len() == n,
                forall|v: int| 0 <= v < n ==> (seen@[v] <==> queue@.contains(v as usize)),
                queue@.len() >= 1,
                queue@[0] == s,
                queue@.no_duplicates(),
                forall|k: int| 0 <= k < queue@.len() ==> queue@[k] < n,
                parent.len() == queue@.len(),
                forall|k: int| 1 <= k < queue@.len() ==> 0 <= #[trigger] parent[k] < k && self.linked(queue@[parent[k]], queue@[k]),
                forall|k: int, t: int| 1 <= k < queue@.len() && 0 <= t < parent[k] ==> !#[trigger] self.linked(queue@[t], queue@[k]),
                forall|k1: int, k2: int| 1 <= k1 < k2 < queue@.len() ==> #[trigger] parent[k1] <= #[trigger] parent[k2],
                forall|k: int| 1 <= k < queue@.len() ==> #[trigger] parent[k] < i,
                forall|k1: int, k2: int| 1 <= k1 < k2 < queue@.len() && #[trigger] parent[k1] == #[trigger] parent[k2]
                    ==> first_link(self.edges_of(queue@[parent[k1]] as int), queue@[k1], 0)
                    < first_link(self.edges_of(queue@[parent[k1]] as int), queue@[k2], 0),
                i <= queue@.len(),
                forall|k: int, j: int|
                    0 <= k < i && 0 <= j < self.edges_of(queue@[k] as int).len() ==> queue@.contains(
                        #[trigger] self.edges_of(queue@[k] as int)[j].neighbor,
                    ),
            decreases n - i,
        {
            proof {
                lemma_distinct_bounded(queue@, n as int);
            }
            let u = queue[i];
            let edges = &self.vertices[u].edges;
            let mut j: usize = 0;
            while j < edges.len()
                invariant
                    self.wf(),
                    n == self.vertex_count(),
                    u < n,
                    i < queue@.len(),
                    queue@[i as int] == u,
                    edges@ == self.edges_of(u as int),
                    seen@.len() == n,
                    forall|v: int| 0 <= v < n ==> (seen@[v] <==> queue@.contains(v as usize)),
                    queue@.len() >= 1,
                    queue@[0] == s,
                    queue@.no_duplicates(),
                    forall|k: int| 0 <= k < queue@.len() ==> queue@[k] < n,
                    parent.len() == queue@.len(),
                forall|k: int| 1 <= k < queue@.len() ==> 0 <= #[trigger] parent[k] < k && self.linked(queue@[parent[k]], queue@[k]),
                forall|k: int, t: int| 1 <= k < queue@.len() && 0 <= t < parent[k] ==> !#[trigger] self.linked(queue@[t], queue@[k]),
                forall|k1: int, k2: int| 1 <= k1 < k2 < queue@.len() ==> #[trigger] parent[k1] <= #[trigger] parent[k2],
                forall|k: int| 1 <= k < queue@.len() ==> #[trigger] parent[k] <= i,
                forall|k: int| 1 <= k < queue@.len() && #[trigger] parent[k] == i ==> first_link(
                    edges@,
                    queue@[k],
                    0,
                ) < j,
                forall|k1: int, k2: int| 1 <= k1 < k2 < queue@.len() && #[trigger] parent[k1] == #[trigger] parent[k2]
                    ==> first_link(self.edges_of(queue@[parent[k1]] as int), queue@[k1], 0)
                    < first_link(self.edges_of(queue@[parent[k1]] as int), queue@[k2], 0),
                    forall|k: int, m: int|
                        0 <= k < i && 0 <= m < self.edges_of(queue@[k] as int).len() ==> queue@.contains(
                            #[trigger] self.edges_of(queue@[k] as int)[m].neighbor,
                        ),
                    forall|m: int| 0 <= m < j ==> queue@.contains(#[trigger] edges@[m].neighbor),
                    j <= edges@.len(),
                decreases edges@.len() - j,
            {
                let w = edges[j].neighbor;
                assert(self.edges_of(u as int)[j as int].neighbor == w);
                if !seen[w] {
                    let ghost before = queue@;
                    queue.push(w);
                    seen[w] = true;
                    proof {
                        assert(self.linked(queue@[i as int], w));
                        assert(self.linked(queue@[i as int], queue@[before.len() as int]));
                        let ghost pold = parent;
                        parent = parent.push(i as int);
                        assert forall|k: int| 1 <= k < queue@.len() implies 0 <= #[trigger] parent[k] < k
                            && self.linked(queue@[parent[k]], queue@[k]) by {
                            if k < before.len() {
                                assert(queue@[parent[k]] == before[parent[k]] && queue@[k] == before[k]);
                            }
                        }
                        assert forall|k: int, t: int| 1 <= k < queue@.len() && 0 <= t < parent[k] implies
                            !#[trigger] self.linked(queue@[t], queue@[k]) by {
                            if k < before.len() {
                                assert(queue@[t] == before[t] && queue@[k] == before[k]);
                                assert(parent[k] == pold[k]);
                            } else {
                                assert(queue@[k] == w);
                                assert(queue@[t] == before[t]);
                                if self.linked(queue@[t], queue@[k]) {
                                    let m = choose|m: int| 0 <= m < self.edges_of(queue@[t] as int).len()
                                        && #[trigger] self.edges_of(queue@[t] as int)[m].neighbor == queue@[k];
                                    assert(before.contains(self.edges_of(before[t] as int)[m].neighbor));
                                }
                            }
                        }
                        assert forall|k1: int, k2: int| 1 <= k1 < k2 < queue@.len() implies #[trigger] parent[k1]
                            <= #[trigger] parent[k2] by {
                            if k2 < before.len() {
                                assert(parent[k1] == pold[k1] && parent[k2] == pold[k2]);
                            } else {
                                assert(parent[k1] == pold[k1]);
                            }
                        }
                        assert forall|k: int| 1 <= k < queue@.len() implies #[trigger] parent[k] <= i by {
                            if k < before.len() {
                                assert(parent[k] == pold[k]);
                            }
                        }
                        assert forall|m: int| 0 <= m < j implies edges@[m].neighbor != w by {
                            assert(before.contains(edges@[m].neighbor));
                        }
                        lemma_first_link_skip(edges@, w, 0, j as int);
                        assert(first_link(edges@, w, 0) == j);
                        assert forall|k: int| 1 <= k < queue@.len() && #[trigger] parent[k] == i implies first_link(
                            edges@,
                            queue@[k],
                            0,
                        ) < j + 1 by {
                            if k < before.len() {
                                assert(parent[k] == pold[k]);
                                assert(queue@[k] == before[k]);
                            }
                        }
                        assert forall|k1: int, k2: int| 1 <= k1 < k2 < queue@.len() && #[trigger] parent[k1]
                            == #[trigger] parent[k2] implies first_link(
                            self.edges_of(queue@[parent[k1]] as int),
                            queue@[k1],
                            0,
                        ) < first_link(self.edges_of(queue@[parent[k1]] as int), queue@[k2], 0) by {
                            assert(parent[k1] == pold[k1]);
                            assert(queue@[k1] == before[k1]);
                            assert(queue@[parent[k1]] == before[parent[k1]]);
                            if k2 < before.len() {
                                assert(parent[k2] == pold[k2]);
                                assert(queue@[k2] == before[k2]);
                            } else {
                                assert(queue@[parent[k1]] == u);
                            }
                        }
                        assert forall|v: int| 0 <= v < n implies (seen@[v] <==> queue@.contains(v as usize)) by {
                            if v != w {
                                if queue@.contains(v as usize) {
                                    let t = choose|t: int| 0 <= t < queue@.len() && queue@[t] == v as usize;
                                    if t < before.len() {
                                        assert(before[t] == v as usize);
                                    }
                                }
                                if before.contains(v as usize) {
                                    let t = choose|t: int| 0 <= t < before.len() && before[t] == v as usize;
                                    assert(queue@[t] == v as usize);
                                }
                            } else {
                                assert(queue@[before.len() as int] == w);
                            }
                        }
                        assert(!before.contains(w));
                        assert forall|a: int, b: int| 0 <= a < queue@.len() && 0 <= b < queue@.len() && a != b implies queue@[a] != queue@[b] by {
                            if a < before.len() && b < before.len() {
                                assert(queue@[a] == before[a] && queue@[b] == before[b]);
                            } else if a < before.len() {
                                assert(queue@[a] == before[a]);
                            } else if b < before.len() {
                                assert(queue@[b] == before[b]);
                            }
                        }
                        assert forall|x: usize| before.contains(x) implies queue@.contains(x) by {
                            let t = choose|t: int| 0 <= t < before.len() && before[t] == x;
                            assert(queue@[t] == x);
                        }
                        assert(queue@[before.len() as int] == w);
                    }
                } else {
                    assert(queue@.contains(w));
                }
                j = j + 1;
            }
            i = i + 1;
        }
        assert forall|k: int| 1 <= k < queue@.len() implies #[trigger] self.reached_earlier(queue@, k) by {
            assert(self.linked(queue@[parent[k]], queue@[k]));
        }
        assert forall|k: int| 1 <= k < queue@.len() implies #[trigger] self.first_linker(queue@, k, 0)
            == parent[k] by {
            self.lemma_first_linker_is(queue@, k, parent[k], 0);
        }
        assert forall|k1: int, k2: int| 1 <= k1 < k2 < queue@.len() implies #[trigger] self.first_linker(
            queue@,
            k1,
            0,
        ) <= #[trigger] self.first_linker(queue@, k2, 0) by {
            assert(self.first_linker(queue@, k1, 0) == parent[k1]);
            assert(self.first_linker(queue@, k2, 0) == parent[k2]);
        }
        assert forall|k1: int, k2: int|
            1 <= k1 < k2 < queue@.len() && #[trigger] self.first_linker(queue@, k1, 0) == #[trigger] self.first_linker(
                queue@,
                k2,
                0,
            ) implies first_link(self.edges_of(queue@[self.first_linker(queue@, k1, 0)] as int), queue@[k1], 0)
                < first_link(self.edges_of(queue@[self.first_linker(queue@, k1, 0)] as int), queue@[k2], 0) by {
            assert(self.first_linker(queue@, k1, 0) == parent[k1]);
            assert(self.first_linker(queue@, k2, 0) == parent[k2]);
        }
        Ok(queue)
    }

    proof fn lemma_visited_is_reachable(&self, s: usize, q: Seq<usize>, k: int)
        requires
            self.is_visit_order(s, q),
            0 <= k < q.len(),
        ensures
            self.reachable(s, q[k]),
        decreases k,
    {
        if k == 0 {
            assert(self.reachable_within(s, q[k], 0));
        } else {
            assert(self.reached_earlier(q, k));
            let p = choose|p: int| 0 <= p < k && #[trigger] self.linked(q[p], q[k]);
            self.lemma_visited_is_reachable(s, q, p);
            let n = choose|n: nat| self.reachable_within(s, q[p], n);
            assert(self.reachable_within(s, q[k], n + 1));
        }
    }

    proof fn lemma_reachable_is_visited(&self, s: usize, q: Seq<usize>, v: usize, n: nat)
        requires
            self.is_visit_order(s, q),
            self.reachable_within(s, v, n),
        ensures
            q.contains(v),
        decreases n,
    {
        if n == 0 {
            assert(q[0] == v);
        } else if self.reachable_within(s, v, (n - 1) as nat) {
            self.lemma_reachable_is_visited(s, q, v, (n - 1) as nat);
        } else {
            let u = choose|u: usize| self.reachable_within(s, u, (n - 1) as nat) && #[trigger] self.linked(u, v);
            self.lemma_reachable_is_visited(s, q, u, (n - 1) as nat);
            let k = choose|k: int| 0 <= k < q.len() && q[k] == u;
            let j = choose|j: int| 0 <= j < self.edges_of(u as int).len() && #[trigger] self.edges_of(
                u as int,
            )[j].neighbor == v;
            assert(q.contains(self.edges_of(q[k] as int)[j].neighbor));
        }
    }

    /// A breadth-first visit order names each vertex reachable from its start exactly once,
    /// and no other vertex.
    pub proof fn lemma_bfs_visits_exactly_reachable(&self, s: usize, q: Seq<usize>)
        requires
            self.is_visit_order(s, q),
        ensures
            q.no_duplicates(),
            forall|v: usize| q.contains(v) <==> #[trigger] self.reachable(s, v),
    {
        assert forall|v: usize| q.contains(v) <==> #[trigger] self.reachable(s, v) by {
            if q.contains(v) {
                let k = choose|k: int| 0 <= k < q.len() && q[k] == v;
                self.lemma_visited_is_reachable(s, q, k);
            }
            if self.reachable(s, v) {
                let n = choose|n: nat| self.reachable_within(s, v, n);
                self.lemma_reachable_is_visited(s, q, v, n);
            }
        }
    }

    proof fn lemma_no_match_carries(g: &Self, h: &Self, s: Seq<EdgeHalf>, w: usize, extra: Seq<EdgeHalf>)
        requires
            g.first_match(s, w, 0) == s.len(),
            forall|j: int| 0 <= j < s.len() ==> (#[trigger] s[j]).neighbor < g.vertex_count(),
            w < g.vertex_count(),
            h.vertex_count() == g.vertex_count(),
            forall|x: int| 0 <= x < g.vertex_count() ==> #[trigger] h.id_of(x) == g.id_of(x)
                && h.value_of(x) == g.value_of(x),
        ensures
            h.first_match(s + extra, w, 0) == h.first_match(s + extra, w, s.len() as int),
    {
        g.lemma_first_match_bounds(s, w, 0);
        assert forall|j: int| 0 <= j < s.len() implies !h.same_vertex(#[trigger] (s + extra)[j].neighbor, w) by {
            assert((s + extra)[j] == s[j]);
            assert(!g.same_vertex(s[j].neighbor, w));
            assert(h.id_of(s[j].neighbor as int) == g.id_of(s[j].neighbor as int));
            assert(h.id_of(w as int) == g.id_of(w as int));
        }
        h.lemma_first_match_skip(s + extra, w, 0, s.len() as int);
    }

    /// Adding an edge between `a` and `b` and then deleting an edge between them, where no
    /// half of `a` had a neighbour that is the same vertex as `b` (and none of `b` one that is
    /// the same vertex as `a`), gives both edge lists back as they were; a second deletion
    /// between them then fails and changes nothing.
    pub proof fn lemma_delete_undoes_add(
        g0: &Self,
        g1: &Self,
        g2: &Self,
        g3: &Self,
        label: Option<E>,
        a: usize,
        b: usize,
        ok2: bool,
        ok3: bool,
    )
        requires
            g0.wf(),
            a < g0.vertex_count(),
            b < g0.vertex_count(),
            g0.first_match(g0.edges_of(a as int), b, 0) == g0.edges_of(a as int).len(),
            g0.first_match(g0.edges_of(b as int), a, 0) == g0.edges_of(b as int).len(),
            g1.is_edge_added(g0, label, a, b),
            g2.is_edge_deleted(g1, a, b, ok2),
            g3.is_edge_deleted(g2, a, b, ok3),
        ensures
            ok2,
            g2.edges_of(a as int) == g0.edges_of(a as int),
            g2.edges_of(b as int) == g0.edges_of(b as int),
            !ok3,
            *g3 == *g2,
    {
        let ea = g0.edges_of(a as int);
        let eb = g0.edges_of(b as int);
        let k = g0.labels_of().len() as usize;
        assert forall|j: int| 0 <= j < ea.len() implies (#[trigger] ea[j]).neighbor < g0.vertex_count() by {
            assert(g0.edges_of(a as int)[j].neighbor < g0.vertex_count());
        }
        assert forall|j: int| 0 <= j < eb.len() implies (#[trigger] eb[j]).neighbor < g0.vertex_count() by {
            assert(g0.edges_of(b as int)[j].neighbor < g0.vertex_count());
        }
        if a != b {
            let ha = EdgeHalf { label: k, neighbor: b };
            let hb = EdgeHalf { label: k, neighbor: a };
            let fa = ea.push(ha);
            let fb = eb.push(hb);
            assert(fa =~= ea + seq![ha]);
            assert(fb =~= eb + seq![hb]);
            Self::lemma_no_match_carries(g0, g1, ea, b, seq![ha]);
            Self::lemma_no_match_carries(g0, g1, eb, a, seq![hb]);
            assert(g1.same_vertex(fa[ea.len() as int].neighbor, b));
            assert(g1.same_vertex(fb[eb.len() as int].neighbor, a));
            assert(fa.remove(ea.len() as int) =~= ea);
            assert(fb.remove(eb.len() as int) =~= eb);
            Self::lemma_no_match_carries(g0, g2, ea, b, Seq::<EdgeHalf>::empty());
            Self::lemma_no_match_carries(g0, g2, eb, a, Seq::<EdgeHalf>::empty());
            assert(ea + Seq::<EdgeHalf>::empty() =~= ea);
            assert(eb + Seq::<EdgeHalf>::empty() =~= eb);
        } else {
            let h = EdgeHalf { label: k, neighbor: a };
            let fa = ea.push(h).push(h);
            assert(fa =~= ea + seq![h, h]);
            Self::lemma_no_match_carries(g0, g1, ea, a, seq![h, h]);
            assert(g1.same_vertex(fa[ea.len() as int].neighbor, a));
            assert(g1.same_vertex(fa[ea.len() + 1int].neighbor, a));
            assert(g1.first_match(fa, a, ea.len() + 1int) == ea.len() + 1);
            assert(fa.remove(ea.len() + 1int) =~= ea.push(h));
            assert(ea.push(h).remove(ea.len() as int) =~= ea);
            Self::lemma_no_match_carries(g0, g2, ea, a, Seq::<EdgeHalf>::empty());
            assert(ea + Seq::<EdgeHalf>::empty() =~= ea);
        }
    }

    /// An edge from a vertex to itself lengthens its edge list by exactly two.
    pub proof fn lemma_self_loop_adds_two(g0: &Self, g1: &Self, label: Option<E>, a: usize)
        requires
            g1.is_edge_added(g0, label, a, a),
        ensures
            g1.edges_of(a as int).len() == g0.edges_of(a as int).len() + 2,
    {
    }

    /// Where `check_edge(a, b)` would succeed but `check_edge(b, a)` would fail, deleting an
    /// edge between them fails and changes nothing.
    pub proof fn lemma_asymmetric_delete_fails(g0: &Self, g1: &Self, a: usize, b: usize, ok: bool)
        requires
            g0.first_match(g0.edges_of(a as int), b, 0) < g0.edges_of(a as int).len(),
            g0.first_match(g0.edges_of(b as int), a, 0) == g0.edges_of(b as int).len(),
            g1.is_edge_deleted(g0, a, b, ok),
        ensures
            !ok,
            *g1 == *g0,
            g1.edges_of(a as int) == g0.edges_of(a as int),
    {
    }

    /// The label table, held in a vector, has a length that fits in `usize`.
    pub proof fn lemma_label_count_fits(&self)
        ensures
            self.labels_of().len() <= usize::MAX,
    {
        assert(self.labels.len() == self.labels@.len());
    }

    /// The graph's sequence of vertices, held in a vector, has a length that fits in `usize`.
    pub proof fn lemma_member_count_fits(&self)
        ensures
            self.members().len() <= usize::MAX,
    {
        assert(self.nodes.len() == self.nodes@.len());
    }

    /// Number of vertices ever added.
    pub fn num_vertices(&self) -> (n: usize)
        ensures
            n == self.vertex_count(),
    {
        self.vertices.len()
    }

    /// Number of edges ever added: the size of the label table.
    pub fn num_labels(&self) -> (n: usize)
        ensures
            n == self.labels_of().len(),
    {
        self.labels.len()
    }

    /// The identifier of vertex `v`.
    pub fn id(&self, v: usize) -> (r: &I)
        requires
            v < self.vertex_count(),
        ensures
            *r == self.id_of(v as int),
    {
        &self.vertices[v].id
    }

    /// The value of vertex `v`.
    pub fn value(&self, v: usize) -> (r: &Option<V>)
        requires
            v < self.vertex_count(),
        ensures
            *r == self.value_of(v as int),
    {
        &self.vertices[v].value
    }

    /// The edge list of vertex `v`.
    pub fn edges(&self, v: usize) -> (r: &Vec<EdgeHalf>)
        requires
            v < self.vertex_count(),
        ensures
            r@ == self.edges_of(v as int),
    {
        &self.vertices[v].edges
    }

    /// The label in slot `k` of the label table.
    pub fn label(&self, k: usize) -> (r: &Option<E>)
        requires
            k < self.labels_of().len(),
        ensures
            *r == self.labels_of()[k as int],
    {
        &self.labels[k]
    }

    /// The graph's own sequence of vertex handles, in insertion order.
    pub fn vertex_handles(&self) -> (r: &Vec<usize>)
        ensures
            r@ == self.members(),
    {
        &self.nodes
    }

    /// Position of the first half in `v1`'s edge list whose neighbour is the same vertex as
    /// `v2` or has `v2`'s identifier and value; `NotFound` where there is none.
    pub fn check_edge(&self, v1: usize, v2: usize) -> (r: Result<usize, GraphError>)
        requires
            self.wf(),
            v1 < self.vertex_count(),
            v2 < self.vertex_count(),
            I::obeys_eq_spec(),
            V::obeys_eq_spec(),
        ensures
            match r {
                Ok(p) => p == self.first_match(self.edges_of(v1 as int), v2, 0) && p < self.edges_of(
                    v1 as int,
                ).len(),
                Err(e) => e == GraphError::NotFound && self.first_match(self.edges_of(v1 as int), v2, 0)
                    == self.edges_of(v1 as int).len(),
            },
    {
        self.find_link(v1, v2, 0)
    }
}

} // verus!
