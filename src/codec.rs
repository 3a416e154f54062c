use vstd::prelude::*;
use crate::graph::{EdgeHalf, Graph, GraphError};
use crate::text::{
    all_words, append_chars, chars_of, scan_words, extract_value, is_field, is_space, is_word, joined,
    lemma_scan_joined, lemma_scan_lines_append, lemma_scan_lines_plain, lemma_words_after_word,
    lines, opt_view, optional_text, scan_lines, split_lines, split_words, string_of, views, words,
};

verus! {

/// Position of the first `#` in `s` at `from` or after, or `s.len()` where there is none.
pub open spec fn first_hash(s: Seq<char>, from: int) -> int
    decreases s.len() - from,
{
    if from < 0 || from >= s.len() {
        s.len() as int
    } else if s[from] == '#' {
        from
    } else {
        first_hash(s, from + 1)
    }
}

/// The words of each line of `ls` that holds any, in order.
pub open spec fn records(ls: Seq<Seq<char>>) -> Seq<Seq<Seq<char>>>
    decreases ls.len(),
{
    if ls.len() == 0 {
        Seq::empty()
    } else if words(ls.last()).len() == 0 {
        records(ls.drop_last())
    } else {
        records(ls.drop_last()).push(words(ls.last()))
    }
}

/// The vertex records of a text: the non-blank lines before its first `#`.
pub open spec fn vertex_records(s: Seq<char>) -> Seq<Seq<Seq<char>>> {
    records(lines(s.subrange(0, first_hash(s, 0))))
}

/// The edge records of a text: the non-blank lines after the line of its first `#`.
pub open spec fn edge_records(s: Seq<char>) -> Seq<Seq<Seq<char>>> {
    records(lines(s.subrange(first_hash(s, 0) + 1, s.len() as int)).drop_first())
}

/// The first word of each record.
pub open spec fn firsts(rs: Seq<Seq<Seq<char>>>) -> Seq<Seq<char>> {
    rs.map_values(|w: Seq<Seq<char>>| w[0])
}

/// Position of the last `x` in `xs`, or -1.
pub open spec fn last_index(xs: Seq<Seq<char>>, x: Seq<char>) -> int
    decreases xs.len(),
{
    if xs.len() == 0 {
        -1
    } else if xs.last() == x {
        xs.len() - 1
    } else {
        last_index(xs.drop_last(), x)
    }
}

/// What is wrong with the first faulty edge record, given the vertex identifiers `ids`:
/// fewer than two words, or an identifier that `ids` lacks.
pub open spec fn edge_problem(ids: Seq<Seq<char>>, er: Seq<Seq<Seq<char>>>) -> Option<GraphError>
    decreases er.len(),
{
    if er.len() == 0 {
        None
    } else {
        match edge_problem(ids, er.drop_last()) {
            Some(e) => Some(e),
            None => {
                let w = er.last();
                if w.len() < 2 {
                    Some(GraphError::MalformedEdge)
                } else if last_index(ids, w[0]) < 0 || last_index(ids, w[1]) < 0 {
                    Some(GraphError::UnknownVertex)
                } else {
                    None
                }
            },
        }
    }
}

/// The vertex handles that each edge record joins: the last vertex with each identifier.
pub open spec fn edge_ends(ids: Seq<Seq<char>>, er: Seq<Seq<Seq<char>>>) -> Seq<(usize, usize)> {
    er.map_values(|w: Seq<Seq<char>>| (last_index(ids, w[0]) as usize, last_index(ids, w[1]) as usize))
}

/// The edge list of `v` once the edges `ends` are added in order, the `k`-th with label slot `k`.
pub open spec fn halves_after(ends: Seq<(usize, usize)>, v: usize) -> Seq<EdgeHalf>
    decreases ends.len(),
{
    if ends.len() == 0 {
        Seq::empty()
    } else {
        let prev = halves_after(ends.drop_last(), v);
        let k = (ends.len() - 1) as usize;
        let (a, b) = ends.last();
        let first = if a == v { prev.push(EdgeHalf { label: k, neighbor: b }) } else { prev };
        if b == v { first.push(EdgeHalf { label: k, neighbor: a }) } else { first }
    }
}

/// `g` is the graph that text `s` describes: a vertex for each vertex record, in order, and an
/// edge for each edge record, in order, between the last vertices with its two identifiers.
pub open spec fn decodes_to(g: Graph<String, String, String>, s: Seq<char>) -> bool {
    let vr = vertex_records(s);
    let er = edge_records(s);
    let ends = edge_ends(firsts(vr), er);
    &&& g.wf()
    &&& g.is_symmetric()
    &&& g.vertex_count() == vr.len()
    &&& g.members() == Seq::new(vr.len(), |k: int| k as usize)
    &&& forall|k: int| 0 <= k < vr.len() ==> {
        &&& (#[trigger] g.id_of(k))@ == vr[k][0]
        &&& opt_view(g.value_of(k)) == optional_text(vr[k].drop_first())
    }
    &&& g.labels_of().len() == er.len()
    &&& forall|k: int| 0 <= k < er.len() ==> opt_view(#[trigger] g.labels_of()[k])
        == optional_text(er[k].subrange(2, er[k].len() as int))
    &&& forall|v: int| 0 <= v < vr.len() ==> #[trigger] g.edges_of(v) == halves_after(ends, v as usize)
}

/// Whether `a` and `b` hold the same characters.
pub fn same_chars(a: &Vec<char>, b: &Vec<char>) -> (r: bool)
    ensures
        r == (a@ == b@),
{
    if a.len() != b.len() {
        return false;
    }
    let mut i: usize = 0;
    while i < a.len()
        invariant
            a@.len() == b@.len(),
            i <= a@.len(),
            forall|j: int| 0 <= j < i ==> a@[j] == b@[j],
        decreases a@.len() - i,
    {
        if a[i] != b[i] {
            return false;
        }
        i = i + 1;
    }
    assert(a@ =~= b@);
    true
}

/// Position of the last entry of `ids` equal to `x`.
pub fn find_last(ids: &Vec<Vec<char>>, x: &Vec<char>) -> (r: Option<usize>)
    ensures
        match r {
            Some(k) => k as int == last_index(views(ids@), x@) && k < ids@.len(),
            None => last_index(views(ids@), x@) == -1,
        },
{
    let mut i: usize = ids.len();
    assert(views(ids@).subrange(0, i as int) =~= views(ids@));
    while i > 0
        invariant
            i <= ids@.len(),
            last_index(views(ids@), x@) == last_index(views(ids@).subrange(0, i as int), x@),
        decreases i,
    {
        let ghost pre = views(ids@).subrange(0, i as int);
        assert(pre.drop_last() =~= views(ids@).subrange(0, i - 1));
        if same_chars(&ids[i - 1], x) {
            return Some(i - 1);
        }
        i = i - 1;
    }
    assert(views(ids@).subrange(0, 0).len() == 0);
    None
}

proof fn lemma_records_concat(a: Seq<Seq<char>>, b: Seq<Seq<char>>)
    ensures
        records(a + b) == records(a) + records(b),
    decreases b.len(),
{
    if b.len() == 0 {
        assert(a + b =~= a);
        assert(records(a) + records(b) =~= records(a));
    } else {
        lemma_records_concat(a, b.drop_last());
        assert((a + b).drop_last() =~= a + b.drop_last());
        assert((a + b).last() == b.last());
        if words(b.last()).len() != 0 {
            assert(records(a) + records(b.drop_last()).push(words(b.last())) =~= (records(a)
                + records(b.drop_last())).push(words(b.last())));
        }
    }
}

proof fn lemma_edge_problem_sticks(ids: Seq<Seq<char>>, x: Seq<Seq<Seq<char>>>, y: Seq<Seq<Seq<char>>>)
    requires
        edge_problem(ids, x) is Some,
    ensures
        edge_problem(ids, x + y) == edge_problem(ids, x),
    decreases y.len(),
{
    if y.len() == 0 {
        assert(x + y =~= x);
    } else {
        lemma_edge_problem_sticks(ids, x, y.drop_last());
        assert((x + y).drop_last() =~= x + y.drop_last());
    }
}

proof fn lemma_first_hash_bounds(s: Seq<char>, from: int)
    requires
        0 <= from,
    ensures
        first_hash(s, from) <= s.len(),
        from <= s.len() ==> from <= first_hash(s, from),
        first_hash(s, from) < s.len() ==> s[first_hash(s, from)] == '#',
    decreases s.len() - from,
{
    if from < s.len() && s[from] != '#' {
        lemma_first_hash_bounds(s, from + 1);
    }
}

/// The characters of an optional string: nothing where there is none.
pub open spec fn text_of(o: Option<String>) -> Seq<char> {
    match o {
        Some(x) => x@,
        None => Seq::empty(),
    }
}

/// The line that describes vertex `v`: its identifier, a space, its value.
pub open spec fn vertex_line(g: Graph<String, String, String>, v: usize) -> Seq<char> {
    g.id_of(v as int)@ + seq![' '] + text_of(g.value_of(v as int)) + seq!['\n']
}

/// The vertex lines of the vertices `ms`, in order.
pub open spec fn vertex_lines(g: Graph<String, String, String>, ms: Seq<usize>) -> Seq<char>
    decreases ms.len(),
{
    if ms.len() == 0 {
        Seq::empty()
    } else {
        vertex_lines(g, ms.drop_last()) + vertex_line(g, ms.last())
    }
}

/// The halves `s` of vertex `v`, each paired with `v`.
pub open spec fn tagged(v: usize, s: Seq<EdgeHalf>) -> Seq<(usize, EdgeHalf)> {
    s.map_values(|h: EdgeHalf| (v, h))
}

/// The halves of the vertices `ms`, in order, each paired with the vertex it leaves from.
pub open spec fn half_stream(g: Graph<String, String, String>, ms: Seq<usize>) -> Seq<(usize, EdgeHalf)>
    decreases ms.len(),
{
    if ms.len() == 0 {
        Seq::empty()
    } else {
        half_stream(g, ms.drop_last()) + tagged(ms.last(), g.edges_of(ms.last() as int))
    }
}

/// The line that describes the edge of half `h` leaving `u`: both identifiers and the label.
pub open spec fn edge_line(g: Graph<String, String, String>, u: usize, h: EdgeHalf) -> Seq<char> {
    g.id_of(u as int)@ + seq![' '] + g.id_of(h.neighbor as int)@ + seq![' '] + text_of(
        g.labels_of()[h.label as int],
    ) + seq!['\n']
}

/// Some element of `st` before position `n` has label slot `k`.
pub open spec fn slot_seen(st: Seq<(usize, EdgeHalf)>, n: int, k: usize) -> bool {
    exists|i: int| 0 <= i < n && #[trigger] st[i].1.label == k
}

/// One edge line for each element of `st` whose label slot no earlier element has.
pub open spec fn edge_lines(g: Graph<String, String, String>, st: Seq<(usize, EdgeHalf)>) -> Seq<char>
    decreases st.len(),
{
    if st.len() == 0 {
        Seq::empty()
    } else {
        let prev = edge_lines(g, st.drop_last());
        let (u, h) = st.last();
        if slot_seen(st, st.len() - 1, h.label) {
            prev
        } else {
            prev + edge_line(g, u, h)
        }
    }
}

/// The text that describes `g`: a line per vertex of its sequence, a `#` line, and a line
/// per edge met from those vertices.
pub open spec fn encoding(g: Graph<String, String, String>) -> Seq<char> {
    vertex_lines(g, g.members()) + seq!['#', '\n'] + edge_lines(g, half_stream(g, g.members()))
}

/// Appends the characters of `x` to `out`.
fn push_text(out: &mut Vec<char>, x: &String)
    ensures
        final(out)@ == old(out)@ + x@,
{
    let cs = chars_of(x.as_str());
    append_chars(out, &cs);
}

/// Appends the characters of `o`, if any, to `out`.
fn push_opt_text(out: &mut Vec<char>, o: &Option<String>)
    ensures
        final(out)@ == old(out)@ + text_of(*o),
{
    match o {
        Some(x) => push_text(out, x),
        None => {
            assert(old(out)@ + text_of(*o) =~= old(out)@);
        },
    }
}

/// A line of text: no line break and no `#`.
pub open spec fn is_plain_line(t: Seq<char>) -> bool {
    forall|i: int| 0 <= i < t.len() ==> t[i] != '\n' && t[i] != '#'
}

/// An optional value or label that the text form carries unchanged.
pub open spec fn is_field_or_none(o: Option<String>) -> bool {
    match o {
        Some(x) => is_field(x@),
        None => true,
    }
}

/// `g` can be written as text and read back unchanged: its identifiers are single words,
/// distinct over its sequence; its values, and the labels of the edges of its vertices, are
/// words joined by single spaces; and its edges lead only to vertices of its sequence.
pub open spec fn is_text_safe(g: Graph<String, String, String>) -> bool {
    let ms = g.members();
    &&& g.wf()
    &&& forall|k: int| 0 <= k < ms.len() ==> is_word((#[trigger] g.id_of(ms[k] as int))@)
    &&& forall|a: int, b: int| 0 <= a < ms.len() && 0 <= b < ms.len() && a != b
        ==> (#[trigger] g.id_of(ms[a] as int))@ != (#[trigger] g.id_of(ms[b] as int))@
    &&& forall|k: int| 0 <= k < ms.len() ==> is_field_or_none(#[trigger] g.value_of(ms[k] as int))
    &&& forall|k: int, j: int| 0 <= k < ms.len() && 0 <= j < g.edges_of(ms[k] as int).len()
        ==> is_field_or_none(g.labels_of()[(#[trigger] g.edges_of(ms[k] as int)[j]).label as int])
    &&& forall|k: int, j: int| 0 <= k < ms.len() && 0 <= j < g.edges_of(ms[k] as int).len()
        ==> ms.contains(#[trigger] g.edges_of(ms[k] as int)[j].neighbor)
}

/// The body of vertex `v`'s line, without the line break.
pub open spec fn vertex_body(g: Graph<String, String, String>, v: usize) -> Seq<char> {
    g.id_of(v as int)@ + seq![' '] + text_of(g.value_of(v as int))
}

/// The words that a field carries.
pub open spec fn field_words(o: Option<String>) -> Seq<Seq<char>> {
    match o {
        Some(x) => words(x@),
        None => Seq::empty(),
    }
}

proof fn lemma_joined_plain(ws: Seq<Seq<char>>)
    requires
        all_words(ws),
    ensures
        is_plain_line(joined(ws)),
    decreases ws.len(),
{
    if ws.len() > 1 {
        let pre = ws.drop_last();
        assert forall|i: int| 0 <= i < pre.len() implies is_word(#[trigger] pre[i]) by {
            assert(pre[i] == ws[i]);
        }
        lemma_joined_plain(pre);
        assert(is_word(ws[ws.len() - 1]));
        let t = joined(ws);
        assert forall|i: int| 0 <= i < t.len() implies t[i] != '\n' && t[i] != '#' by {
            let a = joined(pre);
            if i < a.len() {
                assert(t[i] == a[i]);
            } else if i > a.len() {
                assert(t[i] == ws.last()[i - a.len() - 1]);
                assert(!is_space(ws.last()[i - a.len() - 1]));
            }
        }
    } else if ws.len() == 1 {
        assert(is_word(ws[0]));
    }
}

proof fn lemma_field(o: Option<String>)
    requires
        is_field_or_none(o),
    ensures
        is_plain_line(text_of(o)),
        optional_text(field_words(o)) == opt_view(o),
        words(text_of(o)) == field_words(o),
{
    match o {
        Some(x) => {
            let ws = choose|ws: Seq<Seq<char>>| ws.len() > 0 && all_words(ws) && x@ == joined(ws);
            lemma_scan_joined(ws);
            lemma_joined_plain(ws);
        },
        None => {
            assert(scan_words(Seq::<char>::empty()) == (Seq::<Seq<char>>::empty(), Seq::<char>::empty()));
        },
    }
}

proof fn lemma_word_plain(w: Seq<char>)
    requires
        is_word(w),
    ensures
        is_plain_line(w),
{
    assert forall|i: int| 0 <= i < w.len() implies w[i] != '\n' && w[i] != '#' by {
        assert(!is_space(w[i]));
    }
}

proof fn lemma_concat_plain(a: Seq<char>, b: Seq<char>)
    requires
        is_plain_line(a),
        is_plain_line(b),
    ensures
        is_plain_line(a + b),
{
    assert forall|i: int| 0 <= i < (a + b).len() implies (a + b)[i] != '\n' && (a + b)[i] != '#' by {
        if i >= a.len() {
            assert((a + b)[i] == b[i - a.len()]);
        }
    }
}

proof fn lemma_vertex_body(g: Graph<String, String, String>, v: usize)
    requires
        is_word(g.id_of(v as int)@),
        is_field_or_none(g.value_of(v as int)),
    ensures
        is_plain_line(vertex_body(g, v)),
        words(vertex_body(g, v)) == seq![g.id_of(v as int)@] + field_words(g.value_of(v as int)),
{
    lemma_field(g.value_of(v as int));
    lemma_word_plain(g.id_of(v as int)@);
    assert(is_plain_line(seq![' ']));
    lemma_concat_plain(g.id_of(v as int)@, seq![' ']);
    lemma_concat_plain(g.id_of(v as int)@ + seq![' '], text_of(g.value_of(v as int)));
    lemma_words_after_word(g.id_of(v as int)@, text_of(g.value_of(v as int)));
}

proof fn lemma_scan_vertex_lines(g: Graph<String, String, String>, ms: Seq<usize>)
    requires
        forall|k: int| 0 <= k < ms.len() ==> is_plain_line(vertex_body(g, #[trigger] ms[k])),
    ensures
        scan_lines(vertex_lines(g, ms)) == (
            ms.map_values(|v: usize| vertex_body(g, v)),
            Seq::<char>::empty(),
        ),
        forall|i: int| 0 <= i < vertex_lines(g, ms).len() ==> vertex_lines(g, ms)[i] != '#',
    decreases ms.len(),
{
    if ms.len() > 0 {
        let pre = ms.drop_last();
        assert forall|k: int| 0 <= k < pre.len() implies is_plain_line(vertex_body(g, #[trigger] pre[k])) by {
            assert(pre[k] == ms[k]);
        }
        lemma_scan_vertex_lines(g, pre);
        let body = vertex_body(g, ms.last());
        assert(is_plain_line(vertex_body(g, ms[ms.len() - 1])));
        lemma_scan_lines_plain(body);
        let line = body + seq!['\n'];
        assert(line.drop_last() =~= body);
        assert(scan_lines(line) == (seq![body], Seq::<char>::empty()));
        lemma_scan_lines_append(vertex_lines(g, pre), line);
        assert(pre.map_values(|v: usize| vertex_body(g, v)) + seq![body] =~= ms.map_values(
            |v: usize| vertex_body(g, v),
        ));
        let all = vertex_lines(g, ms);
        let a = vertex_lines(g, pre);
        assert(all == a + line);
        assert forall|i: int| 0 <= i < all.len() implies all[i] != '#' by {
            if i < a.len() {
                assert(all[i] == a[i]);
            } else if i < a.len() + body.len() {
                assert(all[i] == body[i - a.len()]);
            } else {
                assert(all[i] == '\n');
            }
        }
    } else {
        assert(ms.map_values(|v: usize| vertex_body(g, v)) =~= Seq::<Seq<char>>::empty());
    }
}

/// The halves of `st` whose label slot no earlier element has: one per edge line written.
pub open spec fn emitted(st: Seq<(usize, EdgeHalf)>) -> Seq<(usize, EdgeHalf)>
    decreases st.len(),
{
    if st.len() == 0 {
        Seq::empty()
    } else if slot_seen(st, st.len() - 1, st.last().1.label) {
        emitted(st.drop_last())
    } else {
        emitted(st.drop_last()).push(st.last())
    }
}

/// The body of the edge line of half `e.1` leaving `e.0`, without the line break.
pub open spec fn edge_body(g: Graph<String, String, String>, e: (usize, EdgeHalf)) -> Seq<char> {
    g.id_of(e.0 as int)@ + seq![' '] + (g.id_of(e.1.neighbor as int)@ + seq![' '] + text_of(
        g.labels_of()[e.1.label as int],
    ))
}

/// The edge lines of the halves `es`, in order.
pub open spec fn edge_text(g: Graph<String, String, String>, es: Seq<(usize, EdgeHalf)>) -> Seq<char>
    decreases es.len(),
{
    if es.len() == 0 {
        Seq::empty()
    } else {
        edge_text(g, es.drop_last()) + edge_body(g, es.last()) + seq!['\n']
    }
}

/// Position of the last `v` in `ms`, or -1.
pub open spec fn index_in(ms: Seq<usize>, v: usize) -> int
    decreases ms.len(),
{
    if ms.len() == 0 {
        -1
    } else if ms.last() == v {
        ms.len() - 1
    } else {
        index_in(ms.drop_last(), v)
    }
}

/// The edges that the text of `g` describes, as positions in its sequence of vertices, in
/// the order of their lines.
pub open spec fn written_ends(g: Graph<String, String, String>) -> Seq<(usize, usize)> {
    let ms = g.members();
    emitted(half_stream(g, ms)).map_values(
        |e: (usize, EdgeHalf)| (index_in(ms, e.0) as usize, index_in(ms, e.1.neighbor) as usize),
    )
}

proof fn lemma_edge_lines_emitted(g: Graph<String, String, String>, st: Seq<(usize, EdgeHalf)>)
    ensures
        edge_lines(g, st) == edge_text(g, emitted(st)),
        forall|i: int| 0 <= i < emitted(st).len() ==> st.contains(#[trigger] emitted(st)[i]),
    decreases st.len(),
{
    if st.len() > 0 {
        lemma_edge_lines_emitted(g, st.drop_last());
        let pre = emitted(st.drop_last());
        let (u, h) = st.last();
        assert(edge_line(g, u, h) =~= edge_body(g, st.last()) + seq!['\n']);
        if !slot_seen(st, st.len() - 1, st.last().1.label) {
            assert(pre.push(st.last()).drop_last() =~= pre);
            assert(edge_text(g, pre) + edge_body(g, st.last()) + seq!['\n'] =~= edge_text(g, pre)
                + edge_line(g, u, h));
        }
        assert forall|i: int| 0 <= i < emitted(st).len() implies st.contains(#[trigger] emitted(st)[i]) by {
            if i < pre.len() {
                assert(emitted(st)[i] == pre[i]);
                let t = choose|t: int| 0 <= t < st.drop_last().len() && st.drop_last()[t] == pre[i];
                assert(st[t] == pre[i]);
            } else {
                assert(emitted(st)[i] == st[st.len() - 1]);
            }
        }
    }
}

proof fn lemma_half_stream_from(g: Graph<String, String, String>, ms: Seq<usize>)
    ensures
        forall|i: int| 0 <= i < half_stream(g, ms).len() ==> {
            &&& ms.contains((#[trigger] half_stream(g, ms)[i]).0)
            &&& g.edges_of(half_stream(g, ms)[i].0 as int).contains(half_stream(g, ms)[i].1)
        },
    decreases ms.len(),
{
    if ms.len() > 0 {
        let pre = ms.drop_last();
        lemma_half_stream_from(g, pre);
        let a = half_stream(g, pre);
        let v = ms.last();
        let b = tagged(v, g.edges_of(v as int));
        assert forall|i: int| 0 <= i < half_stream(g, ms).len() implies {
            &&& ms.contains((#[trigger] half_stream(g, ms)[i]).0)
            &&& g.edges_of(half_stream(g, ms)[i].0 as int).contains(half_stream(g, ms)[i].1)
        } by {
            if i < a.len() {
                assert(half_stream(g, ms)[i] == a[i]);
                let t = choose|t: int| 0 <= t < pre.len() && pre[t] == a[i].0;
                assert(ms[t] == a[i].0);
            } else {
                assert(half_stream(g, ms)[i] == b[i - a.len()]);
                assert(ms[ms.len() - 1] == v);
                assert(g.edges_of(v as int)[i - a.len()] == b[i - a.len()].1);
            }
        }
    }
}

proof fn lemma_first_hash_skip(s: Seq<char>, from: int, to: int)
    requires
        0 <= from <= to <= s.len(),
        forall|i: int| from <= i < to ==> s[i] != '#',
    ensures
        first_hash(s, from) == first_hash(s, to),
    decreases to - from,
{
    if from < to {
        lemma_first_hash_skip(s, from + 1, to);
    }
}

proof fn lemma_records_all(ls: Seq<Seq<char>>)
    requires
        forall|k: int| 0 <= k < ls.len() ==> (#[trigger] words(ls[k])).len() > 0,
    ensures
        records(ls) == ls.map_values(|l: Seq<char>| words(l)),
    decreases ls.len(),
{
    if ls.len() > 0 {
        let pre = ls.drop_last();
        assert forall|k: int| 0 <= k < pre.len() implies (#[trigger] words(pre[k])).len() > 0 by {
            assert(pre[k] == ls[k]);
        }
        lemma_records_all(pre);
        assert(words(ls[ls.len() - 1]).len() > 0);
        assert(pre.map_values(|l: Seq<char>| words(l)).push(words(ls.last())) =~= ls.map_values(
            |l: Seq<char>| words(l),
        ));
    } else {
        assert(ls.map_values(|l: Seq<char>| words(l)) =~= Seq::<Seq<Seq<char>>>::empty());
    }
}

proof fn lemma_last_index_unique(xs: Seq<Seq<char>>, x: Seq<char>, p: int)
    requires
        0 <= p < xs.len(),
        xs[p] == x,
        forall|q: int| 0 <= q < xs.len() && q != p ==> xs[q] != x,
    ensures
        last_index(xs, x) == p,
    decreases xs.len(),
{
    if p < xs.len() - 1 {
        let pre = xs.drop_last();
        assert forall|q: int| 0 <= q < pre.len() && q != p implies pre[q] != x by {
            assert(pre[q] == xs[q]);
        }
        lemma_last_index_unique(pre, x, p);
    }
}

proof fn lemma_index_in_unique(ms: Seq<usize>, v: usize, p: int)
    requires
        0 <= p < ms.len(),
        ms[p] == v,
        forall|q: int| 0 <= q < ms.len() && q != p ==> ms[q] != v,
    ensures
        index_in(ms, v) == p,
    decreases ms.len(),
{
    if p < ms.len() - 1 {
        let pre = ms.drop_last();
        assert forall|q: int| 0 <= q < pre.len() && q != p implies pre[q] != v by {
            assert(pre[q] == ms[q]);
        }
        lemma_index_in_unique(pre, v, p);
    }
}

proof fn lemma_edge_problem_none(ids: Seq<Seq<char>>, er: Seq<Seq<Seq<char>>>)
    requires
        forall|k: int| 0 <= k < er.len() ==> {
            &&& (#[trigger] er[k]).len() >= 2
            &&& last_index(ids, er[k][0]) >= 0
            &&& last_index(ids, er[k][1]) >= 0
        },
    ensures
        edge_problem(ids, er) is None,
    decreases er.len(),
{
    if er.len() > 0 {
        let pre = er.drop_last();
        assert forall|k: int| 0 <= k < pre.len() implies {
            &&& (#[trigger] pre[k]).len() >= 2
            &&& last_index(ids, pre[k][0]) >= 0
            &&& last_index(ids, pre[k][1]) >= 0
        } by {
            assert(pre[k] == er[k]);
        }
        lemma_edge_problem_none(ids, pre);
        assert(er[er.len() - 1] == er.last());
    }
}

proof fn lemma_edge_body(g: Graph<String, String, String>, e: (usize, EdgeHalf))
    requires
        is_word(g.id_of(e.0 as int)@),
        is_word(g.id_of(e.1.neighbor as int)@),
        is_field_or_none(g.labels_of()[e.1.label as int]),
    ensures
        is_plain_line(edge_body(g, e)),
        words(edge_body(g, e)) == seq![g.id_of(e.0 as int)@, g.id_of(e.1.neighbor as int)@]
            + field_words(g.labels_of()[e.1.label as int]),
{
    let a = g.id_of(e.0 as int)@;
    let b = g.id_of(e.1.neighbor as int)@;
    let t = text_of(g.labels_of()[e.1.label as int]);
    lemma_field(g.labels_of()[e.1.label as int]);
    lemma_word_plain(a);
    lemma_word_plain(b);
    assert(is_plain_line(seq![' ']));
    lemma_concat_plain(b, seq![' ']);
    lemma_concat_plain(b + seq![' '], t);
    lemma_concat_plain(a, seq![' ']);
    lemma_concat_plain(a + seq![' '], b + seq![' '] + t);
    lemma_words_after_word(b, t);
    lemma_words_after_word(a, b + seq![' '] + t);
    assert(seq![a] + (seq![b] + words(t)) =~= seq![a, b] + words(t));
}

proof fn lemma_scan_edge_text(g: Graph<String, String, String>, es: Seq<(usize, EdgeHalf)>)
    requires
        forall|k: int| 0 <= k < es.len() ==> is_plain_line(edge_body(g, #[trigger] es[k])),
    ensures
        scan_lines(edge_text(g, es)) == (
            es.map_values(|e: (usize, EdgeHalf)| edge_body(g, e)),
            Seq::<char>::empty(),
        ),
    decreases es.len(),
{
    if es.len() > 0 {
        let pre = es.drop_last();
        assert forall|k: int| 0 <= k < pre.len() implies is_plain_line(edge_body(g, #[trigger] pre[k])) by {
            assert(pre[k] == es[k]);
        }
        lemma_scan_edge_text(g, pre);
        let body = edge_body(g, es.last());
        assert(is_plain_line(edge_body(g, es[es.len() - 1])));
        lemma_scan_lines_plain(body);
        let line = body + seq!['\n'];
        assert(line.drop_last() =~= body);
        assert(scan_lines(line) == (seq![body], Seq::<char>::empty()));
        lemma_scan_lines_append(edge_text(g, pre), line);
        assert(edge_text(g, es) == edge_text(g, pre) + line);
        assert(pre.map_values(|e: (usize, EdgeHalf)| edge_body(g, e)) + seq![body] =~= es.map_values(
            |e: (usize, EdgeHalf)| edge_body(g, e),
        ));
    } else {
        assert(es.map_values(|e: (usize, EdgeHalf)| edge_body(g, e)) =~= Seq::<Seq<char>>::empty());
    }
}

/// The records read back from the text of a graph: one per vertex of its sequence, one per
/// edge line written.
proof fn lemma_read_records(g: Graph<String, String, String>)
    requires
        is_text_safe(g),
    ensures
        first_hash(encoding(g), 0) < encoding(g).len(),
        vertex_records(encoding(g)) == g.members().map_values(
            |v: usize| seq![g.id_of(v as int)@] + field_words(g.value_of(v as int)),
        ),
        edge_records(encoding(g)) == emitted(half_stream(g, g.members())).map_values(
            |e: (usize, EdgeHalf)|
                seq![g.id_of(e.0 as int)@, g.id_of(e.1.neighbor as int)@] + field_words(
                    g.labels_of()[e.1.label as int],
                ),
        ),
{
    let ms = g.members();
    let st = half_stream(g, ms);
    let em = emitted(st);
    let vl = vertex_lines(g, ms);
    let el = edge_lines(g, st);
    let enc = encoding(g);
    assert forall|k: int| 0 <= k < ms.len() implies is_plain_line(vertex_body(g, #[trigger] ms[k])) by {
        assert(is_word(g.id_of(ms[k] as int)@));
        assert(is_field_or_none(g.value_of(ms[k] as int)));
        lemma_vertex_body(g, ms[k]);
    }
    lemma_scan_vertex_lines(g, ms);
    assert(enc == vl + seq!['#', '\n'] + el);
    assert forall|i: int| 0 <= i < vl.len() implies enc[i] != '#' by {
        assert(enc[i] == vl[i]);
    }
    lemma_first_hash_skip(enc, 0, vl.len() as int);
    assert(enc[vl.len() as int] == '#');
    assert(first_hash(enc, 0) == vl.len());
    // vertex block
    assert(enc.subrange(0, vl.len() as int) =~= vl);
    let bodies = ms.map_values(|v: usize| vertex_body(g, v));
    assert(lines(vl) == bodies.push(Seq::<char>::empty()));
    assert(scan_words(Seq::<char>::empty()) == (Seq::<Seq<char>>::empty(), Seq::<char>::empty()));
    assert(bodies.push(Seq::<char>::empty()).drop_last() =~= bodies);
    assert(records(bodies.push(Seq::<char>::empty())) == records(bodies));
    assert forall|k: int| 0 <= k < bodies.len() implies (#[trigger] words(bodies[k])).len() > 0 && words(bodies[k])
        == seq![g.id_of(ms[k] as int)@] + field_words(g.value_of(ms[k] as int)) by {
        assert(is_word(g.id_of(ms[k] as int)@));
        assert(is_field_or_none(g.value_of(ms[k] as int)));
        lemma_vertex_body(g, ms[k]);
    }
    lemma_records_all(bodies);
    assert(bodies.map_values(|l: Seq<char>| words(l)) =~= ms.map_values(
        |v: usize| seq![g.id_of(v as int)@] + field_words(g.value_of(v as int)),
    ));
    // edge block
    lemma_edge_lines_emitted(g, st);
    lemma_half_stream_from(g, ms);
    assert forall|k: int| 0 <= k < em.len() implies is_plain_line(edge_body(g, #[trigger] em[k])) && words(
        edge_body(g, em[k]),
    ) == seq![g.id_of(em[k].0 as int)@, g.id_of(em[k].1.neighbor as int)@] + field_words(
        g.labels_of()[em[k].1.label as int],
    ) by {
        let t = choose|t: int| 0 <= t < st.len() && st[t] == em[k];
        let p = choose|p: int| 0 <= p < ms.len() && ms[p] == st[t].0;
        let j = choose|j: int| 0 <= j < g.edges_of(st[t].0 as int).len() && g.edges_of(st[t].0 as int)[j] == st[t].1;
        assert(is_word(g.id_of(ms[p] as int)@));
        assert(ms.contains(g.edges_of(ms[p] as int)[j].neighbor));
        assert(is_field_or_none(g.labels_of()[g.edges_of(ms[p] as int)[j].label as int]));
        let q = choose|q: int| 0 <= q < ms.len() && ms[q] == em[k].1.neighbor;
        assert(is_word(g.id_of(ms[q] as int)@));
        assert(em[k].1.label < g.labels_of().len());
        assert(is_field_or_none(g.labels_of()[em[k].1.label as int]));
        lemma_edge_body(g, em[k]);
    }
    lemma_scan_edge_text(g, em);
    let eb = enc.subrange(vl.len() + 1int, enc.len() as int);
    assert(eb =~= seq!['\n'] + el);
    assert(seq!['\n'].drop_last() =~= Seq::<char>::empty());
    assert(scan_lines(Seq::<char>::empty()) == (Seq::<Seq<char>>::empty(), Seq::<char>::empty()));
    assert(scan_lines(seq!['\n']) == (seq![Seq::<char>::empty()], Seq::<char>::empty()));
    lemma_scan_lines_append(seq!['\n'], el);
    let ebodies = em.map_values(|e: (usize, EdgeHalf)| edge_body(g, e));
    assert(lines(eb).drop_first() =~= ebodies.push(Seq::<char>::empty()));
    assert(ebodies.push(Seq::<char>::empty()).drop_last() =~= ebodies);
    assert(records(ebodies.push(Seq::<char>::empty())) == records(ebodies));
    assert forall|k: int| 0 <= k < ebodies.len() implies (#[trigger] words(ebodies[k])).len() > 0 by {
        assert(ebodies[k] == edge_body(g, em[k]));
    }
    lemma_records_all(ebodies);
    assert(ebodies.map_values(|l: Seq<char>| words(l)) =~= em.map_values(
        |e: (usize, EdgeHalf)|
            seq![g.id_of(e.0 as int)@, g.id_of(e.1.neighbor as int)@] + field_words(
                g.labels_of()[e.1.label as int],
            ),
    ));
}

/// The identifiers of the vertices `ms`, in order.
pub open spec fn ids_of(g: Graph<String, String, String>, ms: Seq<usize>) -> Seq<Seq<char>> {
    ms.map_values(|v: usize| g.id_of(v as int)@)
}

proof fn lemma_position(g: Graph<String, String, String>, u: usize)
    requires
        is_text_safe(g),
        g.members().contains(u),
    ensures
        0 <= index_in(g.members(), u) < g.members().len(),
        g.members()[index_in(g.members(), u)] == u,
        last_index(ids_of(g, g.members()), g.id_of(u as int)@) == index_in(g.members(), u),
{
    let ms = g.members();
    let ids = ids_of(g, ms);
    let p = choose|p: int| 0 <= p < ms.len() && ms[p] == u;
    assert forall|q: int| 0 <= q < ms.len() && q != p implies ms[q] != u by {
        assert(g.id_of(ms[q] as int)@ != g.id_of(ms[p] as int)@);
    }
    lemma_index_in_unique(ms, u, p);
    assert forall|q: int| 0 <= q < ids.len() && q != p implies ids[q] != g.id_of(u as int)@ by {
        assert(g.id_of(ms[q] as int)@ != g.id_of(ms[p] as int)@);
    }
    lemma_last_index_unique(ids, g.id_of(u as int)@, p);
}

proof fn lemma_written_from(g: Graph<String, String, String>, k: int)
    requires
        is_text_safe(g),
        0 <= k < emitted(half_stream(g, g.members())).len(),
    ensures
        g.members().contains(emitted(half_stream(g, g.members()))[k].0),
        g.members().contains(emitted(half_stream(g, g.members()))[k].1.neighbor),
{
    let ms = g.members();
    let st = half_stream(g, ms);
    let em = emitted(st);
    lemma_edge_lines_emitted(g, st);
    lemma_half_stream_from(g, ms);
    let t = choose|t: int| 0 <= t < st.len() && st[t] == em[k];
    let p = choose|p: int| 0 <= p < ms.len() && ms[p] == st[t].0;
    let j = choose|j: int| 0 <= j < g.edges_of(st[t].0 as int).len() && g.edges_of(st[t].0 as int)[j] == st[t].1;
    assert(ms.contains(g.edges_of(ms[p] as int)[j].neighbor));
}

/// The text of a graph whose identifiers, values and labels the text form carries unchanged
/// holds a `#` and names only declared vertices in its edge lines: it reads back without error.
pub proof fn lemma_text_decodes(g: Graph<String, String, String>)
    requires
        is_text_safe(g),
    ensures
        first_hash(encoding(g), 0) < encoding(g).len(),
        edge_problem(firsts(vertex_records(encoding(g))), edge_records(encoding(g))) is None,
{
    let ms = g.members();
    let em = emitted(half_stream(g, ms));
    lemma_read_records(g);
    let vr = vertex_records(encoding(g));
    let er = edge_records(encoding(g));
    assert(firsts(vr) =~= ids_of(g, ms));
    assert forall|k: int| 0 <= k < er.len() implies {
        &&& (#[trigger] er[k]).len() >= 2
        &&& last_index(firsts(vr), er[k][0]) >= 0
        &&& last_index(firsts(vr), er[k][1]) >= 0
    } by {
        lemma_written_from(g, k);
        lemma_position(g, em[k].0);
        lemma_position(g, em[k].1.neighbor);
        assert(er[k][0] == g.id_of(em[k].0 as int)@);
        assert(er[k][1] == g.id_of(em[k].1.neighbor as int)@);
    }
    lemma_edge_problem_none(firsts(vr), er);
}

/// Reading back the text of such a graph gives its vertices in the order of its sequence,
/// with the same identifiers and values, and one edge for each edge line written: between the
/// same two vertices, with the same label, in the order of the lines. Each edge that `add_edge`
/// made has one line, whatever order its vertices were added in.
pub proof fn lemma_text_round_trip(g: Graph<String, String, String>, h: Graph<String, String, String>)
    requires
        is_text_safe(g),
        decodes_to(h, encoding(g)),
    ensures
        h.vertex_count() == g.members().len(),
        forall|k: int| 0 <= k < h.vertex_count() ==> {
            &&& (#[trigger] h.id_of(k))@ == g.id_of(g.members()[k] as int)@
            &&& opt_view(h.value_of(k)) == opt_view(g.value_of(g.members()[k] as int))
        },
        h.labels_of().len() == emitted(half_stream(g, g.members())).len(),
        forall|k: int| 0 <= k < h.labels_of().len() ==> opt_view(#[trigger] h.labels_of()[k])
            == opt_view(g.labels_of()[emitted(half_stream(g, g.members()))[k].1.label as int]),
        forall|v: int| 0 <= v < h.vertex_count() ==> #[trigger] h.edges_of(v) == halves_after(
            written_ends(g),
            v as usize,
        ),
{
    let ms = g.members();
    let em = emitted(half_stream(g, ms));
    lemma_read_records(g);
    let vr = vertex_records(encoding(g));
    let er = edge_records(encoding(g));
    assert(firsts(vr) =~= ids_of(g, ms));
    assert forall|k: int| 0 <= k < h.vertex_count() implies {
        &&& (#[trigger] h.id_of(k))@ == g.id_of(g.members()[k] as int)@
        &&& opt_view(h.value_of(k)) == opt_view(g.value_of(g.members()[k] as int))
    } by {
        assert(vr[k] == seq![g.id_of(ms[k] as int)@] + field_words(g.value_of(ms[k] as int)));
        assert(vr[k].drop_first() =~= field_words(g.value_of(ms[k] as int)));
        assert(is_field_or_none(g.value_of(ms[k] as int)));
        lemma_field(g.value_of(ms[k] as int));
    }
    assert forall|k: int| 0 <= k < h.labels_of().len() implies opt_view(#[trigger] h.labels_of()[k])
        == opt_view(g.labels_of()[em[k].1.label as int]) by {
        let l = g.labels_of()[em[k].1.label as int];
        assert(er[k] == seq![g.id_of(em[k].0 as int)@, g.id_of(em[k].1.neighbor as int)@] + field_words(l));
        assert(er[k].subrange(2, er[k].len() as int) =~= field_words(l));
        lemma_written_from(g, k);
        lemma_half_stream_from(g, ms);
        lemma_edge_lines_emitted(g, half_stream(g, ms));
        let st = half_stream(g, ms);
        let t = choose|t: int| 0 <= t < st.len() && st[t] == em[k];
        let j = choose|j: int| 0 <= j < g.edges_of(st[t].0 as int).len() && g.edges_of(st[t].0 as int)[j] == st[t].1;
        let p = choose|p: int| 0 <= p < ms.len() && ms[p] == st[t].0;
        assert(g.edges_of(st[t].0 as int)[j].label < g.labels_of().len());
        assert(is_field_or_none(g.labels_of()[g.edges_of(ms[p] as int)[j].label as int]));
        lemma_field(l);
    }
    assert forall|k: int| 0 <= k < er.len() implies #[trigger] edge_ends(firsts(vr), er)[k] == written_ends(g)[k] by {
        lemma_written_from(g, k);
        lemma_position(g, em[k].0);
        lemma_position(g, em[k].1.neighbor);
        assert(er[k][0] == g.id_of(em[k].0 as int)@);
        assert(er[k][1] == g.id_of(em[k].1.neighbor as int)@);
    }
    assert(edge_ends(firsts(vr), er) =~= written_ends(g));
}

/// What a half `h` of vertex `v` says: the vertex's identifier, the neighbour's identifier
/// and the label.
pub open spec fn half_triple(g: Graph<String, String, String>, v: usize, h: EdgeHalf) -> (
    Seq<char>,
    Seq<char>,
    Option<Seq<char>>,
) {
    (g.id_of(v as int)@, g.id_of(h.neighbor as int)@, opt_view(g.labels_of()[h.label as int]))
}

/// The labelled edges seen from the vertices `ms` of `g`: what each of their halves says.
pub open spec fn edge_set(g: Graph<String, String, String>, ms: Seq<usize>) -> Set<
    (Seq<char>, Seq<char>, Option<Seq<char>>),
> {
    Set::new(
        |t: (Seq<char>, Seq<char>, Option<Seq<char>>)|
            exists|k: int, j: int|
                0 <= k < ms.len() && 0 <= j < g.edges_of(ms[k] as int).len() && t == half_triple(
                    g,
                    ms[k],
                    #[trigger] g.edges_of(ms[k] as int)[j],
                ),
    )
}

/// The halves of the vertices `ms` of `g` come in pairs: each has a partner half at its
/// neighbour that names it back with the same label slot.
pub open spec fn is_paired(g: Graph<String, String, String>, ms: Seq<usize>) -> bool {
    forall|k: int, j: int| 0 <= k < ms.len() && 0 <= j < g.edges_of(ms[k] as int).len()
        ==> g.edges_of((#[trigger] g.edges_of(ms[k] as int)[j]).neighbor as int).contains(
            EdgeHalf { label: g.edges_of(ms[k] as int)[j].label, neighbor: ms[k] },
        )
}

proof fn lemma_halves_after_from(ends: Seq<(usize, usize)>, x: usize, i: int)
    requires
        0 <= i < halves_after(ends, x).len(),
        ends.len() <= usize::MAX,
    ensures
        ({
            let hh = halves_after(ends, x)[i];
            &&& hh.label < ends.len()
            &&& (ends[hh.label as int] == (x, hh.neighbor) || ends[hh.label as int] == (hh.neighbor, x))
        }),
    decreases ends.len(),
{
    if ends.len() == 0 {
        assert(halves_after(ends, x).len() == 0);
    }
    let pre = ends.drop_last();
    lemma_halves_step(pre, ends.last(), x);
    assert(pre.push(ends.last()) =~= ends);
    let prev = halves_after(pre, x);
    let hh = halves_after(ends, x)[i];
    let e = ends.last();
    let k = pre.len() as usize;
    if i < prev.len() {
        lemma_halves_after_from(pre, x, i);
        if e.0 == x {
            assert(prev.push(EdgeHalf { label: k, neighbor: e.1 })[i] == prev[i]);
        }
        assert(hh == prev[i]);
        assert(pre[hh.label as int] == ends[hh.label as int]);
    } else {
        assert(ends[k as int] == e);
        let first = if e.0 == x { prev.push(EdgeHalf { label: k, neighbor: e.1 }) } else { prev };
        if e.1 == x {
            if i < first.len() {
                assert(hh == first[i]);
            } else {
                assert(hh == EdgeHalf { label: k, neighbor: e.0 });
            }
        } else {
            assert(hh == first[i]);
        }
    }
}

proof fn lemma_halves_after_grows(ends: Seq<(usize, usize)>, x: usize, n: int)
    requires
        0 <= n <= ends.len(),
    ensures
        halves_after(ends, x).len() >= halves_after(ends.subrange(0, n), x).len(),
        forall|i: int| 0 <= i < halves_after(ends.subrange(0, n), x).len() ==> halves_after(ends, x)[i]
            == #[trigger] halves_after(ends.subrange(0, n), x)[i],
    decreases ends.len() - n,
{
    if n < ends.len() {
        lemma_halves_after_grows(ends, x, n + 1);
        let a = ends.subrange(0, n);
        let b = ends.subrange(0, n + 1);
        assert(a.push(ends[n]) =~= b);
        lemma_halves_step(a, ends[n], x);
        let prev = halves_after(a, x);
        let first = if ends[n].0 == x {
            prev.push(EdgeHalf { label: n as usize, neighbor: ends[n].1 })
        } else {
            prev
        };
        assert forall|i: int| 0 <= i < prev.len() implies halves_after(b, x)[i] == prev[i] by {
            assert(first[i] == prev[i]);
            if ends[n].1 == x {
                assert(first.push(EdgeHalf { label: n as usize, neighbor: ends[n].0 })[i] == first[i]);
            }
        }
        assert forall|i: int| 0 <= i < halves_after(a, x).len() implies halves_after(ends, x)[i]
            == #[trigger] halves_after(a, x)[i] by {
            assert(halves_after(ends, x)[i] == halves_after(b, x)[i]);
        }
    } else {
        assert(ends.subrange(0, n) =~= ends);
    }
}

proof fn lemma_halves_after_has(ends: Seq<(usize, usize)>, m: int)
    requires
        0 <= m < ends.len(),
        ends.len() <= usize::MAX,
    ensures
        halves_after(ends, ends[m].0).contains(EdgeHalf { label: m as usize, neighbor: ends[m].1 }),
        halves_after(ends, ends[m].1).contains(EdgeHalf { label: m as usize, neighbor: ends[m].0 }),
{
    let a = ends.subrange(0, m);
    let b = ends.subrange(0, m + 1);
    assert(a.push(ends[m]) =~= b);
    assert(a.len() == m);
    lemma_halves_step(a, ends[m], ends[m].0);
    lemma_halves_step(a, ends[m], ends[m].1);
    lemma_halves_after_grows(ends, ends[m].0, m + 1);
    lemma_halves_after_grows(ends, ends[m].1, m + 1);
    let e0 = EdgeHalf { label: m as usize, neighbor: ends[m].1 };
    let e1 = EdgeHalf { label: m as usize, neighbor: ends[m].0 };
    let s0 = halves_after(b, ends[m].0);
    let s1 = halves_after(b, ends[m].1);
    let p0 = halves_after(a, ends[m].0).len() as int;
    assert(s0[p0] == e0);
    assert(halves_after(ends, ends[m].0)[p0] == e0);
    if ends[m].0 == ends[m].1 {
        assert(s1[p0 + 1] == e1);
        assert(halves_after(ends, ends[m].1)[p0 + 1] == e1);
    } else {
        let p1 = halves_after(a, ends[m].1).len() as int;
        assert(s1[p1] == e1);
        assert(halves_after(ends, ends[m].1)[p1] == e1);
    }
}

proof fn lemma_stream_has(g: Graph<String, String, String>, ms: Seq<usize>, k: int, j: int)
    requires
        0 <= k < ms.len(),
        0 <= j < g.edges_of(ms[k] as int).len(),
    ensures
        half_stream(g, ms).contains((ms[k], g.edges_of(ms[k] as int)[j])),
    decreases ms.len(),
{
    let pre = ms.drop_last();
    let a = half_stream(g, pre);
    let b = tagged(ms.last(), g.edges_of(ms.last() as int));
    if k < ms.len() - 1 {
        lemma_stream_has(g, pre, k, j);
        assert(pre[k] == ms[k]);
        let t = choose|t: int| 0 <= t < a.len() && a[t] == (ms[k], g.edges_of(ms[k] as int)[j]);
        assert((a + b)[t] == a[t]);
    } else {
        assert((a + b)[a.len() + j] == b[j]);
    }
}

proof fn lemma_emitted_has_slot(st: Seq<(usize, EdgeHalf)>, t: int)
    requires
        0 <= t < st.len(),
    ensures
        exists|m: int| 0 <= m < emitted(st).len() && #[trigger] emitted(st)[m].1.label == st[t].1.label,
    decreases st.len(),
{
    let pre = st.drop_last();
    if t < st.len() - 1 {
        lemma_emitted_has_slot(pre, t);
        let m = choose|m: int| 0 <= m < emitted(pre).len() && #[trigger] emitted(pre)[m].1.label == pre[t].1.label;
        assert(emitted(st)[m] == emitted(pre)[m]);
    } else if slot_seen(st, st.len() - 1, st.last().1.label) {
        let i = choose|i: int| 0 <= i < st.len() - 1 && #[trigger] st[i].1.label == st.last().1.label;
        lemma_emitted_has_slot(pre, i);
        let m = choose|m: int| 0 <= m < emitted(pre).len() && #[trigger] emitted(pre)[m].1.label == pre[i].1.label;
        assert(emitted(st)[m] == emitted(pre)[m]);
    } else {
        assert(emitted(st)[emitted(pre).len() as int] == st.last());
    }
}

/// Reading back the text of a graph whose halves come in pairs gives the same labelled edges,
/// seen as identifier pairs with labels, whatever order the vertices and edges were added in.
pub proof fn lemma_text_edge_set(g: Graph<String, String, String>, h: Graph<String, String, String>)
    requires
        is_text_safe(g),
        is_paired(g, g.members()),
        decodes_to(h, encoding(g)),
    ensures
        edge_set(h, h.members()) == edge_set(g, g.members()),
{
    let ms = g.members();
    let hm = h.members();
    let st = half_stream(g, ms);
    let em = emitted(st);
    let w = written_ends(g);
    let n = ms.len();
    lemma_text_round_trip(g, h);
    lemma_edge_lines_emitted(g, st);
    lemma_half_stream_from(g, ms);
    h.lemma_label_count_fits();
    g.lemma_member_count_fits();
    assert(w.len() == em.len());
    assert(hm == Seq::new(n, |k: int| k as usize));
    assert forall|m: int| 0 <= m < w.len() implies {
        &&& 0 <= (#[trigger] w[m]).0 < n
        &&& 0 <= w[m].1 < n
        &&& ms[w[m].0 as int] == em[m].0
        &&& ms[w[m].1 as int] == em[m].1.neighbor
        &&& g.edges_of(em[m].0 as int).contains(em[m].1)
    } by {
        lemma_written_from(g, m);
        lemma_position(g, em[m].0);
        lemma_position(g, em[m].1.neighbor);
        assert(w[m] == (index_in(ms, em[m].0) as usize, index_in(ms, em[m].1.neighbor) as usize));
        let t = choose|t: int| 0 <= t < st.len() && st[t] == em[m];
        assert(g.edges_of(st[t].0 as int).contains(st[t].1));
    }
    assert forall|t: (Seq<char>, Seq<char>, Option<Seq<char>>)| edge_set(h, hm).contains(t) implies edge_set(
        g,
        ms,
    ).contains(t) by {
        let (k, j) = choose|k: int, j: int|
            0 <= k < hm.len() && 0 <= j < h.edges_of(hm[k] as int).len() && t == half_triple(
                h,
                hm[k],
                #[trigger] h.edges_of(hm[k] as int)[j],
            );
        assert(hm[k] == k as usize);
        let hh = h.edges_of(k)[j];
        assert(h.edges_of(k) == halves_after(w, k as usize));
        lemma_halves_after_from(w, k as usize, j);
        let m = hh.label as int;
        let e = em[m];
        assert(0 <= w[m].0 < n && 0 <= w[m].1 < n);
        assert(opt_view(h.labels_of()[m]) == opt_view(g.labels_of()[e.1.label as int]));
        let j2 = choose|j2: int| 0 <= j2 < g.edges_of(e.0 as int).len() && g.edges_of(e.0 as int)[j2] == e.1;
        let p = w[m].0 as int;
        assert(ms[p] == e.0);
        if w[m] == (k as usize, hh.neighbor) {
            assert(h.id_of(k)@ == g.id_of(ms[k] as int)@);
            assert(h.id_of(hh.neighbor as int)@ == g.id_of(ms[hh.neighbor as int] as int)@);
            assert(t == half_triple(g, ms[p], g.edges_of(ms[p] as int)[j2]));
        } else {
            assert(w[m] == (hh.neighbor, k as usize));
            assert(h.id_of(k)@ == g.id_of(ms[k] as int)@);
            assert(h.id_of(hh.neighbor as int)@ == g.id_of(ms[hh.neighbor as int] as int)@);
            let partner = EdgeHalf { label: e.1.label, neighbor: e.0 };
            assert(g.edges_of(g.edges_of(ms[p] as int)[j2].neighbor as int).contains(partner));
            let j3 = choose|j3: int| 0 <= j3 < g.edges_of(ms[k] as int).len() && g.edges_of(ms[k] as int)[j3]
                == partner;
            assert(t == half_triple(g, ms[k], g.edges_of(ms[k] as int)[j3]));
        }
    }
    assert forall|t: (Seq<char>, Seq<char>, Option<Seq<char>>)| edge_set(g, ms).contains(t) implies edge_set(
        h,
        hm,
    ).contains(t) by {
        let (k, j) = choose|k: int, j: int|
            0 <= k < ms.len() && 0 <= j < g.edges_of(ms[k] as int).len() && t == half_triple(
                g,
                ms[k],
                #[trigger] g.edges_of(ms[k] as int)[j],
            );
        let hf = g.edges_of(ms[k] as int)[j];
        lemma_stream_has(g, ms, k, j);
        let tt = choose|tt: int| 0 <= tt < st.len() && st[tt] == (ms[k], hf);
        lemma_emitted_has_slot(st, tt);
        let m = choose|m: int| 0 <= m < em.len() && #[trigger] em[m].1.label == st[tt].1.label;
        let e = em[m];
        assert(0 <= w[m].0 < n && 0 <= w[m].1 < n);
        let pu = w[m].0 as int;
        let pn = w[m].1 as int;
        let j2 = choose|j2: int| 0 <= j2 < g.edges_of(e.0 as int).len() && g.edges_of(e.0 as int)[j2] == e.1;
        assert(ms[pu] == e.0);
        assert(g.edges_of(ms[pu] as int)[j2].label == hf.label);
        assert(g.slots_owned());
        lemma_halves_after_has(w, m);
        assert(opt_view(h.labels_of()[m]) == opt_view(g.labels_of()[e.1.label as int]));
        assert(h.id_of(pu)@ == g.id_of(ms[pu] as int)@);
        assert(h.id_of(pn)@ == g.id_of(ms[pn] as int)@);
        if ms[k] == e.0 && hf.neighbor == e.1.neighbor {
            let half = EdgeHalf { label: m as usize, neighbor: pn as usize };
            assert(h.edges_of(pu) == halves_after(w, pu as usize));
            let jj = choose|jj: int| 0 <= jj < h.edges_of(pu).len() && h.edges_of(pu)[jj] == half;
            assert(hm[pu] == pu as usize);
            assert(t == half_triple(h, hm[pu], h.edges_of(hm[pu] as int)[jj]));
        } else {
            let half = EdgeHalf { label: m as usize, neighbor: pu as usize };
            assert(h.edges_of(pn) == halves_after(w, pn as usize));
            let jj = choose|jj: int| 0 <= jj < h.edges_of(pn).len() && h.edges_of(pn)[jj] == half;
            assert(hm[pn] == pn as usize);
            assert(t == half_triple(h, hm[pn], h.edges_of(hm[pn] as int)[jj]));
        }
    }
    assert(edge_set(h, hm) =~= edge_set(g, ms));
}

proof fn lemma_halves_step(ends: Seq<(usize, usize)>, e: (usize, usize), v: usize)
    ensures
        halves_after(ends.push(e), v) == {
            let prev = halves_after(ends, v);
            let first = if e.0 == v {
                prev.push(EdgeHalf { label: ends.len() as usize, neighbor: e.1 })
            } else {
                prev
            };
            if e.1 == v {
                first.push(EdgeHalf { label: ends.len() as usize, neighbor: e.0 })
            } else {
                first
            }
        },
{
    assert(ends.push(e).drop_last() =~= ends);
}

impl Graph<String, String, String> {
    /// Writes the graph as text: for each vertex of its sequence a line
    /// `<id> <value-or-empty>`, then a line `#`, then for each edge met from those vertices,
    /// once for its two halves, a line `<id1> <id2> <label-or-empty>`.
    #[verifier::rlimit(40)]
    pub fn to_text(&self) -> (r: String)
        requires
            self.wf(),
        ensures
            r@ == encoding(*self),
    {
        let ms = self.vertex_handles();
        let mut out: Vec<char> = Vec::new();
        let mut i: usize = 0;
        while i < ms.len()
            invariant
                self.wf(),
                ms@ == self.members(),
                i <= ms@.len(),
                out@ == vertex_lines(*self, ms@.subrange(0, i as int)),
            decreases ms@.len() - i,
        {
            let v = ms[i];
            let ghost before = out@;
            push_text(&mut out, self.id(v));
            out.push(' ');
            push_opt_text(&mut out, self.value(v));
            out.push('\n');
            assert(ms@.subrange(0, i + 1).drop_last() =~= ms@.subrange(0, i as int));
            assert(out@ =~= before + vertex_line(*self, v));
            i = i + 1;
        }
        assert(ms@.subrange(0, i as int) =~= ms@);
        out.push('#');
        out.push('\n');
        let ghost head = out@;
        assert(head =~= vertex_lines(*self, self.members()) + seq!['#', '\n']);
        let mut emitted: Vec<bool> = vec![false; self.num_labels()];
        let mut i: usize = 0;
        assert(half_stream(*self, ms@.subrange(0, 0)) =~= Seq::<(usize, EdgeHalf)>::empty());
        assert(out@ =~= head + edge_lines(*self, Seq::<(usize, EdgeHalf)>::empty()));
        while i < ms.len()
            invariant
                self.wf(),
                ms@ == self.members(),
                i <= ms@.len(),
                emitted@.len() == self.labels_of().len(),
                out@ == head + edge_lines(*self, half_stream(*self, ms@.subrange(0, i as int))),
                forall|k: usize| k < emitted@.len() ==> (emitted@[k as int] <==> slot_seen(
                    half_stream(*self, ms@.subrange(0, i as int)),
                    half_stream(*self, ms@.subrange(0, i as int)).len() as int,
                    k,
                )),
            decreases ms@.len() - i,
        {
            let v = ms[i];
            let edges = self.edges(v);
            let ghost base = half_stream(*self, ms@.subrange(0, i as int));
            let mut j: usize = 0;
            assert(base + tagged(v, edges@.subrange(0, 0)) =~= base);
            while j < edges.len()
                invariant
                    self.wf(),
                    ms@ == self.members(),
                    i < ms@.len(),
                    v == ms@[i as int],
                    v < self.vertex_count(),
                    edges@ == self.edges_of(v as int),
                    j <= edges@.len(),
                    emitted@.len() == self.labels_of().len(),
                    out@ == head + edge_lines(*self, base + tagged(v, edges@.subrange(0, j as int))),
                    forall|k: usize| k < emitted@.len() ==> (emitted@[k as int] <==> slot_seen(
                        base + tagged(v, edges@.subrange(0, j as int)),
                        (base + tagged(v, edges@.subrange(0, j as int))).len() as int,
                        k,
                    )),
                decreases edges@.len() - j,
            {
                let h = edges[j];
                assert(self.edges_of(v as int)[j as int] == h);
                let ghost st = base + tagged(v, edges@.subrange(0, j as int));
                let ghost st1 = base + tagged(v, edges@.subrange(0, j + 1));
                assert(st1 =~= st.push((v, h)));
                assert(st1.drop_last() =~= st);
                let ghost before = out@;
                if !emitted[h.label] {
                    emitted[h.label] = true;
                    push_text(&mut out, self.id(v));
                    out.push(' ');
                    push_text(&mut out, self.id(h.neighbor));
                    out.push(' ');
                    push_opt_text(&mut out, self.label(h.label));
                    out.push('\n');
                    assert(!slot_seen(st1, st1.len() - 1, h.label));
                    assert(out@ =~= before + edge_line(*self, v, h));
                    assert forall|k: usize| k < emitted@.len() implies (emitted@[k as int] <==> slot_seen(
                        st1, st1.len() as int, k)) by {
                        if k == h.label {
                            assert(st1[st.len() as int].1.label == k);
                        } else if slot_seen(st1, st1.len() as int, k) {
                            let t = choose|t: int| 0 <= t < st1.len() && #[trigger] st1[t].1.label == k;
                            assert(st[t].1.label == k);
                        } else if slot_seen(st, st.len() as int, k) {
                            let t = choose|t: int| 0 <= t < st.len() && #[trigger] st[t].1.label == k;
                            assert(st1[t].1.label == k);
                        }
                    }
                } else {
                    proof {
                        let t = choose|t: int| 0 <= t < st.len() && #[trigger] st[t].1.label == h.label;
                        assert(st1[t].1.label == h.label);
                        assert(slot_seen(st1, st1.len() - 1, h.label));
                        assert forall|k: usize| k < emitted@.len() implies (emitted@[k as int] <==> slot_seen(
                            st1, st1.len() as int, k)) by {
                            if slot_seen(st1, st1.len() as int, k) {
                                let t2 = choose|t2: int| 0 <= t2 < st1.len() && #[trigger] st1[t2].1.label == k;
                                if t2 < st.len() {
                                    assert(st[t2].1.label == k);
                                }
                            }
                            if slot_seen(st, st.len() as int, k) {
                                let t2 = choose|t2: int| 0 <= t2 < st.len() && #[trigger] st[t2].1.label == k;
                                assert(st1[t2].1.label == k);
                            }
                        }
                    }
                }
                j = j + 1;
            }
            assert(edges@.subrange(0, j as int) =~= edges@);
            assert(ms@.subrange(0, i + 1).drop_last() =~= ms@.subrange(0, i as int));
            assert(half_stream(*self, ms@.subrange(0, i + 1)) =~= base + tagged(v, edges@));
            i = i + 1;
        }
        assert(ms@.subrange(0, i as int) =~= ms@);
        assert(out@ =~= encoding(*self));
        string_of(&out)
    }

    /// Reads a graph from text: vertex lines (`<id> [<value>]`), a `#`, then edge lines
    /// (`<id1> <id2> [<label>]`). Blank lines are skipped, as is the rest of the line that
    /// holds the `#`; values and labels are their words joined with single spaces. Fails
    /// without a `#`, and at the first edge line with fewer than two words or with an
    /// identifier that no vertex line declares.
    #[verifier::rlimit(40)]
    pub fn from_text(text: &str) -> (r: Result<Self, GraphError>)
        ensures
            first_hash(text@, 0) == text@.len() ==> r == Err::<Self, GraphError>(
                GraphError::MissingSeparator,
            ),
            first_hash(text@, 0) < text@.len() ==> match edge_problem(
                firsts(vertex_records(text@)),
                edge_records(text@),
            ) {
                Some(e) => r == Err::<Self, GraphError>(e),
                None => r matches Ok(g) && decodes_to(g, text@),
            },
    {
        let cs = chars_of(text);
        let mut p: usize = 0;
        while p < cs.len() && cs[p] != '#'
            invariant
                p <= cs@.len(),
                cs@ == text@,
                first_hash(cs@, 0) == first_hash(cs@, p as int),
            decreases cs@.len() - p,
        {
            p = p + 1;
        }
        if p == cs.len() {
            return Err(GraphError::MissingSeparator);
        }
        let ghost s = cs@;
        proof {
            lemma_first_hash_bounds(s, p as int);
        }
        assert(first_hash(s, 0) == p);
        let ghost ls = lines(s.subrange(0, p as int));
        let vlines = split_lines(&cs, 0, p);
        let mut g: Graph<String, String, String> = Graph::new();
        let mut ids: Vec<Vec<char>> = Vec::new();
        let mut li: usize = 0;
        while li < vlines.len()
            invariant
                s == cs@,
                p < s.len(),
                ls == lines(s.subrange(0, p as int)),
                vlines@.len() == ls.len(),
                forall|k: int| 0 <= k < vlines@.len() ==> {
                    &&& 0 <= (#[trigger] vlines@[k]).0 <= vlines@[k].1 <= p
                    &&& s.subrange(vlines@[k].0 as int, vlines@[k].1 as int) == ls[k]
                },
                li <= vlines@.len(),
                views(ids@) == firsts(records(ls.subrange(0, li as int))),
                g.wf(),
                g.is_symmetric(),
                g.vertex_count() == records(ls.subrange(0, li as int)).len(),
                g.members() == Seq::new(g.vertex_count(), |k: int| k as usize),
                forall|k: int| 0 <= k < g.vertex_count() ==> (#[trigger] g.id_of(k))@ == records(
                    ls.subrange(0, li as int),
                )[k][0],
                forall|k: int| 0 <= k < g.vertex_count() ==> opt_view(#[trigger] g.value_of(k))
                    == optional_text(records(ls.subrange(0, li as int))[k].drop_first()),
                forall|k: int| 0 <= k < g.vertex_count() ==> (#[trigger] g.edges_of(k)).len() == 0,
                g.labels_of().len() == 0,
            decreases vlines@.len() - li,
        {
            let (a, b) = vlines[li];
            let ws = split_words(&cs, a, b);
            assert(s.subrange(a as int, b as int) == ls[li as int]);
            assert(views(ws@) == words(ls[li as int]));
            let ghost pre = records(ls.subrange(0, li as int));
            assert(ls.subrange(0, li + 1).drop_last() =~= ls.subrange(0, li as int));
            assert(ls.subrange(0, li + 1).last() == ls[li as int]);
            if ws.len() > 0 {
                let mut idc: Vec<char> = Vec::new();
                append_chars(&mut idc, &ws[0]);
                let id = string_of(&ws[0]);
                let value = extract_value(&ws, 1);
                let ghost w = views(ws@);
                assert(w.subrange(1, w.len() as int) =~= w.drop_first());
                assert(w[0] == ws@[0]@);
                let ghost g0 = g;
                let h = g.add_vertex(id, value);
                let ghost ids0 = ids@;
                ids.push(idc);
                assert(views(ids@) =~= views(ids0).push(idc@));
                assert(firsts(pre.push(w)) =~= firsts(pre).push(w[0]));
                assert(records(ls.subrange(0, li + 1)) == pre.push(w));
                assert(views(ids@) =~= firsts(pre.push(w)));
                assert(g.members() =~= Seq::new(g.vertex_count(), |k: int| k as usize));
                assert forall|k: int| 0 <= k < g.vertex_count() implies (#[trigger] g.id_of(k))@
                    == pre.push(w)[k][0] by {
                    if k < g0.vertex_count() {
                        assert(g0.id_of(k)@ == pre[k][0]);
                        assert(pre.push(w)[k] == pre[k]);
                    } else {
                        assert(k == h);
                        assert(pre.push(w)[k] == w);
                    }
                }
                assert forall|k: int| 0 <= k < g.vertex_count() implies opt_view(#[trigger] g.value_of(k))
                    == optional_text(pre.push(w)[k].drop_first()) by {
                    if k < g0.vertex_count() {
                        assert(opt_view(g0.value_of(k)) == optional_text(pre[k].drop_first()));
                        assert(pre.push(w)[k] == pre[k]);
                    } else {
                        assert(k == h);
                        assert(pre.push(w)[k] == w);
                    }
                }
                assert(records(ls.subrange(0, li + 1)) == pre.push(w));
                assert forall|k: int| 0 <= k < g.vertex_count() implies (#[trigger] g.edges_of(k)).len() == 0 by {
                    if k < g0.vertex_count() {
                        assert(g.edges_of(k) == g0.edges_of(k));
                        assert(g0.edges_of(k).len() == 0);
                    }
                }
            } else {
                assert(records(ls.subrange(0, li + 1)) == pre);
            }
            li = li + 1;
        }
        assert(ls.subrange(0, li as int) =~= ls);
        let ghost vr = records(ls);
        assert(vr == vertex_records(s));
        let ghost els = lines(s.subrange(p + 1, s.len() as int));
        let ghost erl = els.drop_first();
        let elines = split_lines(&cs, p + 1, cs.len());
        let ghost gv = g;
        assert forall|k: int| 0 <= k < gv.vertex_count() implies {
            &&& (#[trigger] gv.id_of(k))@ == vr[k][0]
            &&& opt_view(gv.value_of(k)) == optional_text(vr[k].drop_first())
        } by {
            assert(g.id_of(k)@ == records(ls.subrange(0, li as int))[k][0]);
            assert(opt_view(g.value_of(k)) == optional_text(records(ls.subrange(0, li as int))[k].drop_first()));
        }
        assert(erl.subrange(0, 0) =~= Seq::<Seq<char>>::empty());
        assert(edge_ends(firsts(vr), records(erl.subrange(0, 0))) =~= Seq::<(usize, usize)>::empty());
        assert forall|v: int| 0 <= v < g.vertex_count() implies #[trigger] g.edges_of(v) == halves_after(
            edge_ends(firsts(vr), records(erl.subrange(0, 0))),
            v as usize,
        ) by {
            assert(g.edges_of(v).len() == 0);
            assert(g.edges_of(v) =~= Seq::<EdgeHalf>::empty());
        }
        let mut t: usize = 1;
        while t < elines.len()
            invariant
                s == cs@,
                els == lines(s.subrange(p + 1, s.len() as int)),
                erl == els.drop_first(),
                elines@.len() == els.len(),
                forall|k: int| 0 <= k < elines@.len() ==> {
                    &&& p + 1 <= (#[trigger] elines@[k]).0 <= elines@[k].1 <= s.len()
                    &&& s.subrange(elines@[k].0 as int, elines@[k].1 as int) == els[k]
                },
                1 <= t <= elines@.len(),
                s == text@,
                first_hash(s, 0) == p,
                p < s.len(),
                vr == vertex_records(s),
                erl == lines(s.subrange(first_hash(s, 0) + 1, s.len() as int)).drop_first(),
                views(ids@) == firsts(vr),
                gv.vertex_count() == vr.len(),
                gv.members() == Seq::new(vr.len(), |k: int| k as usize),
                forall|k: int| 0 <= k < gv.vertex_count() ==> {
                    &&& (#[trigger] gv.id_of(k))@ == vr[k][0]
                    &&& opt_view(gv.value_of(k)) == optional_text(vr[k].drop_first())
                },
                edge_problem(firsts(vr), records(erl.subrange(0, t - 1))) is None,
                g.wf(),
                g.is_symmetric(),
                g.vertex_count() == vr.len(),
                g.members() == gv.members(),
                forall|k: int| 0 <= k < g.vertex_count() ==> #[trigger] g.id_of(k) == gv.id_of(k),
                forall|k: int| 0 <= k < g.vertex_count() ==> #[trigger] g.value_of(k) == gv.value_of(k),
                g.labels_of().len() == records(erl.subrange(0, t - 1)).len(),
                forall|k: int| 0 <= k < g.labels_of().len() ==> opt_view(#[trigger] g.labels_of()[k])
                    == optional_text(records(erl.subrange(0, t - 1))[k].subrange(2, records(erl.subrange(0, t - 1))[k].len() as int)),
                forall|v: int| 0 <= v < g.vertex_count() ==> #[trigger] g.edges_of(v) == halves_after(
                    edge_ends(firsts(vr), records(erl.subrange(0, t - 1))),
                    v as usize,
                ),
            decreases elines@.len() - t,
        {
            let (a, b) = elines[t];
            let ws = split_words(&cs, a, b);
            assert(s.subrange(a as int, b as int) == els[t as int]);
            assert(erl[t - 1] == els[t as int]);
            let ghost pre = records(erl.subrange(0, t - 1));
            let ghost w = views(ws@);
            assert(erl.subrange(0, t as int).drop_last() =~= erl.subrange(0, t - 1));
            assert(erl.subrange(0, t as int).last() == els[t as int]);
            proof {
                lemma_records_concat(erl.subrange(0, t as int), erl.subrange(t as int, erl.len() as int));
                assert(erl.subrange(0, t as int) + erl.subrange(t as int, erl.len() as int) =~= erl);
            }
            if ws.len() > 0 {
                assert(records(erl.subrange(0, t as int)) == pre.push(w));
                assert(pre.push(w).drop_last() =~= pre);
                assert(pre.push(w).last() == w);
                if ws.len() < 2 {
                    assert(edge_problem(firsts(vr), pre.push(w)) == Some(GraphError::MalformedEdge));
                    proof {
                        lemma_edge_problem_sticks(firsts(vr), pre.push(w), records(erl.subrange(t as int, erl.len() as int)));
                    }
                    return Err(GraphError::MalformedEdge);
                }
                let x = find_last(&ids, &ws[0]);
                let y = find_last(&ids, &ws[1]);
                assert(w[0] == ws@[0]@ && w[1] == ws@[1]@);
                match (x, y) {
                    (Some(x), Some(y)) => {
                        let label = extract_value(&ws, 2);
                        let ghost g0 = g;
                        let nl = g.num_labels();
                        g.add_edge(label, x, y);
                        let nv = g.num_vertices();
                        let ghost ends = edge_ends(firsts(vr), pre);
                        assert(edge_problem(firsts(vr), pre.push(w)) is None);
                        assert(ends.len() == pre.len());
                        assert(g0.labels_of().len() == pre.len());
                        assert(edge_ends(firsts(vr), pre.push(w)) =~= ends.push((x, y)));
                        assert forall|v: int| 0 <= v < g.vertex_count() implies #[trigger] g.edges_of(v)
                            == halves_after(ends.push((x, y)), v as usize) by {
                            assert(ends.push((x, y)).drop_last() =~= ends);
                            assert(g0.edges_of(v) == halves_after(ends, v as usize));
                            lemma_halves_step(ends, (x, y), v as usize);
                            let k = g0.labels_of().len() as usize;
                            assert(k == ends.len());
                            if v != x && v != y {
                                assert(g.edges_of(v) == g0.edges_of(v));
                            } else if x != y && v == x {
                                assert(g.edges_of(v) == g0.edges_of(v).push(EdgeHalf { label: k, neighbor: y }));
                            } else if x != y {
                                assert(g.edges_of(v) == g0.edges_of(v).push(EdgeHalf { label: k, neighbor: x }));
                            } else {
                                assert(g.edges_of(v) == g0.edges_of(v).push(EdgeHalf { label: k, neighbor: x }).push(
                                    EdgeHalf { label: k, neighbor: x }));
                            }
                        }
                        assert forall|k: int| 0 <= k < g.labels_of().len() implies opt_view(#[trigger] g.labels_of()[k])
                            == optional_text(pre.push(w)[k].subrange(2, pre.push(w)[k].len() as int)) by {
                            if k < pre.len() {
                                assert(g.labels_of()[k] == g0.labels_of()[k]);
                            }
                        }
                    },
                    _ => {
                        proof {
                            lemma_edge_problem_sticks(firsts(vr), pre.push(w), records(erl.subrange(t as int, erl.len() as int)));
                        }
                        return Err(GraphError::UnknownVertex);
                    },
                }
            } else {
                assert(records(erl.subrange(0, t as int)) == pre);
            }
            t = t + 1;
        }
        assert(erl.subrange(0, t - 1) =~= erl);
        assert(g.members() =~= Seq::new(vr.len(), |k: int| k as usize));
        let ghost er = edge_records(text@);
        assert(er == records(erl));
        assert(forall|k: int| 0 <= k < vr.len() ==> (#[trigger] g.id_of(k))@ == vr[k][0]);
        assert forall|k: int| 0 <= k < vr.len() implies opt_view(#[trigger] g.value_of(k))
            == optional_text(vr[k].drop_first()) by {
            assert(g.value_of(k) == gv.value_of(k));
            assert(gv.id_of(k)@ == vr[k][0]);
        }
        assert(decodes_to(g, text@));
        Ok(g)
    }
}

} // verus!
