//! Turning the lines of an edge list (a header, then one `source,target` pair of node
//! labels per line) into dense node ids and adjacency lists.
use vstd::prelude::*;
use crate::graph::{adjacency, well_formed};

verus! {

/// The byte that separates the two labels of a line.
pub const COMMA: u8 = 44;

/// Why an edge list was refused.
#[derive(PartialEq, Eq, Structural, Debug, Clone, Copy)]
pub enum LoadError {
    /// A line after the header does not hold exactly one comma.
    InvalidFormat,
}

/// `line` holds a comma at `c` and nowhere else.
pub open spec fn single_comma_at(line: Seq<u8>, c: int) -> bool {
    &&& 0 <= c < line.len()
    &&& line[c] == COMMA
    &&& forall|i: int| 0 <= i < line.len() && i != c ==> #[trigger] line[i] != COMMA
}

/// `line` holds exactly one comma.
pub open spec fn is_row(line: Seq<u8>) -> bool {
    exists|c: int| single_comma_at(line, c)
}

/// The two labels of a line with exactly one comma: what stands before it and after it.
pub open spec fn row_parts(line: Seq<u8>) -> (Seq<u8>, Seq<u8>) {
    let c = choose|c: int| single_comma_at(line, c);
    (line.take(c), line.skip(c + 1))
}

/// Splits `line` at its comma; `None` unless it holds exactly one.
pub fn split_row(line: &Vec<u8>) -> (r: Option<(Vec<u8>, Vec<u8>)>)
    ensures
        match r {
            Some((a, b)) => is_row(line@) && (a@, b@) == row_parts(line@),
            None => !is_row(line@),
        },
{
    let mut commas: usize = 0;
    let mut pos: usize = 0;
    let mut i: usize = 0;
    while i < line.len()
        invariant
            i <= line.len(),
            commas <= 2,
            commas == 0 ==> forall|j: int| 0 <= j < i ==> #[trigger] line@[j] != COMMA,
            commas == 1 ==> pos < i && line@[pos as int] == COMMA && forall|j: int|
                0 <= j < i && j != pos ==> #[trigger] line@[j] != COMMA,
            commas == 2 ==> exists|a: int, b: int|
                0 <= a < b < i && #[trigger] line@[a] == COMMA && #[trigger] line@[b] == COMMA,
        decreases line.len() - i,
    {
        if line[i] == COMMA {
            if commas == 0 {
                pos = i;
                commas = 1;
            } else if commas == 1 {
                assert(line@[pos as int] == COMMA && line@[i as int] == COMMA);
                commas = 2;
            }
        }
        i = i + 1;
    }
    if commas != 1 {
        proof {
            if is_row(line@) {
                let c = choose|c: int| single_comma_at(line@, c);
                if commas == 2 {
                    let (a, b) = choose|a: int, b: int|
                        0 <= a < b < i && #[trigger] line@[a] == COMMA && #[trigger] line@[b] == COMMA;
                    assert(a == c || line@[a] != COMMA);
                }
            }
        }
        return None;
    }
    assert(single_comma_at(line@, pos as int));
    let mut first: Vec<u8> = Vec::new();
    let mut second: Vec<u8> = Vec::new();
    let mut j: usize = 0;
    while j < line.len()
        invariant
            pos < line.len(),
            j <= line.len(),
            j <= pos ==> first@ == line@.take(j as int) && second@.len() == 0,
            j > pos ==> first@ == line@.take(pos as int) && second@ == line@.subrange(
                pos + 1,
                j as int,
            ),
        decreases line.len() - j,
    {
        if j < pos {
            first.push(line[j]);
            assert(first@ =~= line@.take(j + 1));
        } else if j > pos {
            second.push(line[j]);
            assert(second@ =~= line@.subrange(pos + 1, j + 1));
        } else {
            assert(second@ =~= line@.subrange(pos + 1, j + 1));
        }
        j = j + 1;
    }
    proof {
        let c = choose|c: int| single_comma_at(line@, c);
        assert(c == pos);
        assert(second@ =~= line@.skip(pos + 1));
    }
    Some((first, second))
}

/// Whether `a` and `b` hold the same bytes.
fn same_bytes(a: &Vec<u8>, b: &Vec<u8>) -> (r: bool)
    ensures
        r == (a@ == b@),
{
    if a.len() != b.len() {
        return false;
    }
    let mut i: usize = 0;
    while i < a.len()
        invariant
            a.len() == b.len(),
            i <= a.len(),
            forall|j: int| 0 <= j < i ==> a@[j] == b@[j],
        decreases a.len() - i,
    {
        if a[i] != b[i] {
            return false;
        }
        i = i + 1;
    }
    assert(a@ =~= b@);
    true
}

/// The labels of `labels`, as byte sequences.
pub open spec fn label_seqs(labels: &Vec<Vec<u8>>) -> Seq<Seq<u8>> {
    labels@.map_values(|v: Vec<u8>| v@)
}

/// Index of `x` among `labels`, if it is there.
fn find_label(labels: &Vec<Vec<u8>>, x: &Vec<u8>) -> (r: Option<usize>)
    ensures
        match r {
            Some(i) => i < labels.len() && label_seqs(labels)[i as int] == x@,
            None => !label_seqs(labels).contains(x@),
        },
{
    let mut i: usize = 0;
    while i < labels.len()
        invariant
            i <= labels.len(),
            forall|j: int| 0 <= j < i ==> label_seqs(labels)[j] != x@,
        decreases labels.len() - i,
    {
        if same_bytes(&labels[i], x) {
            return Some(i);
        }
        i = i + 1;
    }
    None
}

/// `labels` with `x` appended, unless it is already there.
pub open spec fn add_label(labels: Seq<Seq<u8>>, x: Seq<u8>) -> Seq<Seq<u8>> {
    if labels.contains(x) {
        labels
    } else {
        labels.push(x)
    }
}

/// No label appears twice.
pub open spec fn distinct(labels: Seq<Seq<u8>>) -> bool {
    forall|i: int, j: int| 0 <= i < j < labels.len() ==> labels[i] != labels[j]
}

/// The id of label `x`: its index in `labels`.
pub open spec fn label_index(labels: Seq<Seq<u8>>, x: Seq<u8>) -> int {
    choose|i: int| 0 <= i < labels.len() && labels[i] == x
}

/// Labels and adjacency lists built from the label pairs `rows`, taken in order: a
/// label gets the next id when first met, the source before the target, and each pair
/// appends the target's id to the source's list.
pub open spec fn load(rows: Seq<(Seq<u8>, Seq<u8>)>) -> (Seq<Seq<u8>>, Seq<Seq<usize>>)
    decreases rows.len(),
{
    if rows.len() == 0 {
        (Seq::empty(), Seq::empty())
    } else {
        let prev = load(rows.drop_last());
        let a = rows.last().0;
        let b = rows.last().1;
        let labels = add_label(add_label(prev.0, a), b);
        let lists = prev.1 + Seq::new(
            (labels.len() - prev.1.len()) as nat,
            |i: int| Seq::<usize>::empty(),
        );
        let ia = label_index(labels, a);
        (labels, lists.update(ia, lists[ia].push(label_index(labels, b) as usize)))
    }
}

/// The label pairs of the lines after the header.
pub open spec fn rows_of(lines: Seq<Seq<u8>>) -> Seq<(Seq<u8>, Seq<u8>)> {
    if lines.len() == 0 {
        Seq::empty()
    } else {
        Seq::new((lines.len() - 1) as nat, |i: int| row_parts(lines[i + 1]))
    }
}

proof fn lemma_label_index(labels: Seq<Seq<u8>>, x: Seq<u8>, i: int)
    requires
        distinct(labels),
        0 <= i < labels.len(),
        labels[i] == x,
    ensures
        label_index(labels, x) == i,
{
    let j = label_index(labels, x);
    assert(0 <= j < labels.len() && labels[j] == x);
    if j < i {
        assert(labels[j] != labels[i]);
    } else if i < j {
        assert(labels[i] != labels[j]);
    }
}

/// Id of `x` in `labels`, which gets it appended (with an empty adjacency list) when
/// it is not there yet.
fn intern(labels: &mut Vec<Vec<u8>>, graph: &mut Vec<Vec<usize>>, x: Vec<u8>) -> (r: usize)
    requires
        distinct(label_seqs(old(labels))),
        old(graph).len() == old(labels).len(),
        well_formed(adjacency(old(graph))),
    ensures
        label_seqs(final(labels)) == add_label(label_seqs(old(labels)), x@),
        distinct(label_seqs(final(labels))),
        final(graph).len() == final(labels).len(),
        adjacency(final(graph)) == adjacency(old(graph)) + Seq::new(
            (final(labels).len() - old(labels).len()) as nat,
            |i: int| Seq::<usize>::empty(),
        ),
        well_formed(adjacency(final(graph))),
        r < final(labels).len(),
        label_seqs(final(labels))[r as int] == x@,
        r == label_index(label_seqs(final(labels)), x@),
{
    let ghost xs = x@;
    match find_label(labels, &x) {
        Some(i) => {
            proof {
                lemma_label_index(label_seqs(labels), xs, i as int);
                assert(adjacency(graph) =~= adjacency(graph) + Seq::new(0, |i: int| Seq::<usize>::empty()));
            }
            i
        },
        None => {
            let ghost before = label_seqs(labels);
            let ghost lists = adjacency(graph);
            labels.push(x);
            graph.push(Vec::new());
            let i = labels.len() - 1;
            proof {
                assert(label_seqs(labels) =~= before.push(xs));
                assert(distinct(label_seqs(labels)));
                lemma_label_index(label_seqs(labels), xs, i as int);
                assert(adjacency(graph) =~= lists + Seq::new(1, |i: int| Seq::<usize>::empty()));
                let g = adjacency(graph);
                assert forall|u: int, e: int| 0 <= u < g.len() && 0 <= e < g[u].len() implies #[trigger] g[u][e] < g.len() by {
                    assert(u < lists.len());
                    assert(g[u][e] == lists[u][e]);
                }
            }
            i
        },
    }
}

/// Reads the lines of an edge list: the first line is a header and is skipped; each
/// other line must hold two labels separated by a single comma. Labels get dense ids
/// in the order in which they are first met, and each line adds an edge from its
/// first label to its second.
pub fn parse_edge_list(lines: &Vec<Vec<u8>>) -> (r: Result<(Vec<Vec<u8>>, Vec<Vec<usize>>), LoadError>)
    ensures
        match r {
            Ok((labels, graph)) => {
                &&& forall|i: int| 1 <= i < lines.len() ==> #[trigger] is_row(label_seqs(lines)[i])
                &&& label_seqs(&labels) == load(rows_of(label_seqs(lines))).0
                &&& adjacency(&graph) == load(rows_of(label_seqs(lines))).1
                &&& graph.len() == labels.len()
                &&& well_formed(adjacency(&graph))
            },
            Err(e) => {
                &&& e == LoadError::InvalidFormat
                &&& exists|i: int| 1 <= i < lines.len() && !#[trigger] is_row(label_seqs(lines)[i])
            },
        },
{
    let ghost ls = label_seqs(lines);
    let ghost rows = rows_of(ls);
    let mut labels: Vec<Vec<u8>> = Vec::new();
    let mut graph: Vec<Vec<usize>> = Vec::new();
    if lines.len() == 0 {
        proof {
            assert(label_seqs(&labels) =~= Seq::<Seq<u8>>::empty());
            assert(adjacency(&graph) =~= Seq::<Seq<usize>>::empty());
        }
        return Ok((labels, graph));
    }
    let mut i: usize = 1;
    proof {
        assert(rows.take(0) =~= Seq::<(Seq<u8>, Seq<u8>)>::empty());
        assert(label_seqs(&labels) =~= Seq::<Seq<u8>>::empty());
        assert(adjacency(&graph) =~= Seq::<Seq<usize>>::empty());
    }
    while i < lines.len()
        invariant
            ls == label_seqs(lines),
            rows == rows_of(ls),
            1 <= i <= lines.len(),
            forall|k: int| 1 <= k < i ==> #[trigger] is_row(ls[k]),
            label_seqs(&labels) == load(rows.take(i - 1)).0,
            adjacency(&graph) == load(rows.take(i - 1)).1,
            distinct(label_seqs(&labels)),
            graph.len() == labels.len(),
            well_formed(adjacency(&graph)),
        decreases lines.len() - i,
    {
        match split_row(&lines[i]) {
            None => {
                assert(!is_row(ls[i as int]));
                return Err(LoadError::InvalidFormat);
            },
            Some((a, b)) => {
                let ghost prev = load(rows.take(i - 1));
                let ghost rs = rows.take(i as int);
                proof {
                    assert(rs.drop_last() =~= rows.take(i - 1));
                    assert(rs.last() == row_parts(ls[i as int]));
                }
                let ghost av = a@;
                let ghost bv = b@;
                let ia = intern(&mut labels, &mut graph, a);
                let ghost mid = label_seqs(&labels);
                let ib = intern(&mut labels, &mut graph, b);
                proof {
                    assert(mid[ia as int] == av);
                    assert(label_seqs(&labels)[ia as int] == mid[ia as int]);
                    lemma_label_index(label_seqs(&labels), av, ia as int);
                    assert(adjacency(&graph) =~= prev.1 + Seq::new(
                        (labels.len() - prev.1.len()) as nat,
                        |i: int| Seq::<usize>::empty(),
                    ));
                }
                let ghost lists = adjacency(&graph);
                graph[ia].push(ib);
                proof {
                    assert(adjacency(&graph) =~= lists.update(ia as int, lists[ia as int].push(ib)));
                    assert(load(rs) == (label_seqs(&labels), adjacency(&graph)));
                    let g = adjacency(&graph);
                    assert forall|u: int, e: int| 0 <= u < g.len() && 0 <= e < g[u].len() implies #[trigger] g[u][e] < g.len() by {
                        if u != ia || e < lists[u].len() {
                            assert(g[u][e] == lists[u][e]);
                        }
                    }
                }
            },
        }
        i = i + 1;
    }
    proof {
        assert(rows.take(i - 1) =~= rows);
    }
    Ok((labels, graph))
}

} // verus!
