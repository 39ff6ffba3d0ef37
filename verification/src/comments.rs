//! Comments in a range of rows.

use vstd::prelude::*;

use crate::syntax::{
    end_of, is_child, is_inside, is_step, lemma_next_step, rows_nested, well_nested,
    SyntaxNodeView, SyntaxTree,
};

verus! {

/// Whether node `i` is a comment whose rows lie between `first` and `last`.
pub open spec fn is_comment_within(
    nodes: Seq<SyntaxNodeView>,
    i: int,
    comment_id: u16,
    first: usize,
    last: usize,
) -> bool {
    &&& nodes[i].named
    &&& nodes[i].kind_id == comment_id
    &&& first <= nodes[i].span.start_point.row
    &&& nodes[i].span.end_point.row <= last
}

/// The comments between the rows `first` and `last` among `c` and the siblings
/// after it, up to position `end`.
pub open spec fn sibling_comments(
    nodes: Seq<SyntaxNodeView>,
    c: int,
    end: int,
    comment_id: u16,
    first: usize,
    last: usize,
) -> Seq<int>
    decreases end - c,
{
    if 0 <= c < end_of(nodes, c) <= end {
        let rest = sibling_comments(nodes, end_of(nodes, c), end, comment_id, first, last);
        if is_comment_within(nodes, c, comment_id, first, last) {
            seq![c] + rest
        } else {
            rest
        }
    } else {
        Seq::empty()
    }
}

/// The comments between the rows `first` and `last` inside node `i`: those among
/// its children, and then those inside each of its children. A node outside the
/// rows is passed over.
pub open spec fn trawled(
    nodes: Seq<SyntaxNodeView>,
    i: int,
    comment_id: u16,
    first: usize,
    last: usize,
) -> Seq<int>
    decreases nodes[i].size, 1int, 0int,
    when well_nested(nodes) && 0 <= i < nodes.len()
{
    if nodes[i].span.end_point.row < first || nodes[i].span.start_point.row > last {
        Seq::empty()
    } else {
        sibling_comments(nodes, i + 1, end_of(nodes, i), comment_id, first, last)
            + trawled_children(nodes, i, i + 1, comment_id, first, last)
    }
}

/// The comments between the rows `first` and `last` inside the children of node
/// `i` from `c` on.
pub open spec fn trawled_children(
    nodes: Seq<SyntaxNodeView>,
    i: int,
    c: int,
    comment_id: u16,
    first: usize,
    last: usize,
) -> Seq<int>
    decreases nodes[i].size, 0int, end_of(nodes, i) - c,
    when well_nested(nodes) && 0 <= i < c && i < nodes.len()
    via trawled_children_decreases
{
    if c < end_of(nodes, i) {
        trawled(nodes, c, comment_id, first, last) + trawled_children(
            nodes,
            i,
            end_of(nodes, c),
            comment_id,
            first,
            last,
        )
    } else {
        Seq::empty()
    }
}

#[via_fn]
proof fn trawled_children_decreases(
    nodes: Seq<SyntaxNodeView>,
    i: int,
    c: int,
    comment_id: u16,
    first: usize,
    last: usize,
) {
    if c < end_of(nodes, i) {
        assert(is_inside(nodes, i, c));
        assert(nodes[c].size >= 1);
    }
}

/// The contents of a list of positions.
pub open spec fn positions(list: Seq<usize>) -> Seq<int> {
    list.map_values(|i: usize| i as int)
}

/// Returns the comments between the rows `first` and `last` inside a node.
pub fn trawl(
    syntax: &SyntaxTree,
    node: usize,
    comment_id: u16,
    first: usize,
    last: usize,
) -> (comments: Vec<usize>)
    requires
        well_nested(syntax@),
        node < syntax@.len(),
    ensures
        positions(comments@) == trawled(syntax@, node as int, comment_id, first, last),
        forall|k: int| 0 <= k < comments.len() ==> #[trigger] comments@[k] < syntax@.len(),
    decreases syntax@[node as int].size,
{
    let ghost i = node as int;
    let mut comments: Vec<usize> = Vec::new();
    let span = syntax.node(node).span;
    // If this node ends before our rows or starts after them, there's no point
    // in recursing through it.
    if span.end_point.row < first || span.start_point.row > last {
        return comments;
    }
    let end: usize = node + syntax.node(node).size;
    let ghost own = sibling_comments(syntax@, i + 1, end as int, comment_id, first, last);
    // Find any comments among the current children.
    let mut child: usize = node + 1;
    while child < end
        invariant
            well_nested(syntax@),
            i == node < syntax@.len(),
            end == end_of(syntax@, i),
            node < child <= end,
            own == positions(comments@) + sibling_comments(
                syntax@,
                child as int,
                end as int,
                comment_id,
                first,
                last,
            ),
            forall|k: int| 0 <= k < comments.len() ==> #[trigger] comments@[k] < syntax@.len(),
        decreases end - child,
    {
        assert(is_inside(syntax@, i, child as int));
        assert(syntax@[child as int].size >= 1);
        let ghost so_far = comments@;
        let candidate = syntax.node(child);
        if candidate.named && candidate.kind_id == comment_id && candidate.span.start_point.row
            >= first && candidate.span.end_point.row <= last {
            comments.push(child);
            assert(positions(comments@) =~= positions(so_far) + seq![child as int]);
        }
        child += candidate.size;
    }
    let mut child: usize = node + 1;
    while child < end
        invariant
            well_nested(syntax@),
            i == node < syntax@.len(),
            end == end_of(syntax@, i),
            node < child <= end,
            own + trawled_children(syntax@, i, i + 1, comment_id, first, last) == positions(
                comments@,
            ) + trawled_children(syntax@, i, child as int, comment_id, first, last),
            forall|k: int| 0 <= k < comments.len() ==> #[trigger] comments@[k] < syntax@.len(),
        decreases end - child,
    {
        assert(is_inside(syntax@, i, child as int));
        assert(syntax@[child as int].size >= 1);
        let ghost so_far = comments@;
        let mut inner = trawl(syntax, child, comment_id, first, last);
        let ghost added = inner@;
        comments.append(&mut inner);
        assert(positions(comments@) =~= positions(so_far) + positions(added));
        child += syntax.node(child).size;
    }
    assert(positions(comments@) =~= trawled(syntax@, i, comment_id, first, last));
    comments
}

/// Whether node `j` is inside a child of node `i` that is at `c` or after it.
spec fn is_inside_child(nodes: Seq<SyntaxNodeView>, i: int, c: int, j: int) -> bool {
    exists|child: int| #[trigger]
        is_child(nodes, i, child) && c <= child && is_inside(nodes, child, j)
}

proof fn lemma_inside_child(nodes: Seq<SyntaxNodeView>, i: int, c: int, j: int) -> (child: int)
    requires
        is_inside_child(nodes, i, c, j),
    ensures
        is_child(nodes, i, child),
        c <= child,
        is_inside(nodes, child, j),
{
    choose|child: int| #[trigger]
        is_child(nodes, i, child) && c <= child && is_inside(nodes, child, j)
}

/// A node inside `i` is a child of `i` or inside one.
proof fn lemma_child_around(nodes: Seq<SyntaxNodeView>, i: int, c: int, j: int) -> (child: int)
    requires
        well_nested(nodes),
        is_step(nodes, i, c),
        c <= j < end_of(nodes, i),
    ensures
        is_child(nodes, i, child),
        c <= child,
        j == child || is_inside(nodes, child, j),
    decreases j - c,
{
    lemma_next_step(nodes, i, c);
    if j < end_of(nodes, c) {
        c
    } else {
        lemma_child_around(nodes, i, end_of(nodes, c), j)
    }
}

proof fn lemma_sibling_comments(
    nodes: Seq<SyntaxNodeView>,
    i: int,
    c: int,
    comment_id: u16,
    first: usize,
    last: usize,
)
    requires
        well_nested(nodes),
        is_step(nodes, i, c),
    ensures
        ({
            let found = sibling_comments(nodes, c, end_of(nodes, i), comment_id, first, last);
            &&& found.no_duplicates()
            &&& forall|j: int| #[trigger]
                found.contains(j) <==> {
                    &&& is_child(nodes, i, j)
                    &&& c <= j
                    &&& is_comment_within(nodes, j, comment_id, first, last)
                }
        }),
    decreases end_of(nodes, i) - c,
{
    let end = end_of(nodes, i);
    let found = sibling_comments(nodes, c, end, comment_id, first, last);
    if c < end {
        lemma_next_step(nodes, i, c);
        let next = end_of(nodes, c);
        lemma_sibling_comments(nodes, i, next, comment_id, first, last);
        let rest = sibling_comments(nodes, next, end, comment_id, first, last);
        assert forall|j: int| is_child(nodes, i, j) && c <= j implies j == c || next <= j by {
            if c < j {
                assert(end_of(nodes, c) <= j);
            }
        }
        if is_comment_within(nodes, c, comment_id, first, last) {
            assert(found == seq![c] + rest);
            lemma_concat(seq![c], rest);
            assert(seq![c].contains(c)) by {
                assert(seq![c][0] == c);
            }
        } else {
            assert(found == rest);
        }
    } else {
        assert forall|j: int| !found.contains(j) by {}
    }
}

/// What a concatenation contains.
proof fn lemma_concat(left: Seq<int>, right: Seq<int>)
    ensures
        forall|j: int| #[trigger]
            (left + right).contains(j) <==> left.contains(j) || right.contains(j),
        left.no_duplicates() && right.no_duplicates() && (forall|j: int| #[trigger]
            left.contains(j) ==> !right.contains(j)) ==> (left + right).no_duplicates(),
{
    let both = left + right;
    assert forall|j: int| #[trigger] both.contains(j) <==> left.contains(j) || right.contains(j) by {
        if left.contains(j) {
            let k = choose|k: int| 0 <= k < left.len() && left[k] == j;
            assert(both[k] == j);
        }
        if right.contains(j) {
            let k = choose|k: int| 0 <= k < right.len() && right[k] == j;
            assert(both[left.len() + k] == j);
        }
    }
    if left.no_duplicates() && right.no_duplicates() && (forall|j: int| #[trigger]
        left.contains(j) ==> !right.contains(j)) {
        assert forall|k: int, m: int|
            0 <= k < both.len() && 0 <= m < both.len() && k != m implies both[k] != both[m] by {
            if k < left.len() && m >= left.len() {
                assert(left.contains(both[k]));
                assert(right[m - left.len()] == both[m]);
                assert(right.contains(both[m]));
            } else if m < left.len() && k >= left.len() {
                assert(left.contains(both[m]));
                assert(right[k - left.len()] == both[k]);
                assert(right.contains(both[k]));
            } else if k >= left.len() {
                assert(right[k - left.len()] == both[k]);
                assert(right[m - left.len()] == both[m]);
            }
        }
    }
}

/// The comments inside a node are found once each, whichever nodes are passed
/// over.
pub proof fn lemma_trawled(
    nodes: Seq<SyntaxNodeView>,
    i: int,
    comment_id: u16,
    first: usize,
    last: usize,
)
    requires
        well_nested(nodes),
        rows_nested(nodes),
        0 <= i < nodes.len(),
    ensures
        trawled(nodes, i, comment_id, first, last).no_duplicates(),
        forall|j: int| #[trigger]
            trawled(nodes, i, comment_id, first, last).contains(j) <==> is_inside(nodes, i, j)
                && is_comment_within(nodes, j, comment_id, first, last),
    decreases nodes[i].size, 1int, 0int,
{
    let found = trawled(nodes, i, comment_id, first, last);
    if nodes[i].span.end_point.row < first || nodes[i].span.start_point.row > last {
        assert forall|j: int| #[trigger] found.contains(j) <==> is_inside(nodes, i, j)
            && is_comment_within(nodes, j, comment_id, first, last) by {
            if is_inside(nodes, i, j) && is_comment_within(nodes, j, comment_id, first, last) {
                assert(nodes[j].span.start_point.row <= nodes[j].span.end_point.row);
            }
        }
    } else {
        assert(is_step(nodes, i, i + 1)) by {
            assert(nodes[i].size >= 1);
        }
        lemma_sibling_comments(nodes, i, i + 1, comment_id, first, last);
        lemma_trawled_children(nodes, i, i + 1, comment_id, first, last);
        let own = sibling_comments(nodes, i + 1, end_of(nodes, i), comment_id, first, last);
        let inner = trawled_children(nodes, i, i + 1, comment_id, first, last);
        assert forall|j: int| own.contains(j) implies !inner.contains(j) by {
            if inner.contains(j) {
                let child = lemma_inside_child(nodes, i, i + 1, j);
                assert(end_of(nodes, child) <= j);
            }
        }
        lemma_concat(own, inner);
        assert forall|j: int| is_inside(nodes, i, j) && is_comment_within(
            nodes,
            j,
            comment_id,
            first,
            last,
        ) implies own.contains(j) || inner.contains(j) by {
            let child = lemma_child_around(nodes, i, i + 1, j);
        }
        assert forall|j: int| inner.contains(j) implies is_inside(nodes, i, j) by {
            let child = lemma_inside_child(nodes, i, i + 1, j);
            assert(is_inside(nodes, i, child));
        }
    }
}

proof fn lemma_trawled_children(
    nodes: Seq<SyntaxNodeView>,
    i: int,
    c: int,
    comment_id: u16,
    first: usize,
    last: usize,
)
    requires
        well_nested(nodes),
        rows_nested(nodes),
        is_step(nodes, i, c),
    ensures
        ({
            let found = trawled_children(nodes, i, c, comment_id, first, last);
            &&& found.no_duplicates()
            &&& forall|j: int| #[trigger]
                found.contains(j) <==> {
                    &&& is_inside_child(nodes, i, c, j)
                    &&& is_comment_within(nodes, j, comment_id, first, last)
                }
        }),
    decreases nodes[i].size, 0int, end_of(nodes, i) - c,
{
    let found = trawled_children(nodes, i, c, comment_id, first, last);
    if c < end_of(nodes, i) {
        lemma_next_step(nodes, i, c);
        let next = end_of(nodes, c);
        assert(is_inside(nodes, i, c));
        lemma_trawled(nodes, c, comment_id, first, last);
        lemma_trawled_children(nodes, i, next, comment_id, first, last);
        let here = trawled(nodes, c, comment_id, first, last);
        let rest = trawled_children(nodes, i, next, comment_id, first, last);
        assert(found == here + rest);
        assert forall|j: int| here.contains(j) implies !rest.contains(j) by {
            if rest.contains(j) {
                let child = lemma_inside_child(nodes, i, next, j);
            }
        }
        lemma_concat(here, rest);
        assert forall|j: int| #[trigger] found.contains(j) <==> {
            &&& is_inside_child(nodes, i, c, j)
            &&& is_comment_within(nodes, j, comment_id, first, last)
        } by {
            if is_inside_child(nodes, i, c, j) {
                let child = lemma_inside_child(nodes, i, c, j);
                if child != c {
                    assert(end_of(nodes, c) <= child);
                }
            }
        }
    } else {
        assert forall|j: int| found.contains(j) == false by {}
        assert forall|child: int| is_child(nodes, i, child) implies child < c by {}
    }
}

/// Whether node `i` comes before node `j` among what is inside node `a`: both are
/// children of it in this order, only the first is a child of it, or they are inside
/// two children of it that stand in this order.
pub open spec fn stands_first(nodes: Seq<SyntaxNodeView>, a: int, i: int, j: int) -> bool {
    ||| is_child(nodes, a, i) && is_child(nodes, a, j) && i < j
    ||| is_child(nodes, a, i) && is_inside(nodes, a, j) && !is_child(nodes, a, j)
    ||| exists|k: int, m: int|
        {
            &&& #[trigger] is_child(nodes, a, k)
            &&& #[trigger] is_child(nodes, a, m)
            &&& k < m
            &&& is_inside(nodes, k, i)
            &&& is_inside(nodes, m, j)
        }
}

/// Whether node `i` comes before node `j` inside some node.
pub open spec fn comes_first(nodes: Seq<SyntaxNodeView>, i: int, j: int) -> bool {
    exists|a: int| #[trigger] stands_first(nodes, a, i, j)
}

/// Whether every node of a list comes before those after it.
pub open spec fn is_ordered(nodes: Seq<SyntaxNodeView>, list: Seq<int>) -> bool {
    forall|p: int, q: int|
        0 <= p < q < list.len() ==> comes_first(nodes, #[trigger] list[p], #[trigger] list[q])
}

proof fn lemma_ordered_concat(nodes: Seq<SyntaxNodeView>, left: Seq<int>, right: Seq<int>)
    requires
        is_ordered(nodes, left),
        is_ordered(nodes, right),
        forall|i: int, j: int| #[trigger]
            left.contains(i) && #[trigger] right.contains(j) ==> comes_first(nodes, i, j),
    ensures
        is_ordered(nodes, left + right),
{
    let both = left + right;
    assert forall|p: int, q: int| 0 <= p < q < both.len() implies comes_first(
        nodes,
        #[trigger] both[p],
        #[trigger] both[q],
    ) by {
        if q < left.len() {
            assert(both[p] == left[p] && both[q] == left[q]);
        } else if p >= left.len() {
            assert(both[p] == right[p - left.len()] && both[q] == right[q - left.len()]);
        } else {
            assert(left.contains(left[p]));
            assert(right.contains(right[q - left.len()]));
        }
    }
}

proof fn lemma_siblings_ordered(
    nodes: Seq<SyntaxNodeView>,
    i: int,
    c: int,
    comment_id: u16,
    first: usize,
    last: usize,
)
    requires
        well_nested(nodes),
        is_step(nodes, i, c),
    ensures
        is_ordered(
            nodes,
            sibling_comments(nodes, c, end_of(nodes, i), comment_id, first, last),
        ),
    decreases end_of(nodes, i) - c,
{
    let end = end_of(nodes, i);
    if c < end {
        lemma_next_step(nodes, i, c);
        let next = end_of(nodes, c);
        lemma_siblings_ordered(nodes, i, next, comment_id, first, last);
        lemma_sibling_comments(nodes, i, next, comment_id, first, last);
        let rest = sibling_comments(nodes, next, end, comment_id, first, last);
        assert forall|k: int, j: int| #[trigger]
            seq![c].contains(k) && #[trigger] rest.contains(j) implies comes_first(nodes, k, j) by {
            assert(stands_first(nodes, i, k, j));
        }
        lemma_ordered_concat(nodes, seq![c], rest);
    }
}

/// The comments inside a node are found in order: those among its children come
/// first, and then those inside each of its children.
pub proof fn lemma_trawled_ordered(
    nodes: Seq<SyntaxNodeView>,
    i: int,
    comment_id: u16,
    first: usize,
    last: usize,
)
    requires
        well_nested(nodes),
        rows_nested(nodes),
        0 <= i < nodes.len(),
    ensures
        is_ordered(nodes, trawled(nodes, i, comment_id, first, last)),
    decreases nodes[i].size, 1int, 0int,
{
    if !(nodes[i].span.end_point.row < first || nodes[i].span.start_point.row > last) {
        assert(is_step(nodes, i, i + 1)) by {
            assert(nodes[i].size >= 1);
        }
        lemma_siblings_ordered(nodes, i, i + 1, comment_id, first, last);
        lemma_sibling_comments(nodes, i, i + 1, comment_id, first, last);
        lemma_children_ordered(nodes, i, i + 1, comment_id, first, last);
        lemma_trawled_children(nodes, i, i + 1, comment_id, first, last);
        let own = sibling_comments(nodes, i + 1, end_of(nodes, i), comment_id, first, last);
        let inner = trawled_children(nodes, i, i + 1, comment_id, first, last);
        assert forall|k: int, j: int| #[trigger]
            own.contains(k) && #[trigger] inner.contains(j) implies comes_first(nodes, k, j) by {
            let child = lemma_inside_child(nodes, i, i + 1, j);
            assert(is_inside(nodes, i, child));
            assert(end_of(nodes, child) > j);
            assert(stands_first(nodes, i, k, j));
        }
        lemma_ordered_concat(nodes, own, inner);
    }
}

proof fn lemma_children_ordered(
    nodes: Seq<SyntaxNodeView>,
    i: int,
    c: int,
    comment_id: u16,
    first: usize,
    last: usize,
)
    requires
        well_nested(nodes),
        rows_nested(nodes),
        is_step(nodes, i, c),
    ensures
        is_ordered(nodes, trawled_children(nodes, i, c, comment_id, first, last)),
    decreases nodes[i].size, 0int, end_of(nodes, i) - c,
{
    if c < end_of(nodes, i) {
        lemma_next_step(nodes, i, c);
        let next = end_of(nodes, c);
        assert(is_inside(nodes, i, c));
        lemma_trawled_ordered(nodes, c, comment_id, first, last);
        lemma_trawled(nodes, c, comment_id, first, last);
        lemma_children_ordered(nodes, i, next, comment_id, first, last);
        lemma_trawled_children(nodes, i, next, comment_id, first, last);
        let here = trawled(nodes, c, comment_id, first, last);
        let rest = trawled_children(nodes, i, next, comment_id, first, last);
        assert forall|k: int, j: int| #[trigger]
            here.contains(k) && #[trigger] rest.contains(j) implies comes_first(nodes, k, j) by {
            let child = lemma_inside_child(nodes, i, next, j);
            assert(is_child(nodes, i, c) && is_child(nodes, i, child) && c < child);
            assert(stands_first(nodes, i, k, j));
        }
        lemma_ordered_concat(nodes, here, rest);
    }
}

} // verus!
