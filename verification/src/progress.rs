//! When a document can be read off a source.

use vstd::prelude::*;

use crate::anchors::{
    anchor_target, anchored_at, anchors_among, anchors_of, name_at, TreeView,
};
use crate::builder::{
    alias_target, build, build_content, build_items, build_kind, build_mapping, build_pair,
    build_pairs, build_sequence, content, holds_pair, is_mapping, is_pair, is_sequence,
    item_content, lemma_content, lemma_content_inside, lemma_item_inside, lemma_pair_inside,
    lemma_pair_is_no_wrapper, pair_key, pair_value, placeholder, BuildState,
};
use crate::cst::{KindView, MappingEntry, NodeId};
use crate::document::{document_of, source_read};
use crate::error::ErrorView;
use crate::laws::{is_anchor_at, is_target_at, lemma_anchors};
use crate::location::SpanInfo;
use crate::maps::is_last_before;
use crate::meaning::{is_anchor_for, is_last_anchor, lemma_last_is_there};
use crate::reading::{
    is_item_value, is_named_child, is_pair_in, is_value_beside,
    law_anchors_are_for_the_value_beside_them, law_first_named_child_is_first,
    law_values_are_their_own_content, passes_on,
};
use crate::syntax::{
    end_of, is_child, is_inside, is_step, is_syntax_of, lemma_next_step, well_nested, Skip,
    SyntaxNodeView,
};
use crate::text::slice_of;
use crate::treesitter::{is_yaml, yaml_has_error, yaml_nodes};

verus! {

/// Whether node `n` is the key or the value of the pair `q` of the mapping `c`, or
/// what the item `q` of the sequence `c` holds.
pub open spec fn is_part_of(nodes: Seq<SyntaxNodeView>, c: int, q: int, n: int) -> bool {
    if is_mapping(nodes[c].kind) {
        &&& is_pair_in(nodes, c, q)
        &&& if nodes[q].kind == "flow_node"@ {
            n == q
        } else {
            nodes[q].key == Some(n as usize) && 0 <= n < nodes.len() || nodes[q].value == Some(
                n as usize,
            ) && 0 <= n < nodes.len()
        }
    } else if is_sequence(nodes[c].kind) {
        &&& is_named_child(nodes, c, q)
        &&& nodes[q].kind != "comment"@
        &&& is_item_value(nodes, q, n)
    } else {
        false
    }
}

/// Whether a list of nodes leads from `c` to `t`, from each node to the content of
/// a part of it.
pub open spec fn is_trail(nodes: Seq<SyntaxNodeView>, trail: Seq<int>, c: int, t: int) -> bool {
    &&& trail.len() > 0
    &&& trail[0] == c
    &&& trail.last() == t
    &&& forall|i: int|
        0 < i < trail.len() ==> is_content_in(nodes, trail[i - 1], #[trigger] trail[i])
}

/// Whether node `d` is the content of a part of node `c`.
pub open spec fn is_content_in(nodes: Seq<SyntaxNodeView>, c: int, d: int) -> bool {
    exists|q: int, n: int| #[trigger] is_part_of(nodes, c, q, n) && content(nodes, n) == d
}

/// Whether node `t` is read when the content `c` is read: it is `c`, or the content
/// of a key, a value or an item in it.
pub open spec fn is_read_in(nodes: Seq<SyntaxNodeView>, c: int, t: int) -> bool {
    exists|trail: Seq<int>| is_trail(nodes, trail, c, t)
}

/// Whether anchors stand only where a value is passed on.
pub open spec fn anchors_stand_in_wrappers(nodes: Seq<SyntaxNodeView>) -> bool {
    forall|p: int, i: int| #[trigger]
        is_child(nodes, p, i) && 0 <= p && nodes[i].kind == "anchor"@ ==> passes_on(nodes[p].kind)
}

/// Whether every pair has a key, and has it before its value.
pub open spec fn pairs_have_keys(nodes: Seq<SyntaxNodeView>) -> bool {
    forall|p: int|
        0 <= p < nodes.len() && ((#[trigger] nodes[p]).kind == "flow_pair"@ || nodes[p].kind
            == "block_mapping_pair"@) ==> {
            &&& nodes[p].key matches Some(key)
            &&& nodes[p].value matches Some(value) ==> key < value
        }
}

/// Mappings, sequences, their items and bare keys are no anchors, and only bare keys
/// pass a value on.
proof fn lemma_kinds(kind: Seq<char>)
    ensures
        is_mapping(kind) || is_sequence(kind) || kind == "block_sequence_item"@ ==> !passes_on(
            kind,
        ),
        kind == "flow_node"@ ==> kind != "anchor"@ && !is_pair(kind),
{
    reveal_strlit("stream");
    reveal_strlit("document");
    reveal_strlit("block_node");
    reveal_strlit("flow_node");
    reveal_strlit("anchor");
    reveal_strlit("block_mapping");
    reveal_strlit("flow_mapping");
    reveal_strlit("block_mapping_pair");
    reveal_strlit("flow_pair");
    reveal_strlit("block_sequence");
    reveal_strlit("flow_sequence");
    reveal_strlit("block_sequence_item");
    assert("stream"@.len() == 6);
    assert("document"@.len() == 8);
    assert("block_node"@.len() == 10);
    assert("flow_node"@.len() == 9);
    assert("anchor"@.len() == 6);
    assert("block_mapping"@.len() == 13);
    assert("flow_mapping"@.len() == 12);
    assert("block_mapping_pair"@.len() == 18);
    assert("flow_pair"@.len() == 9);
    assert("block_sequence"@.len() == 14);
    assert("flow_sequence"@.len() == 13);
    assert("block_sequence_item"@.len() == 19);
    assert("flow_pair"@[5] != "flow_node"@[5]);
}

/// A part stands in its pair or item, and so does its content.
proof fn lemma_part(nodes: Seq<SyntaxNodeView>, c: int, q: int, n: int)
    requires
        well_nested(nodes),
        anchors_stand_in_wrappers(nodes),
        0 <= c < nodes.len(),
        is_part_of(nodes, c, q, n),
    ensures
        0 <= n < nodes.len(),
        q <= n < end_of(nodes, q),
        end_of(nodes, n) <= end_of(nodes, q) <= end_of(nodes, c),
        is_inside(nodes, c, n),
        n <= content(nodes, n) < end_of(nodes, n),
        end_of(nodes, content(nodes, n)) <= end_of(nodes, n),
        is_inside(nodes, c, content(nodes, n)),
        nodes[content(nodes, n)].size < nodes[c].size,
        0 <= content(nodes, n) < nodes.len(),
{
    lemma_kinds(nodes[c].kind);
    lemma_kinds(nodes[q].kind);
    assert(end_of(nodes, c) <= nodes.len());
    if q != c {
        assert(is_inside(nodes, c, q));
        assert(end_of(nodes, q) <= end_of(nodes, c));
    }
    assert(nodes[q].size >= 1);
    if n != q {
        assert(is_child(nodes, q, n));
        assert(end_of(nodes, n) <= end_of(nodes, q));
    } else {
        assert(is_child(nodes, c, q));
    }
    assert(nodes[n].kind != "anchor"@);
    law_values_are_their_own_content(nodes, n);
    lemma_content_inside(nodes, c, n);
    let d = content(nodes, n);
    assert(nodes[n].size >= 1);
    if d != n {
        assert(end_of(nodes, d) <= end_of(nodes, n));
    }
}

/// What is read in a content is the content or inside it.
proof fn lemma_read_inside(nodes: Seq<SyntaxNodeView>, c: int, t: int)
    requires
        well_nested(nodes),
        anchors_stand_in_wrappers(nodes),
        0 <= c < nodes.len(),
        is_read_in(nodes, c, t),
    ensures
        c <= t < end_of(nodes, c),
        end_of(nodes, t) <= end_of(nodes, c),
        0 <= t < nodes.len(),
    decreases nodes[c].size,
{
    assert(nodes[c].size >= 1 && end_of(nodes, c) <= nodes.len());
    if t != c {
        let (q, n) = lemma_read_step(nodes, c, t);
        lemma_part(nodes, c, q, n);
        lemma_read_inside(nodes, content(nodes, n), t);
    }
}

/// What is read in a content and is not the content is read in a part of it.
proof fn lemma_read_step(nodes: Seq<SyntaxNodeView>, c: int, t: int) -> (part: (int, int))
    requires
        is_read_in(nodes, c, t),
        t != c,
    ensures
        is_part_of(nodes, c, part.0, part.1),
        is_read_in(nodes, content(nodes, part.1), t),
{
    let trail = choose|trail: Seq<int>| is_trail(nodes, trail, c, t);
    assert(trail.len() > 1);
    assert(is_content_in(nodes, trail[0], trail[1]));
    let (q, n) = choose|q: int, n: int| #[trigger]
        is_part_of(nodes, c, q, n) && content(nodes, n) == trail[1];
    let rest = trail.drop_first();
    assert forall|i: int| 0 < i < rest.len() implies is_content_in(
        nodes,
        rest[i - 1],
        #[trigger] rest[i],
    ) by {
        assert(trail[i + 1] == rest[i]);
        assert(is_content_in(nodes, trail[i + 1 - 1], trail[i + 1]));
    }
    assert(is_trail(nodes, rest, trail[1], t));
    (q, n)
}

/// What is read in a part of a content is read in the content.
proof fn lemma_read_part(nodes: Seq<SyntaxNodeView>, c: int, q: int, n: int, t: int)
    requires
        is_part_of(nodes, c, q, n),
        is_read_in(nodes, content(nodes, n), t),
    ensures
        is_read_in(nodes, c, t),
{
    let d = content(nodes, n);
    let trail = choose|trail: Seq<int>| is_trail(nodes, trail, d, t);
    let longer = seq![c] + trail;
    assert forall|i: int| 0 < i < longer.len() implies is_content_in(
        nodes,
        longer[i - 1],
        #[trigger] longer[i],
    ) by {
        if i == 1 {
            assert(is_content_in(nodes, c, d));
        } else {
            assert(longer[i] == trail[i - 1]);
            assert(is_content_in(nodes, trail[i - 1 - 1], trail[i - 1]));
        }
    }
    assert(is_trail(nodes, longer, c, t));
}

/// Whether what could be referenced before can be referenced after.
pub open spec fn keeps_placed(before: BuildState, after: BuildState) -> bool {
    forall|k: usize| #[trigger] before.placed.contains_key(k) ==> after.placed.contains_key(k)
}

/// Whether what is read in the content `c`, but for aliases, can be referenced.
pub open spec fn is_placed(nodes: Seq<SyntaxNodeView>, state: BuildState, c: int) -> bool {
    forall|t: int| #[trigger]
        is_read_in(nodes, c, t) && nodes[t].kind != "alias"@ ==> state.placed.contains_key(
            t as usize,
        )
}

/// Whether what is read in the parts of `c` in the pairs or items from `low` on and
/// before `high` can be referenced.
pub open spec fn are_placed(
    nodes: Seq<SyntaxNodeView>,
    state: BuildState,
    c: int,
    low: int,
    high: int,
) -> bool {
    forall|q: int, n: int| #[trigger]
        is_part_of(nodes, c, q, n) && low <= q < high ==> is_placed(
            nodes,
            state,
            content(nodes, n),
        )
}

/// What can be referenced stays so.
proof fn lemma_placed_kept(
    nodes: Seq<SyntaxNodeView>,
    before: BuildState,
    after: BuildState,
    c: int,
    low: int,
    high: int,
)
    requires
        keeps_placed(before, after),
    ensures
        is_placed(nodes, before, c) ==> is_placed(nodes, after, c),
        are_placed(nodes, before, c, low, high) ==> are_placed(nodes, after, c, low, high),
{
    if are_placed(nodes, before, c, low, high) {
        assert forall|q: int, n: int| #[trigger]
            is_part_of(nodes, c, q, n) && low <= q < high implies is_placed(
            nodes,
            after,
            content(nodes, n),
        ) by {
            assert(is_placed(nodes, before, content(nodes, n)));
        }
    }
}

/// Building a node keeps what can be referenced and, where it succeeds, adds what is
/// read in its content.
pub proof fn law_building_keeps_what_can_be_referenced(
    tree: TreeView,
    state: BuildState,
    n: int,
    parent: Option<NodeId>,
)
    requires
        well_nested(tree.nodes),
        anchors_stand_in_wrappers(tree.nodes),
        0 <= n < tree.nodes.len(),
    ensures
        keeps_placed(state, build(tree, state, n, parent).0),
        build(tree, state, n, parent).1 is Ok ==> is_placed(
            tree.nodes,
            build(tree, state, n, parent).0,
            content(tree.nodes, n),
        ),
    decreases tree.nodes[content(tree.nodes, n)].size, 4int, 0int,
{
    lemma_content(tree.nodes, n);
    lemma_placed_content(tree, state, content(tree.nodes, n), parent);
}

proof fn lemma_placed_content(tree: TreeView, state: BuildState, c: int, parent: Option<NodeId>)
    requires
        well_nested(tree.nodes),
        anchors_stand_in_wrappers(tree.nodes),
        0 <= c < tree.nodes.len(),
    ensures
        keeps_placed(state, build_content(tree, state, c, parent).0),
        build_content(tree, state, c, parent).1 is Ok ==> is_placed(
            tree.nodes,
            build_content(tree, state, c, parent).0,
            c,
        ),
    decreases tree.nodes[c].size, 3int, 0int,
{
    let nodes = tree.nodes;
    let id = NodeId(state.nodes.len() as usize);
    let reserved = BuildState { nodes: state.nodes.push(placeholder()), placed: state.placed };
    let (after, result) = build_content(tree, state, c, parent);
    if nodes[c].kind == "alias"@ {
        lemma_alias_is_no_container(nodes[c].kind);
        assert forall|t: int| #[trigger] is_read_in(nodes, c, t) implies t == c by {
            if t != c {
                let (q, n) = lemma_read_step(nodes, c, t);
            }
        }
    } else {
        lemma_placed_kind(tree, reserved, c, id);
        let (inner, built) = build_kind(tree, reserved, c, id);
        assert(keeps_placed(inner, after)) by {
            if built is Ok {
                assert(after.placed == inner.placed.insert(c as usize, id));
            } else {
                assert(after == inner);
            }
        }
        assert(keeps_placed(state, after)) by {
            assert forall|k: usize| #[trigger] state.placed.contains_key(k) implies
                after.placed.contains_key(k) by {
                assert(reserved.placed.contains_key(k));
                assert(inner.placed.contains_key(k));
            }
        }
        if result is Ok {
            assert(after.placed == inner.placed.insert(c as usize, id));
            assert forall|t: int| #[trigger]
                is_read_in(nodes, c, t) && nodes[t].kind != "alias"@ implies
                after.placed.contains_key(t as usize) by {
                if t != c {
                    let (q, n) = lemma_read_step(nodes, c, t);
                    lemma_part(nodes, c, q, n);
                    assert(is_placed(nodes, inner, content(nodes, n)));
                }
            }
        }
    }
}

/// Aliases hold no parts.
proof fn lemma_alias_is_no_container(kind: Seq<char>)
    requires
        kind == "alias"@,
    ensures
        !is_mapping(kind),
        !is_sequence(kind),
{
    reveal_strlit("alias");
    reveal_strlit("block_mapping");
    reveal_strlit("flow_mapping");
    reveal_strlit("block_mapping_pair");
    reveal_strlit("flow_pair");
    reveal_strlit("block_sequence");
    reveal_strlit("flow_sequence");
    assert("alias"@.len() == 5);
    assert("block_mapping"@.len() == 13);
    assert("flow_mapping"@.len() == 12);
    assert("block_mapping_pair"@.len() == 18);
    assert("flow_pair"@.len() == 9);
    assert("block_sequence"@.len() == 14);
    assert("flow_sequence"@.len() == 13);
}

proof fn lemma_placed_kind(tree: TreeView, state: BuildState, c: int, id: NodeId)
    requires
        well_nested(tree.nodes),
        anchors_stand_in_wrappers(tree.nodes),
        0 <= c < tree.nodes.len(),
    ensures
        keeps_placed(state, build_kind(tree, state, c, id).0),
        build_kind(tree, state, c, id).1 is Ok ==> are_placed(
            tree.nodes,
            build_kind(tree, state, c, id).0,
            c,
            c,
            end_of(tree.nodes, c),
        ),
    decreases tree.nodes[c].size, 2int, 0int,
{
    let node = tree.nodes[c];
    let end = end_of(tree.nodes, c);
    if is_mapping(node.kind) {
        assert(build_kind(tree, state, c, id) == build_mapping(tree, state, c, id));
        if is_pair(node.kind) {
            lemma_kinds(node.kind);
            lemma_placed_pair(tree, state, c, c, node.span, id, Map::empty());
            let after = build_pair(tree, state, c, c, node.span, id, Map::empty()).0;
            assert(build_mapping(tree, state, c, id).0 == after);
            if build_kind(tree, state, c, id).1 is Ok {
                assert(are_placed(tree.nodes, after, c, c, end));
            }
        } else {
            assert(node.size >= 1);
            lemma_placed_pairs(tree, state, c, c + 1, id, Map::empty());
            let after = build_pairs(tree, state, c, c + 1, id, Map::empty()).0;
            assert(build_mapping(tree, state, c, id).0 == after);
            if build_kind(tree, state, c, id).1 is Ok {
                assert forall|q: int, n: int| #[trigger]
                    is_part_of(tree.nodes, c, q, n) && c <= q < end implies is_placed(
                    tree.nodes,
                    after,
                    content(tree.nodes, n),
                ) by {
                    assert(c + 1 <= q);
                }
            }
        }
    } else if is_sequence(node.kind) {
        assert(build_kind(tree, state, c, id) == build_sequence(tree, state, c, id));
        assert(node.size >= 1);
        lemma_placed_items(tree, state, c, c + 1, id, Seq::empty());
        let after = build_items(tree, state, c, c + 1, id, Seq::empty()).0;
        assert(build_sequence(tree, state, c, id).0 == after);
        if build_kind(tree, state, c, id).1 is Ok {
            assert forall|q: int, n: int| #[trigger]
                is_part_of(tree.nodes, c, q, n) && c <= q < end implies is_placed(
                tree.nodes,
                after,
                content(tree.nodes, n),
            ) by {
                assert(c + 1 <= q);
            }
        }
    }
}

proof fn lemma_placed_pairs(
    tree: TreeView,
    state: BuildState,
    c: int,
    k: int,
    id: NodeId,
    entries: Map<Seq<char>, MappingEntry>,
)
    requires
        well_nested(tree.nodes),
        anchors_stand_in_wrappers(tree.nodes),
        is_mapping(tree.nodes[c].kind),
        !is_pair(tree.nodes[c].kind),
        is_step(tree.nodes, c, k),
    ensures
        keeps_placed(state, build_pairs(tree, state, c, k, id, entries).0),
        build_pairs(tree, state, c, k, id, entries).1 is Ok ==> are_placed(
            tree.nodes,
            build_pairs(tree, state, c, k, id, entries).0,
            c,
            k,
            end_of(tree.nodes, c),
        ),
    decreases tree.nodes[c].size, 1int, end_of(tree.nodes, c) - k,
{
    let nodes = tree.nodes;
    let end = end_of(nodes, c);
    if k < end {
        lemma_next_step(nodes, c, k);
        let child = nodes[k];
        let next = end_of(nodes, k);
        assert forall|q: int, n: int| #[trigger]
            is_part_of(nodes, c, q, n) && k < q implies next <= q by {
            assert(end_of(nodes, k) <= q);
        }
        if child.named && (is_pair(child.kind) || child.kind == "flow_node"@) {
            let span = if is_pair(child.kind) {
                child.span
            } else {
                nodes[c].span
            };
            lemma_placed_pair(tree, state, c, k, span, id, entries);
            let (inner, built) = build_pair(tree, state, c, k, span, id, entries);
            if let Ok(longer) = built {
                lemma_placed_pairs(tree, inner, c, next, id, longer);
                let (after, result) = build_pairs(tree, inner, c, next, id, longer);
                assert(build_pairs(tree, state, c, k, id, entries) == (after, result));
                if result is Ok {
                    assert forall|q: int, n: int| #[trigger]
                        is_part_of(nodes, c, q, n) && k <= q < end implies is_placed(
                        nodes,
                        after,
                        content(nodes, n),
                    ) by {
                        if q == k {
                            lemma_placed_kept(nodes, inner, after, content(nodes, n), 0, 0);
                        }
                    }
                }
            }
        } else {
            lemma_placed_pairs(tree, state, c, next, id, entries);
            assert forall|q: int, n: int| #[trigger] is_part_of(nodes, c, q, n) implies q != k by {}
        }
    }
}

proof fn lemma_placed_pair(
    tree: TreeView,
    state: BuildState,
    c: int,
    p: int,
    pair_span: SpanInfo,
    id: NodeId,
    entries: Map<Seq<char>, MappingEntry>,
)
    requires
        well_nested(tree.nodes),
        anchors_stand_in_wrappers(tree.nodes),
        0 <= c < tree.nodes.len(),
        is_mapping(tree.nodes[c].kind),
        is_pair_in(tree.nodes, c, p),
    ensures
        keeps_placed(state, build_pair(tree, state, c, p, pair_span, id, entries).0),
        build_pair(tree, state, c, p, pair_span, id, entries).1 is Ok ==> forall|n: int| #[trigger]
            is_part_of(tree.nodes, c, p, n) ==> is_placed(
                tree.nodes,
                build_pair(tree, state, c, p, pair_span, id, entries).0,
                content(tree.nodes, n),
            ),
    decreases tree.nodes[c].size, 0int, 0int,
{
    let nodes = tree.nodes;
    lemma_kinds(nodes[p].kind);
    lemma_pair_inside(nodes, c, p);
    let (after, result) = build_pair(tree, state, c, p, pair_span, id, entries);
    if let Some(key) = pair_key(nodes, p) {
        assert(is_part_of(nodes, c, p, key));
        lemma_part(nodes, c, p, key);
        law_building_keeps_what_can_be_referenced(tree, state, key, Some(id));
        let (after_key, built) = build(tree, state, key, Some(id));
        if built is Ok {
            if let Some(value) = pair_value(nodes, p) {
                assert(is_part_of(nodes, c, p, value));
                lemma_part(nodes, c, p, value);
                law_building_keeps_what_can_be_referenced(tree, after_key, value, Some(id));
                assert(after == build(tree, after_key, value, Some(id)).0);
            } else {
                assert(after == after_key);
            }
            lemma_placed_kept(nodes, after_key, after, content(nodes, key), 0, 0);
            if result is Ok {
                assert forall|n: int| #[trigger] is_part_of(nodes, c, p, n) implies is_placed(
                    nodes,
                    after,
                    content(nodes, n),
                ) by {
                    assert(n == key || pair_value(nodes, p) == Some(n));
                }
            }
        }
    }
}

/// What an item holds is decided by the item.
proof fn lemma_item_value(nodes: Seq<SyntaxNodeView>, q: int, n: int)
    requires
        well_nested(nodes),
        0 <= q < nodes.len(),
    ensures
        is_item_value(nodes, q, n) <==> n == item_content(nodes, q),
{
    law_first_named_child_is_first(nodes, q, Skip::Comments);
}

proof fn lemma_placed_items(
    tree: TreeView,
    state: BuildState,
    c: int,
    k: int,
    id: NodeId,
    item_ids: Seq<NodeId>,
)
    requires
        well_nested(tree.nodes),
        anchors_stand_in_wrappers(tree.nodes),
        !is_mapping(tree.nodes[c].kind),
        is_sequence(tree.nodes[c].kind),
        is_step(tree.nodes, c, k),
    ensures
        keeps_placed(state, build_items(tree, state, c, k, id, item_ids).0),
        build_items(tree, state, c, k, id, item_ids).1 is Ok ==> are_placed(
            tree.nodes,
            build_items(tree, state, c, k, id, item_ids).0,
            c,
            k,
            end_of(tree.nodes, c),
        ),
    decreases tree.nodes[c].size, 1int, end_of(tree.nodes, c) - k,
{
    let nodes = tree.nodes;
    let end = end_of(nodes, c);
    if k < end {
        lemma_next_step(nodes, c, k);
        let child = nodes[k];
        let next = end_of(nodes, k);
        assert forall|q: int, n: int| #[trigger]
            is_part_of(nodes, c, q, n) && k < q implies next <= q by {
            assert(end_of(nodes, k) <= q);
        }
        if child.named && child.kind != "comment"@ {
            let item = item_content(nodes, k);
            lemma_item_value(nodes, k, item);
            assert(is_part_of(nodes, c, k, item));
            lemma_part(nodes, c, k, item);
            law_building_keeps_what_can_be_referenced(tree, state, item, Some(id));
            let (inner, built) = build(tree, state, item, Some(id));
            if let Ok(item_id) = built {
                let more = item_ids.push(item_id);
                lemma_placed_items(tree, inner, c, next, id, more);
                let (after, result) = build_items(tree, inner, c, next, id, more);
                assert(build_items(tree, state, c, k, id, item_ids) == (after, result));
                if result is Ok {
                    assert forall|q: int, n: int| #[trigger]
                        is_part_of(nodes, c, q, n) && k <= q < end implies is_placed(
                        nodes,
                        after,
                        content(nodes, n),
                    ) by {
                        if q == k {
                            lemma_item_value(nodes, k, n);
                            lemma_placed_kept(nodes, inner, after, content(nodes, n), 0, 0);
                        }
                    }
                }
            }
        } else {
            lemma_placed_items(tree, state, c, next, id, item_ids);
        }
    }
}

/// Whether what the alias at node `a` stands for can be referenced, or is read in the
/// content `c` before the alias.
pub open spec fn resolves(tree: TreeView, state: BuildState, c: int, a: int) -> bool {
    anchored_at(
        tree.anchors,
        name_at(tree.text, tree.nodes, a),
        tree.nodes[a].span.start_byte,
    ) matches Some(t) && {
        ||| state.placed.contains_key(t)
        ||| {
            &&& is_read_in(tree.nodes, c, t as int)
            &&& end_of(tree.nodes, t as int) <= a
            &&& tree.nodes[t as int].kind != "alias"@
        }
    }
}

/// Whether every alias in the content `c` can be resolved.
pub open spec fn is_ready(tree: TreeView, state: BuildState, c: int) -> bool {
    forall|a: int| #[trigger]
        is_read_in(tree.nodes, c, a) && tree.nodes[a].kind == "alias"@ ==> resolves(
            tree,
            state,
            c,
            a,
        )
}

/// What the proofs ask of the syntax of a source.
pub open spec fn is_regular(nodes: Seq<SyntaxNodeView>) -> bool {
    &&& well_nested(nodes)
    &&& anchors_stand_in_wrappers(nodes)
    &&& pairs_have_keys(nodes)
}

/// The aliases in a part can be resolved once what stands before it is built.
proof fn lemma_part_is_ready(
    tree: TreeView,
    base: BuildState,
    state: BuildState,
    c: int,
    q: int,
    n: int,
)
    requires
        is_regular(tree.nodes),
        0 <= c < tree.nodes.len(),
        is_part_of(tree.nodes, c, q, n),
        is_ready(tree, base, c),
        keeps_placed(base, state),
        are_placed(tree.nodes, state, c, c, q),
        forall|m: int| #[trigger]
            is_part_of(tree.nodes, c, q, m) && m != n ==> is_placed(
                tree.nodes,
                state,
                content(tree.nodes, m),
            ) || end_of(tree.nodes, n) <= m,
    ensures
        is_ready(tree, state, content(tree.nodes, n)),
{
    let nodes = tree.nodes;
    let d = content(nodes, n);
    lemma_part(nodes, c, q, n);
    assert forall|a: int| #[trigger]
        is_read_in(nodes, d, a) && nodes[a].kind == "alias"@ implies resolves(
        tree,
        state,
        d,
        a,
    ) by {
        lemma_read_part(nodes, c, q, n, a);
        lemma_read_inside(nodes, d, a);
        assert(resolves(tree, base, c, a));
        let target = anchored_at(
            tree.anchors,
            name_at(tree.text, nodes, a),
            nodes[a].span.start_byte,
        )->Some_0;
        if !base.placed.contains_key(target) {
            let t = target as int;
            lemma_read_inside(nodes, c, t);
            assert(t != c);
            let (q2, m) = lemma_read_step(nodes, c, t);
            lemma_part(nodes, c, q2, m);
            lemma_read_inside(nodes, content(nodes, m), t);
            assert(nodes[t].size >= 1);
            if q2 > q {
                assert(end_of(nodes, q) <= q2);
            } else if q2 < q {
                assert(is_placed(nodes, state, content(nodes, m)));
            } else if m != n {
                assert(is_placed(nodes, state, content(nodes, m)));
            }
        }
    }
}

proof fn lemma_build_succeeds(tree: TreeView, state: BuildState, n: int, parent: Option<NodeId>)
    requires
        is_regular(tree.nodes),
        0 <= n < tree.nodes.len(),
        is_ready(tree, state, content(tree.nodes, n)),
    ensures
        build(tree, state, n, parent).1 is Ok,
    decreases tree.nodes[content(tree.nodes, n)].size, 4int, 0int,
{
    lemma_content(tree.nodes, n);
    lemma_content_succeeds(tree, state, content(tree.nodes, n), parent);
}

proof fn lemma_content_succeeds(tree: TreeView, state: BuildState, c: int, parent: Option<NodeId>)
    requires
        is_regular(tree.nodes),
        0 <= c < tree.nodes.len(),
        is_ready(tree, state, c),
    ensures
        build_content(tree, state, c, parent).1 is Ok,
    decreases tree.nodes[c].size, 3int, 0int,
{
    let nodes = tree.nodes;
    if nodes[c].kind == "alias"@ {
        assert(is_trail(nodes, seq![c], c, c));
        assert(is_read_in(nodes, c, c));
        assert(resolves(tree, state, c, c));
        assert(nodes[c].size >= 1);
        lemma_alias_is_no_container(nodes[c].kind);
        let target = anchored_at(
            tree.anchors,
            name_at(tree.text, nodes, c),
            nodes[c].span.start_byte,
        )->Some_0;
        if !state.placed.contains_key(target) {
            if target as int != c {
                let (q, n) = lemma_read_step(nodes, c, target as int);
            }
        }
        assert(alias_target(tree, state, c) is Ok);
    } else {
        let id = NodeId(state.nodes.len() as usize);
        let reserved = BuildState { nodes: state.nodes.push(placeholder()), placed: state.placed };
        assert forall|a: int| #[trigger]
            is_read_in(nodes, c, a) && nodes[a].kind == "alias"@ implies resolves(
            tree,
            reserved,
            c,
            a,
        ) by {
            assert(resolves(tree, state, c, a));
        }
        lemma_kind_succeeds(tree, reserved, c, id);
    }
}

proof fn lemma_kind_succeeds(tree: TreeView, state: BuildState, c: int, id: NodeId)
    requires
        is_regular(tree.nodes),
        0 <= c < tree.nodes.len(),
        is_ready(tree, state, c),
    ensures
        build_kind(tree, state, c, id).1 is Ok,
    decreases tree.nodes[c].size, 2int, 0int,
{
    let node = tree.nodes[c];
    assert(node.size >= 1);
    if is_mapping(node.kind) {
        assert(build_kind(tree, state, c, id) == build_mapping(tree, state, c, id));
        if is_pair(node.kind) {
            lemma_kinds(node.kind);
            lemma_pair_succeeds(tree, state, state, c, c, node.span, id, Map::empty());
        } else {
            assert(are_placed(tree.nodes, state, c, c, c + 1)) by {
                assert forall|q: int, n: int| #[trigger]
                    is_part_of(tree.nodes, c, q, n) implies q != c by {}
            }
            lemma_pairs_succeed(tree, state, state, c, c + 1, id, Map::empty());
        }
    } else if is_sequence(node.kind) {
        assert(build_kind(tree, state, c, id) == build_sequence(tree, state, c, id));
        assert(are_placed(tree.nodes, state, c, c, c + 1)) by {
            assert forall|q: int, n: int| #[trigger]
                is_part_of(tree.nodes, c, q, n) implies q != c by {}
        }
        lemma_items_succeed(tree, state, state, c, c + 1, id, Seq::empty());
    }
}

proof fn lemma_pairs_succeed(
    tree: TreeView,
    base: BuildState,
    state: BuildState,
    c: int,
    k: int,
    id: NodeId,
    entries: Map<Seq<char>, MappingEntry>,
)
    requires
        is_regular(tree.nodes),
        is_mapping(tree.nodes[c].kind),
        !is_pair(tree.nodes[c].kind),
        is_step(tree.nodes, c, k),
        is_ready(tree, base, c),
        keeps_placed(base, state),
        are_placed(tree.nodes, state, c, c, k),
    ensures
        build_pairs(tree, state, c, k, id, entries).1 is Ok,
    decreases tree.nodes[c].size, 1int, end_of(tree.nodes, c) - k,
{
    let nodes = tree.nodes;
    if k < end_of(nodes, c) {
        lemma_next_step(nodes, c, k);
        let child = nodes[k];
        let next = end_of(nodes, k);
        assert forall|q: int, n: int| #[trigger]
            is_part_of(nodes, c, q, n) && k < q implies next <= q by {
            assert(end_of(nodes, k) <= q);
        }
        if child.named && (is_pair(child.kind) || child.kind == "flow_node"@) {
            let span = if is_pair(child.kind) {
                child.span
            } else {
                nodes[c].span
            };
            lemma_pair_succeeds(tree, base, state, c, k, span, id, entries);
            lemma_placed_pair(tree, state, c, k, span, id, entries);
            let (inner, built) = build_pair(tree, state, c, k, span, id, entries);
            lemma_placed_kept(nodes, state, inner, c, c, k);
            assert(keeps_placed(base, inner));
            assert(are_placed(nodes, inner, c, c, next));
            lemma_pairs_succeed(tree, base, inner, c, next, id, built->Ok_0);
        } else {
            assert forall|q: int, n: int| #[trigger] is_part_of(nodes, c, q, n) implies q != k by {}
            lemma_pairs_succeed(tree, base, state, c, next, id, entries);
        }
    }
}

proof fn lemma_pair_succeeds(
    tree: TreeView,
    base: BuildState,
    state: BuildState,
    c: int,
    p: int,
    pair_span: SpanInfo,
    id: NodeId,
    entries: Map<Seq<char>, MappingEntry>,
)
    requires
        is_regular(tree.nodes),
        0 <= c < tree.nodes.len(),
        is_mapping(tree.nodes[c].kind),
        is_pair_in(tree.nodes, c, p),
        is_ready(tree, base, c),
        keeps_placed(base, state),
        are_placed(tree.nodes, state, c, c, p),
    ensures
        build_pair(tree, state, c, p, pair_span, id, entries).1 is Ok,
    decreases tree.nodes[c].size, 0int, 0int,
{
    let nodes = tree.nodes;
    lemma_kinds(nodes[p].kind);
    lemma_pair_inside(nodes, c, p);
    assert(0 <= p < nodes.len()) by {
        assert(end_of(nodes, c) <= nodes.len());
    }
    assert(pair_key(nodes, p) is Some);
    let key = pair_key(nodes, p)->Some_0;
    assert(is_part_of(nodes, c, p, key));
    lemma_part(nodes, c, p, key);
    assert forall|m: int| #[trigger] is_part_of(nodes, c, p, m) && m != key implies end_of(
        nodes,
        key,
    ) <= m by {
        assert(pair_value(nodes, p) == Some(m));
        assert(is_child(nodes, p, m));
        assert(is_child(nodes, p, key));
        assert(nodes[p].kind == "flow_pair"@ || nodes[p].kind == "block_mapping_pair"@);
        assert(nodes[p].key->Some_0 < nodes[p].value->Some_0);
        assert(end_of(nodes, key) <= m);
    }
    lemma_part_is_ready(tree, base, state, c, p, key);
    lemma_build_succeeds(tree, state, key, Some(id));
    law_building_keeps_what_can_be_referenced(tree, state, key, Some(id));
    let after_key = build(tree, state, key, Some(id)).0;
    if let Some(value) = pair_value(nodes, p) {
        assert(is_part_of(nodes, c, p, value));
        lemma_part(nodes, c, p, value);
        lemma_placed_kept(nodes, state, after_key, c, c, p);
        assert(keeps_placed(base, after_key));
        assert forall|m: int| #[trigger] is_part_of(nodes, c, p, m) && m != value implies is_placed(
            nodes,
            after_key,
            content(nodes, m),
        ) by {
            assert(m == key);
        }
        lemma_part_is_ready(tree, base, after_key, c, p, value);
        lemma_build_succeeds(tree, after_key, value, Some(id));
    }
}

proof fn lemma_items_succeed(
    tree: TreeView,
    base: BuildState,
    state: BuildState,
    c: int,
    k: int,
    id: NodeId,
    item_ids: Seq<NodeId>,
)
    requires
        is_regular(tree.nodes),
        !is_mapping(tree.nodes[c].kind),
        is_sequence(tree.nodes[c].kind),
        is_step(tree.nodes, c, k),
        is_ready(tree, base, c),
        keeps_placed(base, state),
        are_placed(tree.nodes, state, c, c, k),
    ensures
        build_items(tree, state, c, k, id, item_ids).1 is Ok,
    decreases tree.nodes[c].size, 1int, end_of(tree.nodes, c) - k,
{
    let nodes = tree.nodes;
    if k < end_of(nodes, c) {
        lemma_next_step(nodes, c, k);
        let child = nodes[k];
        let next = end_of(nodes, k);
        assert forall|q: int, n: int| #[trigger]
            is_part_of(nodes, c, q, n) && k < q implies next <= q by {
            assert(end_of(nodes, k) <= q);
        }
        if child.named && child.kind != "comment"@ {
            let item = item_content(nodes, k);
            lemma_item_value(nodes, k, item);
            assert(is_part_of(nodes, c, k, item));
            lemma_part(nodes, c, k, item);
            assert forall|m: int| #[trigger] is_part_of(nodes, c, k, m) implies m == item by {
                lemma_item_value(nodes, k, m);
            }
            lemma_part_is_ready(tree, base, state, c, k, item);
            lemma_build_succeeds(tree, state, item, Some(id));
            law_building_keeps_what_can_be_referenced(tree, state, item, Some(id));
            let (inner, built) = build(tree, state, item, Some(id));
            lemma_placed_kept(nodes, state, inner, c, c, k);
            assert(keeps_placed(base, inner));
            assert(are_placed(nodes, inner, c, c, next));
            lemma_items_succeed(tree, base, inner, c, next, id, item_ids.push(built->Ok_0));
        } else {
            lemma_items_succeed(tree, base, state, c, next, id, item_ids);
        }
    }
}

/// Whether every anchor has a value beside it: something named that is neither an
/// anchor nor a comment.
pub open spec fn anchors_have_values(nodes: Seq<SyntaxNodeView>) -> bool {
    forall|i: int|
        0 <= i < nodes.len() && (#[trigger] nodes[i]).kind == "anchor"@ ==> exists|p: int, k: int|
            is_child(nodes, p, i) && #[trigger] is_named_child(nodes, p, k) && nodes[k].kind
                != "anchor"@ && nodes[k].kind != "comment"@
}

/// The anchors of a source are found where every anchor has a value beside it.
proof fn lemma_anchors_found(text: Seq<char>, nodes: Seq<SyntaxNodeView>, n: int)
    requires
        well_nested(nodes),
        anchors_have_values(nodes),
        0 <= n <= nodes.len(),
    ensures
        anchors_among(text, nodes, n) is Ok,
    decreases n,
{
    if n > 0 {
        lemma_anchors_found(text, nodes, n - 1);
        if nodes[n - 1].kind == "anchor"@ {
            let (p, k) = choose|p: int, k: int|
                is_child(nodes, p, n - 1) && #[trigger] is_named_child(nodes, p, k)
                    && nodes[k].kind != "anchor"@ && nodes[k].kind != "comment"@;
            law_anchors_are_for_the_value_beside_them(nodes, n - 1);
        }
    }
}

/// A source is read wherever its syntax has no error, every anchor has a value beside
/// it in a node that passes a value on, every pair has a key and has it before its
/// value, and every alias that is read has an anchor of its name before it, the last
/// of which is for something that is read and ends before the alias. However often
/// an anchor is referenced, it can be referenced again.
pub proof fn law_documents_are_read(text: Seq<char>)
    requires
        !yaml_has_error(text),
        is_syntax_of(yaml_nodes(text), text),
        is_yaml(yaml_nodes(text), text),
        anchors_stand_in_wrappers(yaml_nodes(text)),
        anchors_have_values(yaml_nodes(text)),
        pairs_have_keys(yaml_nodes(text)),
        forall|a: int| #[trigger]
            is_read_in(yaml_nodes(text), content(yaml_nodes(text), 0), a) && yaml_nodes(
                text,
            )[a].kind == "alias"@ ==> has_referent(text, yaml_nodes(text), a),
    ensures
        document_of(text) is Ok,
{
    lemma_source_is_read(text, yaml_nodes(text));
}

proof fn lemma_source_is_read(text: Seq<char>, nodes: Seq<SyntaxNodeView>)
    requires
        is_regular(nodes),
        anchors_have_values(nodes),
        forall|a: int| #[trigger]
            is_read_in(nodes, content(nodes, 0), a) && nodes[a].kind == "alias"@ ==> has_referent(
                text,
                nodes,
                a,
            ),
    ensures
        source_read(text, Some(nodes)) is Ok,
{
    lemma_anchors_found(text, nodes, nodes.len() as int);
    let anchors = anchors_of(text, nodes)->Ok_0;
    let tree = TreeView { text, nodes, anchors };
    let empty = BuildState { nodes: Seq::empty(), placed: Map::empty() };
    let c = content(nodes, 0);
    lemma_content(nodes, 0);
    assert(is_ready(tree, empty, c)) by {
        assert forall|a: int| #[trigger]
            is_read_in(tree.nodes, c, a) && tree.nodes[a].kind == "alias"@ implies resolves(
            tree,
            empty,
            c,
            a,
        ) by {
            lemma_read_inside(nodes, c, a);
            assert(has_referent(text, nodes, a));
            lemma_referent(tree, a);
        }
    }
    lemma_build_succeeds(tree, empty, 0, None);
}

/// Whether the alias at node `a` has an anchor of its name before it, and every last
/// one of them is for something that is read and ends before the alias.
pub open spec fn has_referent(text: Seq<char>, nodes: Seq<SyntaxNodeView>, a: int) -> bool {
    let tree = TreeView { text, nodes, anchors: Map::empty() };
    &&& exists|i: int| #[trigger] is_anchor_for(tree, a, i)
    &&& forall|i: int, t: int| #[trigger]
        is_last_anchor(tree, a, i) && #[trigger] is_value_beside(nodes, i, t) ==> {
            &&& is_read_in(nodes, content(nodes, 0), t)
            &&& end_of(nodes, t) <= a
            &&& nodes[t].kind != "alias"@
        }
}

proof fn lemma_referent(tree: TreeView, a: int)
    requires
        well_nested(tree.nodes),
        anchors_of(tree.text, tree.nodes) == Ok::<_, ErrorView>(tree.anchors),
        has_referent(tree.text, tree.nodes, a),
        0 <= a < tree.nodes.len(),
    ensures
        resolves(
            tree,
            BuildState { nodes: Seq::empty(), placed: Map::empty() },
            content(tree.nodes, 0),
            a,
        ),
{
    let nodes = tree.nodes;
    let bare = TreeView { text: tree.text, nodes, anchors: Map::empty() };
    let n = nodes.len() as int;
    let name = name_at(tree.text, nodes, a);
    let end = nodes[a].span.start_byte;
    lemma_anchors(tree.text, nodes, n);
    let anchors = anchors_among(tree.text, nodes, n)->Ok_0;
    let i = choose|i: int| #[trigger] is_anchor_for(bare, a, i);
    assert(is_anchor_at(tree.text, nodes, n, i, name, nodes[i].span.start_byte));
    let positions = anchors[name];
    lemma_last_is_there(positions, end, nodes[i].span.start_byte);
    let chosen = choose|p: usize| is_last_before(positions, end, p);
    assert(is_last_before(positions, end, chosen));
    assert(anchors[name].contains_key(chosen));
    let target = positions[chosen];
    assert(is_target_at(tree.text, nodes, n, name, chosen, target));
    let last = choose|i: int| #[trigger]
        is_anchor_at(tree.text, nodes, n, i, name, chosen) && (anchor_target(nodes, i) matches Ok(
            t,
        ) && t == target);
    law_anchors_are_for_the_value_beside_them(nodes, last);
    assert(is_anchor_for(bare, a, last));
    assert forall|j: int| #[trigger] is_anchor_for(bare, a, j) implies nodes[j].span.start_byte
        <= nodes[last].span.start_byte by {
        assert(is_anchor_at(tree.text, nodes, n, j, name, nodes[j].span.start_byte));
    }
    assert(is_last_anchor(bare, a, last));
    assert(is_value_beside(nodes, last, target as int));
}

/// Whether the alias at node `a` has no anchor of its name before it.
pub open spec fn is_undefined(tree: TreeView, a: int) -> bool {
    &&& 0 <= a < tree.nodes.len()
    &&& tree.nodes[a].kind == "alias"@
    &&& forall|i: int| !#[trigger] is_anchor_for(tree, a, i)
}

/// Whether the alias at node `a` has anchors of its name before it, the last of which
/// is at node `i`.
pub open spec fn is_defined_by(tree: TreeView, a: int, i: int) -> bool {
    &&& 0 <= a < tree.nodes.len()
    &&& tree.nodes[a].kind == "alias"@
    &&& is_last_anchor(tree, a, i)
}

/// Whether the pair at node `p` has no key.
pub open spec fn is_keyless(tree: TreeView, p: int) -> bool {
    &&& 0 <= p < tree.nodes.len()
    &&& tree.nodes[p].kind == "flow_pair"@ || tree.nodes[p].kind == "block_mapping_pair"@
    &&& tree.nodes[p].key is None
}

/// Whether an error says why a source is refused: it names an alias without an anchor,
/// an alias whose anchor is for something that is not built before it, or the kind of
/// a pair without a key.
pub open spec fn is_refusal(tree: TreeView, error: ErrorView) -> bool {
    ||| exists|a: int| #[trigger]
        is_undefined(tree, a) && error == ErrorView::Other(
            "undefined alias: "@ + slice_of(
                tree.text,
                tree.nodes[a].span.start_byte + 1,
                tree.nodes[a].span.end_byte as int,
            ),
        )
    ||| exists|a: int, i: int| #[trigger]
        is_defined_by(tree, a, i) && error == ErrorView::Other(
            "anchor content not yet built for alias: "@ + slice_of(
                tree.text,
                tree.nodes[a].span.start_byte + 1,
                tree.nodes[a].span.end_byte as int,
            ),
        )
    ||| exists|p: int| #[trigger]
        is_keyless(tree, p) && error == ErrorView::MissingChildField(tree.nodes[p].kind, "key"@)
}

/// A source whose syntax has no error is refused for one of these reasons only: an
/// anchor without a value beside it, an alias without an anchor of its name before it,
/// an alias whose anchor is for something that is not built before it, or a pair
/// without a key. The error says which.
pub proof fn law_refusals_say_why(text: Seq<char>, nodes: Seq<SyntaxNodeView>)
    requires
        well_nested(nodes),
    ensures
        source_read(text, Some(nodes)) matches Err(error) ==> match anchors_of(text, nodes) {
            Ok(anchors) => is_refusal(TreeView { text, nodes, anchors }, error),
            Err(_) => {
                &&& !anchors_have_values(nodes)
                &&& error == ErrorView::UnexpectedNode("anchor has no non-comment sibling"@)
                    || error == ErrorView::UnexpectedNode("anchor node has no parent"@)
            },
        },
{
    if let Ok(anchors) = anchors_of(text, nodes) {
        let tree = TreeView { text, nodes, anchors };
        let empty = BuildState { nodes: Seq::empty(), placed: Map::empty() };
        lemma_build_refused(tree, empty, 0, None);
    } else {
        if anchors_have_values(nodes) {
            lemma_anchors_found(text, nodes, nodes.len() as int);
        }
        lemma_anchors_refused(text, nodes, nodes.len() as int);
    }
}

proof fn lemma_anchors_refused(text: Seq<char>, nodes: Seq<SyntaxNodeView>, n: int)
    ensures
        anchors_among(text, nodes, n) matches Err(error) ==> error == ErrorView::UnexpectedNode(
            "anchor has no non-comment sibling"@,
        ) || error == ErrorView::UnexpectedNode("anchor node has no parent"@),
    decreases n,
{
    if n > 0 {
        lemma_anchors_refused(text, nodes, n - 1);
    }
}

proof fn lemma_alias_refused(tree: TreeView, state: BuildState, a: int)
    requires
        well_nested(tree.nodes),
        anchors_of(tree.text, tree.nodes) == Ok::<_, ErrorView>(tree.anchors),
        0 <= a < tree.nodes.len(),
        tree.nodes[a].kind == "alias"@,
    ensures
        alias_target(tree, state, a) matches Err(error) ==> is_refusal(tree, error),
{
    let nodes = tree.nodes;
    let n = nodes.len() as int;
    let name = name_at(tree.text, nodes, a);
    let end = nodes[a].span.start_byte;
    lemma_anchors(tree.text, nodes, n);
    let anchors = anchors_among(tree.text, nodes, n)->Ok_0;
    if exists|i: int| #[trigger] is_anchor_for(tree, a, i) {
        let i = choose|i: int| #[trigger] is_anchor_for(tree, a, i);
        assert(is_anchor_at(tree.text, nodes, n, i, name, nodes[i].span.start_byte));
        lemma_last_is_there(anchors[name], end, nodes[i].span.start_byte);
        let chosen = choose|p: usize| is_last_before(anchors[name], end, p);
        assert(anchors[name].contains_key(chosen));
        assert(is_target_at(tree.text, nodes, n, name, chosen, anchors[name][chosen]));
        let last = choose|i: int| #[trigger] is_anchor_at(tree.text, nodes, n, i, name, chosen);
        assert forall|j: int| #[trigger] is_anchor_for(tree, a, j) implies nodes[j].span.start_byte
            <= nodes[last].span.start_byte by {
            assert(is_anchor_at(tree.text, nodes, n, j, name, nodes[j].span.start_byte));
        }
        assert(is_anchor_for(tree, a, last));
        assert(is_defined_by(tree, a, last));
    } else {
        if anchored_at(tree.anchors, name, end) is Some {
            let chosen = choose|p: usize| is_last_before(anchors[name], end, p);
            assert(anchors[name].contains_key(chosen));
            assert(is_target_at(tree.text, nodes, n, name, chosen, anchors[name][chosen]));
            let i = choose|i: int| #[trigger] is_anchor_at(tree.text, nodes, n, i, name, chosen);
            assert(is_anchor_for(tree, a, i));
        }
        assert(is_undefined(tree, a));
    }
}

proof fn lemma_build_refused(tree: TreeView, state: BuildState, n: int, parent: Option<NodeId>)
    requires
        well_nested(tree.nodes),
        anchors_of(tree.text, tree.nodes) == Ok::<_, ErrorView>(tree.anchors),
        0 <= n < tree.nodes.len(),
    ensures
        build(tree, state, n, parent).1 matches Err(error) ==> is_refusal(tree, error),
    decreases tree.nodes[content(tree.nodes, n)].size, 4int, 0int,
{
    let c = content(tree.nodes, n);
    lemma_content(tree.nodes, n);
    if tree.nodes[c].kind == "alias"@ {
        lemma_alias_refused(tree, state, c);
    } else {
        let id = NodeId(state.nodes.len() as usize);
        let reserved = BuildState { nodes: state.nodes.push(placeholder()), placed: state.placed };
        lemma_kind_refused(tree, reserved, c, id);
        assert(build_content(tree, state, c, parent).1 matches Err(error) ==> build_kind(
            tree,
            reserved,
            c,
            id,
        ).1 == Err::<KindView, _>(error));
    }
}

proof fn lemma_kind_refused(tree: TreeView, state: BuildState, c: int, id: NodeId)
    requires
        well_nested(tree.nodes),
        anchors_of(tree.text, tree.nodes) == Ok::<_, ErrorView>(tree.anchors),
        0 <= c < tree.nodes.len(),
    ensures
        build_kind(tree, state, c, id).1 matches Err(error) ==> is_refusal(tree, error),
    decreases tree.nodes[c].size, 2int, 0int,
{
    let node = tree.nodes[c];
    assert(node.size >= 1);
    if is_mapping(node.kind) {
        assert(build_kind(tree, state, c, id) == build_mapping(tree, state, c, id));
        if is_pair(node.kind) {
            lemma_pair_is_no_wrapper(node.kind);
            lemma_pair_refused(tree, state, c, c, node.span, id, Map::empty());
        } else {
            lemma_pairs_refused(tree, state, c, c + 1, id, Map::empty());
        }
    } else if is_sequence(node.kind) {
        assert(build_kind(tree, state, c, id) == build_sequence(tree, state, c, id));
        lemma_items_refused(tree, state, c, c + 1, id, Seq::empty());
    }
}

proof fn lemma_pairs_refused(
    tree: TreeView,
    state: BuildState,
    c: int,
    k: int,
    id: NodeId,
    entries: Map<Seq<char>, MappingEntry>,
)
    requires
        well_nested(tree.nodes),
        anchors_of(tree.text, tree.nodes) == Ok::<_, ErrorView>(tree.anchors),
        is_step(tree.nodes, c, k),
    ensures
        build_pairs(tree, state, c, k, id, entries).1 matches Err(error) ==> is_refusal(
            tree,
            error,
        ),
    decreases tree.nodes[c].size, 1int, end_of(tree.nodes, c) - k,
{
    let nodes = tree.nodes;
    if k < end_of(nodes, c) {
        lemma_next_step(nodes, c, k);
        let child = nodes[k];
        let next = end_of(nodes, k);
        if child.named && (is_pair(child.kind) || child.kind == "flow_node"@) {
            let span = if is_pair(child.kind) {
                child.span
            } else {
                nodes[c].span
            };
            lemma_pair_refused(tree, state, c, k, span, id, entries);
            let (inner, built) = build_pair(tree, state, c, k, span, id, entries);
            if let Ok(longer) = built {
                lemma_pairs_refused(tree, inner, c, next, id, longer);
            }
        } else {
            lemma_pairs_refused(tree, state, c, next, id, entries);
        }
    }
}

proof fn lemma_pair_refused(
    tree: TreeView,
    state: BuildState,
    c: int,
    p: int,
    pair_span: SpanInfo,
    id: NodeId,
    entries: Map<Seq<char>, MappingEntry>,
)
    requires
        well_nested(tree.nodes),
        anchors_of(tree.text, tree.nodes) == Ok::<_, ErrorView>(tree.anchors),
        0 <= c < tree.nodes.len(),
        holds_pair(tree.nodes, c, p),
        is_pair(tree.nodes[p].kind) || tree.nodes[p].kind == "flow_node"@,
    ensures
        build_pair(tree, state, c, p, pair_span, id, entries).1 matches Err(error) ==> is_refusal(
            tree,
            error,
        ),
    decreases tree.nodes[c].size, 0int, 0int,
{
    let nodes = tree.nodes;
    assert(end_of(nodes, c) <= nodes.len());
    lemma_pair_inside(nodes, c, p);
    match pair_key(nodes, p) {
        Some(key) => {
            lemma_content_inside(nodes, c, key);
            lemma_build_refused(tree, state, key, Some(id));
            let after_key = build(tree, state, key, Some(id)).0;
            if let Some(value) = pair_value(nodes, p) {
                lemma_content_inside(nodes, c, value);
                lemma_build_refused(tree, after_key, value, Some(id));
            }
        },
        None => {
            assert(is_keyless(tree, p));
        },
    }
}

proof fn lemma_items_refused(
    tree: TreeView,
    state: BuildState,
    c: int,
    k: int,
    id: NodeId,
    item_ids: Seq<NodeId>,
)
    requires
        well_nested(tree.nodes),
        anchors_of(tree.text, tree.nodes) == Ok::<_, ErrorView>(tree.anchors),
        is_step(tree.nodes, c, k),
    ensures
        build_items(tree, state, c, k, id, item_ids).1 matches Err(error) ==> is_refusal(
            tree,
            error,
        ),
    decreases tree.nodes[c].size, 1int, end_of(tree.nodes, c) - k,
{
    let nodes = tree.nodes;
    if k < end_of(nodes, c) {
        lemma_next_step(nodes, c, k);
        let next = end_of(nodes, k);
        if nodes[k].named && nodes[k].kind != "comment"@ {
            let item = item_content(nodes, k);
            lemma_item_inside(nodes, c, k);
            lemma_content_inside(nodes, c, item);
            lemma_build_refused(tree, state, item, Some(id));
            let (inner, built) = build(tree, state, item, Some(id));
            if let Ok(item_id) = built {
                lemma_items_refused(tree, inner, c, next, id, item_ids.push(item_id));
            }
        } else {
            lemma_items_refused(tree, state, c, next, id, item_ids);
        }
    }
}

} // verus!
