//! How a source is read, in terms of its syntax tree alone.

use vstd::prelude::*;

use crate::anchors::anchor_target;
use crate::builder::{
    content, is_wrapper, key_text, lemma_parent_inside, lemma_unwrapped, mapping_pairs, pairs_of,
    sequence_items, unwrapped,
};
use crate::syntax::{
    anchored_child, end_of, first_named_child, is_child, is_inside, is_step, lemma_next_step,
    lemma_parent_unique, next_named, parent_of, preferred_child, well_nested, wrapped_child, Skip,
    SyntaxNodeView,
};
use crate::text::slice_of;

verus! {

/// Whether a node of this kind holds one value and adds nothing to it.
pub open spec fn passes_on(kind: Seq<char>) -> bool {
    kind == "stream"@ || kind == "document"@ || kind == "block_node"@ || kind == "flow_node"@
}

/// Whether a node of this kind is no value, but stands beside values.
pub open spec fn stands_aside(kind: Seq<char>) -> bool {
    ||| kind == "comment"@
    ||| kind == "yaml_directive"@
    ||| kind == "tag_directive"@
    ||| kind == "reserved_directive"@
    ||| kind == "anchor"@
    ||| kind == "tag"@
}

/// Whether a node of this kind is a comment or a directive.
pub open spec fn is_remark(kind: Seq<char>) -> bool {
    kind == "comment"@ || kind == "yaml_directive"@ || kind == "tag_directive"@ || kind
        == "reserved_directive"@
}

/// Whether node `a` is node `n` or inside it, and node `c` is inside node `a`.
pub open spec fn is_between(nodes: Seq<SyntaxNodeView>, n: int, a: int, c: int) -> bool {
    (a == n || is_inside(nodes, n, a)) && is_inside(nodes, a, c)
}

/// Whether node `k` is a named child of node `a`.
pub open spec fn is_named_child(nodes: Seq<SyntaxNodeView>, a: int, k: int) -> bool {
    is_child(nodes, a, k) && nodes[k].named
}

/// Whether node `c` is node `n` or inside it, with nothing but nodes that pass a
/// value on between the two, and with nothing but comments, directives, anchors
/// and tags in front of it in these.
pub open spec fn is_first_in(nodes: Seq<SyntaxNodeView>, n: int, c: int) -> bool {
    &&& 0 <= c < nodes.len()
    &&& c == n || is_inside(nodes, n, c)
    &&& c != n ==> nodes[c].named
    &&& forall|a: int| #[trigger] is_between(nodes, n, a, c) ==> passes_on(nodes[a].kind)
    &&& forall|a: int, k: int| #[trigger]
        is_between(nodes, n, a, c) && #[trigger] is_named_child(nodes, a, k) && end_of(nodes, k)
            <= c ==> stands_aside(nodes[k].kind)
}

/// Whether an anchor stands beside node `c`.
pub open spec fn is_beside_anchor(nodes: Seq<SyntaxNodeView>, c: int) -> bool {
    exists|a: int, k: int|
        is_child(nodes, a, c) && #[trigger] is_named_child(nodes, a, k) && nodes[k].kind
            == "anchor"@
}

/// Whether node `c` is what node `n` is read as: the first thing in it that is a
/// value. Where there is none it is a tag or, without a tag, an anchor or, without
/// either, a node with nothing in it but comments and directives.
pub open spec fn reads_as(nodes: Seq<SyntaxNodeView>, n: int, c: int) -> bool {
    &&& is_first_in(nodes, n, c)
    &&& c != n ==> nodes[c].kind != "comment"@
    &&& c != n && is_remark(nodes[c].kind) ==> is_beside_anchor(nodes, c)
    &&& c != n && (nodes[c].kind == "anchor"@ || nodes[c].kind == "tag"@) ==> forall|a: int, k: int|
        is_child(nodes, a, c) && #[trigger] is_named_child(nodes, a, k) ==> stands_aside(
            nodes[k].kind,
        )
    &&& c != n && nodes[c].kind == "anchor"@ ==> forall|a: int, k: int|
        is_child(nodes, a, c) && #[trigger] is_named_child(nodes, a, k) ==> nodes[k].kind
            == "anchor"@ || nodes[k].kind == "comment"@
    &&& passes_on(nodes[c].kind) ==> {
        ||| forall|k: int| #[trigger] is_named_child(nodes, c, k) ==> is_remark(nodes[k].kind)
        ||| c != n && is_beside_anchor(nodes, c)
    }
}

/// A search among the children finds the first named child that it does not pass
/// over.
proof fn lemma_next_is_first(nodes: Seq<SyntaxNodeView>, i: int, c: int, skip: Skip)
    requires
        well_nested(nodes),
        is_step(nodes, i, c),
    ensures
        match next_named(nodes, c, end_of(nodes, i), skip) {
            Some(found) => {
                &&& c <= found
                &&& is_named_child(nodes, i, found)
                &&& !skip.skips(nodes[found].kind)
                &&& forall|k: int| #[trigger]
                    is_named_child(nodes, i, k) && c <= k < found ==> skip.skips(nodes[k].kind)
            },
            None => forall|k: int| #[trigger]
                is_named_child(nodes, i, k) && c <= k ==> skip.skips(nodes[k].kind),
        },
    decreases end_of(nodes, i) - c,
{
    if c < end_of(nodes, i) {
        lemma_next_step(nodes, i, c);
        let next = end_of(nodes, c);
        lemma_next_is_first(nodes, i, next, skip);
        assert forall|k: int| #[trigger] is_named_child(nodes, i, k) && c < k implies next <= k by {
            assert(end_of(nodes, c) <= k);
        }
    }
}

/// The first named child that a search does not pass over is a named child, is not
/// of a kind that the search passes over, and every named child in front of it is.
/// There is none exactly where every named child is passed over.
pub proof fn law_first_named_child_is_first(nodes: Seq<SyntaxNodeView>, i: int, skip: Skip)
    requires
        well_nested(nodes),
        0 <= i < nodes.len(),
    ensures
        match first_named_child(nodes, i, skip) {
            Some(found) => {
                &&& is_named_child(nodes, i, found)
                &&& !skip.skips(nodes[found].kind)
                &&& forall|k: int| #[trigger]
                    is_named_child(nodes, i, k) && k < found ==> skip.skips(nodes[k].kind)
            },
            None => forall|k: int| #[trigger]
                is_named_child(nodes, i, k) ==> skip.skips(nodes[k].kind),
        },
{
    assert(nodes[i].size >= 1);
    lemma_next_is_first(nodes, i, i + 1, skip);
}

/// What a wrapper holds is its first named child but comments, directives and,
/// where there is anything else, tags.
proof fn lemma_wrapped_child(nodes: Seq<SyntaxNodeView>, i: int)
    requires
        well_nested(nodes),
        0 <= i < nodes.len(),
    ensures
        match wrapped_child(nodes, i) {
            Some(w) => {
                &&& is_named_child(nodes, i, w)
                &&& !is_remark(nodes[w].kind)
                &&& nodes[w].kind == "tag"@ ==> forall|k: int| #[trigger]
                    is_named_child(nodes, i, k) ==> stands_aside(nodes[k].kind)
                &&& forall|k: int| #[trigger]
                    is_named_child(nodes, i, k) && k < w ==> stands_aside(nodes[k].kind)
            },
            None => forall|k: int| #[trigger]
                is_named_child(nodes, i, k) ==> is_remark(nodes[k].kind),
        },
{
    law_first_named_child_is_first(nodes, i, Skip::NonValue);
    law_first_named_child_is_first(nodes, i, Skip::NonContent);
}

/// What an anchor is for is the first named child but anchors, comments and, where
/// there is anything else, tags.
proof fn lemma_anchored_child(nodes: Seq<SyntaxNodeView>, i: int)
    requires
        well_nested(nodes),
        0 <= i < nodes.len(),
    ensures
        match anchored_child(nodes, i) {
            Some(w) => {
                &&& is_named_child(nodes, i, w)
                &&& nodes[w].kind != "anchor"@
                &&& nodes[w].kind != "comment"@
                &&& nodes[w].kind == "tag"@ ==> forall|k: int| #[trigger]
                    is_named_child(nodes, i, k) ==> nodes[k].kind == "anchor"@ || nodes[k].kind
                        == "comment"@ || nodes[k].kind == "tag"@
                &&& forall|k: int| #[trigger]
                    is_named_child(nodes, i, k) && k < w ==> nodes[k].kind == "anchor"@
                        || nodes[k].kind == "comment"@ || nodes[k].kind == "tag"@
            },
            None => forall|k: int| #[trigger]
                is_named_child(nodes, i, k) ==> nodes[k].kind == "anchor"@ || nodes[k].kind
                    == "comment"@,
        },
{
    law_first_named_child_is_first(nodes, i, Skip::Properties);
    law_first_named_child_is_first(nodes, i, Skip::AnchorsAndComments);
}

/// What is between a node and something in its child is the node, or between the
/// child and that.
proof fn lemma_between_step(nodes: Seq<SyntaxNodeView>, n: int, w: int, c: int)
    requires
        well_nested(nodes),
        0 <= n < nodes.len(),
        is_child(nodes, n, w),
        c == w || is_inside(nodes, w, c),
    ensures
        is_inside(nodes, n, c),
        forall|a: int| #[trigger]
            is_between(nodes, n, a, c) ==> a == n || is_between(nodes, w, a, c),
{
    assert forall|a: int| #[trigger] is_between(nodes, n, a, c) implies a == n || is_between(
        nodes,
        w,
        a,
        c,
    ) by {
        if a != n && a < w {
            assert(end_of(nodes, a) <= w);
        }
    }
}

/// What is behind wrappers is the first thing in them.
proof fn lemma_unwrapped_is_first(nodes: Seq<SyntaxNodeView>, n: int)
    requires
        well_nested(nodes),
        0 <= n < nodes.len(),
    ensures
        is_first_in(nodes, n, unwrapped(nodes, n)),
        unwrapped(nodes, n) != n ==> !is_remark(nodes[unwrapped(nodes, n)].kind),
        unwrapped(nodes, n) != n && nodes[unwrapped(nodes, n)].kind == "tag"@ ==> forall|
            a: int,
            k: int,
        |
            is_child(nodes, a, unwrapped(nodes, n)) && #[trigger] is_named_child(nodes, a, k)
                ==> stands_aside(nodes[k].kind),
        passes_on(nodes[unwrapped(nodes, n)].kind) ==> forall|k: int| #[trigger]
            is_named_child(nodes, unwrapped(nodes, n), k) ==> is_remark(nodes[k].kind),
    decreases nodes[n].size,
{
    let u = unwrapped(nodes, n);
    if is_wrapper(nodes[n].kind) {
        lemma_wrapped_child(nodes, n);
        if let Some(w) = wrapped_child(nodes, n) {
            assert(nodes[w].size < nodes[n].size) by {
                assert(end_of(nodes, w) <= end_of(nodes, n));
            }
            assert(u == unwrapped(nodes, w));
            lemma_unwrapped_is_first(nodes, w);
            lemma_between_step(nodes, n, w, u);
            assert forall|a: int, k: int| #[trigger]
                is_between(nodes, n, a, u) && #[trigger] is_named_child(nodes, a, k) && end_of(
                    nodes,
                    k,
                ) <= u implies stands_aside(nodes[k].kind) by {
                if a == n {
                    if w < k {
                        assert(end_of(nodes, w) <= k);
                    }
                    assert(nodes[k].size >= 1);
                    assert(k < w);
                }
            }
            assert forall|a: int, k: int|
                nodes[u].kind == "tag"@ && is_child(nodes, a, u) && #[trigger] is_named_child(
                    nodes,
                    a,
                    k,
                ) implies stands_aside(nodes[k].kind) by {
                if u == w {
                    lemma_parent_unique(nodes, n, w);
                    lemma_parent_unique(nodes, a, w);
                }
            }
        }
    }
}

/// The content of a node is what the node is read as.
pub proof fn lemma_content_is_read(nodes: Seq<SyntaxNodeView>, n: int)
    requires
        well_nested(nodes),
        0 <= n < nodes.len(),
        nodes[n].kind != "anchor"@,
    ensures
        reads_as(nodes, n, content(nodes, n)),
{
    let u = unwrapped(nodes, n);
    let c = content(nodes, n);
    lemma_unwrapped(nodes, n);
    lemma_unwrapped_is_first(nodes, n);
    if nodes[u].kind == "anchor"@ {
        lemma_parent_inside(nodes, n, u);
        lemma_parent_exists(nodes, n, u);
        let p = parent_of(nodes, u)->Some_0;
        assert(is_child(nodes, p, u));
        lemma_anchored_child(nodes, p);
        assert(is_named_child(nodes, p, u));
        assert(is_between(nodes, n, p, u));
        assert(is_inside(nodes, p, c));
        assert(end_of(nodes, p) <= end_of(nodes, n));
        assert forall|a: int| #[trigger] is_between(nodes, n, a, c) implies a == p || (is_between(
            nodes,
            n,
            a,
            u,
        ) && is_inside(nodes, a, p)) by {
            if p < a {
                assert(is_child(nodes, p, c));
                assert(end_of(nodes, a) <= c);
            } else if a < p {
                assert(is_inside(nodes, a, p));
                assert(end_of(nodes, p) <= end_of(nodes, a));
            }
        }
        assert forall|a: int, k: int| #[trigger]
            is_between(nodes, n, a, c) && #[trigger] is_named_child(nodes, a, k) && end_of(nodes, k)
                <= c implies stands_aside(nodes[k].kind) by {
            assert(nodes[k].size >= 1);
            if a == p {
                assert(k < c);
            } else {
                assert(is_between(nodes, n, a, u));
                if p < k {
                    assert(is_inside(nodes, p, k));
                    assert(end_of(nodes, p) <= k);
                } else if k < p {
                    if end_of(nodes, k) > p {
                        assert(is_inside(nodes, k, p));
                        assert(end_of(nodes, p) <= end_of(nodes, k));
                    }
                }
            }
        }
        assert forall|a: int, k: int|
            (nodes[c].kind == "anchor"@ || nodes[c].kind == "tag"@) && is_child(nodes, a, c)
                && #[trigger] is_named_child(nodes, a, k) implies stands_aside(nodes[k].kind) by {
            lemma_parent_unique(nodes, p, c);
            lemma_parent_unique(nodes, a, c);
        }
        assert(c != u ==> is_beside_anchor(nodes, c)) by {
            assert(is_named_child(nodes, p, u) && nodes[u].kind == "anchor"@);
        }
    }
}

/// A node inside another has a parent.
proof fn lemma_parent_exists(nodes: Seq<SyntaxNodeView>, n: int, u: int)
    requires
        well_nested(nodes),
        0 <= n < nodes.len(),
        is_inside(nodes, n, u),
    ensures
        parent_of(nodes, u) is Some,
    decreases u - n,
{
    if forall|k: int| n < k < u ==> #[trigger] end_of(nodes, k) <= u {
        assert(is_child(nodes, n, u));
    } else {
        let k = choose|k: int| n < k < u && #[trigger] end_of(nodes, k) > u;
        lemma_parent_exists(nodes, k, u);
    }
}

/// Between a node and its content there are only nodes of the kinds `stream`,
/// `document`, `block_node` and `flow_node`. So the content is never inside a
/// scalar, a mapping or a sequence that is inside the node.
pub proof fn law_content_is_behind_wrappers_only(nodes: Seq<SyntaxNodeView>, n: int, a: int)
    requires
        well_nested(nodes),
        0 <= n < nodes.len(),
        nodes[n].kind != "anchor"@,
        a == n || is_inside(nodes, n, a),
        is_inside(nodes, a, content(nodes, n)),
    ensures
        nodes[a].kind == "stream"@ || nodes[a].kind == "document"@ || nodes[a].kind
            == "block_node"@ || nodes[a].kind == "flow_node"@,
{
    lemma_content_is_read(nodes, n);
    assert(is_between(nodes, n, a, content(nodes, n)));
}

/// A node that is neither an anchor nor one of those that pass a value on is its
/// own content. The content of one that does pass a value on is inside it, unless
/// there is no named node in it but comments and directives.
pub proof fn law_values_are_their_own_content(nodes: Seq<SyntaxNodeView>, n: int)
    requires
        well_nested(nodes),
        0 <= n < nodes.len(),
        nodes[n].kind != "anchor"@,
    ensures
        nodes[n].kind != "stream"@ && nodes[n].kind != "document"@ && nodes[n].kind
            != "block_node"@ && nodes[n].kind != "flow_node"@ ==> content(nodes, n) == n,
        content(nodes, n) == n || is_inside(nodes, n, content(nodes, n)),
        passes_on(nodes[n].kind) && content(nodes, n) == n ==> forall|k: int| #[trigger]
            is_named_child(nodes, n, k) ==> nodes[k].kind == "comment"@ || nodes[k].kind
                == "yaml_directive"@ || nodes[k].kind == "tag_directive"@ || nodes[k].kind
                == "reserved_directive"@,
{
    let c = content(nodes, n);
    lemma_content_is_read(nodes, n);
    if c != n {
        assert(is_between(nodes, n, n, c));
    }
    if passes_on(nodes[n].kind) && c == n {
        lemma_wrapped_child(nodes, n);
        law_first_named_child_is_first(nodes, n, Skip::NonContent);
        if let Some(w) = wrapped_child(nodes, n) {
            lemma_unwrapped(nodes, w);
            assert(unwrapped(nodes, n) == unwrapped(nodes, w));
            let u = unwrapped(nodes, n);
            lemma_between_step(nodes, n, w, u);
            if nodes[u].kind == "anchor"@ {
                lemma_parent_inside(nodes, n, u);
                if let Some(p) = parent_of(nodes, u) {
                    lemma_anchored_child(nodes, p);
                }
            }
        }
    }
}

/// The content of a node is found in it: it is the first named thing that is
/// neither a comment or a directive nor an anchor or a tag, in the first node that
/// passes a value on.
pub proof fn law_content_comes_first(nodes: Seq<SyntaxNodeView>, n: int, a: int, k: int)
    requires
        well_nested(nodes),
        0 <= n < nodes.len(),
        nodes[n].kind != "anchor"@,
        a == n || is_inside(nodes, n, a),
        is_inside(nodes, a, content(nodes, n)),
        is_child(nodes, a, k),
        nodes[k].named,
        nodes[k].kind != "comment"@,
        nodes[k].kind != "yaml_directive"@,
        nodes[k].kind != "tag_directive"@,
        nodes[k].kind != "reserved_directive"@,
        nodes[k].kind != "anchor"@,
        nodes[k].kind != "tag"@,
    ensures
        content(nodes, n) < end_of(nodes, k),
        is_child(nodes, a, content(nodes, n)) ==> nodes[content(nodes, n)].kind != "tag"@
            && nodes[content(nodes, n)].kind != "anchor"@ && nodes[content(nodes, n)].kind
            != "comment"@,
{
    let c = content(nodes, n);
    lemma_content_is_read(nodes, n);
    assert(is_between(nodes, n, a, c));
    assert(is_named_child(nodes, a, k));
}

/// Whether node `t` is the value that stands beside an anchor in node `p`: the
/// first named child but anchors and comments, with tags passed over where there is
/// anything else.
pub open spec fn is_value_in(nodes: Seq<SyntaxNodeView>, p: int, t: int) -> bool {
    &&& is_named_child(nodes, p, t)
    &&& nodes[t].kind != "anchor"@
    &&& nodes[t].kind != "comment"@
    &&& nodes[t].kind == "tag"@ ==> forall|k: int| #[trigger]
        is_named_child(nodes, p, k) ==> nodes[k].kind == "anchor"@ || nodes[k].kind == "comment"@
            || nodes[k].kind == "tag"@
    &&& forall|k: int| #[trigger]
        is_named_child(nodes, p, k) && k < t ==> nodes[k].kind == "anchor"@ || nodes[k].kind
            == "comment"@ || nodes[k].kind == "tag"@
}

/// Whether node `t` is the value that stands beside the anchor at node `i`.
pub open spec fn is_value_beside(nodes: Seq<SyntaxNodeView>, i: int, t: int) -> bool {
    exists|p: int| #[trigger] is_child(nodes, p, i) && is_value_in(nodes, p, t)
}

/// The target of an anchor is the value that stands beside it.
pub proof fn law_anchors_are_for_the_value_beside_them(nodes: Seq<SyntaxNodeView>, i: int)
    requires
        well_nested(nodes),
        0 <= i < nodes.len(),
    ensures
        anchor_target(nodes, i) matches Ok(t) ==> is_value_beside(nodes, i, t),
        anchor_target(nodes, i) is Err ==> forall|p: int, k: int|
            #![trigger is_child(nodes, p, i), is_named_child(nodes, p, k)]
            is_child(nodes, p, i) && is_named_child(nodes, p, k) ==> nodes[k].kind == "anchor"@
                || nodes[k].kind == "comment"@,
{
    if let Some(p) = parent_of(nodes, i) {
        assert(is_child(nodes, p, i));
        lemma_anchored_child(nodes, p);
        assert forall|q: int| is_child(nodes, q, i) implies q == p by {
            lemma_parent_unique(nodes, q, i);
        }
    }
}

/// Whether node `s` is what the key at node `key` is written as: its first named
/// child but anchors, with tags and comments passed over where there is anything
/// else. A key without such a child is written as itself.
pub open spec fn is_key_scalar(nodes: Seq<SyntaxNodeView>, key: int, s: int) -> bool {
    ||| {
        &&& is_named_child(nodes, key, s)
        &&& nodes[s].kind != "anchor"@
        &&& nodes[s].kind == "tag"@ || nodes[s].kind == "comment"@ ==> {
            &&& forall|k: int| #[trigger]
                is_named_child(nodes, key, k) ==> nodes[k].kind == "anchor"@ || nodes[k].kind
                    == "tag"@ || nodes[k].kind == "comment"@
            &&& forall|k: int| #[trigger]
                is_named_child(nodes, key, k) && k < s ==> nodes[k].kind == "anchor"@
        }
        &&& forall|k: int| #[trigger]
            is_named_child(nodes, key, k) && k < s ==> nodes[k].kind == "anchor"@ || nodes[k].kind
                == "tag"@ || nodes[k].kind == "comment"@
    }
    ||| {
        &&& s == key
        &&& forall|k: int| #[trigger]
            is_named_child(nodes, key, k) ==> nodes[k].kind == "anchor"@
    }
}

/// What is written at a node.
pub open spec fn written_at(text: Seq<char>, nodes: Seq<SyntaxNodeView>, i: int) -> Seq<char> {
    slice_of(text, nodes[i].span.start_byte as int, nodes[i].span.end_byte as int)
}

/// Whether a scalar of the given kind that is written in the given way is the key
/// `key`: the key between two quotes, or the key itself.
pub open spec fn spells(kind: Seq<char>, written: Seq<char>, key: Seq<char>) -> bool {
    if kind == "single_quote_scalar"@ || kind == "double_quote_scalar"@ {
        if written.len() >= 2 {
            written == seq![written[0]] + key + seq![written.last()]
        } else {
            key.len() == 0
        }
    } else {
        written == key
    }
}

/// Whether the key at node `node` is `key`.
pub open spec fn is_key_at(
    text: Seq<char>,
    nodes: Seq<SyntaxNodeView>,
    node: int,
    key: Seq<char>,
) -> bool {
    exists|s: int| #[trigger]
        is_key_scalar(nodes, node, s) && spells(nodes[s].kind, written_at(text, nodes, s), key)
}

/// The text of a key is what is written for it, without the quotes around it: of a
/// quoted key, a quote, the text of the key and a quote are what is written. No
/// other text is the key.
pub proof fn law_keys_are_what_is_written(
    text: Seq<char>,
    nodes: Seq<SyntaxNodeView>,
    node: int,
    key: Seq<char>,
) -> (s: int)
    requires
        well_nested(nodes),
        0 <= node < nodes.len(),
    ensures
        is_key_scalar(nodes, node, s),
        nodes[s].kind != "single_quote_scalar"@ && nodes[s].kind != "double_quote_scalar"@
            ==> key_text(text, nodes, node) == written_at(text, nodes, s),
        (nodes[s].kind == "single_quote_scalar"@ || nodes[s].kind == "double_quote_scalar"@)
            && written_at(text, nodes, s).len() >= 2 ==> seq![written_at(text, nodes, s)[0]]
            + key_text(text, nodes, node) + seq![written_at(text, nodes, s).last()] == written_at(
            text,
            nodes,
            s,
        ),
        is_key_at(text, nodes, node, key) <==> key == key_text(text, nodes, node),
{
    law_first_named_child_is_first(nodes, node, Skip::Properties);
    law_first_named_child_is_first(nodes, node, Skip::Anchors);
    let s = match preferred_child(nodes, node, Skip::Properties, Skip::Anchors) {
        Some(s) => s,
        None => node,
    };
    let written = written_at(text, nodes, s);
    let found = key_text(text, nodes, node);
    assert(is_key_scalar(nodes, node, s));
    if written.len() >= 2 {
        assert(seq![written[0]] + written.subrange(1, written.len() - 1) + seq![written.last()]
            =~= written);
    }
    assert(spells(nodes[s].kind, written, found));
    if is_key_at(text, nodes, node, key) {
        let other = choose|other: int| #[trigger]
            is_key_scalar(nodes, node, other) && spells(
                nodes[other].kind,
                written_at(text, nodes, other),
                key,
            );
        assert(other == s);
        if written.len() >= 2 && (nodes[s].kind == "single_quote_scalar"@ || nodes[s].kind
            == "double_quote_scalar"@) {
            assert(found =~= written.subrange(1, written.len() - 1));
            assert(key =~= written.subrange(1, written.len() - 1)) by {
                let all = seq![written[0]] + key + seq![written.last()];
                assert(all == written);
                assert(key.len() == written.len() - 2);
                assert forall|i: int| 0 <= i < key.len() implies key[i] == written[i + 1] by {
                    assert(all[i + 1] == key[i]);
                }
            }
        } else {
            assert(found =~= key);
        }
    }
    s
}

/// Whether node `p` is a pair of the mapping `c`: a named child that is a pair or a
/// bare key. A pair that stands alone is its own pair.
pub open spec fn is_pair_in(nodes: Seq<SyntaxNodeView>, c: int, p: int) -> bool {
    if nodes[c].kind == "flow_pair"@ || nodes[c].kind == "block_mapping_pair"@ {
        p == c
    } else {
        &&& is_named_child(nodes, c, p)
        &&& nodes[p].kind == "flow_pair"@ || nodes[p].kind == "block_mapping_pair"@
            || nodes[p].kind == "flow_node"@
    }
}

/// Whether a list holds positions in rising order.
pub open spec fn rises(list: Seq<int>) -> bool {
    forall|i: int, j: int| 0 <= i < j < list.len() ==> #[trigger] list[i] < #[trigger] list[j]
}

proof fn lemma_pairs_from(nodes: Seq<SyntaxNodeView>, c: int, k: int)
    requires
        well_nested(nodes),
        is_step(nodes, c, k),
    ensures
        ({
            let pairs = mapping_pairs(nodes, k, end_of(nodes, c));
            &&& rises(pairs)
            &&& forall|j: int| 0 <= j < pairs.len() ==> k <= #[trigger] pairs[j]
            &&& forall|p: int| #[trigger]
                pairs.contains(p) <==> {
                    &&& k <= p
                    &&& is_named_child(nodes, c, p)
                    &&& nodes[p].kind == "flow_pair"@ || nodes[p].kind == "block_mapping_pair"@
                        || nodes[p].kind == "flow_node"@
                }
        }),
    decreases end_of(nodes, c) - k,
{
    let end = end_of(nodes, c);
    let pairs = mapping_pairs(nodes, k, end);
    if k < end {
        lemma_next_step(nodes, c, k);
        let next = end_of(nodes, k);
        lemma_pairs_from(nodes, c, next);
        let rest = mapping_pairs(nodes, next, end);
        assert forall|p: int| #[trigger] is_named_child(nodes, c, p) && k < p implies next <= p by {
            assert(end_of(nodes, k) <= p);
        }
        if pairs.len() > rest.len() {
            assert(pairs == seq![k] + rest);
            assert forall|p: int| pairs.contains(p) <==> p == k || rest.contains(p) by {
                if p == k {
                    assert(pairs[0] == k);
                }
                if rest.contains(p) {
                    let j = choose|j: int| 0 <= j < rest.len() && rest[j] == p;
                    assert(pairs[j + 1] == p);
                }
            }
            assert forall|j: int| 1 <= j < pairs.len() implies #[trigger] pairs[j] == rest[j
                - 1] by {}
            assert(is_named_child(nodes, c, k));
        } else {
            assert(pairs == rest);
        }
    } else {
        assert forall|p: int| #[trigger] is_named_child(nodes, c, p) implies p < k by {}
    }
}

/// The pairs of a mapping are its pairs and bare keys as they stand in the source,
/// each once, in their order.
pub proof fn law_pairs_are_in_order(nodes: Seq<SyntaxNodeView>, c: int)
    requires
        well_nested(nodes),
        0 <= c < nodes.len(),
    ensures
        rises(pairs_of(nodes, c)),
        forall|p: int| #[trigger] pairs_of(nodes, c).contains(p) <==> is_pair_in(nodes, c, p),
{
    assert(nodes[c].size >= 1);
    lemma_pairs_from(nodes, c, c + 1);
    let pairs = pairs_of(nodes, c);
    if nodes[c].kind == "flow_pair"@ || nodes[c].kind == "block_mapping_pair"@ {
        assert(pairs[0] == c);
    } else {
        assert forall|p: int| #[trigger] pairs.contains(p) <==> is_pair_in(nodes, c, p) by {}
    }
}

/// Whether node `i` is what the child `k` of a sequence holds: for an item of a
/// block sequence its first named child but comments, and any other child itself.
pub open spec fn is_item_value(nodes: Seq<SyntaxNodeView>, k: int, i: int) -> bool {
    if nodes[k].kind == "block_sequence_item"@ {
        ||| {
            &&& is_named_child(nodes, k, i)
            &&& nodes[i].kind != "comment"@
            &&& forall|j: int| #[trigger]
                is_named_child(nodes, k, j) && j < i ==> nodes[j].kind == "comment"@
        }
        ||| {
            &&& i == k
            &&& forall|j: int| #[trigger]
                is_named_child(nodes, k, j) ==> nodes[j].kind == "comment"@
        }
    } else {
        i == k
    }
}

/// The items of a sequence from the child `k` on.
pub open spec fn item_children(nodes: Seq<SyntaxNodeView>, k: int, end: int) -> Seq<int>
    decreases end - k,
{
    if 0 <= k < end_of(nodes, k) <= end {
        let rest = item_children(nodes, end_of(nodes, k), end);
        if nodes[k].named && nodes[k].kind != "comment"@ {
            seq![k] + rest
        } else {
            rest
        }
    } else {
        Seq::empty()
    }
}

proof fn lemma_items_from(nodes: Seq<SyntaxNodeView>, c: int, k: int)
    requires
        well_nested(nodes),
        is_step(nodes, c, k),
    ensures
        ({
            let children = item_children(nodes, k, end_of(nodes, c));
            let items = sequence_items(nodes, k, end_of(nodes, c));
            &&& rises(children)
            &&& forall|j: int| 0 <= j < children.len() ==> k <= #[trigger] children[j]
            &&& forall|p: int| #[trigger]
                children.contains(p) <==> {
                    &&& k <= p
                    &&& is_named_child(nodes, c, p)
                    &&& nodes[p].kind != "comment"@
                }
            &&& items.len() == children.len()
            &&& forall|j: int|
                0 <= j < items.len() ==> is_item_value(nodes, children[j], #[trigger] items[j])
        }),
    decreases end_of(nodes, c) - k,
{
    let end = end_of(nodes, c);
    let children = item_children(nodes, k, end);
    let items = sequence_items(nodes, k, end);
    if k < end {
        lemma_next_step(nodes, c, k);
        let next = end_of(nodes, k);
        lemma_items_from(nodes, c, next);
        let rest = item_children(nodes, next, end);
        let rest_items = sequence_items(nodes, next, end);
        assert forall|p: int| #[trigger] is_named_child(nodes, c, p) && k < p implies next <= p by {
            assert(end_of(nodes, k) <= p);
        }
        if nodes[k].named && nodes[k].kind != "comment"@ {
            law_first_named_child_is_first(nodes, k, Skip::Comments);
            assert(is_item_value(nodes, k, items[0]));
            assert forall|p: int| children.contains(p) <==> p == k || rest.contains(p) by {
                if p == k {
                    assert(children[0] == k);
                }
                if rest.contains(p) {
                    let j = choose|j: int| 0 <= j < rest.len() && rest[j] == p;
                    assert(children[j + 1] == p);
                }
            }
            assert forall|j: int| 1 <= j < children.len() implies #[trigger] children[j] == rest[j
                - 1] by {}
            assert forall|j: int| 0 <= j < items.len() implies is_item_value(
                nodes,
                children[j],
                #[trigger] items[j],
            ) by {
                if j > 0 {
                    assert(items[j] == rest_items[j - 1]);
                    assert(children[j] == rest[j - 1]);
                }
            }
            assert(is_named_child(nodes, c, k));
        }
    } else {
        assert forall|p: int| #[trigger] is_named_child(nodes, c, p) implies p < k by {}
    }
}

/// The items of a sequence are its named children but comments, each once, in their
/// order. What an item holds is the first named child but comments of an item of a
/// block sequence, and any other child itself.
pub proof fn law_items_are_the_children(nodes: Seq<SyntaxNodeView>, c: int) -> (children: Seq<int>)
    requires
        well_nested(nodes),
        0 <= c < nodes.len(),
    ensures
        ({
            let items = sequence_items(nodes, c + 1, end_of(nodes, c));
            &&& rises(children)
            &&& forall|k: int| #[trigger]
                children.contains(k) <==> is_named_child(nodes, c, k) && nodes[k].kind
                    != "comment"@
            &&& items.len() == children.len()
            &&& forall|j: int|
                0 <= j < items.len() ==> is_item_value(nodes, children[j], #[trigger] items[j])
        }),
{
    assert(nodes[c].size >= 1);
    lemma_items_from(nodes, c, c + 1);
    item_children(nodes, c + 1, end_of(nodes, c))
}

} // verus!
