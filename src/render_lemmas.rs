use vstd::prelude::*;

use crate::client::Markup;
use crate::content::{
    apply_markup, apply_markups, escape_html, insert_by_len, lemma_escape_concat, markup_len,
    render_text_spec, sort_order, wrap_for, ContentNode,
};
use crate::text_markup::{
    concat_text, flatten, flatten_all, leaf_model, leaf_pieces, lemma_path_cons, lemma_node_at_wf, lemma_replace_at, lemma_split,
    wrap_all, wrap_node, ContentModel, RenderingError, SpanModel,
};
use crate::utf16::{lemma_utf16_len_ge, utf16_len_of};

verus! {

/// The text leaves of an output node, read in order.
pub open spec fn node_text(n: ContentNode) -> Seq<char>
    decreases n,
{
    match n {
        ContentNode::Text(t) => t,
        ContentNode::Tag { children, .. } => match children {
            Some(cs) => nodes_text(cs),
            None => Seq::empty(),
        },
    }
}

/// The text leaves of a sequence of output nodes, read in order.
pub open spec fn nodes_text(cs: Seq<ContentNode>) -> Seq<char>
    decreases cs,
{
    if cs.len() == 0 {
        Seq::empty()
    } else {
        nodes_text(cs.drop_last()) + node_text(cs.last())
    }
}

proof fn lemma_nodes_text_concat(a: Seq<ContentNode>, b: Seq<ContentNode>)
    ensures
        nodes_text(a + b) == nodes_text(a) + nodes_text(b),
    decreases b.len(),
{
    if b.len() == 0 {
        assert(a + b =~= a);
        assert(nodes_text(a) + nodes_text(b) =~= nodes_text(a));
    } else {
        assert((a + b).drop_last() =~= a + b.drop_last());
        lemma_nodes_text_concat(a, b.drop_last());
        assert(nodes_text(a + b) =~= nodes_text(a) + nodes_text(b));
    }
}

proof fn lemma_nodes_text_single(n: ContentNode)
    ensures
        nodes_text(seq![n]) == node_text(n),
{
    assert(seq![n].drop_last() =~= Seq::<ContentNode>::empty());
    assert(seq![n].last() == n);
    assert(nodes_text(Seq::<ContentNode>::empty()) =~= Seq::<char>::empty());
    assert(nodes_text(seq![n]) =~= node_text(n));
}

/// Wraps add tags around content but no text.
pub proof fn lemma_wrap_all_text(inner: Seq<ContentNode>, ws: Seq<crate::text_markup::WrapModel>)
    ensures
        nodes_text(wrap_all(inner, ws)) == nodes_text(inner),
    decreases ws.len(),
{
    if ws.len() > 0 {
        lemma_wrap_all_text(inner, ws.drop_last());
        lemma_nodes_text_single(wrap_node(ws.last(), wrap_all(inner, ws.drop_last())));
    }
}

/// The text leaves of a flattened span are its text, escaped.
pub proof fn lemma_flatten_text(t: SpanModel)
    ensures
        nodes_text(flatten(t)) == escape_html(t.text()),
    decreases t,
{
    match t.content {
        ContentModel::Text(s) => {
            lemma_nodes_text_single(ContentNode::Text(escape_html(s)));
            lemma_wrap_all_text(seq![ContentNode::Text(escape_html(s))], t.wraps);
        },
        ContentModel::Spans(cs) => {
            lemma_flatten_all_text(cs);
            lemma_wrap_all_text(flatten_all(cs), t.wraps);
        },
    }
}

/// The text leaves of flattened spans are their concatenated text, escaped.
pub proof fn lemma_flatten_all_text(cs: Seq<SpanModel>)
    ensures
        nodes_text(flatten_all(cs)) == escape_html(concat_text(cs)),
    decreases cs,
{
    if cs.len() == 0 {
        assert(nodes_text(Seq::<ContentNode>::empty()) == Seq::<char>::empty());
        assert(escape_html(Seq::<char>::empty()) == Seq::<char>::empty());
    } else {
        lemma_flatten_all_text(cs.drop_last());
        lemma_flatten_text(cs.last());
        lemma_nodes_text_concat(flatten_all(cs.drop_last()), flatten(cs.last()));
        lemma_escape_concat(concat_text(cs.drop_last()), cs.last().text());
    }
}

/// Applying markups that all succeed keeps the tree well-formed and keeps its text.
pub proof fn lemma_apply_markups_text(t: SpanModel, ms: Seq<Markup>, order: Seq<int>)
    requires
        t.wf(),
        apply_markups(t, ms, order) is Ok,
    ensures
        apply_markups(t, ms, order)->Ok_0.wf(),
        apply_markups(t, ms, order)->Ok_0.text() == t.text(),
    decreases order.len(),
{
    if order.len() > 0 {
        lemma_apply_markups_text(t, ms, order.drop_last());
        let t1 = apply_markups(t, ms, order.drop_last())->Ok_0;
        let m = ms[order.last()];
        let e = if m.end < t1.end {
            m.end as int
        } else {
            t1.end
        };
        lemma_split(t1, m.start as int, e);
        let (t2, p) = t1.split(m.start as int, e)->Some_0;
        let n = t2.node_at(p);
        let w = crate::content::wrap_for(m)->Some_0;
        lemma_node_at_wf(t2, p, n.wraps.push(w));
        lemma_replace_at(t2, p, SpanModel { wraps: n.wraps.push(w), ..n });
    }
}

/// Whenever rendering succeeds, the text leaves of the output, read in order, are
/// exactly the paragraph text (escaped for markup): splitting and wrapping never
/// lose, repeat or reorder text.
pub proof fn lemma_render_preserves_text(text: Seq<char>, ms: Seq<Markup>)
    requires
        render_text_spec(text, ms) is Ok,
    ensures
        nodes_text(render_text_spec(text, ms)->Ok_0) == escape_html(text),
{
    if ms.len() == 0 {
        lemma_nodes_text_single(ContentNode::Text(escape_html(text)));
    } else {
        lemma_utf16_len_ge(text);
        let root = leaf_model(0, utf16_len_of(text) - 1, text);
        let order = crate::content::sort_order(ms, ms.len() as int);
        lemma_apply_markups_text(root, ms, order);
        lemma_flatten_text(apply_markups(root, ms, order)->Ok_0);
    }
}

/// Without markups, rendering gives a single text node that holds the text (escaped
/// for markup), and no span tree is built.
pub proof fn lemma_no_markups(text: Seq<char>)
    ensures
        render_text_spec(text, Seq::<Markup>::empty()) == Ok::<Seq<ContentNode>, RenderingError>(
            seq![ContentNode::Text(escape_html(text))],
        ),
{
}

/// Where a markup's range ends in a text whose last UTF-16 offset is `last`.
pub open spec fn clamped_end(m: Markup, last: int) -> int {
    if m.end < last {
        m.end as int
    } else {
        last
    }
}

/// The ranges of `a` and `b`, ends clamped to `last`, overlap without either
/// containing the other.
pub open spec fn crossing(a: Markup, b: Markup, last: int) -> bool {
    let ea = clamped_end(a, last);
    let eb = clamped_end(b, last);
    (a.start < b.start <= ea < eb) || (b.start < a.start <= eb < ea)
}

/// Two markups of equal length whose ranges overlap without one containing the
/// other cannot both be applied: rendering reports `NoSuchSpan` and no tree.
pub proof fn lemma_crossing_ranges_fail(text: Seq<char>, ms: Seq<Markup>)
    requires
        ms.len() == 2,
        text.len() > 0,
        markup_len(ms[0]) == markup_len(ms[1]),
        crossing(ms[0], ms[1], utf16_len_of(text) - 1),
        wrap_for(ms[0]) is Some,
    ensures
        render_text_spec(text, ms) is Err,
        render_text_spec(text, ms)->Err_0 is NoSuchSpan,
{
    lemma_utf16_len_ge(text);
    let last = utf16_len_of(text) - 1;
    let root = leaf_model(0, last, text);
    let (a, b) = (ms[0], ms[1]);
    assert(sort_order(ms, 0) =~= Seq::<int>::empty());
    assert(sort_order(ms, 1) =~= seq![0int]);
    assert(seq![0int].last() == 0);
    assert(insert_by_len(seq![0int], ms, 1) =~= seq![0int, 1int]);
    let order = sort_order(ms, 2);
    assert(order =~= seq![0int, 1int]);
    assert(order.drop_last() =~= seq![0int]);
    assert(seq![0int].drop_last() =~= Seq::<int>::empty());
    assert(apply_markups(root, ms, Seq::<int>::empty()) == Ok::<SpanModel, RenderingError>(root));
    assert(apply_markups(root, ms, seq![0int]) == apply_markup(root, a));
    let ea = clamped_end(a, last);
    let eb = clamped_end(b, last);
    match root.split(a.start as int, ea) {
        None => {},
        Some((t2, p)) => {
            let pieces = leaf_pieces(text, 0, last, a.start as int, ea);
            let idx: int = if a.start == 0 {
                0
            } else {
                1
            };
            assert(t2 == SpanModel { content: ContentModel::Spans(pieces), ..root });
            assert(p == seq![idx]);
            let n = t2.node_at(p);
            let w = wrap_for(a)->Some_0;
            let n2 = SpanModel { wraps: n.wraps.push(w), ..n };
            let none = Seq::<int>::empty();
            assert(seq![idx] + none =~= seq![idx]);
            lemma_path_cons(t2, idx, none);
            let t1 = t2.replace_at(p, n2);
            let cs = pieces.update(idx, n2);
            assert(t1 == SpanModel { content: ContentModel::Spans(cs), ..root });
            assert(apply_markup(root, a) == Ok::<SpanModel, RenderingError>(t1));
            assert forall|j: int| 0 <= j < cs.len() implies !(#[trigger] cs[j]).covers(
                b.start as int,
                eb,
            ) by {
                assert(cs[j].start == pieces[j].start && cs[j].end == pieces[j].end);
            }
            assert(t1.split(b.start as int, eb) is None);
        },
    }
}

} // verus!
