use vstd::prelude::*;

use crate::client::Markup;
use crate::content::{
    apply_markup, apply_markups, escape_html, insert_by_len, markup_len, render_text_spec,
    sort_order, wrap_for,
};
use crate::render_lemmas::{lemma_render_preserves_text, nodes_text};
use crate::text_markup::{
    leaf_model, leaf_pieces, lemma_node_at_wf, lemma_replace_at, lemma_split, valid_path,
    ContentModel, SpanModel, WrapModel,
};
use crate::utf16::{
    chars_before, is_utf16_boundary, lemma_boundary_end, lemma_boundary_in_piece,
    lemma_boundary_start, lemma_chars_before_end, lemma_chars_before_mono, lemma_utf16_len_ge, utf16_len_of,
};

verus! {

/// `order` lists indices of `ms` by non-increasing length.
pub open spec fn sorted_by_len(order: Seq<int>, ms: Seq<Markup>) -> bool {
    forall|i: int, j: int|
        0 <= i < j < order.len() ==> markup_len(ms[#[trigger] order[i]]) >= markup_len(
            ms[#[trigger] order[j]],
        )
}

/// Every entry of `order` indexes `ms`.
pub open spec fn indexes(order: Seq<int>, ms: Seq<Markup>) -> bool {
    forall|i: int| 0 <= i < order.len() ==> 0 <= #[trigger] order[i] < ms.len()
}

proof fn lemma_insert_sorted(order: Seq<int>, ms: Seq<Markup>, k: int)
    requires
        0 <= k < ms.len(),
        indexes(order, ms),
        sorted_by_len(order, ms),
    ensures
        insert_by_len(order, ms, k).len() == order.len() + 1,
        indexes(insert_by_len(order, ms, k), ms),
        sorted_by_len(insert_by_len(order, ms, k), ms),
        forall|x: int|
            0 <= x < order.len() + 1 ==> markup_len(ms[#[trigger] insert_by_len(order, ms, k)[x]])
                >= markup_len(ms[k]) || (exists|y: int|
                0 <= y < order.len() && insert_by_len(order, ms, k)[x] == order[y]),
    decreases order.len(),
{
    let r = insert_by_len(order, ms, k);
    if order.len() == 0 {
    } else if markup_len(ms[order.last()]) >= markup_len(ms[k]) {
        assert forall|x: int| 0 <= x < order.len() + 1 implies markup_len(ms[#[trigger] r[x]])
            >= markup_len(ms[k]) || (exists|y: int| 0 <= y < order.len() && r[x] == order[y]) by {
            if x < order.len() {
                assert(r[x] == order[x]);
            }
        }
        assert forall|i: int, j: int| 0 <= i < j < r.len() implies markup_len(
            ms[#[trigger] r[i]],
        ) >= markup_len(ms[#[trigger] r[j]]) by {
            if j == order.len() {
                if i < order.len() - 1 {
                    assert(markup_len(ms[order[i]]) >= markup_len(ms[order[order.len() - 1]]));
                }
            } else {
                assert(markup_len(ms[order[i]]) >= markup_len(ms[order[j]]));
            }
        }
    } else {
        let d = order.drop_last();
        assert forall|i: int, j: int| 0 <= i < j < d.len() implies markup_len(
            ms[#[trigger] d[i]],
        ) >= markup_len(ms[#[trigger] d[j]]) by {
            assert(markup_len(ms[order[i]]) >= markup_len(ms[order[j]]));
        }
        lemma_insert_sorted(d, ms, k);
        let q = insert_by_len(d, ms, k);
        let l = order.last();
        assert forall|x: int| 0 <= x < q.len() implies markup_len(ms[#[trigger] q[x]])
            >= markup_len(ms[l]) by {
            if markup_len(ms[q[x]]) < markup_len(ms[k]) {
                let y = choose|y: int| 0 <= y < d.len() && q[x] == d[y];
                assert(markup_len(ms[order[y]]) >= markup_len(ms[order[order.len() - 1]]));
            }
        }
        assert forall|i: int, j: int| 0 <= i < j < r.len() implies markup_len(
            ms[#[trigger] r[i]],
        ) >= markup_len(ms[#[trigger] r[j]]) by {
            if j == r.len() - 1 {
                assert(r[j] == l);
                assert(r[i] == q[i]);
            } else {
                assert(r[i] == q[i] && r[j] == q[j]);
            }
        }
        assert forall|x: int| 0 <= x < order.len() + 1 implies markup_len(ms[#[trigger] r[x]])
            >= markup_len(ms[k]) || (exists|y: int| 0 <= y < order.len() && r[x] == order[y]) by {
            if x == r.len() - 1 {
                assert(r[x] == order[order.len() - 1]);
            } else {
                assert(r[x] == q[x]);
                if markup_len(ms[q[x]]) < markup_len(ms[k]) {
                    let y = choose|y: int| 0 <= y < d.len() && q[x] == d[y];
                    assert(r[x] == order[y]);
                }
            }
        }
    }
}

/// The application order lists indices of the markups, longest first.
pub proof fn lemma_sort_order(ms: Seq<Markup>, n: int)
    requires
        0 <= n <= ms.len(),
    ensures
        sort_order(ms, n).len() == n,
        indexes(sort_order(ms, n), ms),
        sorted_by_len(sort_order(ms, n), ms),
    decreases n,
{
    if n > 0 {
        lemma_sort_order(ms, n - 1);
        lemma_insert_sorted(sort_order(ms, n - 1), ms, n - 1);
    }
}

/// Every span of `t` starts and ends at legal split points of `txt`, and every leaf
/// holds exactly the characters of `txt` between its ends.
pub open spec fn located(t: SpanModel, txt: Seq<char>) -> bool
    decreases t,
{
    &&& is_utf16_boundary(txt, t.start)
    &&& is_utf16_boundary(txt, t.end + 1)
    &&& match t.content {
        ContentModel::Text(s) => s == txt.subrange(
            chars_before(txt, t.start) as int,
            chars_before(txt, t.end + 1) as int,
        ),
        ContentModel::Spans(cs) => forall|i: int| 0 <= i < cs.len() ==> located(#[trigger] cs[i], txt),
    }
}

/// `x` is where some span of `t` begins right after a sibling ends.
pub open spec fn cuts(t: SpanModel, x: int) -> bool
    decreases t,
{
    match t.content {
        ContentModel::Text(_) => false,
        ContentModel::Spans(cs) => exists|i: int|
            0 <= i < cs.len() && ((i > 0 && (#[trigger] cs[i]).start == x) || cuts(cs[i], x)),
    }
}

proof fn lemma_find_child(t: SpanModel, s: int, k: int)
    requires
        t.wf(),
        t.content is Spans,
        0 <= k < t.content->Spans_0.len(),
        t.content->Spans_0[k].start <= s <= t.end,
    ensures
        exists|i: int|
            0 <= i < t.content->Spans_0.len() && (#[trigger] t.content->Spans_0[i]).start <= s
                <= t.content->Spans_0[i].end,
    decreases t.content->Spans_0.len() - k,
{
    let cs = t.content->Spans_0;
    if s > cs[k].end {
        assert(k + 1 < cs.len());
        assert(cs[k + 1].start == cs[k].end + 1);
        lemma_find_child(t, s, k + 1);
    }
}

/// A range of legal split points that crosses no existing cut can always be split out.
pub proof fn lemma_split_some(t: SpanModel, txt: Seq<char>, s: int, e: int)
    requires
        t.wf(),
        located(t, txt),
        t.start <= s <= e <= t.end,
        is_utf16_boundary(txt, s),
        is_utf16_boundary(txt, e + 1),
        forall|x: int| s < x <= e ==> !cuts(t, x),
    ensures
        t.split(s, e) is Some,
    decreases t,
{
    if s == t.start && e == t.end {
    } else {
        match t.content {
            ContentModel::Text(l) => {
                lemma_boundary_in_piece(txt, t.start, t.end + 1, s);
                lemma_boundary_in_piece(txt, t.start, t.end + 1, e + 1);
            },
            ContentModel::Spans(cs) => {
                lemma_find_child(t, s, 0);
                let i = choose|i: int| 0 <= i < cs.len() && (#[trigger] cs[i]).start <= s <= cs[i].end;
                if e > cs[i].end {
                    assert(i + 1 < cs.len());
                    assert(cs[i + 1].start == cs[i].end + 1);
                    assert(cuts(t, cs[i + 1].start));
                }
                assert(cs[i].wf());
                assert(located(cs[i], txt));
                assert forall|x: int| s < x <= e implies !cuts(cs[i], x) by {
                    if cuts(cs[i], x) {
                        assert(cuts(t, x));
                    }
                }
                assert(decreases_to!(t => cs[i]));
                lemma_split_some(cs[i], txt, s, e);
                crate::text_markup::lemma_split_child(t, s, e, i);
            },
        }
    }
}

/// Splitting keeps every span located, and adds cuts only at the ends of the range.
pub proof fn lemma_split_keeps(t: SpanModel, txt: Seq<char>, s: int, e: int)
    requires
        t.wf(),
        located(t, txt),
        is_utf16_boundary(txt, s),
        is_utf16_boundary(txt, e + 1),
        t.split(s, e) is Some,
    ensures
        located(t.split(s, e)->Some_0.0, txt),
        forall|x: int|
            cuts(t.split(s, e)->Some_0.0, x) ==> cuts(t, x) || x == s || x == e + 1,
    decreases t,
{
    if s == t.start && e == t.end {
    } else {
        match t.content {
            ContentModel::Text(l) => {
                let o = t.start;
                let last = t.end;
                let k1 = chars_before(txt, o) as int;
                let k2 = chars_before(txt, last + 1) as int;
                lemma_boundary_in_piece(txt, o, last + 1, s);
                lemma_boundary_in_piece(txt, o, last + 1, e + 1);
                let ks = chars_before(txt, s) as int;
                let ke = chars_before(txt, e + 1) as int;
                let a = chars_before(l, s - o) as int;
                let b = chars_before(l, e + 1 - o) as int;
                assert(l == txt.subrange(k1, k2));
                assert(k1 <= ks <= k2 && a == ks - k1);
                assert(k1 <= ke <= k2 && b == ke - k1);
                lemma_chars_before_mono(txt, s, e + 1);
                assert(l.take(a) =~= txt.subrange(k1, ks));
                assert(l.subrange(a, b) =~= txt.subrange(ks, ke));
                assert(l.skip(b) =~= txt.subrange(ke, k2));
                let pieces = leaf_pieces(l, o, last, s, e);
                let t2 = t.split(s, e)->Some_0.0;
                assert(t2.content == ContentModel::Spans(pieces));
                assert forall|i: int| 0 <= i < pieces.len() implies located(
                    #[trigger] pieces[i],
                    txt,
                ) by {}
                assert forall|x: int| cuts(t2, x) implies cuts(t, x) || x == s || x == e + 1 by {
                    let i = choose|i: int|
                        0 <= i < pieces.len() && ((i > 0 && (#[trigger] pieces[i]).start == x)
                            || cuts(pieces[i], x));
                    assert(!cuts(pieces[i], x));
                }
            },
            ContentModel::Spans(cs) => {
                let i = choose|i: int| 0 <= i < cs.len() && (#[trigger] cs[i]).covers(s, e);
                assert(cs[i].wf());
                assert(located(cs[i], txt));
                assert(decreases_to!(t => cs[i]));
                lemma_split_keeps(cs[i], txt, s, e);
                lemma_split(cs[i], s, e);
                let c = cs[i].split(s, e)->Some_0.0;
                let u = cs.update(i, c);
                let t2 = t.split(s, e)->Some_0.0;
                assert(t2.content == ContentModel::Spans(u));
                assert forall|j: int| 0 <= j < u.len() implies located(#[trigger] u[j], txt) by {
                    if j != i {
                        assert(located(cs[j], txt));
                    }
                }
                assert forall|x: int| cuts(t2, x) implies cuts(t, x) || x == s || x == e + 1 by {
                    let j = choose|j: int|
                        0 <= j < u.len() && ((j > 0 && (#[trigger] u[j]).start == x) || cuts(u[j], x));
                    if j != i {
                        assert(u[j] == cs[j]);
                        assert((j > 0 && cs[j].start == x) || cuts(cs[j], x));
                    } else if j > 0 && u[j].start == x {
                        assert(cs[j].start == x);
                    } else {
                        assert(cuts(c, x));
                        if cuts(cs[i], x) {
                            assert(cuts(t, x));
                        }
                    }
                }
            },
        }
    }
}

/// Giving a span other wraps changes neither where spans sit nor where they are cut.
pub proof fn lemma_rewrap(t: SpanModel, p: Seq<int>, ws: Seq<WrapModel>, txt: Seq<char>)
    requires
        valid_path(t, p),
    ensures
        ({
            let t2 = t.replace_at(p, SpanModel { wraps: ws, ..t.node_at(p) });
            &&& t2.start == t.start
            &&& t2.end == t.end
            &&& located(t2, txt) == located(t, txt)
            &&& forall|x: int| cuts(t2, x) == cuts(t, x)
        }),
    decreases p.len(),
{
    let n2 = SpanModel { wraps: ws, ..t.node_at(p) };
    let t2 = t.replace_at(p, n2);
    if p.len() == 0 {
        assert(t2.content == t.content);
        assert forall|x: int| cuts(t2, x) == cuts(t, x) by {}
    } else {
        let cs = t.content->Spans_0;
        let i = p[0];
        let rest = p.drop_first();
        lemma_rewrap(cs[i], rest, ws, txt);
        let c = cs[i].replace_at(rest, n2);
        let u = cs.update(i, c);
        assert(t2.content == ContentModel::Spans(u));
        assert(forall|j: int| 0 <= j < u.len() && j != i ==> #[trigger] u[j] == cs[j]);
        if located(t, txt) {
            assert forall|j: int| 0 <= j < u.len() implies located(#[trigger] u[j], txt) by {
                if j != i {
                    assert(located(cs[j], txt));
                }
            }
        }
        if located(t2, txt) {
            assert forall|j: int| 0 <= j < cs.len() implies located(#[trigger] cs[j], txt) by {
                assert(located(u[j], txt));
            }
        }
        assert forall|x: int| cuts(t2, x) == cuts(t, x) by {
            if cuts(t2, x) {
                let j = choose|j: int|
                    0 <= j < u.len() && ((j > 0 && (#[trigger] u[j]).start == x) || cuts(u[j], x));
                assert((j > 0 && cs[j].start == x) || cuts(cs[j], x));
            }
            if cuts(t, x) {
                let j = choose|j: int|
                    0 <= j < cs.len() && ((j > 0 && (#[trigger] cs[j]).start == x) || cuts(cs[j], x));
                assert((j > 0 && u[j].start == x) || cuts(u[j], x));
            }
        }
    }
}

/// The ranges of `a` and `b` are disjoint, or one contains the other.
pub open spec fn laminar(a: Markup, b: Markup) -> bool {
    ||| a.end < b.start
    ||| b.end < a.start
    ||| (a.start <= b.start && b.end <= a.end)
    ||| (b.start <= a.start && a.end <= b.end)
}

/// A markup of a known kind whose non-empty range lies inside `text` and starts and
/// ends at legal split points.
pub open spec fn well_placed(text: Seq<char>, m: Markup) -> bool {
    &&& wrap_for(m) is Some
    &&& m.start <= m.end < utf16_len_of(text)
    &&& is_utf16_boundary(text, m.start as int)
    &&& is_utf16_boundary(text, m.end + 1)
}

/// After the first `k` markups in application order, the tree exists, is well-formed
/// and located, and is cut only at the ends of ranges applied so far.
pub open spec fn applied_prefix(text: Seq<char>, ms: Seq<Markup>, k: int) -> bool {
    let ord = sort_order(ms, ms.len() as int);
    let root = leaf_model(0, utf16_len_of(text) - 1, text);
    let r = apply_markups(root, ms, ord.take(k));
    &&& r is Ok
    &&& r->Ok_0.wf()
    &&& located(r->Ok_0, text)
    &&& r->Ok_0.start == 0
    &&& r->Ok_0.end == utf16_len_of(text) - 1
    &&& forall|x: int|
        #![trigger cuts(r->Ok_0, x)]
        cuts(r->Ok_0, x) ==> exists|j: int|
            0 <= j < k && (x == (#[trigger] ms[ord[j]]).start || x == ms[ord[j]].end + 1)
}

proof fn lemma_applied_prefix(text: Seq<char>, ms: Seq<Markup>, k: int)
    requires
        text.len() > 0,
        0 <= k <= ms.len(),
        forall|i: int| 0 <= i < ms.len() ==> well_placed(text, #[trigger] ms[i]),
        forall|i: int, j: int|
            0 <= i < ms.len() && 0 <= j < ms.len() ==> laminar(#[trigger] ms[i], #[trigger] ms[j]),
    ensures
        applied_prefix(text, ms, k),
    decreases k,
{
    let ord = sort_order(ms, ms.len() as int);
    lemma_sort_order(ms, ms.len() as int);
    lemma_utf16_len_ge(text);
    let last = utf16_len_of(text) - 1;
    let root = leaf_model(0, last, text);
    if k == 0 {
        assert(ord.take(0) =~= Seq::<int>::empty());
        lemma_boundary_start(text);
        lemma_boundary_end(text);
        lemma_chars_before_end(text);
        assert(text.subrange(0, text.len() as int) =~= text);
    } else {
        lemma_applied_prefix(text, ms, k - 1);
        let t = apply_markups(root, ms, ord.take(k - 1))->Ok_0;
        assert(ord.take(k).drop_last() =~= ord.take(k - 1));
        assert(ord.take(k).last() == ord[k - 1]);
        let m = ms[ord[k - 1]];
        assert(well_placed(text, m));
        let s = m.start as int;
        let e = m.end as int;
        assert forall|x: int| s < x <= e implies !cuts(t, x) by {
            if cuts(t, x) {
                let j = choose|j: int|
                    0 <= j < k - 1 && (x == (#[trigger] ms[ord[j]]).start || x == ms[ord[j]].end
                        + 1);
                let r = ms[ord[j]];
                assert(markup_len(ms[ord[j]]) >= markup_len(ms[ord[k - 1]]));
                assert(laminar(ms[ord[j]], ms[ord[k - 1]]));
                assert(well_placed(text, r));
            }
        }
        lemma_split_some(t, text, s, e);
        lemma_split(t, s, e);
        lemma_split_keeps(t, text, s, e);
        let (t2, p) = t.split(s, e)->Some_0;
        let n = t2.node_at(p);
        let ws = n.wraps.push(wrap_for(m)->Some_0);
        lemma_node_at_wf(t2, p, ws);
        lemma_replace_at(t2, p, SpanModel { wraps: ws, ..n });
        lemma_rewrap(t2, p, ws, text);
        let t3 = t2.replace_at(p, SpanModel { wraps: ws, ..n });
        assert(apply_markup(t, m) == Ok::<SpanModel, crate::text_markup::RenderingError>(t3));
        assert forall|x: int| #![trigger cuts(t3, x)] cuts(t3, x) implies exists|j: int|
            0 <= j < k && (x == (#[trigger] ms[ord[j]]).start || x == ms[ord[j]].end + 1) by {
            if x == s || x == e + 1 {
                assert(ms[ord[k - 1]] == m);
            } else {
                assert(cuts(t, x));
            }
        }
    }
}

/// Ranges that are each disjoint from or nested in one another always render, and
/// the text leaves of the output, read in order, are exactly the text (escaped for
/// markup).
pub proof fn lemma_nested_ranges_render(text: Seq<char>, ms: Seq<Markup>)
    requires
        text.len() > 0,
        forall|i: int| 0 <= i < ms.len() ==> well_placed(text, #[trigger] ms[i]),
        forall|i: int, j: int|
            0 <= i < ms.len() && 0 <= j < ms.len() ==> laminar(#[trigger] ms[i], #[trigger] ms[j]),
    ensures
        render_text_spec(text, ms) is Ok,
        nodes_text(render_text_spec(text, ms)->Ok_0) == escape_html(text),
{
    if ms.len() > 0 {
        lemma_applied_prefix(text, ms, ms.len() as int);
        let ord = sort_order(ms, ms.len() as int);
        lemma_sort_order(ms, ms.len() as int);
        assert(ord.take(ms.len() as int) =~= ord);
    }
    lemma_render_preserves_text(text, ms);
}

} // verus!
