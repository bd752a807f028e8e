use vstd::prelude::*;

use crate::content::{
    contents_view, escape_html, href_key, lemma_contents_view, push_chars, Content, ContentNode,
};
use crate::utf16::{
    chars_before, is_utf16_boundary, lemma_boundary_end, lemma_boundary_prefix, lemma_chars_before_mono,
    lemma_chars_before_prefix, lemma_utf16_concat, lemma_utf16_len_ge, split_at_utf16_offset,
    utf16_boundary, utf16_len, utf16_len_of,
};

verus! {

/// Why a markup range could not be applied to a paragraph.
#[derive(Debug, PartialEq, Eq)]
pub enum RenderingError {
    /// No span with exactly this range exists or can be created.
    NoSuchSpan(usize, usize),
    /// The markup kind is not one of `STRONG`, `EM` or `A`.
    UnknownMarkupKind(String),
    /// An image paragraph without image metadata.
    MissingMetadata,
    /// An embed paragraph without its frame.
    MissingIframe,
}

/// A formatting decoration applied to the whole content of a span.
#[derive(Debug, PartialEq, Eq)]
pub enum SpanWrap {
    Strong,
    Emphasized,
    Link { href: String },
}

/// What a span holds: raw text, or contiguous child spans in text order.
#[derive(Debug, PartialEq, Eq)]
pub enum SpanContent<'a> {
    Text(&'a str),
    Spans(Vec<TextSpan<'a>>),
}

/// A node of the span tree: the inclusive UTF-16 range `[start, end]` of the
/// paragraph text, its content, and the wraps applied to it in order.
#[derive(Debug, PartialEq, Eq)]
pub struct TextSpan<'a> {
    pub start: usize,
    pub end: usize,
    pub content: SpanContent<'a>,
    pub wraps: Vec<SpanWrap>,
}

/// Mathematical model of a wrap.
pub ghost enum WrapModel {
    Strong,
    Emphasized,
    Link(Seq<char>),
}

impl View for SpanWrap {
    type V = WrapModel;

    open spec fn view(&self) -> WrapModel {
        match self {
            SpanWrap::Strong => WrapModel::Strong,
            SpanWrap::Emphasized => WrapModel::Emphasized,
            SpanWrap::Link { href } => WrapModel::Link(href@),
        }
    }
}

/// The models of a sequence of wraps.
pub open spec fn wraps_view(ws: Seq<SpanWrap>) -> Seq<WrapModel> {
    ws.map_values(|w: SpanWrap| w@)
}

/// Mathematical model of a span's content.
pub ghost enum ContentModel {
    Text(Seq<char>),
    Spans(Seq<SpanModel>),
}

/// Mathematical model of a span.
pub ghost struct SpanModel {
    pub start: int,
    pub end: int,
    pub content: ContentModel,
    pub wraps: Seq<WrapModel>,
}

impl<'a> View for TextSpan<'a> {
    type V = SpanModel;

    open spec fn view(&self) -> SpanModel
        decreases self,
    {
        SpanModel {
            start: self.start as int,
            end: self.end as int,
            content: match self.content {
                SpanContent::Text(t) => ContentModel::Text(t@),
                SpanContent::Spans(cs) => ContentModel::Spans(spans_view(cs@)),
            },
            wraps: wraps_view(self.wraps@),
        }
    }
}

/// The models of a sequence of spans.
pub open spec fn spans_view<'a>(cs: Seq<TextSpan<'a>>) -> Seq<SpanModel>
    decreases cs,
{
    if cs.len() == 0 {
        Seq::empty()
    } else {
        spans_view(cs.drop_last()).push(cs.last()@)
    }
}

/// A leaf that holds `t`, covers `[start, end]` and has no wraps.
pub open spec fn leaf_model(start: int, end: int, t: Seq<char>) -> SpanModel {
    SpanModel { start, end, content: ContentModel::Text(t), wraps: Seq::empty() }
}

/// The children that splitting the leaf text `t`, which covers `[o, last]`, at `[s, e]`
/// produces: the prefix before `s` (if any), the center `[s, e]`, and the suffix
/// after `e` (if any).
pub open spec fn leaf_pieces(t: Seq<char>, o: int, last: int, s: int, e: int) -> Seq<SpanModel> {
    let a = chars_before(t, s - o) as int;
    let b = chars_before(t, e + 1 - o) as int;
    let center = leaf_model(s, e, t.subrange(a, b));
    let pre = if s == o {
        Seq::empty()
    } else {
        seq![leaf_model(o, s - 1, t.take(a))]
    };
    let suf = if e == last {
        Seq::empty()
    } else {
        seq![leaf_model(e + 1, last, t.skip(b))]
    };
    pre + seq![center] + suf
}

/// The concatenated text of a sequence of spans.
pub open spec fn concat_text(cs: Seq<SpanModel>) -> Seq<char>
    decreases cs,
{
    if cs.len() == 0 {
        Seq::empty()
    } else {
        concat_text(cs.drop_last()) + cs.last().text()
    }
}

impl SpanModel {
    /// The span covers `[s, e]`.
    pub open spec fn covers(self, s: int, e: int) -> bool {
        self.start <= s && e <= self.end
    }

    /// Well-formed: the range is not empty; a leaf's text has exactly as many UTF-16
    /// units as the range; children are well-formed and tile the range in order.
    pub open spec fn wf(self) -> bool
        decreases self,
    {
        &&& self.start <= self.end
        &&& match self.content {
            ContentModel::Text(t) => utf16_len_of(t) == self.end - self.start + 1,
            ContentModel::Spans(cs) => {
                &&& cs.len() > 0
                &&& cs[0].start == self.start
                &&& cs.last().end == self.end
                &&& forall|i: int| 0 < i < cs.len() ==> #[trigger] cs[i].start == cs[i - 1].end + 1
                &&& forall|i: int| 0 <= i < cs.len() ==> (#[trigger] cs[i]).wf()
            },
        }
    }

    /// The text the span stands for: its leaves' text, in order.
    pub open spec fn text(self) -> Seq<char>
        decreases self,
    {
        match self.content {
            ContentModel::Text(t) => t,
            ContentModel::Spans(cs) => concat_text(cs),
        }
    }

    /// Locates, or creates by splitting a leaf, the span of range exactly `[s, e]`.
    /// Returns the resulting tree and the path of child indices to that span, or `None`
    /// when no such span can exist: the range leaves this span, straddles a boundary
    /// between children, or cuts a leaf inside a surrogate pair.
    pub open spec fn split(self, s: int, e: int) -> Option<(SpanModel, Seq<int>)>
        decreases self,
    {
        if s == self.start && e == self.end {
            Some((self, Seq::empty()))
        } else if !(self.start <= s && s <= e && e <= self.end) {
            None
        } else {
            match self.content {
                ContentModel::Text(t) => {
                    if is_utf16_boundary(t, s - self.start) && is_utf16_boundary(
                        t,
                        e + 1 - self.start,
                    ) {
                        let pieces = leaf_pieces(t, self.start, self.end, s, e);
                        let idx: int = if s == self.start {
                            0
                        } else {
                            1
                        };
                        Some((SpanModel { content: ContentModel::Spans(pieces), ..self }, seq![idx]))
                    } else {
                        None
                    }
                },
                ContentModel::Spans(cs) => {
                    if exists|i: int| 0 <= i < cs.len() && (#[trigger] cs[i]).covers(s, e) {
                        let i = choose|i: int| 0 <= i < cs.len() && (#[trigger] cs[i]).covers(s, e);
                        match cs[i].split(s, e) {
                            Some((c, p)) => Some(
                                (
                                    SpanModel { content: ContentModel::Spans(cs.update(i, c)), ..self },
                                    seq![i] + p,
                                ),
                            ),
                            None => None,
                        }
                    } else {
                        None
                    }
                },
            }
        }
    }

    /// The span reached from this one by following `path`.
    pub open spec fn node_at(self, path: Seq<int>) -> SpanModel
        decreases path.len(),
    {
        if path.len() == 0 {
            self
        } else {
            match self.content {
                ContentModel::Spans(cs) => cs[path[0]].node_at(path.drop_first()),
                ContentModel::Text(_) => self,
            }
        }
    }

    /// This span with the one at `path` replaced by `n`.
    pub open spec fn replace_at(self, path: Seq<int>, n: SpanModel) -> SpanModel
        decreases path.len(),
    {
        if path.len() == 0 {
            n
        } else {
            match self.content {
                ContentModel::Spans(cs) => SpanModel {
                    content: ContentModel::Spans(
                        cs.update(path[0], cs[path[0]].replace_at(path.drop_first(), n)),
                    ),
                    ..self
                },
                ContentModel::Text(_) => self,
            }
        }
    }
}

/// The models of `cs` are the models of its spans, one by one.
pub proof fn lemma_spans_view<'a>(cs: Seq<TextSpan<'a>>)
    ensures
        spans_view(cs).len() == cs.len(),
        forall|i: int| 0 <= i < cs.len() ==> #[trigger] spans_view(cs)[i] == cs[i]@,
    decreases cs.len(),
{
    if cs.len() > 0 {
        assert(spans_view(cs) == spans_view(cs.drop_last()).push(cs.last()@));
        lemma_spans_view(cs.drop_last());
    }
}

proof fn lemma_spans_view_update<'a>(cs: Seq<TextSpan<'a>>, i: int, c: TextSpan<'a>)
    requires
        0 <= i < cs.len(),
    ensures
        spans_view(cs.update(i, c)) == spans_view(cs).update(i, c@),
{
    lemma_spans_view(cs);
    lemma_spans_view(cs.update(i, c));
    assert(spans_view(cs.update(i, c)) =~= spans_view(cs).update(i, c@));
}

/// Children of a well-formed span are ordered: an earlier child ends before a later
/// one starts.
pub proof fn lemma_children_ordered(t: SpanModel, i: int, j: int)
    requires
        t.wf(),
        t.content is Spans,
        0 <= i < j < t.content->Spans_0.len(),
    ensures
        t.content->Spans_0[i].end < t.content->Spans_0[j].start,
    decreases j - i,
{
    let cs = t.content->Spans_0;
    if j > i + 1 {
        lemma_children_ordered(t, i, j - 1);
        assert(cs[j - 1].wf());
    }
    assert(cs[j].start == cs[j - 1].end + 1);
}

/// In a well-formed span, at most one child covers a non-empty range.
pub proof fn lemma_covering_child_unique(t: SpanModel, s: int, e: int, i: int, j: int)
    requires
        t.wf(),
        t.content is Spans,
        s <= e,
        0 <= i < t.content->Spans_0.len(),
        0 <= j < t.content->Spans_0.len(),
        t.content->Spans_0[i].covers(s, e),
        t.content->Spans_0[j].covers(s, e),
    ensures
        i == j,
{
    if i < j {
        lemma_children_ordered(t, i, j);
    } else if j < i {
        lemma_children_ordered(t, j, i);
    }
}

/// Following a path that starts with child `i`.
pub proof fn lemma_path_cons(t: SpanModel, i: int, p: Seq<int>)
    requires
        t.content is Spans,
        0 <= i < t.content->Spans_0.len(),
    ensures
        t.node_at(seq![i] + p) == t.content->Spans_0[i].node_at(p),
        forall|n: SpanModel|
            #[trigger] t.replace_at(seq![i] + p, n) == (SpanModel {
                content: ContentModel::Spans(
                    t.content->Spans_0.update(i, t.content->Spans_0[i].replace_at(p, n)),
                ),
                ..t
            }),
{
    assert((seq![i] + p).drop_first() =~= p);
    assert((seq![i] + p)[0] == i);
}

proof fn lemma_update_twice(cs: Seq<SpanModel>, i: int, a: SpanModel)
    requires
        0 <= i < cs.len(),
    ensures
        forall|b: SpanModel| #[trigger] cs.update(i, a).update(i, b) == cs.update(i, b),
{
    assert forall|b: SpanModel| #[trigger] cs.update(i, a).update(i, b) == cs.update(i, b) by {
        assert(cs.update(i, a).update(i, b) =~= cs.update(i, b));
    }
}

/// Splitting a well-formed span descends into the one child that covers the range.
pub proof fn lemma_split_child(t: SpanModel, s: int, e: int, i: int)
    requires
        t.wf(),
        t.content is Spans,
        t.start <= s <= e <= t.end,
        !(s == t.start && e == t.end),
        0 <= i < t.content->Spans_0.len(),
        t.content->Spans_0[i].covers(s, e),
    ensures
        t.split(s, e) == match t.content->Spans_0[i].split(s, e) {
            Some((c, p)) => Some(
                (
                    SpanModel { content: ContentModel::Spans(t.content->Spans_0.update(i, c)), ..t },
                    seq![i] + p,
                ),
            ),
            None => None,
        },
{
    let cs = t.content->Spans_0;
    let k = choose|k: int| 0 <= k < cs.len() && (#[trigger] cs[k]).covers(s, e);
    lemma_covering_child_unique(t, s, e, i, k);
}

/// `p` leads from `t` through children to some span.
pub open spec fn valid_path(t: SpanModel, p: Seq<int>) -> bool
    decreases p.len(),
{
    p.len() == 0 || match t.content {
        ContentModel::Spans(cs) => 0 <= p[0] < cs.len() && valid_path(cs[p[0]], p.drop_first()),
        ContentModel::Text(_) => false,
    }
}

proof fn lemma_concat_text_push(cs: Seq<SpanModel>, c: SpanModel)
    ensures
        concat_text(cs.push(c)) == concat_text(cs) + c.text(),
{
    assert(cs.push(c).drop_last() =~= cs);
}

proof fn lemma_concat_text_update(cs: Seq<SpanModel>, i: int, c: SpanModel)
    requires
        0 <= i < cs.len(),
        c.text() == cs[i].text(),
    ensures
        concat_text(cs.update(i, c)) == concat_text(cs),
    decreases cs.len(),
{
    let u = cs.update(i, c);
    if i < cs.len() - 1 {
        assert(u.drop_last() =~= cs.drop_last().update(i, c));
        lemma_concat_text_update(cs.drop_last(), i, c);
    } else {
        assert(u.drop_last() =~= cs.drop_last());
    }
}

/// Replacing a child by a well-formed span of the same range keeps a span well-formed.
proof fn lemma_wf_update(t: SpanModel, i: int, c: SpanModel)
    requires
        t.wf(),
        t.content is Spans,
        0 <= i < t.content->Spans_0.len(),
        c.wf(),
        c.start == t.content->Spans_0[i].start,
        c.end == t.content->Spans_0[i].end,
    ensures
        (SpanModel {
            content: ContentModel::Spans(t.content->Spans_0.update(i, c)),
            ..t
        }).wf(),
{
    let cs = t.content->Spans_0;
    let u = cs.update(i, c);
    assert forall|j: int| 0 < j < u.len() implies #[trigger] u[j].start == u[j - 1].end + 1 by {
        assert(cs[j].start == cs[j - 1].end + 1);
    }
    assert forall|j: int| 0 <= j < u.len() implies (#[trigger] u[j]).wf() by {
        if j != i {
            assert(cs[j].wf());
        }
    }
}

/// Replacing the span at a valid path by a well-formed span of the same range keeps
/// the tree well-formed, and keeps its text when the replacement has the same text.
pub proof fn lemma_replace_at(t: SpanModel, p: Seq<int>, n: SpanModel)
    requires
        t.wf(),
        valid_path(t, p),
        n.wf(),
        n.start == t.node_at(p).start,
        n.end == t.node_at(p).end,
    ensures
        t.replace_at(p, n).wf(),
        t.replace_at(p, n).start == t.start,
        t.replace_at(p, n).end == t.end,
        valid_path(t.replace_at(p, n), p),
        t.replace_at(p, n).node_at(p) == n,
        n.text() == t.node_at(p).text() ==> t.replace_at(p, n).text() == t.text(),
    decreases p.len(),
{
    if p.len() > 0 {
        let cs = t.content->Spans_0;
        let i = p[0];
        let rest = p.drop_first();
        assert(cs[i].wf());
        lemma_replace_at(cs[i], rest, n);
        let c = cs[i].replace_at(rest, n);
        lemma_wf_update(t, i, c);
        if n.text() == t.node_at(p).text() {
            lemma_concat_text_update(cs, i, c);
        }
    }
}

proof fn lemma_leaf_pieces(t: SpanModel, s: int, e: int)
    requires
        t.wf(),
        t.content is Text,
        t.start <= s <= e <= t.end,
        is_utf16_boundary(t.content->Text_0, s - t.start),
        is_utf16_boundary(t.content->Text_0, e + 1 - t.start),
    ensures
        ({
            let pieces = leaf_pieces(t.content->Text_0, t.start, t.end, s, e);
            let idx: int = if s == t.start {
                0
            } else {
                1
            };
            let t2 = SpanModel { content: ContentModel::Spans(pieces), ..t };
            &&& t2.wf()
            &&& t2.text() == t.text()
            &&& 0 <= idx < pieces.len()
            &&& pieces[idx].start == s
            &&& pieces[idx].end == e
        }),
{
    let tx = t.content->Text_0;
    let o = t.start;
    let x = s - o;
    let y = e + 1 - o;
    let a = chars_before(tx, x) as int;
    let b = chars_before(tx, y) as int;
    lemma_boundary_prefix(tx, x);
    lemma_boundary_prefix(tx, y);
    lemma_chars_before_mono(tx, x, y);
    assert(tx.take(a) + tx.subrange(a, b) =~= tx.take(b));
    assert(tx.take(b) + tx.skip(b) =~= tx);
    lemma_utf16_concat(tx.take(a), tx.subrange(a, b));
    lemma_utf16_concat(tx.take(b), tx.skip(b));
    let pieces = leaf_pieces(tx, t.start, t.end, s, e);
    let t2 = SpanModel { content: ContentModel::Spans(pieces), ..t };
    assert forall|j: int| 0 <= j < pieces.len() implies (#[trigger] pieces[j]).wf() by {}
    assert forall|j: int| 0 < j < pieces.len() implies #[trigger] pieces[j].start == pieces[j
        - 1].end + 1 by {}
    let center = leaf_model(s, e, tx.subrange(a, b));
    let pre = leaf_model(o, s - 1, tx.take(a));
    let suf = leaf_model(e + 1, t.end, tx.skip(b));
    let none = Seq::<SpanModel>::empty();
    lemma_concat_text_push(none, center);
    lemma_concat_text_push(none, pre);
    lemma_concat_text_push(seq![pre], center);
    lemma_concat_text_push(seq![center], suf);
    lemma_concat_text_push(seq![pre, center], suf);
    assert(none.push(center) =~= seq![center]);
    assert(none.push(pre) =~= seq![pre]);
    assert(seq![pre].push(center) =~= seq![pre, center]);
    assert(seq![center].push(suf) =~= seq![center, suf]);
    assert(seq![pre, center].push(suf) =~= seq![pre, center, suf]);
    if s == o {
        assert(tx.take(a) =~= Seq::<char>::empty());
        if e == t.end {
            assert(pieces =~= seq![center]);
            assert(tx.subrange(a, b) =~= tx);
        } else {
            assert(pieces =~= seq![center, suf]);
            assert(tx.subrange(a, b) + tx.skip(b) =~= tx);
        }
    } else {
        if e == t.end {
            assert(pieces =~= seq![pre, center]);
            assert(tx.take(a) + tx.subrange(a, b) =~= tx);
        } else {
            assert(pieces =~= seq![pre, center, suf]);
            assert(tx.take(a) + tx.subrange(a, b) + tx.skip(b) =~= tx);
        }
    }
    assert(concat_text(pieces) =~= t.text());
}

/// Splitting a well-formed span keeps it well-formed and keeps its range and text; the
/// path it returns leads to a well-formed span of exactly the requested range.
pub proof fn lemma_split(t: SpanModel, s: int, e: int)
    requires
        t.wf(),
        t.split(s, e) is Some,
    ensures
        ({
            let (t2, p) = t.split(s, e)->Some_0;
            &&& t2.wf()
            &&& t2.start == t.start
            &&& t2.end == t.end
            &&& t2.text() == t.text()
            &&& valid_path(t2, p)
            &&& t2.node_at(p).start == s
            &&& t2.node_at(p).end == e
        }),
    decreases t,
{
    if s == t.start && e == t.end {
    } else {
        match t.content {
            ContentModel::Text(tx) => {
                lemma_leaf_pieces(t, s, e);
                let idx: int = if s == t.start {
                    0
                } else {
                    1
                };
                let t2 = t.split(s, e)->Some_0.0;
                lemma_path_cons(t2, idx, Seq::<int>::empty());
                assert(seq![idx] + Seq::<int>::empty() =~= seq![idx]);
                assert(seq![idx].drop_first() =~= Seq::<int>::empty());
                assert(seq![idx][0] == idx);
                assert(valid_path(t2.content->Spans_0[idx], Seq::<int>::empty()));
            },
            ContentModel::Spans(cs) => {
                let i = choose|i: int| 0 <= i < cs.len() && (#[trigger] cs[i]).covers(s, e);
                assert(cs[i].wf());
                assert(decreases_to!(t => cs[i]));
                lemma_split(cs[i], s, e);
                let (c, pc) = cs[i].split(s, e)->Some_0;
                lemma_wf_update(t, i, c);
                lemma_concat_text_update(cs, i, c);
                let t2 = SpanModel { content: ContentModel::Spans(cs.update(i, c)), ..t };
                lemma_path_cons(t2, i, pc);
                assert((seq![i] + pc).drop_first() =~= pc);
                assert((seq![i] + pc)[0] == i);
            },
        }
    }
}

/// Every span of a well-formed tree is well-formed; wraps play no part in it.
pub proof fn lemma_node_at_wf(t: SpanModel, p: Seq<int>, ws: Seq<WrapModel>)
    requires
        t.wf(),
        valid_path(t, p),
    ensures
        t.node_at(p).wf(),
        (SpanModel { wraps: ws, ..t.node_at(p) }).wf(),
    decreases p.len(),
{
    if p.len() > 0 {
        let cs = t.content->Spans_0;
        assert(cs[p[0]].wf());
        lemma_node_at_wf(cs[p[0]], p.drop_first(), ws);
    }
}

/// Requesting the whole range of a span returns that span itself, unchanged and
/// without creating children.
pub proof fn lemma_full_range_identity(t: SpanModel)
    ensures
        t.split(t.start, t.end) == Some((t, Seq::<int>::empty())),
{
}

/// Requesting the same range a second time finds the span that the first request
/// produced, at the same path, and changes nothing, also after that span was given
/// wraps (or replaced by any well-formed span of that range) in between.
pub proof fn lemma_split_idempotent(t: SpanModel, s: int, e: int, n: SpanModel)
    requires
        t.wf(),
        t.split(s, e) is Some,
        n.wf(),
        n.start == s,
        n.end == e,
    ensures
        ({
            let (t2, p) = t.split(s, e)->Some_0;
            let t3 = t2.replace_at(p, n);
            t3.split(s, e) == Some((t3, p))
        }),
    decreases t,
{
    if s == t.start && e == t.end {
    } else {
        match t.content {
            ContentModel::Text(tx) => {
                lemma_leaf_pieces(t, s, e);
                let idx: int = if s == t.start {
                    0
                } else {
                    1
                };
                let (t2, p) = t.split(s, e)->Some_0;
                let pieces = t2.content->Spans_0;
                let none = Seq::<int>::empty();
                assert(seq![idx] + none =~= seq![idx]);
                lemma_path_cons(t2, idx, none);
                let t3 = t2.replace_at(p, n);
                lemma_wf_update(t2, idx, n);
                let u = pieces.update(idx, n);
                lemma_split_child(t3, s, e, idx);
                assert(u.update(idx, n) =~= u);
            },
            ContentModel::Spans(cs) => {
                let i = choose|i: int| 0 <= i < cs.len() && (#[trigger] cs[i]).covers(s, e);
                assert(cs[i].wf());
                assert(decreases_to!(t => cs[i]));
                lemma_split(cs[i], s, e);
                lemma_split_idempotent(cs[i], s, e, n);
                let (c, pc) = cs[i].split(s, e)->Some_0;
                lemma_replace_at(c, pc, n);
                let c2 = c.replace_at(pc, n);
                let t2 = SpanModel { content: ContentModel::Spans(cs.update(i, c)), ..t };
                lemma_path_cons(t2, i, pc);
                lemma_update_twice(cs, i, c);
                let t3 = t2.replace_at(seq![i] + pc, n);
                assert(t3 == SpanModel { content: ContentModel::Spans(cs.update(i, c2)), ..t });
                lemma_wf_update(t, i, c2);
                lemma_split_child(t3, s, e, i);
                assert(cs.update(i, c2).update(i, c2) =~= cs.update(i, c2));
            },
        }
    }
}

/// The node that wrap `w` makes around `children`.
pub open spec fn wrap_node(w: WrapModel, children: Seq<ContentNode>) -> ContentNode {
    match w {
        WrapModel::Strong => ContentNode::Tag {
            name: seq!['s', 't', 'r', 'o', 'n', 'g'],
            attributes: Seq::empty(),
            children: Some(children),
        },
        WrapModel::Emphasized => ContentNode::Tag {
            name: seq!['e', 'm'],
            attributes: Seq::empty(),
            children: Some(children),
        },
        WrapModel::Link(h) => ContentNode::Tag {
            name: seq!['a'],
            attributes: seq![(href_key(), h)],
            children: Some(children),
        },
    }
}

/// `inner` wrapped by each of `ws` in turn: the first wrap ends up innermost, the
/// last one outermost.
pub open spec fn wrap_all(inner: Seq<ContentNode>, ws: Seq<WrapModel>) -> Seq<ContentNode>
    decreases ws.len(),
{
    if ws.len() == 0 {
        inner
    } else {
        seq![wrap_node(ws.last(), wrap_all(inner, ws.drop_last()))]
    }
}

/// The output nodes of a span: a leaf gives one (escaped) text node, a branch the
/// nodes of its children in order; then the span's wraps apply.
pub open spec fn flatten(t: SpanModel) -> Seq<ContentNode>
    decreases t,
{
    let inner = match t.content {
        ContentModel::Text(s) => seq![ContentNode::Text(escape_html(s))],
        ContentModel::Spans(cs) => flatten_all(cs),
    };
    wrap_all(inner, t.wraps)
}

/// The output nodes of a sequence of spans, one after the other.
pub open spec fn flatten_all(cs: Seq<SpanModel>) -> Seq<ContentNode>
    decreases cs,
{
    if cs.len() == 0 {
        Seq::empty()
    } else {
        flatten_all(cs.drop_last()) + flatten(cs.last())
    }
}

proof fn lemma_contents_view_concat(a: Seq<Content>, b: Seq<Content>)
    ensures
        contents_view(a + b) == contents_view(a) + contents_view(b),
{
    lemma_contents_view(a);
    lemma_contents_view(b);
    lemma_contents_view(a + b);
    assert(contents_view(a + b) =~= contents_view(a) + contents_view(b));
}

proof fn lemma_contents_view_single(c: Content)
    ensures
        contents_view(seq![c]) == seq![c@],
{
    lemma_contents_view(seq![c]);
    assert(contents_view(seq![c]) =~= seq![c@]);
}

impl SpanWrap {
    /// The tag this wrap makes around `children`: `strong`, `em`, or `a` with its `href`.
    pub fn create_tag(&self, children: Vec<Content>) -> (r: Content)
        ensures
            r@ == wrap_node(self@, contents_view(children@)),
    {
        let mut name = String::new();
        let mut attributes: Vec<(String, String)> = Vec::new();
        match self {
            SpanWrap::Strong => {
                push_chars(&mut name, &['s', 't', 'r', 'o', 'n', 'g']);
            },
            SpanWrap::Emphasized => {
                push_chars(&mut name, &['e', 'm']);
            },
            SpanWrap::Link { href } => {
                push_chars(&mut name, &['a']);
                let mut key = String::new();
                push_chars(&mut key, &['h', 'r', 'e', 'f']);
                attributes.push((key, href.clone()));
            },
        }
        let r = Content::Tag { name, attributes, children: Some(children) };
        proof {
            assert(name@ =~= wrap_node(self@, contents_view(children@))->name);
            assert(crate::content::attrs_view(attributes@) =~= wrap_node(
                self@,
                contents_view(children@),
            )->attributes);
        }
        r
    }
}

impl<'a> TextSpan<'a> {
    /// The output nodes of this span, in text order, with its wraps applied in the
    /// order they were added.
    pub fn to_content(&self) -> (r: Vec<Content>)
        ensures
            contents_view(r@) == flatten(self@),
        decreases self@,
    {
        let mut inner: Vec<Content> = match &self.content {
            SpanContent::Text(t) => {
                let c = Content::text(t);
                let v = vec![c];
                proof {
                    lemma_contents_view_single(c);
                    assert(v@ =~= seq![c]);
                }
                v
            },
            SpanContent::Spans(spans) => {
                let ghost cs = spans_view(spans@);
                proof {
                    lemma_spans_view(spans@);
                    assert(cs.take(0) =~= Seq::<SpanModel>::empty());
                }
                let mut out: Vec<Content> = Vec::new();
                let mut i: usize = 0;
                while i < spans.len()
                    invariant
                        i <= spans@.len(),
                        self@.content == ContentModel::Spans(cs),
                        cs == spans_view(spans@),
                        cs.len() == spans@.len(),
                        forall|k: int| 0 <= k < spans@.len() ==> #[trigger] cs[k] == spans@[k]@,
                        contents_view(out@) == flatten_all(cs.take(i as int)),
                    decreases spans.len() - i,
                {
                    proof {
                        assert(decreases_to!(self@ => self@.content));
                        assert(decreases_to!(self@.content => self@.content->Spans_0));
                        assert(decreases_to!(cs => cs[i as int]));
                    }
                    let mut sub = spans[i].to_content();
                    let ghost before = out@;
                    let ghost added = sub@;
                    out.append(&mut sub);
                    i += 1;
                    proof {
                        lemma_contents_view_concat(before, added);
                        assert(cs.take(i as int).drop_last() =~= cs.take(i - 1));
                    }
                }
                proof {
                    assert(cs.take(i as int) =~= cs);
                }
                out
            },
        };
        let ghost base = match self@.content {
            ContentModel::Text(s) => seq![ContentNode::Text(escape_html(s))],
            ContentModel::Spans(cs) => flatten_all(cs),
        };
        let ghost ws = self@.wraps;
        proof {
            assert(ws.take(0) =~= Seq::<WrapModel>::empty());
            assert(contents_view(inner@) == base);
        }
        let mut i: usize = 0;
        while i < self.wraps.len()
            invariant
                i <= self.wraps@.len(),
                ws == wraps_view(self.wraps@),
                contents_view(inner@) == wrap_all(base, ws.take(i as int)),
            decreases self.wraps.len() - i,
        {
            let ghost before = inner@;
            let c = self.wraps[i].create_tag(inner);
            inner = vec![c];
            i += 1;
            proof {
                lemma_contents_view_single(c);
                assert(inner@ =~= seq![c]);
                let t = ws.take(i as int);
                assert(t.drop_last() =~= ws.take(i - 1));
                assert(t.last() == self.wraps@[i - 1]@);
                assert(wrap_all(base, t) == seq![wrap_node(t.last(), wrap_all(base, t.drop_last()))]);
            }
        }
        proof {
            assert(self@.wraps.take(i as int) =~= self@.wraps);
        }
        inner
    }

    /// The root span of a paragraph: one leaf covering all of `content`.
    pub fn create(content: &'a str) -> (r: TextSpan<'a>)
        requires
            content@.len() > 0,
        ensures
            r@ == leaf_model(0, utf16_len_of(content@) - 1, content@),
            r@.wf(),
    {
        let n = utf16_len(content);
        proof {
            lemma_utf16_len_ge(content@);
        }
        let r = TextSpan {
            start: 0,
            end: n - 1,
            content: SpanContent::Text(content),
            wraps: Vec::new(),
        };
        proof {
            assert(wraps_view(r.wraps@) =~= Seq::<WrapModel>::empty());
        }
        r
    }

    /// A leaf holding `content` and starting at UTF-16 offset `start`.
    fn from_split(content: &'a str, start: usize) -> (r: TextSpan<'a>)
        requires
            utf16_len_of(content@) >= 1,
            start + utf16_len_of(content@) - 1 <= usize::MAX,
        ensures
            r@ == leaf_model(start as int, start + utf16_len_of(content@) - 1, content@),
    {
        let n = utf16_len(content);
        let r = TextSpan {
            start,
            end: start + (n - 1),
            content: SpanContent::Text(content),
            wraps: Vec::new(),
        };
        proof {
            assert(wraps_view(r.wraps@) =~= Seq::<WrapModel>::empty());
        }
        r
    }

    /// Appends `wrap` as the outermost wrap of this span.
    pub fn add_wrap(&mut self, wrap: SpanWrap)
        ensures
            final(self)@ == (SpanModel { wraps: old(self)@.wraps.push(wrap@), ..old(self)@ }),
    {
        let ghost w = wrap@;
        self.wraps.push(wrap);
        proof {
            assert(wraps_view(self.wraps@) =~= old(self)@.wraps.push(w));
        }
    }

    /// Returns the span of range exactly `[start, end]`, with `end` clamped to this
    /// span's end, splitting a leaf into up to three pieces when no such span exists
    /// yet. Fails with `NoSuchSpan` when the range leaves this span, straddles a
    /// boundary between existing spans, or cuts a leaf inside a surrogate pair.
    pub fn get_sub_span_mut(&mut self, start: usize, end: usize) -> (r: Result<
        &mut TextSpan<'a>,
        RenderingError,
    >)
        requires
            old(self)@.wf(),
        ensures
            ({
                let e = if end < old(self).end {
                    end
                } else {
                    old(self).end
                };
                let sp = old(self)@.split(start as int, e as int);
                match r {
                    Ok(node) => match sp {
                        Some((t, p)) => {
                            &&& node@ == t.node_at(p)
                            &&& final(self)@ == t.replace_at(p, final(node)@)
                        },
                        None => false,
                    },
                    Err(err) => {
                        &&& sp is None
                        &&& final(self)@ == old(self)@
                        &&& err == RenderingError::NoSuchSpan(start, e)
                    },
                }
            }),
        decreases old(self)@,
    {
        let end = if end < self.end {
            end
        } else {
            self.end
        };
        if start == self.start && end == self.end {
            return Ok(self);
        }
        if start < self.start || end < start {
            return Err(RenderingError::NoSuchSpan(start, end));
        }
        let leaf: Option<&'a str> = match &self.content {
            SpanContent::Text(t) => Some(*t),
            SpanContent::Spans(_) => None,
        };
        match leaf {
            Some(text) => {
                proof {
                    lemma_boundary_end(text@);
                }
                if !utf16_boundary(text, start - self.start) || (end < self.end
                    && !utf16_boundary(text, end + 1 - self.start)) {
                    return Err(RenderingError::NoSuchSpan(start, end));
                }
                let ghost old_model = self@;
                let (pieces, idx) = Self::split_str(text, self.start, start, end);
                self.content = SpanContent::Spans(pieces);
                match &mut self.content {
                    SpanContent::Spans(spans) => {
                        proof {
                            lemma_spans_view(spans@);
                        }
                        let ghost subs = spans@;
                        let node = &mut spans[idx];
                        proof {
                            lemma_spans_view_update(subs, idx as int, *final(node));
                            let pieces_m = leaf_pieces(
                                text@,
                                old_model.start,
                                old_model.end,
                                start as int,
                                end as int,
                            );
                            let t = SpanModel {
                                content: ContentModel::Spans(pieces_m),
                                ..old_model
                            };
                            assert(seq![idx as int] + Seq::<int>::empty() =~= seq![idx as int]);
                            lemma_path_cons(t, idx as int, Seq::<int>::empty());
                        }
                        Ok(node)
                    },
                    SpanContent::Text(_) => {
                        proof {
                            assert(false);
                        }
                        Err(RenderingError::NoSuchSpan(start, end))
                    },
                }
            },
            None => {
                let ghost old_model = self@;
                let found = self.covering_child(start, end);
                match found {
                    None => {
                        return Err(RenderingError::NoSuchSpan(start, end));
                    },
                    Some(i) => {
                        match &mut self.content {
                            SpanContent::Spans(subspans) => {
                                let ghost subs = subspans@;
                                let ghost cs = spans_view(subs);
                                proof {
                                    lemma_spans_view(subs);
                                    assert(cs[i as int].wf());
                                    assert(decreases_to!(old_model => cs[i as int]));
                                    lemma_split_child(old_model, start as int, end as int, i as int);
                                    assert(cs.update(i as int, cs[i as int]) =~= cs);
                                }
                                let child = &mut subspans[i];
                                proof {
                                    lemma_spans_view_update(subs, i as int, *final(child));
                                }
                                let r = child.get_sub_span_mut(start, end);
                                proof {
                                    match cs[i as int].split(start as int, end as int) {
                                        Some((tc, pc)) => {
                                            let t = SpanModel {
                                                content: ContentModel::Spans(cs.update(i as int, tc)),
                                                ..old_model
                                            };
                                            lemma_path_cons(t, i as int, pc);
                                            lemma_update_twice(cs, i as int, tc);
                                        },
                                        None => {},
                                    }
                                }
                                r
                            },
                            SpanContent::Text(_) => {
                                proof {
                                    assert(false);
                                }
                                Err(RenderingError::NoSuchSpan(start, end))
                            },
                        }
                    },
                }
            },
        }
    }

    /// The index of the child that covers `[start, end]`, if any.
    fn covering_child(&self, start: usize, end: usize) -> (r: Option<usize>)
        requires
            self@.content is Spans,
        ensures
            match r {
                Some(i) => {
                    &&& i < self@.content->Spans_0.len()
                    &&& self@.content->Spans_0[i as int].covers(start as int, end as int)
                },
                None => forall|j: int|
                    0 <= j < self@.content->Spans_0.len() ==> !(#[trigger] self@.content->Spans_0[j]).covers(
                        start as int,
                        end as int,
                    ),
            },
    {
        match &self.content {
            SpanContent::Spans(subspans) => {
                proof {
                    lemma_spans_view(subspans@);
                }
                let mut i: usize = 0;
                while i < subspans.len()
                    invariant
                        self@.content == ContentModel::Spans(spans_view(subspans@)),
                        spans_view(subspans@).len() == subspans@.len(),
                        forall|j: int|
                            0 <= j < subspans@.len() ==> #[trigger] spans_view(subspans@)[j]
                                == subspans@[j]@,
                        forall|j: int|
                            0 <= j < i ==> !(#[trigger] subspans@[j]@).covers(
                                start as int,
                                end as int,
                            ),
                    decreases subspans.len() - i,
                {
                    if subspans[i].start <= start && end <= subspans[i].end {
                        return Some(i);
                    }
                    i += 1;
                }
                None
            },
            SpanContent::Text(_) => None,
        }
    }

    /// Splits the leaf text `content`, which starts at UTF-16 offset `offset`, into the
    /// pieces before, inside and after `[start, end]`; returns them with the index of
    /// the inside piece.
    fn split_str(content: &'a str, offset: usize, start: usize, end: usize) -> (r: (
        Vec<TextSpan<'a>>,
        usize,
    ))
        requires
            offset <= start <= end,
            end < offset + utf16_len_of(content@),
            offset + utf16_len_of(content@) - 1 <= usize::MAX,
            is_utf16_boundary(content@, start - offset),
            is_utf16_boundary(content@, end + 1 - offset),
        ensures
            spans_view(r.0@) == leaf_pieces(
                content@,
                offset as int,
                offset + utf16_len_of(content@) - 1,
                start as int,
                end as int,
            ),
            r.1 == (if start == offset {
                0usize
            } else {
                1usize
            }),
    {
        let ghost t = content@;
        let ghost x = start - offset;
        let ghost y = end + 1 - offset;
        let ghost a = chars_before(t, x) as int;
        let ghost b = chars_before(t, y) as int;
        proof {
            lemma_boundary_prefix(t, x);
            lemma_boundary_prefix(t, y);
            lemma_chars_before_mono(t, x, y);
            lemma_chars_before_prefix(t, x, b);
            assert(t.take(b).take(a) =~= t.take(a));
            assert(t.take(a) + t.subrange(a, b) =~= t.take(b));
            assert(t.take(b) + t.skip(b) =~= t);
            lemma_utf16_concat(t.take(a), t.subrange(a, b));
            lemma_utf16_concat(t.take(b), t.skip(b));
        }
        let n = utf16_len(content);
        let (left, suffix) = if offset + (n - 1) == end {
            proof {
                assert(t.take(b) =~= t);
            }
            (content, None)
        } else {
            let (l, s) = split_at_utf16_offset(content, end + 1 - offset);
            (l, Some(TextSpan::from_split(s, end + 1)))
        };
        let (prefix, center) = if start == offset {
            proof {
                assert(t.take(b).skip(0) =~= t.subrange(a, b));
            }
            (None, left)
        } else {
            let (p, c) = split_at_utf16_offset(left, start - offset);
            proof {
                assert(t.take(b).skip(a) =~= t.subrange(a, b));
            }
            (Some(TextSpan::from_split(p, offset)), c)
        };
        let center = TextSpan::from_split(center, start);
        let r = match (prefix, suffix) {
            (None, None) => (vec![center], 0),
            (None, Some(s)) => (vec![center, s], 0),
            (Some(p), None) => (vec![p, center], 1),
            (Some(p), Some(s)) => (vec![p, center, s], 1),
        };
        proof {
            lemma_spans_view(r.0@);
            assert(spans_view(r.0@) =~= leaf_pieces(
                t,
                offset as int,
                offset + utf16_len_of(t) - 1,
                start as int,
                end as int,
            ));
        }
        r
    }
}

} // verus!
