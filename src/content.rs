use vstd::prelude::*;
use vstd::string::StringExecFns;

use crate::client::{Markup, Paragraph};
use crate::text_markup::{
    flatten, leaf_model, lemma_node_at_wf, lemma_replace_at, lemma_split, RenderingError, SpanModel, SpanWrap,
    TextSpan, WrapModel,
};
use crate::utf16::utf16_len_of;

verus! {

broadcast use vstd::string::group_string_axioms;

/// A node of the output tree: text, or a tag with attributes and optional children.
/// Attribute names are unique and keep the order in which they were set.
#[derive(Debug)]
pub enum Content {
    Text(String),
    Tag { name: String, attributes: Vec<(String, String)>, children: Option<Vec<Content>> },
}

/// Mathematical model of an output node.
pub ghost enum ContentNode {
    Text(Seq<char>),
    Tag {
        name: Seq<char>,
        attributes: Seq<(Seq<char>, Seq<char>)>,
        children: Option<Seq<ContentNode>>,
    },
}

/// The models of a list of attributes.
pub open spec fn attrs_view(a: Seq<(String, String)>) -> Seq<(Seq<char>, Seq<char>)> {
    a.map_values(|p: (String, String)| (p.0@, p.1@))
}

impl View for Content {
    type V = ContentNode;

    open spec fn view(&self) -> ContentNode
        decreases self,
    {
        match self {
            Content::Text(t) => ContentNode::Text(t@),
            Content::Tag { name, attributes, children } => ContentNode::Tag {
                name: name@,
                attributes: attrs_view(attributes@),
                children: match children {
                    Some(cs) => Some(contents_view(cs@)),
                    None => None,
                },
            },
        }
    }
}

/// The models of a sequence of nodes.
pub open spec fn contents_view(cs: Seq<Content>) -> Seq<ContentNode>
    decreases cs,
{
    if cs.len() == 0 {
        Seq::empty()
    } else {
        contents_view(cs.drop_last()).push(cs.last()@)
    }
}

pub proof fn lemma_contents_view(cs: Seq<Content>)
    ensures
        contents_view(cs).len() == cs.len(),
        forall|i: int| 0 <= i < cs.len() ==> #[trigger] contents_view(cs)[i] == cs[i]@,
    decreases cs.len(),
{
    if cs.len() > 0 {
        assert(contents_view(cs) == contents_view(cs.drop_last()).push(cs.last()@));
        lemma_contents_view(cs.drop_last());
    }
}

/// The markup escape of one character: `&`, `<` and `>` become entities.
pub open spec fn escape_char(c: char) -> Seq<char> {
    if c == '&' {
        seq!['&', 'a', 'm', 'p', ';']
    } else if c == '<' {
        seq!['&', 'l', 't', ';']
    } else if c == '>' {
        seq!['&', 'g', 't', ';']
    } else {
        seq![c]
    }
}

/// The markup escape of a text, character by character.
pub open spec fn escape_html(s: Seq<char>) -> Seq<char>
    decreases s.len(),
{
    if s.len() == 0 {
        Seq::empty()
    } else {
        escape_html(s.drop_last()) + escape_char(s.last())
    }
}

/// Escaping distributes over concatenation.
pub proof fn lemma_escape_concat(a: Seq<char>, b: Seq<char>)
    ensures
        escape_html(a + b) == escape_html(a) + escape_html(b),
    decreases b.len(),
{
    if b.len() == 0 {
        assert(a + b =~= a);
        assert(escape_html(a) + escape_html(b) =~= escape_html(a));
    } else {
        assert((a + b).drop_last() =~= a + b.drop_last());
        lemma_escape_concat(a, b.drop_last());
        assert(escape_html(a + b) =~= escape_html(a) + escape_html(b));
    }
}

/// Relies on `String::push`: appends one character at the end of the string.
#[verifier::external_body]
pub(crate) fn push_char(s: &mut String, c: char)
    ensures
        final(s)@ == old(s)@.push(c),
{
    s.push(c);
}

/// Appends `cs` to `s` character by character.
pub(crate) fn push_chars(s: &mut String, cs: &[char])
    ensures
        final(s)@ == old(s)@ + cs@,
{
    let mut i: usize = 0;
    while i < cs.len()
        invariant
            i <= cs@.len(),
            s@ == old(s)@ + cs@.take(i as int),
        decreases cs.len() - i,
    {
        push_char(s, cs[i]);
        i += 1;
        proof {
            assert(cs@.take(i as int) =~= cs@.take(i - 1).push(cs@[i - 1]));
        }
    }
    proof {
        assert(cs@.take(i as int) =~= cs@);
    }
}

/// Appends the markup escape of `text` to `out`.
fn push_escaped(out: &mut String, text: &str)
    ensures
        final(out)@ == old(out)@ + escape_html(text@),
{
    let ghost s = text@;
    let ghost mut i: int = 0;
    for c in it: text.chars()
        invariant
            it.seq() == s,
            i == it.index(),
            0 <= i <= s.len(),
            out@ == old(out)@ + escape_html(s.take(i)),
    {
        proof {
            assert(s.take(i + 1).drop_last() =~= s.take(i));
            assert(s.take(i + 1).last() == c);
        }
        if c == '&' {
            push_chars(out, &['&', 'a', 'm', 'p', ';']);
        } else if c == '<' {
            push_chars(out, &['&', 'l', 't', ';']);
        } else if c == '>' {
            push_chars(out, &['&', 'g', 't', ';']);
        } else {
            push_char(out, c);
        }
        proof {
            i = i + 1;
            assert(out@ =~= old(out)@ + escape_html(s.take(i)));
        }
    }
    proof {
        assert(s.take(i) =~= s);
    }
}

/// The attributes given as an option: none stands for an empty list.
pub open spec fn opt_attrs(attr: Option<Vec<(String, String)>>) -> Seq<(Seq<char>, Seq<char>)> {
    match attr {
        Some(a) => attrs_view(a@),
        None => Seq::empty(),
    }
}

/// The attribute list `a` with `k` set to `v`: an existing entry keeps its place,
/// a new one goes last.
pub open spec fn set_attr(a: Seq<(Seq<char>, Seq<char>)>, k: Seq<char>, v: Seq<char>) -> Seq<
    (Seq<char>, Seq<char>),
> {
    if exists|i: int| 0 <= i < a.len() && (#[trigger] a[i]).0 == k {
        a.map_values(
            |p: (Seq<char>, Seq<char>)|
                if p.0 == k {
                    (k, v)
                } else {
                    p
                },
        )
    } else {
        a.push((k, v))
    }
}

/// The serialized form of a list of attributes: `name="value" ` for each.
pub open spec fn attrs_html(a: Seq<(Seq<char>, Seq<char>)>) -> Seq<char>
    decreases a.len(),
{
    if a.len() == 0 {
        Seq::empty()
    } else {
        attrs_html(a.drop_last()) + a.last().0 + seq!['=', '"'] + a.last().1 + seq!['"', ' ']
    }
}

/// The serialized form of a node: text as it is; a tag as `<name attrs>children</name>`,
/// or `<name attrs/>` when it has no children.
pub open spec fn html_of(n: ContentNode) -> Seq<char>
    decreases n,
{
    match n {
        ContentNode::Text(t) => t,
        ContentNode::Tag { name, attributes, children } => match children {
            Some(cs) => seq!['<'] + name + seq![' '] + attrs_html(attributes) + seq!['>']
                + html_all(cs) + seq!['<', '/'] + name + seq!['>'],
            None => seq!['<'] + name + seq![' '] + attrs_html(attributes) + seq!['/', '>'],
        },
    }
}

/// The serialized form of a sequence of nodes, one after the other.
pub open spec fn html_all(cs: Seq<ContentNode>) -> Seq<char>
    decreases cs,
{
    if cs.len() == 0 {
        Seq::empty()
    } else {
        html_all(cs.drop_last()) + html_of(cs.last())
    }
}

/// The characters of `href`.
pub open spec fn href_key() -> Seq<char> {
    seq!['h', 'r', 'e', 'f']
}

impl Content {
    /// A text node holding `txt` with `&`, `<` and `>` escaped.
    pub fn text(txt: &str) -> (r: Content)
        ensures
            r@ == ContentNode::Text(escape_html(txt@)),
    {
        let mut s = String::new();
        push_escaped(&mut s, txt);
        Content::Text(s)
    }

    /// A link to `href` around `children`; `href` is set among the given attributes.
    pub fn hyperlink(
        href: &str,
        children: Vec<Content>,
        attr: Option<Vec<(String, String)>>,
    ) -> (r: Content)
        ensures
            r@ == (ContentNode::Tag {
                name: seq!['a'],
                attributes: set_attr(opt_attrs(attr), href_key(), href@),
                children: Some(contents_view(children@)),
            }),
    {
        let ghost base = opt_attrs(attr);
        let mut attributes = match attr {
            Some(a) => a,
            None => Vec::new(),
        };
        proof {
            assert(attrs_view(attributes@) =~= base);
        }
        let mut key = String::new();
        push_chars(&mut key, &['h', 'r', 'e', 'f']);
        set_attribute(&mut attributes, key, String::from_str(href));
        let mut name = String::new();
        push_char(&mut name, 'a');
        Content::Tag { name, attributes, children: Some(children) }
    }

    /// A tag named `name` with the given attributes and children.
    pub fn tag(
        name: &str,
        attr: Option<Vec<(String, String)>>,
        children: Option<Vec<Content>>,
    ) -> (r: Content)
        ensures
            r@ == (ContentNode::Tag {
                name: name@,
                attributes: opt_attrs(attr),
                children: match children {
                    Some(cs) => Some(contents_view(cs@)),
                    None => None,
                },
            }),
    {
        let ghost base = opt_attrs(attr);
        let attributes = match attr {
            Some(a) => a,
            None => Vec::new(),
        };
        proof {
            assert(attrs_view(attributes@) =~= base);
        }
        Content::Tag { name: String::from_str(name), attributes, children }
    }

    /// The serialized markup of this node.
    pub fn to_string(&self) -> (r: String)
        ensures
            r@ == html_of(self@),
        decreases self@,
    {
        match self {
            Content::Text(t) => t.clone(),
            Content::Tag { name, attributes, children } => {
                let mut out = String::new();
                push_char(&mut out, '<');
                out.append(name.as_str());
                push_char(&mut out, ' ');
                let mut i: usize = 0;
                while i < attributes.len()
                    invariant
                        i <= attributes@.len(),
                        out@ == seq!['<'] + name@ + seq![' '] + attrs_html(
                            attrs_view(attributes@).take(i as int),
                        ),
                    decreases attributes.len() - i,
                {
                    let ghost before = out@;
                    out.append(attributes[i].0.as_str());
                    push_chars(&mut out, &['=', '"']);
                    out.append(attributes[i].1.as_str());
                    push_chars(&mut out, &['"', ' ']);
                    i += 1;
                    proof {
                        let a = attrs_view(attributes@);
                        assert(a.take(i as int).drop_last() =~= a.take(i - 1));
                        assert(out@ =~= seq!['<'] + name@ + seq![' '] + attrs_html(
                            a.take(i as int),
                        ));
                    }
                }
                proof {
                    assert(attrs_view(attributes@).take(i as int) =~= attrs_view(attributes@));
                }
                match children {
                    Some(cs) => {
                        push_char(&mut out, '>');
                        let ghost head = out@;
                        proof {
                            lemma_contents_view(cs@);
                            assert(contents_view(cs@).take(0) =~= Seq::<ContentNode>::empty());
                        }
                        let mut j: usize = 0;
                        while j < cs.len()
                            invariant
                                j <= cs@.len(),
                                self@ is Tag,
                                self@->children == Some(contents_view(cs@)),
                                contents_view(cs@).len() == cs@.len(),
                                forall|k: int|
                                    0 <= k < cs@.len() ==> #[trigger] contents_view(cs@)[k]
                                        == cs@[k]@,
                                out@ == head + html_all(contents_view(cs@).take(j as int)),
                            decreases cs.len() - j,
                        {
                            proof {
                                let v = contents_view(cs@);
                                assert(v[j as int] == cs@[j as int]@);
                                assert(self@->children == Some(v));
                                assert(decreases_to!(self@ => self@->children));
                                assert(decreases_to!(self@->children => self@->children->0));
                                assert(decreases_to!(v => v[j as int]));
                                assert(decreases_to!(self@ => cs@[j as int]@));
                            }
                            let h = cs[j].to_string();
                            out.append(h.as_str());
                            j += 1;
                            proof {
                                let v = contents_view(cs@);
                                assert(v.take(j as int).drop_last() =~= v.take(j - 1));
                                assert(out@ =~= head + html_all(v.take(j as int)));
                            }
                        }
                        proof {
                            assert(contents_view(cs@).take(j as int) =~= contents_view(cs@));
                        }
                        push_chars(&mut out, &['<', '/']);
                        out.append(name.as_str());
                        push_char(&mut out, '>');
                        proof {
                            assert(out@ =~= html_of(self@));
                        }
                    },
                    None => {
                        push_chars(&mut out, &['/', '>']);
                        proof {
                            assert(out@ =~= html_of(self@));
                        }
                    },
                }
                out
            },
        }
    }
}

/// The length of a markup range, `end - start`; zero for a reversed range.
pub open spec fn markup_len(m: Markup) -> int {
    if m.start <= m.end {
        m.end - m.start
    } else {
        0
    }
}

/// Inserts markup index `k` into `order`, a list sorted by decreasing length, after
/// every entry at least as long.
pub open spec fn insert_by_len(order: Seq<int>, ms: Seq<Markup>, k: int) -> Seq<int>
    decreases order.len(),
{
    if order.len() == 0 {
        seq![k]
    } else if markup_len(ms[order.last()]) >= markup_len(ms[k]) {
        order.push(k)
    } else {
        insert_by_len(order.drop_last(), ms, k).push(order.last())
    }
}

/// The order in which the first `n` markups are applied: by decreasing length, equal
/// lengths in input order.
pub open spec fn sort_order(ms: Seq<Markup>, n: int) -> Seq<int>
    decreases n,
{
    if n <= 0 {
        Seq::empty()
    } else {
        insert_by_len(sort_order(ms, n - 1), ms, n - 1)
    }
}

/// The characters of a markup kind.
pub open spec fn strong_kind() -> Seq<char> {
    seq!['S', 'T', 'R', 'O', 'N', 'G']
}

pub open spec fn em_kind() -> Seq<char> {
    seq!['E', 'M']
}

pub open spec fn link_kind() -> Seq<char> {
    seq!['A']
}

/// The wrap a markup stands for: `STRONG`, `EM`, or `A` with its target (empty when
/// absent); `None` for any other kind.
pub open spec fn wrap_for(m: Markup) -> Option<WrapModel> {
    if m.kind@ == strong_kind() {
        Some(WrapModel::Strong)
    } else if m.kind@ == em_kind() {
        Some(WrapModel::Emphasized)
    } else if m.kind@ == link_kind() {
        Some(
            WrapModel::Link(
                match m.href {
                    Some(h) => h@,
                    None => Seq::empty(),
                },
            ),
        )
    } else {
        None
    }
}

/// Applies one markup to a tree: locate or create the span of its range (end clamped
/// to the tree's end), then add the markup's wrap to it.
pub open spec fn apply_markup(t: SpanModel, m: Markup) -> Result<SpanModel, RenderingError> {
    let e = if m.end < t.end {
        m.end as int
    } else {
        t.end
    };
    match t.split(m.start as int, e) {
        None => Err(RenderingError::NoSuchSpan(m.start, e as usize)),
        Some((t2, p)) => match wrap_for(m) {
            None => Err(RenderingError::UnknownMarkupKind(m.kind)),
            Some(w) => Ok(
                t2.replace_at(p, SpanModel { wraps: t2.node_at(p).wraps.push(w), ..t2.node_at(p) }),
            ),
        },
    }
}

/// Applies the markups `ms[order[0]], ms[order[1]], ...` in turn, stopping at the
/// first failure.
pub open spec fn apply_markups(t: SpanModel, ms: Seq<Markup>, order: Seq<int>) -> Result<
    SpanModel,
    RenderingError,
>
    decreases order.len(),
{
    if order.len() == 0 {
        Ok(t)
    } else {
        match apply_markups(t, ms, order.drop_last()) {
            Ok(t1) => apply_markup(t1, ms[order.last()]),
            Err(e) => Err(e),
        }
    }
}

/// What rendering `text` with markups `ms` gives: without markups one escaped text
/// node; otherwise the markups applied, longest first, to a single span over the
/// whole text, and the result flattened. Markups on an empty text fail.
pub open spec fn render_text_spec(text: Seq<char>, ms: Seq<Markup>) -> Result<
    Seq<ContentNode>,
    RenderingError,
> {
    if ms.len() == 0 {
        Ok(seq![ContentNode::Text(escape_html(text))])
    } else if text.len() == 0 {
        Err(RenderingError::NoSuchSpan(ms[0].start, ms[0].end))
    } else {
        match apply_markups(
            leaf_model(0, utf16_len_of(text) - 1, text),
            ms,
            sort_order(ms, ms.len() as int),
        ) {
            Ok(t) => Ok(flatten(t)),
            Err(e) => Err(e),
        }
    }
}

proof fn lemma_insert_by_len(order: Seq<int>, ms: Seq<Markup>, k: int, j: int)
    requires
        0 <= j <= order.len(),
        0 <= k < ms.len(),
        forall|x: int| 0 <= x < order.len() ==> 0 <= #[trigger] order[x] < ms.len(),
        forall|x: int| j <= x < order.len() ==> markup_len(ms[#[trigger] order[x]]) < markup_len(ms[k]),
        j == 0 || markup_len(ms[order[j - 1]]) >= markup_len(ms[k]),
    ensures
        insert_by_len(order, ms, k) == order.insert(j, k),
    decreases order.len(),
{
    if order.len() == 0 {
        assert(seq![k] =~= order.insert(j, k));
    } else if markup_len(ms[order.last()]) >= markup_len(ms[k]) {
        assert(order.push(k) =~= order.insert(j, k));
    } else {
        let d = order.drop_last();
        lemma_insert_by_len(d, ms, k, j);
        assert(d.insert(j, k).push(order.last()) =~= order.insert(j, k));
    }
}

fn markup_length(m: &Markup) -> (r: usize)
    ensures
        r == markup_len(*m),
{
    if m.start <= m.end {
        m.end - m.start
    } else {
        0
    }
}

/// Indices of `markups`, longest range first, equal lengths in input order.
fn sort_by_length(markups: &[Markup]) -> (r: Vec<usize>)
    ensures
        r@.map_values(|x: usize| x as int) == sort_order(markups@, markups@.len() as int),
        forall|x: int| 0 <= x < r@.len() ==> #[trigger] r@[x] < markups@.len(),
{
    let ghost ms = markups@;
    let mut order: Vec<usize> = Vec::new();
    let mut k: usize = 0;
    proof {
        assert(order@.map_values(|x: usize| x as int) =~= sort_order(ms, 0));
    }
    while k < markups.len()
        invariant
            k <= ms.len(),
            ms == markups@,
            order@.map_values(|x: usize| x as int) == sort_order(ms, k as int),
            forall|x: int| 0 <= x < order@.len() ==> #[trigger] order@[x] < k,
        decreases markups.len() - k,
    {
        let len_k = markup_length(&markups[k]);
        let mut j: usize = order.len();
        while j > 0 && markup_length(&markups[order[j - 1]]) < len_k
            invariant
                j <= order@.len(),
                k < ms.len(),
                ms == markups@,
                len_k == markup_len(ms[k as int]),
                forall|x: int| 0 <= x < order@.len() ==> #[trigger] order@[x] < k,
                forall|x: int|
                    j <= x < order@.len() ==> markup_len(ms[#[trigger] order@[x] as int]) < len_k,
            decreases j,
        {
            j -= 1;
        }
        let ghost before = order@;
        order.insert(j, k);
        proof {
            let o = before.map_values(|x: usize| x as int);
            lemma_insert_by_len(o, ms, k as int, j as int);
            assert(order@.map_values(|x: usize| x as int) =~= o.insert(j as int, k as int));
            assert forall|x: int| 0 <= x < order@.len() implies #[trigger] order@[x] < k + 1 by {
                if x < j {
                    assert(order@[x] == before[x]);
                } else if x > j {
                    assert(order@[x] == before[x - 1]);
                }
            }
        }
        k += 1;
    }
    order
}

/// The wrap for a markup's kind, or `None` when the kind is unknown.
fn wrap_for_markup(m: &Markup) -> (r: Option<SpanWrap>)
    ensures
        match r {
            Some(w) => wrap_for(*m) == Some(w@),
            None => wrap_for(*m) is None,
        },
{
    let mut strong = String::new();
    push_chars(&mut strong, &['S', 'T', 'R', 'O', 'N', 'G']);
    let mut em = String::new();
    push_chars(&mut em, &['E', 'M']);
    let mut link = String::new();
    push_chars(&mut link, &['A']);
    proof {
        assert(strong@ =~= strong_kind());
        assert(em@ =~= em_kind());
        assert(link@ =~= link_kind());
    }
    if m.kind == strong {
        Some(SpanWrap::Strong)
    } else if m.kind == em {
        Some(SpanWrap::Emphasized)
    } else if m.kind == link {
        let href = match &m.href {
            Some(h) => h.clone(),
            None => String::new(),
        };
        Some(SpanWrap::Link { href })
    } else {
        None
    }
}

proof fn lemma_apply_err_prefix(
    t: SpanModel,
    ms: Seq<Markup>,
    order: Seq<int>,
    k: int,
    e: RenderingError,
)
    requires
        0 <= k <= order.len(),
        apply_markups(t, ms, order.take(k)) == Err::<SpanModel, RenderingError>(e),
    ensures
        apply_markups(t, ms, order) == Err::<SpanModel, RenderingError>(e),
    decreases order.len() - k,
{
    if k < order.len() {
        assert(order.take(k + 1).drop_last() =~= order.take(k));
        lemma_apply_err_prefix(t, ms, order, k + 1, e);
    } else {
        assert(order.take(k) =~= order);
    }
}

/// Renders a paragraph's text with its markups into output nodes: the markups apply
/// longest first, each wrapping the span of exactly its range. Fails with
/// `NoSuchSpan` when a range cannot be matched to such a span (it straddles an
/// earlier split, starts past the end, or cuts a surrogate pair), and with
/// `UnknownMarkupKind` for a kind other than `STRONG`, `EM` and `A`.
pub fn render_text(text: &str, markups: &[Markup]) -> (r: Result<Vec<Content>, RenderingError>)
    ensures
        match render_text_spec(text@, markups@) {
            Ok(nodes) => r is Ok && contents_view(r->Ok_0@) == nodes,
            Err(e) => r == Err::<Vec<Content>, RenderingError>(e),
        },
{
    if markups.len() == 0 {
        let c = Content::text(text);
        let v = vec![c];
        proof {
            lemma_contents_view(v@);
            assert(contents_view(v@) =~= seq![c@]);
        }
        return Ok(v);
    }
    if text.is_empty() {
        return Err(RenderingError::NoSuchSpan(markups[0].start, markups[0].end));
    }
    let ghost ms = markups@;
    let mut span = TextSpan::create(text);
    let ghost root = span@;
    let order = sort_by_length(markups);
    let ghost ord = order@.map_values(|x: usize| x as int);
    proof {
        assert(ord.take(0) =~= Seq::<int>::empty());
    }
    let mut k: usize = 0;
    while k < order.len()
        invariant
            k <= order@.len(),
            ms == markups@,
            ms.len() > 0,
            text@.len() > 0,
            root == leaf_model(0, utf16_len_of(text@) - 1, text@),
            ord == order@.map_values(|x: usize| x as int),
            ord == sort_order(ms, ms.len() as int),
            forall|x: int| 0 <= x < order@.len() ==> #[trigger] order@[x] < ms.len(),
            span@.wf(),
            apply_markups(root, ms, ord.take(k as int)) == Ok::<SpanModel, RenderingError>(span@),
        decreases order.len() - k,
    {
        let m = &markups[order[k]];
        let ghost before = span@;
        proof {
            assert(ord.take(k + 1).drop_last() =~= ord.take(k as int));
            assert(ord.take(k + 1).last() == order@[k as int] as int);
        }
        match span.get_sub_span_mut(m.start, m.end) {
            Err(e) => {
                proof {
                    assert(apply_markup(before, ms[ord.take(k + 1).last()]) == Err::<SpanModel, RenderingError>(e));
                    assert(apply_markups(root, ms, ord.take(k + 1)) == Err::<SpanModel, RenderingError>(e));
                    lemma_apply_err_prefix(root, ms, ord, k + 1, e);
                }
                return Err(e);
            },
            Ok(node) => {
                match wrap_for_markup(m) {
                    None => {
                        let kind = m.kind.clone();
                        proof {
                            lemma_apply_err_prefix(
                                root,
                                ms,
                                ord,
                                k + 1,
                                RenderingError::UnknownMarkupKind(kind),
                            );
                        }
                        return Err(RenderingError::UnknownMarkupKind(kind));
                    },
                    Some(w) => {
                        node.add_wrap(w);
                    },
                }
            },
        }
        proof {
            let e = if m.end < before.end {
                m.end as int
            } else {
                before.end
            };
            lemma_split(before, m.start as int, e);
            let (t2, p) = before.split(m.start as int, e)->Some_0;
            let n = t2.node_at(p);
            lemma_node_at_wf(t2, p, n.wraps.push(wrap_for(*m)->Some_0));
            lemma_replace_at(t2, p, SpanModel { wraps: n.wraps.push(wrap_for(*m)->Some_0), ..n });
        }
        k += 1;
    }
    proof {
        assert(ord.take(k as int) =~= ord);
    }
    let out = span.to_content();
    Ok(out)
}

/// Something that renders into one output node.
pub trait Render {
    fn render(&self) -> Result<Content, RenderingError>;
}

/// The text of a paragraph; none stands for the empty text.
pub open spec fn paragraph_text(p: Paragraph) -> Seq<char> {
    match p.text {
        Some(t) => t@,
        None => Seq::empty(),
    }
}

/// The tag of a text block kind (`P`, `H1` to `H6`, `PRE`): the kind in lower case.
pub open spec fn text_block_tag(k: Seq<char>) -> Option<Seq<char>> {
    if k == "P"@ {
        Some("p"@)
    } else if k == "H1"@ {
        Some("h1"@)
    } else if k == "H2"@ {
        Some("h2"@)
    } else if k == "H3"@ {
        Some("h3"@)
    } else if k == "H4"@ {
        Some("h4"@)
    } else if k == "H5"@ {
        Some("h5"@)
    } else if k == "H6"@ {
        Some("h6"@)
    } else if k == "PRE"@ {
        Some("pre"@)
    } else {
        None
    }
}

/// A tag around the rendered text of a paragraph, or the rendering error.
pub open spec fn text_tag(
    name: Seq<char>,
    attributes: Seq<(Seq<char>, Seq<char>)>,
    r: Result<Seq<ContentNode>, RenderingError>,
) -> Result<ContentNode, RenderingError> {
    match r {
        Ok(cs) => Ok(ContentNode::Tag { name, attributes, children: Some(cs) }),
        Err(e) => Err(e),
    }
}

/// The address of a post image of the given id.
pub open spec fn image_src(id: Seq<char>) -> Seq<char> {
    "https://miro.medium.com/v2/resize:fit:2000/"@ + id
}

/// What rendering a paragraph gives, by its kind: an image, a list item, a link for
/// an embed, a block quote, a text block, or a `div` that records the unknown kind.
pub open spec fn render_paragraph_spec(p: Paragraph) -> Result<ContentNode, RenderingError> {
    let k = p.kind@;
    let body = render_text_spec(paragraph_text(p), p.markups@);
    if k == "IMG"@ {
        match p.metadata {
            Some(md) => Ok(
                ContentNode::Tag {
                    name: "img"@,
                    attributes: seq![("src"@, image_src(md.id@)), ("loading"@, "lazy"@)],
                    children: None,
                },
            ),
            None => Err(RenderingError::MissingMetadata),
        }
    } else if k == "ULI"@ || k == "OLI"@ {
        text_tag("li"@, Seq::empty(), body)
    } else if k == "IFRAME"@ {
        match p.iframe {
            Some(f) => Ok(
                ContentNode::Tag {
                    name: "a"@,
                    attributes: seq![("href"@, f.media_resource.iframe_src@)],
                    children: Some(
                        seq![
                            ContentNode::Text(escape_html("IFRAME: "@)),
                            ContentNode::Text(escape_html(f.media_resource.title@)),
                        ],
                    ),
                },
            ),
            None => Err(RenderingError::MissingIframe),
        }
    } else if k == "BQ"@ {
        text_tag("blockquote"@, Seq::empty(), body)
    } else if text_block_tag(k) is Some {
        text_tag(text_block_tag(k)->Some_0, Seq::empty(), body)
    } else {
        text_tag("div"@, seq![("x-real-tag"@, k)], body)
    }
}

fn text_block_tag_of(kind: &String) -> (r: Option<&'static str>)
    ensures
        match r {
            Some(t) => text_block_tag(kind@) == Some(t@),
            None => text_block_tag(kind@) is None,
        },
{
    if *kind == String::from_str("P") {
        Some("p")
    } else if *kind == String::from_str("H1") {
        Some("h1")
    } else if *kind == String::from_str("H2") {
        Some("h2")
    } else if *kind == String::from_str("H3") {
        Some("h3")
    } else if *kind == String::from_str("H4") {
        Some("h4")
    } else if *kind == String::from_str("H5") {
        Some("h5")
    } else if *kind == String::from_str("H6") {
        Some("h6")
    } else if *kind == String::from_str("PRE") {
        Some("pre")
    } else {
        None
    }
}

/// A pair of attribute strings.
fn attribute(name: &str, value: String) -> (r: (String, String))
    ensures
        r.0@ == name@,
        r.1@ == value@,
{
    (String::from_str(name), value)
}

impl Paragraph {
    /// The paragraph rendered by its kind; see `render_paragraph_spec`.
    pub fn render_paragraph(&self) -> (r: Result<Content, RenderingError>)
        ensures
            match render_paragraph_spec(*self) {
                Ok(n) => r is Ok && r->Ok_0@ == n,
                Err(e) => r == Err::<Content, RenderingError>(e),
            },
    {
        let text: &str = match &self.text {
            Some(t) => t.as_str(),
            None => "",
        };
        proof {
            reveal_strlit("");
            assert(text@ == paragraph_text(*self));
        }
        if self.kind == String::from_str("IMG") {
            match &self.metadata {
                Some(md) => {
                    let src = String::from_str("https://miro.medium.com/v2/resize:fit:2000/").concat(
                        md.id.as_str(),
                    );
                    let attributes = vec![
                        attribute("src", src),
                        attribute("loading", String::from_str("lazy")),
                    ];
                    let r = Content::tag("img", Some(attributes), None);
                    proof {
                        assert(attrs_view(attributes@) =~= seq![
                            ("src"@, image_src(md.id@)),
                            ("loading"@, "lazy"@),
                        ]);
                    }
                    Ok(r)
                },
                None => Err(RenderingError::MissingMetadata),
            }
        } else if self.kind == String::from_str("ULI") || self.kind == String::from_str("OLI") {
            let children = render_text(text, self.markups.as_slice())?;
            Ok(Content::tag("li", None, Some(children)))
        } else if self.kind == String::from_str("IFRAME") {
            match &self.iframe {
                Some(f) => {
                    let attributes = vec![
                        attribute("href", f.media_resource.iframe_src.clone()),
                    ];
                    let children = vec![
                        Content::text("IFRAME: "),
                        Content::text(f.media_resource.title.as_str()),
                    ];
                    proof {
                        assert(attrs_view(attributes@) =~= seq![
                            ("href"@, f.media_resource.iframe_src@),
                        ]);
                        lemma_contents_view(children@);
                        assert(contents_view(children@) =~= seq![
                            ContentNode::Text(escape_html("IFRAME: "@)),
                            ContentNode::Text(escape_html(f.media_resource.title@)),
                        ]);
                    }
                    Ok(Content::tag("a", Some(attributes), Some(children)))
                },
                None => Err(RenderingError::MissingIframe),
            }
        } else if self.kind == String::from_str("BQ") {
            let children = render_text(text, self.markups.as_slice())?;
            Ok(Content::tag("blockquote", None, Some(children)))
        } else {
            match text_block_tag_of(&self.kind) {
                Some(tag) => {
                    let children = render_text(text, self.markups.as_slice())?;
                    Ok(Content::tag(tag, None, Some(children)))
                },
                None => {
                    let children = render_text(text, self.markups.as_slice())?;
                    let attributes = vec![attribute("x-real-tag", self.kind.clone())];
                    proof {
                        assert(attrs_view(attributes@) =~= seq![("x-real-tag"@, self.kind@)]);
                    }
                    Ok(Content::tag("div", Some(attributes), Some(children)))
                },
            }
        }
    }
}

impl Render for Paragraph {
    fn render(&self) -> Result<Content, RenderingError> {
        self.render_paragraph()
    }
}

/// The style sheet of a rendered page.
pub const CSS: &'static str =
    "body { background-color: #222; color: #ddd; font-family: sans-serif; font-size: 130%; }
article { width: 60rem; margin: auto }
img { max-width: 100% }
pre { background-color: #111; padding: 1rem; border-radius: .5rem; }
blockquote { background-color: #333; margin: 0; padding: 1rem;  padding-left: 2rem; border-left: 5px solid gray; }
a { color: cornflowerblue }
.post-head {  background-color: #333; margin: 0; padding: 1rem; font-size: 80%; }";

/// A link node to `href` around one text node.
pub open spec fn link_node(href: Seq<char>, text: Seq<char>) -> ContentNode {
    ContentNode::Tag {
        name: seq!['a'],
        attributes: seq![(href_key(), href)],
        children: Some(seq![ContentNode::Text(escape_html(text))]),
    }
}

/// The header of a post: who published it and where it was published.
pub open spec fn header_spec(username: Seq<char>, name: Seq<char>, medium_url: Seq<char>) -> Seq<
    ContentNode,
> {
    seq![
        ContentNode::Tag {
            name: "div"@,
            attributes: seq![("class"@, "post-head"@)],
            children: Some(
                seq![
                    ContentNode::Text(escape_html("published by "@)),
                    link_node("https://medium.com/@"@ + username, name),
                    ContentNode::Text(escape_html(" on medium "@)),
                    link_node(medium_url, "here"@),
                    ContentNode::Text(escape_html("."@)),
                ],
            ),
        },
    ]
}

/// The header of a post by `username` (shown as `name`), published at `medium_url`.
pub fn render_header(username: &str, name: &str, medium_url: &str) -> (r: Vec<Content>)
    ensures
        contents_view(r@) == header_spec(username@, name@, medium_url@),
{
    let profile = String::from_str("https://medium.com/@").concat(username);
    let author_text = vec![Content::text(name)];
    let post_text = vec![Content::text("here")];
    proof {
        lemma_contents_view(author_text@);
        lemma_contents_view(post_text@);
        assert(contents_view(author_text@) =~= seq![ContentNode::Text(escape_html(name@))]);
        assert(contents_view(post_text@) =~= seq![ContentNode::Text(escape_html("here"@))]);
    }
    let author = Content::hyperlink(profile.as_str(), author_text, None);
    let post = Content::hyperlink(medium_url, post_text, None);
    let children = vec![
        Content::text("published by "),
        author,
        Content::text(" on medium "),
        post,
        Content::text("."),
    ];
    let attributes = vec![attribute("class", String::from_str("post-head"))];
    let head = Content::tag("div", Some(attributes), Some(children));
    let r = vec![head];
    proof {
        assert(set_attr(Seq::empty(), href_key(), profile@) =~= seq![(href_key(), profile@)]);
        assert(set_attr(Seq::empty(), href_key(), medium_url@) =~= seq![(href_key(), medium_url@)]);
        lemma_contents_view(children@);
        lemma_contents_view(r@);
        assert(attrs_view(attributes@) =~= seq![("class"@, "post-head"@)]);
        assert(author@ == link_node("https://medium.com/@"@ + username@, name@));
        assert(post@ == link_node(medium_url@, "here"@));
        assert(contents_view(children@) =~= header_spec(username@, name@, medium_url@)[0]->children->Some_0);
        assert(head@ == header_spec(username@, name@, medium_url@)[0]);
        assert(contents_view(r@) =~= header_spec(username@, name@, medium_url@));
    }
    r
}

/// An article made of a header followed by the rendered paragraphs; fails with the
/// first paragraph that fails.
pub open spec fn article_spec(header: Seq<ContentNode>, paragraphs: Seq<Paragraph>) -> Result<
    ContentNode,
    RenderingError,
>
    decreases paragraphs.len(),
{
    if paragraphs.len() == 0 {
        Ok(ContentNode::Tag { name: "article"@, attributes: Seq::empty(), children: Some(header) })
    } else {
        match article_spec(header, paragraphs.drop_last()) {
            Ok(a) => match render_paragraph_spec(paragraphs.last()) {
                Ok(n) => Ok(
                    ContentNode::Tag {
                        name: "article"@,
                        attributes: Seq::empty(),
                        children: Some(a->children->Some_0.push(n)),
                    },
                ),
                Err(e) => Err(e),
            },
            Err(e) => Err(e),
        }
    }
}

/// The article for a post: `header`, then each paragraph rendered in order.
pub fn render_article(header: Vec<Content>, paragraphs: &[Paragraph]) -> (r: Result<
    Content,
    RenderingError,
>)
    ensures
        match article_spec(contents_view(header@), paragraphs@) {
            Ok(n) => r is Ok && r->Ok_0@ == n,
            Err(e) => r == Err::<Content, RenderingError>(e),
        },
{
    let ghost head = contents_view(header@);
    let mut content = header;
    let mut i: usize = 0;
    proof {
        assert(paragraphs@.take(0) =~= Seq::<Paragraph>::empty());
    }
    while i < paragraphs.len()
        invariant
            i <= paragraphs@.len(),
            head == contents_view(header@),
            article_spec(head, paragraphs@.take(i as int)) == Ok::<ContentNode, RenderingError>(
                ContentNode::Tag {
                    name: "article"@,
                    attributes: Seq::empty(),
                    children: Some(contents_view(content@)),
                },
            ),
        decreases paragraphs.len() - i,
    {
        let ghost before = content@;
        proof {
            let t = paragraphs@.take(i + 1);
            assert(t.drop_last() =~= paragraphs@.take(i as int));
            assert(t.last() == paragraphs@[i as int]);
        }
        match paragraphs[i].render_paragraph() {
            Ok(n) => {
                content.push(n);
                proof {
                    lemma_contents_view(before);
                    lemma_contents_view(content@);
                    assert(contents_view(content@) =~= contents_view(before).push(n@));
                }
            },
            Err(e) => {
                proof {
                    assert(render_paragraph_spec(paragraphs@[i as int]) == Err::<ContentNode, RenderingError>(e));
                    assert(article_spec(head, paragraphs@.take(i + 1)) == Err::<ContentNode, RenderingError>(e));
                    lemma_article_err_prefix(head, paragraphs@, i + 1, e);
                }
                return Err(e);
            },
        }
        i += 1;
    }
    proof {
        assert(paragraphs@.take(i as int) =~= paragraphs@);
    }
    Ok(Content::tag("article", None, Some(content)))
}

proof fn lemma_article_err_prefix(
    header: Seq<ContentNode>,
    ps: Seq<Paragraph>,
    k: int,
    e: RenderingError,
)
    requires
        0 <= k <= ps.len(),
        article_spec(header, ps.take(k)) == Err::<ContentNode, RenderingError>(e),
    ensures
        article_spec(header, ps) == Err::<ContentNode, RenderingError>(e),
    decreases ps.len() - k,
{
    if k < ps.len() {
        assert(ps.take(k + 1).drop_last() =~= ps.take(k));
        lemma_article_err_prefix(header, ps, k + 1, e);
    } else {
        assert(ps.take(k) =~= ps);
    }
}

/// A whole page: a head with the style sheet and `title`, and `body` as its body.
pub open spec fn page_spec(title: Seq<char>, body: ContentNode) -> ContentNode {
    ContentNode::Tag {
        name: "html"@,
        attributes: Seq::empty(),
        children: Some(
            seq![
                ContentNode::Tag {
                    name: "head"@,
                    attributes: Seq::empty(),
                    children: Some(
                        seq![
                            ContentNode::Tag {
                                name: "style"@,
                                attributes: Seq::empty(),
                                children: Some(seq![ContentNode::Text(escape_html(CSS@))]),
                            },
                            ContentNode::Tag {
                                name: "title"@,
                                attributes: Seq::empty(),
                                children: Some(seq![ContentNode::Text(escape_html(title))]),
                            },
                        ],
                    ),
                },
                ContentNode::Tag {
                    name: "body"@,
                    attributes: Seq::empty(),
                    children: Some(seq![body]),
                },
            ],
        ),
    }
}

/// The page of a post titled `title` whose article is `body`.
pub fn render_page(title: &str, body: Content) -> (r: Content)
    ensures
        r@ == page_spec(title@, body@),
{
    let ghost b = body@;
    let style_text = vec![Content::text(CSS)];
    let title_text = vec![Content::text(title)];
    proof {
        lemma_contents_view(style_text@);
        lemma_contents_view(title_text@);
        assert(contents_view(style_text@) =~= seq![ContentNode::Text(escape_html(CSS@))]);
        assert(contents_view(title_text@) =~= seq![ContentNode::Text(escape_html(title@))]);
    }
    let style = Content::tag("style", None, Some(style_text));
    let title_tag = Content::tag("title", None, Some(title_text));
    let head_children = vec![style, title_tag];
    let head = Content::tag("head", None, Some(head_children));
    let body_children = vec![body];
    let body_tag = Content::tag("body", None, Some(body_children));
    let html_children = vec![head, body_tag];
    let r = Content::tag("html", None, Some(html_children));
    proof {
        lemma_contents_view(head_children@);
        lemma_contents_view(body_children@);
        lemma_contents_view(html_children@);
        assert(contents_view(head_children@) =~= page_spec(title@, b)->children->Some_0[0]->children->Some_0);
        assert(contents_view(body_children@) =~= seq![b]);
        assert(contents_view(html_children@) =~= page_spec(title@, b)->children->Some_0);
    }
    r
}

/// Sets attribute `key` to `value`: overwrites it where present, else appends it.
fn set_attribute(attributes: &mut Vec<(String, String)>, key: String, value: String)
    ensures
        attrs_view(final(attributes)@) == set_attr(attrs_view(old(attributes)@), key@, value@),
{
    let ghost a = attrs_view(old(attributes)@);
    let mut found = false;
    let mut i: usize = 0;
    while i < attributes.len()
        invariant
            i <= attributes@.len(),
            a == attrs_view(old(attributes)@),
            a.len() == attributes@.len(),
            attributes@.len() == old(attributes)@.len(),
            found <==> exists|j: int| 0 <= j < i && (#[trigger] a[j]).0 == key@,
            forall|j: int|
                0 <= j < attributes@.len() ==> #[trigger] attrs_view(attributes@)[j] == if j < i
                    && a[j].0 == key@ {
                    (key@, value@)
                } else {
                    a[j]
                },
        decreases attributes.len() - i,
    {
        let ghost before = attributes@;
        if attributes[i].0 == key {
            let k = key.clone();
            let v = value.clone();
            attributes.set(i, (k, v));
            found = true;
        }
        proof {
            assert(attrs_view(before)[i as int] == a[i as int]);
            assert forall|j: int| 0 <= j < attributes@.len() implies #[trigger] attrs_view(
                attributes@,
            )[j] == if j < i + 1 && a[j].0 == key@ {
                (key@, value@)
            } else {
                a[j]
            } by {
                if j != i {
                    assert(attributes@[j] == before[j]);
                    assert(attrs_view(before)[j] == attrs_view(attributes@)[j]);
                }
            }
            if found && !(exists|j: int| 0 <= j < i && (#[trigger] a[j]).0 == key@) {
                assert(a[i as int].0 == key@);
            }
        }
        i += 1;
    }
    if !found {
        proof {
            assert(attrs_view(attributes@) =~= a);
        }
        let ghost before = attributes@;
        attributes.push((key, value));
        proof {
            assert(attributes@ =~= before.push((key, value)));
            assert(attrs_view(attributes@) =~= a.push((key@, value@)));
        }
    } else {
        proof {
            assert(attrs_view(attributes@) =~= set_attr(a, key@, value@));
        }
    }
}

} // verus!
