//! The transient parse tree built for a single call: arena-indexed nodes
//! over the decoded text, every node referring to character spans and every
//! child stored before its parent, so that recursion over node indices
//! terminates by construction. The tokenizer accepts a simple markup shape —
//! `<name attrs>` ... `</name>` with matching explicit close tags, character
//! data between tags, the known void elements (`<br>` and the like) as
//! childless nodes, and `<!...>` declarations or simple comments, skipped
//! up to their first `>` — and rejects anything else, which the harness
//! reports as a fault.

use vstd::prelude::*;
use crate::text::contains_seq;
use crate::text::sub_chars;

verus! {

/// Half-open character range into the decoded text.
pub struct Span {
    pub start: usize,
    pub end: usize,
}

/// One arena node: an element with its tag name, raw attribute text, inner
/// content span and completed children, or a run of character data.
pub enum Node {
    Element { name: Span, attrs: Span, content: Span, children: Vec<usize> },
    Text { span: Span },
}

/// The parse tree: nodes in completion order, top-level nodes in document
/// order.
pub struct Tree {
    pub nodes: Vec<Node>,
    pub roots: Vec<usize>,
}

pub open spec fn span_wf(sp: Span, n: int) -> bool {
    sp.start <= sp.end <= n
}

/// A node is well formed at arena index `idx` over a text of length `n`
/// when its spans lie inside the text and its children were completed
/// earlier, i.e. have strictly smaller indices.
pub open spec fn node_wf(nd: Node, idx: int, n: int) -> bool {
    match nd {
        Node::Element { name, attrs, content, children } => {
            &&& span_wf(name, n)
            &&& span_wf(attrs, n)
            &&& span_wf(content, n)
            &&& forall|j: int| 0 <= j < children@.len() ==> (children@[j] as int) < idx
        },
        Node::Text { span } => span_wf(span, n),
    }
}

/// Every node well formed at its index, and every root a valid index.
pub open spec fn tree_wf(t: Tree, n: int) -> bool {
    &&& forall|i: int| 0 <= i < t.nodes@.len() ==> node_wf(#[trigger] t.nodes@[i], i, n)
    &&& forall|j: int| 0 <= j < t.roots@.len() ==> (#[trigger] t.roots@[j] as int) < t.nodes@.len()
}

/// An element still open while tokenizing: its spans, where its content
/// started, and the children completed so far.
struct Frame {
    name: Span,
    attrs: Span,
    content_start: usize,
    children: Vec<usize>,
}

spec fn frame_wf(fr: Frame, arena_len: int, n: int, pos: int) -> bool {
    &&& span_wf(fr.name, n)
    &&& span_wf(fr.attrs, n)
    &&& fr.content_start <= pos
    &&& forall|j: int| 0 <= j < fr.children@.len() ==> (fr.children@[j] as int) < arena_len
}

/// Ghost image of one arena node, spans as integer pairs.
pub ghost enum GNode {
    Element { name: (int, int), attrs: (int, int), content: (int, int), children: Seq<int> },
    Text { span: (int, int) },
}

pub open spec fn span_view(s: Span) -> (int, int) {
    (s.start as int, s.end as int)
}

pub open spec fn node_view(n: Node) -> GNode {
    match n {
        Node::Element { name, attrs, content, children } => GNode::Element {
            name: span_view(name),
            attrs: span_view(attrs),
            content: span_view(content),
            children: children@.map_values(|c: usize| c as int),
        },
        Node::Text { span } => GNode::Text { span: span_view(span) },
    }
}

pub open spec fn nodes_view(ns: Seq<Node>) -> Seq<GNode> {
    ns.map_values(|n: Node| node_view(n))
}

pub open spec fn roots_view(rs: Seq<usize>) -> Seq<int> {
    rs.map_values(|r: usize| r as int)
}

pub ghost struct GFrame {
    pub name: (int, int),
    pub attrs: (int, int),
    pub content_start: int,
    pub children: Seq<int>,
}

spec fn frame_view(f: Frame) -> GFrame {
    GFrame {
        name: span_view(f.name),
        attrs: span_view(f.attrs),
        content_start: f.content_start as int,
        children: f.children@.map_values(|c: usize| c as int),
    }
}

spec fn frames_view(fs: Seq<Frame>) -> Seq<GFrame> {
    fs.map_values(|f: Frame| frame_view(f))
}

/// First position of `c` in `text` at or after `from`, or the text length.
pub open spec fn find_s(text: Seq<char>, from: int, c: char) -> int
    decreases text.len() - from,
{
    if from < 0 || from >= text.len() {
        text.len() as int
    } else if text[from] == c {
        from
    } else {
        find_s(text, from + 1, c)
    }
}

/// End of a tag name opening at `from`: the first blank or `>` at or after
/// it, or the text length.
pub open spec fn scan_name_s(text: Seq<char>, from: int) -> int
    decreases text.len() - from,
{
    if from < 0 || from >= text.len() {
        text.len() as int
    } else if text[from] == ' ' || text[from] == '>' {
        from
    } else {
        scan_name_s(text, from + 1)
    }
}

/// Tag names of the void elements: childless by definition and written
/// without a close tag, so the tokenizer completes them at once.
pub open spec fn is_void_name(s: Seq<char>) -> bool {
    ||| s == "br"@
    ||| s == "hr"@
    ||| s == "img"@
    ||| s == "input"@
    ||| s == "meta"@
    ||| s == "link"@
    ||| s == "area"@
    ||| s == "base"@
    ||| s == "col"@
    ||| s == "embed"@
    ||| s == "source"@
    ||| s == "track"@
    ||| s == "wbr"@
}

/// One step of the tokenizer as a function of the whole machine state:
/// position, completed arena, open-element stack, and roots. The guards on
/// the recursive calls only restate that every step advances, which the
/// scan functions guarantee; they make the definition total.
pub open spec fn tok_step(
    text: Seq<char>,
    i: int,
    nodes: Seq<GNode>,
    stack: Seq<GFrame>,
    roots: Seq<int>,
) -> Option<(Seq<GNode>, Seq<int>)>
    decreases text.len() - i,
{
    if i < 0 || i > text.len() {
        None
    } else if i == text.len() {
        if stack.len() == 0 {
            Some((nodes, roots))
        } else {
            None
        }
    } else if text[i] == '<' {
        if i + 1 < text.len() && text[i + 1] == '/' {
            let j = find_s(text, i + 2, '>');
            if j == text.len() {
                None
            } else if stack.len() == 0 {
                None
            } else {
                let fr = stack.last();
                if text.subrange(i + 2, j) != text.subrange(fr.name.0, fr.name.1) {
                    None
                } else {
                    let idx = nodes.len() as int;
                    let nodes2 = nodes.push(
                        GNode::Element {
                            name: fr.name,
                            attrs: fr.attrs,
                            content: (fr.content_start, i),
                            children: fr.children,
                        },
                    );
                    let stack1 = stack.drop_last();
                    if stack1.len() > 0 {
                        let top = stack1.last();
                        let top2 = GFrame { children: top.children.push(idx), ..top };
                        if i < j + 1 && j + 1 <= text.len() {
                            tok_step(text, j + 1, nodes2, stack1.drop_last().push(top2), roots)
                        } else {
                            None
                        }
                    } else {
                        if i < j + 1 && j + 1 <= text.len() {
                            tok_step(text, j + 1, nodes2, stack1, roots.push(idx))
                        } else {
                            None
                        }
                    }
                }
            }
        } else if i + 1 < text.len() && text[i + 1] == '!' {
            let j = find_s(text, i + 2, '>');
            if j == text.len() {
                None
            } else {
                if i < j + 1 && j + 1 <= text.len() {
                    tok_step(text, j + 1, nodes, stack, roots)
                } else {
                    None
                }
            }
        } else {
            let k = scan_name_s(text, i + 1);
            if k == i + 1 || k == text.len() {
                None
            } else {
                let j = find_s(text, k, '>');
                if j == text.len() {
                    None
                } else if is_void_name(text.subrange(i + 1, k)) {
                    let idx = nodes.len() as int;
                    let nodes2 = nodes.push(
                        GNode::Element {
                            name: (i + 1, k),
                            attrs: (k, j),
                            content: (j + 1, j + 1),
                            children: Seq::empty(),
                        },
                    );
                    if stack.len() > 0 {
                        let top = stack.last();
                        let top2 = GFrame { children: top.children.push(idx), ..top };
                        if i < j + 1 && j + 1 <= text.len() {
                            tok_step(text, j + 1, nodes2, stack.drop_last().push(top2), roots)
                        } else {
                            None
                        }
                    } else {
                        if i < j + 1 && j + 1 <= text.len() {
                            tok_step(text, j + 1, nodes2, stack, roots.push(idx))
                        } else {
                            None
                        }
                    }
                } else {
                    let fr = GFrame {
                        name: (i + 1, k),
                        attrs: (k, j),
                        content_start: j + 1,
                        children: Seq::empty(),
                    };
                    if i < j + 1 && j + 1 <= text.len() {
                        tok_step(text, j + 1, nodes, stack.push(fr), roots)
                    } else {
                        None
                    }
                }
            }
        }
    } else {
        let j = find_s(text, i, '<');
        let idx = nodes.len() as int;
        let nodes2 = nodes.push(GNode::Text { span: (i, j) });
        if stack.len() > 0 {
            let top = stack.last();
            let top2 = GFrame { children: top.children.push(idx), ..top };
            if i < j && j <= text.len() {
                tok_step(text, j, nodes2, stack.drop_last().push(top2), roots)
            } else {
                None
            }
        } else {
            if i < j && j <= text.len() {
                tok_step(text, j, nodes2, stack, roots.push(idx))
            } else {
                None
            }
        }
    }
}

/// What [`tokenize`] yields for a given text: the arena and root images on
/// success, nothing where the text cannot be tokenized. A function of the
/// text alone, so identical text always yields an identical tree.
pub open spec fn tokenize_spec(text: Seq<char>) -> Option<(Seq<GNode>, Seq<int>)> {
    tok_step(text, 0, Seq::empty(), Seq::empty(), Seq::empty())
}

/// First position of `c` in `t` at or after `from`, or the text length.
fn find_char(t: &Vec<char>, from: usize, c: char) -> (j: usize)
    requires
        from <= t@.len(),
    ensures
        from <= j <= t@.len(),
        j < t@.len() ==> t@[j as int] == c,
        forall|k: int| from <= k < j ==> t@[k] != c,
        j == find_s(t@, from as int, c),
{
    let mut j = from;
    while j < t.len()
        invariant
            from <= j <= t@.len(),
            forall|k: int| from <= k < j ==> t@[k] != c,
            find_s(t@, from as int, c) == find_s(t@, j as int, c),
        decreases t@.len() - j,
    {
        if t[j] == c {
            assert(find_s(t@, j as int, c) == j);
            return j;
        }
        j = j + 1;
    }
    assert(find_s(t@, j as int, c) == j);
    j
}

/// True when the two character ranges hold the same text.
fn span_text_eq(t: &Vec<char>, a1: usize, b1: usize, a2: usize, b2: usize) -> (r: bool)
    requires
        a1 <= b1 <= t@.len(),
        a2 <= b2 <= t@.len(),
    ensures
        r == (t@.subrange(a1 as int, b1 as int) == t@.subrange(a2 as int, b2 as int)),
{
    if b1 - a1 != b2 - a2 {
        assert(t@.subrange(a1 as int, b1 as int).len() != t@.subrange(a2 as int, b2 as int).len());
        return false;
    }
    let len = b1 - a1;
    let mut k: usize = 0;
    while k < len
        invariant
            k <= len,
            a1 + len == b1 <= t@.len(),
            a2 + len == b2 <= t@.len(),
            forall|m: int| 0 <= m < k ==> t@[a1 + m] == #[trigger] t@[a2 + m],
        decreases len - k,
    {
        if t[a1 + k] != t[a2 + k] {
            assert(t@.subrange(a1 as int, b1 as int)[k as int] != t@.subrange(
                a2 as int,
                b2 as int,
            )[k as int]);
            return false;
        }
        k = k + 1;
    }
    proof {
        assert forall|m: int| 0 <= m < len implies t@.subrange(a1 as int, b1 as int)[m]
            == t@.subrange(a2 as int, b2 as int)[m] by {
            assert(t@[a1 + m] == t@[a2 + m]);
        }
        assert(t@.subrange(a1 as int, b1 as int) =~= t@.subrange(a2 as int, b2 as int));
    }
    true
}

/// Executable test of [`is_void_name`] on a character range.
fn is_void_tag(t: &Vec<char>, a: usize, b: usize) -> (r: bool)
    requires
        a <= b <= t@.len(),
    ensures
        r == is_void_name(t@.subrange(a as int, b as int)),
{
    let sub = sub_chars(t, a, b);
    if chars_eq(&sub, &crate::ext::chars_of_str("br")) {
        return true;
    }
    if chars_eq(&sub, &crate::ext::chars_of_str("hr")) {
        return true;
    }
    if chars_eq(&sub, &crate::ext::chars_of_str("img")) {
        return true;
    }
    if chars_eq(&sub, &crate::ext::chars_of_str("input")) {
        return true;
    }
    if chars_eq(&sub, &crate::ext::chars_of_str("meta")) {
        return true;
    }
    if chars_eq(&sub, &crate::ext::chars_of_str("link")) {
        return true;
    }
    if chars_eq(&sub, &crate::ext::chars_of_str("area")) {
        return true;
    }
    if chars_eq(&sub, &crate::ext::chars_of_str("base")) {
        return true;
    }
    if chars_eq(&sub, &crate::ext::chars_of_str("col")) {
        return true;
    }
    if chars_eq(&sub, &crate::ext::chars_of_str("embed")) {
        return true;
    }
    if chars_eq(&sub, &crate::ext::chars_of_str("source")) {
        return true;
    }
    if chars_eq(&sub, &crate::ext::chars_of_str("track")) {
        return true;
    }
    if chars_eq(&sub, &crate::ext::chars_of_str("wbr")) {
        return true;
    }
    false
}

proof fn lemma_nodes_view_push(ns: Seq<Node>, x: Node)
    ensures
        nodes_view(ns.push(x)) == nodes_view(ns).push(node_view(x)),
{
    assert(nodes_view(ns.push(x)) =~= nodes_view(ns).push(node_view(x)));
}

proof fn lemma_frames_view_push(fs: Seq<Frame>, x: Frame)
    ensures
        frames_view(fs.push(x)) == frames_view(fs).push(frame_view(x)),
{
    assert(frames_view(fs.push(x)) =~= frames_view(fs).push(frame_view(x)));
}

proof fn lemma_frames_view_drop(fs: Seq<Frame>)
    requires
        fs.len() > 0,
    ensures
        frames_view(fs.drop_last()) == frames_view(fs).drop_last(),
        frame_view(fs.last()) == frames_view(fs).last(),
{
    assert(frames_view(fs.drop_last()) =~= frames_view(fs).drop_last());
}

proof fn lemma_roots_view_push(rs: Seq<usize>, x: usize)
    ensures
        roots_view(rs.push(x)) == roots_view(rs).push(x as int),
{
    assert(roots_view(rs.push(x)) =~= roots_view(rs).push(x as int));
}

/// Builds the parse tree for the decoded text, or `None` where the text
/// cannot be tokenized: an unterminated or empty tag, a close tag with no
/// matching open tag, or an element left open at the end. Void elements
/// become childless nodes and `<!...>` declarations are skipped up to their
/// first `>`. The result is exactly [`tokenize_spec`] of the text, so
/// identical text always yields an identical tree.
pub fn tokenize(t: &Vec<char>) -> (r: Option<Tree>)
    ensures
        r is Some ==> tree_wf(r->0, t@.len() as int),
        r is Some <==> tokenize_spec(t@) is Some,
        r is Some ==> tokenize_spec(t@)->0 == (nodes_view((r->0).nodes@), roots_view(
            (r->0).roots@,
        )),
{
    let n = t.len();
    let mut nodes: Vec<Node> = Vec::new();
    let mut stack: Vec<Frame> = Vec::new();
    let mut roots: Vec<usize> = Vec::new();
    let mut i: usize = 0;
    proof {
        assert(nodes_view(nodes@) =~= Seq::<GNode>::empty());
        assert(frames_view(stack@) =~= Seq::<GFrame>::empty());
        assert(roots_view(roots@) =~= Seq::<int>::empty());
    }
    while i < n
        invariant
            i <= n == t@.len(),
            forall|k: int| 0 <= k < nodes@.len() ==> node_wf(#[trigger] nodes@[k], k, n as int),
            forall|j: int| 0 <= j < roots@.len() ==> (#[trigger] roots@[j] as int) < nodes@.len(),
            forall|f: int| 0 <= f < stack@.len() ==> frame_wf(
                #[trigger] stack@[f],
                nodes@.len() as int,
                n as int,
                i as int,
            ),
            tok_step(t@, i as int, nodes_view(nodes@), frames_view(stack@), roots_view(roots@))
                == tokenize_spec(t@),
        decreases n - i,
    {
        let ghost g_i = i as int;
        let ghost g_nodes = nodes_view(nodes@);
        let ghost g_stack = frames_view(stack@);
        let ghost g_roots = roots_view(roots@);
        if t[i] == '<' {
            if i + 1 < n && t[i + 1] == '/' {
                // Close tag.
                let j = find_char(t, i + 2, '>');
                if j == n {
                    assert(tok_step(t@, g_i, g_nodes, g_stack, g_roots) is None);
                    return None;
                }
                let ghost s_before = stack@;
                let fr = match stack.pop() {
                    Some(fr) => fr,
                    None => {
                        assert(g_stack.len() == 0);
                        assert(tok_step(t@, g_i, g_nodes, g_stack, g_roots) is None);
                        return None;
                    },
                };
                proof {
                    lemma_frames_view_drop(s_before);
                    assert(frame_view(fr) == g_stack.last());
                    assert(frames_view(stack@) == g_stack.drop_last());
                }
                if !span_text_eq(t, i + 2, j, fr.name.start, fr.name.end) {
                    assert(tok_step(t@, g_i, g_nodes, g_stack, g_roots) is None);
                    return None;
                }
                let node = Node::Element {
                    name: fr.name,
                    attrs: fr.attrs,
                    content: Span { start: fr.content_start, end: i },
                    children: fr.children,
                };
                assert(node_wf(node, nodes@.len() as int, n as int));
                let idx = nodes.len();
                let ghost n_before = nodes@;
                nodes.push(node);
                proof {
                    lemma_nodes_view_push(n_before, node);
                    assert(node_view(node) == (GNode::Element {
                        name: g_stack.last().name,
                        attrs: g_stack.last().attrs,
                        content: (g_stack.last().content_start, g_i),
                        children: g_stack.last().children,
                    }));
                    assert(idx as int == g_nodes.len());
                }
                let ghost s_mid = stack@;
                match stack.pop() {
                    Some(mut top) => {
                        let ghost top_before = top;
                        top.children.push(idx);
                        let ghost s_mid2 = stack@;
                        stack.push(top);
                        proof {
                            lemma_frames_view_drop(s_mid);
                            lemma_frames_view_push(s_mid2, top);
                            assert(frame_view(top).children =~= frame_view(
                                top_before,
                            ).children.push(idx as int));
                            assert(frame_view(top) == (GFrame {
                                children: frame_view(top_before).children.push(idx as int),
                                ..frame_view(top_before)
                            }));
                            assert(frame_view(top_before) == g_stack.drop_last().last());
                            assert(frames_view(stack@) == g_stack.drop_last().drop_last().push(
                                frame_view(top),
                            ));
                        }
                    },
                    None => {
                        let ghost r_before = roots@;
                        roots.push(idx);
                        proof {
                            lemma_roots_view_push(r_before, idx);
                        }
                    },
                }
                i = j + 1;
                assert(tok_step(t@, g_i, g_nodes, g_stack, g_roots) == tok_step(
                    t@,
                    i as int,
                    nodes_view(nodes@),
                    frames_view(stack@),
                    roots_view(roots@),
                ));
            } else if i + 1 < n && t[i + 1] == '!' {
                // Declaration or simple comment: skipped up to its `>`.
                let j = find_char(t, i + 2, '>');
                if j == n {
                    assert(tok_step(t@, g_i, g_nodes, g_stack, g_roots) is None);
                    return None;
                }
                i = j + 1;
                assert(tok_step(t@, g_i, g_nodes, g_stack, g_roots) == tok_step(
                    t@,
                    i as int,
                    nodes_view(nodes@),
                    frames_view(stack@),
                    roots_view(roots@),
                ));
            } else {
                // Open tag: name up to a blank or `>`, raw attributes up to `>`.
                let mut k = i + 1;
                while k < n && t[k] != ' ' && t[k] != '>'
                    invariant
                        i + 1 <= k <= n == t@.len(),
                        scan_name_s(t@, i + 1) == scan_name_s(t@, k as int),
                    decreases n - k,
                {
                    k = k + 1;
                }
                assert(k == scan_name_s(t@, i + 1)) by {
                    assert(scan_name_s(t@, k as int) == k);
                }
                if k == i + 1 || k == n {
                    assert(tok_step(t@, g_i, g_nodes, g_stack, g_roots) is None);
                    return None;
                }
                let j = find_char(t, k, '>');
                if j == n {
                    assert(tok_step(t@, g_i, g_nodes, g_stack, g_roots) is None);
                    return None;
                }
                if is_void_tag(t, i + 1, k) {
                    // A void element: completed at once, childless and with
                    // empty content.
                    let node = Node::Element {
                        name: Span { start: i + 1, end: k },
                        attrs: Span { start: k, end: j },
                        content: Span { start: j + 1, end: j + 1 },
                        children: Vec::new(),
                    };
                    assert(node_wf(node, nodes@.len() as int, n as int));
                    let idx = nodes.len();
                    let ghost n_before = nodes@;
                    nodes.push(node);
                    proof {
                        lemma_nodes_view_push(n_before, node);
                        assert(Seq::<usize>::empty().map_values(|c: usize| c as int)
                            =~= Seq::<int>::empty());
                        assert(node_view(node) == (GNode::Element {
                            name: ((i + 1) as int, k as int),
                            attrs: (k as int, j as int),
                            content: (j + 1, j + 1),
                            children: Seq::empty(),
                        }));
                        assert(idx as int == g_nodes.len());
                    }
                    let ghost s_mid = stack@;
                    match stack.pop() {
                        Some(mut top) => {
                            let ghost top_before = top;
                            top.children.push(idx);
                            let ghost s_mid2 = stack@;
                            stack.push(top);
                            proof {
                                lemma_frames_view_drop(s_mid);
                                lemma_frames_view_push(s_mid2, top);
                                assert(frame_view(top).children =~= frame_view(
                                    top_before,
                                ).children.push(idx as int));
                                assert(frame_view(top) == (GFrame {
                                    children: frame_view(top_before).children.push(idx as int),
                                    ..frame_view(top_before)
                                }));
                                assert(frame_view(top_before) == g_stack.last());
                                assert(frames_view(stack@) == g_stack.drop_last().push(
                                    frame_view(top),
                                ));
                            }
                        },
                        None => {
                            let ghost r_before = roots@;
                            roots.push(idx);
                            proof {
                                lemma_roots_view_push(r_before, idx);
                            }
                        },
                    }
                    i = j + 1;
                    assert(tok_step(t@, g_i, g_nodes, g_stack, g_roots) == tok_step(
                        t@,
                        i as int,
                        nodes_view(nodes@),
                        frames_view(stack@),
                        roots_view(roots@),
                    ));
                } else {
                    let frame = Frame {
                        name: Span { start: i + 1, end: k },
                        attrs: Span { start: k, end: j },
                        content_start: j + 1,
                        children: Vec::new(),
                    };
                    proof {
                        lemma_frames_view_push(stack@, frame);
                        assert(frame_view(frame).children =~= Seq::<int>::empty());
                        assert(frame_view(frame) == (GFrame {
                            name: ((i + 1) as int, k as int),
                            attrs: (k as int, j as int),
                            content_start: j + 1,
                            children: Seq::empty(),
                        }));
                    }
                    stack.push(frame);
                    i = j + 1;
                    assert(tok_step(t@, g_i, g_nodes, g_stack, g_roots) == tok_step(
                        t@,
                        i as int,
                        nodes_view(nodes@),
                        frames_view(stack@),
                        roots_view(roots@),
                    ));
                }
            }
        } else {
            // Character data up to the next tag.
            let j = find_char(t, i, '<');
            assert(j > i);
            let idx = nodes.len();
            let ghost n_before = nodes@;
            let node = Node::Text { span: Span { start: i, end: j } };
            nodes.push(node);
            proof {
                lemma_nodes_view_push(n_before, node);
                assert(node_view(node) == (GNode::Text { span: (g_i, j as int) }));
                assert(idx as int == g_nodes.len());
            }
            let ghost s_mid = stack@;
            match stack.pop() {
                Some(mut top) => {
                    let ghost top_before = top;
                    top.children.push(idx);
                    let ghost s_mid2 = stack@;
                    stack.push(top);
                    proof {
                        lemma_frames_view_drop(s_mid);
                        lemma_frames_view_push(s_mid2, top);
                        assert(frame_view(top).children =~= frame_view(
                            top_before,
                        ).children.push(idx as int));
                        assert(frame_view(top) == (GFrame {
                            children: frame_view(top_before).children.push(idx as int),
                            ..frame_view(top_before)
                        }));
                        assert(frame_view(top_before) == g_stack.last());
                        assert(frames_view(stack@) == g_stack.drop_last().push(frame_view(top)));
                    }
                },
                None => {
                    let ghost r_before = roots@;
                    roots.push(idx);
                    proof {
                        lemma_roots_view_push(r_before, idx);
                    }
                },
            }
            i = j;
            assert(tok_step(t@, g_i, g_nodes, g_stack, g_roots) == tok_step(
                t@,
                i as int,
                nodes_view(nodes@),
                frames_view(stack@),
                roots_view(roots@),
            ));
        }
    }
    if stack.len() > 0 {
        assert(tok_step(t@, i as int, nodes_view(nodes@), frames_view(stack@), roots_view(roots@))
            is None);
        return None;
    }
    let tree = Tree { nodes, roots };
    assert(tree_wf(tree, t@.len() as int));
    Some(tree)
}

/// Child count of the node at `i`; used as the second recursion measure.
pub open spec fn node_children_len(t: Tree, i: int) -> int {
    if 0 <= i < t.nodes@.len() {
        match t.nodes@[i] {
            Node::Element { children, .. } => children@.len() as int,
            Node::Text { .. } => 0,
        }
    } else {
        0
    }
}

/// The character data of the subtree rooted at `i`, in document order.
pub open spec fn inner_text_s(t: Tree, text: Seq<char>, i: int) -> Seq<char>
    decreases i, node_children_len(t, i) + 1,
{
    if 0 <= i < t.nodes@.len() {
        match t.nodes@[i] {
            Node::Text { span } => if span.start <= span.end <= text.len() {
                text.subrange(span.start as int, span.end as int)
            } else {
                Seq::empty()
            },
            Node::Element { children, .. } => inner_text_list_s(
                t,
                text,
                children@,
                i,
                children@.len() as int,
            ),
        }
    } else {
        Seq::empty()
    }
}

/// The concatenated character data of the subtrees at `cs[0..k]`, each
/// guarded by the arena bound so the definition is total.
pub open spec fn inner_text_list_s(
    t: Tree,
    text: Seq<char>,
    cs: Seq<usize>,
    bound: int,
    k: int,
) -> Seq<char>
    decreases bound, k,
{
    if k <= 0 {
        Seq::empty()
    } else {
        inner_text_list_s(t, text, cs, bound, k - 1) + (if 0 <= (cs[k - 1] as int) < bound {
            inner_text_s(t, text, cs[k - 1] as int)
        } else {
            Seq::empty()
        })
    }
}

/// Executable side of [`inner_text_s`].
pub fn inner_text(t: &Tree, text: &Vec<char>, i: usize) -> (r: Vec<char>)
    requires
        tree_wf(*t, text@.len() as int),
        i < t.nodes@.len(),
    ensures
        r@ == inner_text_s(*t, text@, i as int),
    decreases i, node_children_len(*t, i as int) + 1,
{
    match &t.nodes[i] {
        Node::Text { span } => sub_chars(text, span.start, span.end),
        Node::Element { children, .. } => {
            let mut r: Vec<char> = Vec::new();
            let mut k: usize = 0;
            while k < children.len()
                invariant
                    tree_wf(*t, text@.len() as int),
                    i < t.nodes@.len(),
                    t.nodes@[i as int] matches Node::Element { children: cref, .. } && cref@
                        == children@,
                    forall|j: int| 0 <= j < children@.len() ==> (children@[j] as int) < i,
                    k <= children@.len(),
                    r@ == inner_text_list_s(*t, text@, children@, i as int, k as int),
                decreases children@.len() - k,
            {
                let c = children[k];
                assert((c as int) < i);
                let mut sub = inner_text(t, text, c);
                r.append(&mut sub);
                k = k + 1;
            }
            assert(node_children_len(*t, i as int) == children@.len());
            r
        },
    }
}

/// The raw inner content of the element at `i` — the text between its open
/// and close tags — or nothing for character data or an out-of-range index.
pub open spec fn content_text_s(t: Tree, text: Seq<char>, i: int) -> Seq<char> {
    if 0 <= i < t.nodes@.len() {
        match t.nodes@[i] {
            Node::Element { content, .. } => if content.start <= content.end <= text.len() {
                text.subrange(content.start as int, content.end as int)
            } else {
                Seq::empty()
            },
            Node::Text { .. } => Seq::empty(),
        }
    } else {
        Seq::empty()
    }
}

/// Executable side of [`content_text_s`].
pub fn content_text(t: &Tree, text: &Vec<char>, i: usize) -> (r: Vec<char>)
    requires
        tree_wf(*t, text@.len() as int),
        i < t.nodes@.len(),
    ensures
        r@ == content_text_s(*t, text@, i as int),
{
    match &t.nodes[i] {
        Node::Element { content, .. } => sub_chars(text, content.start, content.end),
        Node::Text { .. } => Vec::new(),
    }
}

/// The attribute pattern that marks an element as carrying class `cls`.
pub open spec fn class_pat(cls: Seq<char>) -> Seq<char> {
    seq!['c', 'l', 'a', 's', 's', '=', '"'] + cls + seq!['"']
}

/// Executable side of [`class_pat`].
pub fn class_pat_exec(cls: &Vec<char>) -> (p: Vec<char>)
    ensures
        p@ == class_pat(cls@),
{
    let mut p: Vec<char> = Vec::new();
    p.push('c');
    p.push('l');
    p.push('a');
    p.push('s');
    p.push('s');
    p.push('=');
    p.push('"');
    let mut k: usize = 0;
    while k < cls.len()
        invariant
            k <= cls@.len(),
            p@ == seq!['c', 'l', 'a', 's', 's', '=', '"'] + cls@.take(k as int),
        decreases cls@.len() - k,
    {
        p.push(cls[k]);
        assert(p@ =~= seq!['c', 'l', 'a', 's', 's', '=', '"'] + cls@.take(k + 1));
        k = k + 1;
    }
    assert(cls@.take(cls@.len() as int) =~= cls@);
    p.push('"');
    assert(p@ =~= class_pat(cls@));
    p
}

/// True when the node at `i` is an element whose raw attribute text holds
/// `class="cls"`.
pub open spec fn node_has_class(t: Tree, text: Seq<char>, i: int, cls: Seq<char>) -> bool {
    0 <= i < t.nodes@.len() && match t.nodes@[i] {
        Node::Element { attrs, .. } => attrs.start <= attrs.end <= text.len() && contains_seq(
            text.subrange(attrs.start as int, attrs.end as int),
            class_pat(cls),
        ),
        Node::Text { .. } => false,
    }
}

/// True when the node at `i` is an element with tag name `tag`.
pub open spec fn node_has_tag(t: Tree, text: Seq<char>, i: int, tag: Seq<char>) -> bool {
    0 <= i < t.nodes@.len() && match t.nodes@[i] {
        Node::Element { name, .. } => name.start <= name.end <= text.len() && text.subrange(
            name.start as int,
            name.end as int,
        ) == tag,
        Node::Text { .. } => false,
    }
}

/// Subtree indices, in document order, of the elements under (and
/// including) `i` carrying class `cls`.
pub open spec fn collect_class_s(t: Tree, text: Seq<char>, cls: Seq<char>, i: int) -> Seq<usize>
    decreases i, node_children_len(t, i) + 1,
{
    if 0 <= i < t.nodes@.len() {
        match t.nodes@[i] {
            Node::Element { children, .. } => (if node_has_class(t, text, i, cls) {
                seq![i as usize]
            } else {
                Seq::empty()
            }) + collect_class_list_s(t, text, cls, children@, i, children@.len() as int),
            Node::Text { .. } => Seq::empty(),
        }
    } else {
        Seq::empty()
    }
}

pub open spec fn collect_class_list_s(
    t: Tree,
    text: Seq<char>,
    cls: Seq<char>,
    cs: Seq<usize>,
    bound: int,
    k: int,
) -> Seq<usize>
    decreases bound, k,
{
    if k <= 0 {
        Seq::empty()
    } else {
        collect_class_list_s(t, text, cls, cs, bound, k - 1) + (if 0 <= (cs[k - 1] as int)
            < bound {
            collect_class_s(t, text, cls, cs[k - 1] as int)
        } else {
            Seq::empty()
        })
    }
}

/// All element indices of the tree carrying class `cls`, in document order.
pub open spec fn by_class_s(t: Tree, text: Seq<char>, cls: Seq<char>) -> Seq<usize> {
    collect_class_list_s(t, text, cls, t.roots@, t.nodes@.len() as int, t.roots@.len() as int)
}

/// Subtree indices, in document order, of the elements under (and
/// including) `i` with tag name `tag`.
pub open spec fn collect_tag_s(t: Tree, text: Seq<char>, tag: Seq<char>, i: int) -> Seq<usize>
    decreases i, node_children_len(t, i) + 1,
{
    if 0 <= i < t.nodes@.len() {
        match t.nodes@[i] {
            Node::Element { children, .. } => (if node_has_tag(t, text, i, tag) {
                seq![i as usize]
            } else {
                Seq::empty()
            }) + collect_tag_list_s(t, text, tag, children@, i, children@.len() as int),
            Node::Text { .. } => Seq::empty(),
        }
    } else {
        Seq::empty()
    }
}

pub open spec fn collect_tag_list_s(
    t: Tree,
    text: Seq<char>,
    tag: Seq<char>,
    cs: Seq<usize>,
    bound: int,
    k: int,
) -> Seq<usize>
    decreases bound, k,
{
    if k <= 0 {
        Seq::empty()
    } else {
        collect_tag_list_s(t, text, tag, cs, bound, k - 1) + (if 0 <= (cs[k - 1] as int) < bound {
            collect_tag_s(t, text, tag, cs[k - 1] as int)
        } else {
            Seq::empty()
        })
    }
}

/// All element indices of the tree with tag name `tag`, in document order.
pub open spec fn by_tag_s(t: Tree, text: Seq<char>, tag: Seq<char>) -> Seq<usize> {
    collect_tag_list_s(t, text, tag, t.roots@, t.nodes@.len() as int, t.roots@.len() as int)
}

/// True when the two character vectors hold the same text.
pub fn chars_eq(a: &Vec<char>, b: &Vec<char>) -> (r: bool)
    ensures
        r == (a@ == b@),
{
    if a.len() != b.len() {
        return false;
    }
    let mut k: usize = 0;
    while k < a.len()
        invariant
            k <= a@.len() == b@.len(),
            forall|m: int| 0 <= m < k ==> a@[m] == #[trigger] b@[m],
        decreases a@.len() - k,
    {
        if a[k] != b[k] {
            return false;
        }
        k = k + 1;
    }
    proof {
        assert(a@ =~= b@);
    }
    true
}

/// Executable test of [`node_has_class`].
fn has_class(t: &Tree, text: &Vec<char>, cls: &Vec<char>, i: usize) -> (r: bool)
    requires
        tree_wf(*t, text@.len() as int),
        i < t.nodes@.len(),
    ensures
        r == node_has_class(*t, text@, i as int, cls@),
{
    match &t.nodes[i] {
        Node::Element { attrs, .. } => {
            let sub = sub_chars(text, attrs.start, attrs.end);
            let pat = class_pat_exec(cls);
            crate::text::contains_chars(&sub, &pat)
        },
        Node::Text { .. } => false,
    }
}

/// Executable test of [`node_has_tag`].
fn has_tag(t: &Tree, text: &Vec<char>, tag: &Vec<char>, i: usize) -> (r: bool)
    requires
        tree_wf(*t, text@.len() as int),
        i < t.nodes@.len(),
    ensures
        r == node_has_tag(*t, text@, i as int, tag@),
{
    match &t.nodes[i] {
        Node::Element { name, .. } => {
            let sub = sub_chars(text, name.start, name.end);
            chars_eq(&sub, tag)
        },
        Node::Text { .. } => false,
    }
}

/// Executable side of [`collect_class_s`].
pub fn class_descendants(t: &Tree, text: &Vec<char>, cls: &Vec<char>, i: usize) -> (r: Vec<usize>)
    requires
        tree_wf(*t, text@.len() as int),
        i < t.nodes@.len(),
    ensures
        r@ == collect_class_s(*t, text@, cls@, i as int),
    decreases i, node_children_len(*t, i as int) + 1,
{
    let mut r: Vec<usize> = Vec::new();
    if has_class(t, text, cls, i) {
        r.push(i);
    }
    match &t.nodes[i] {
        Node::Element { children, .. } => {
            let ghost selfpart: Seq<usize> = if node_has_class(*t, text@, i as int, cls@) {
                seq![i]
            } else {
                Seq::empty()
            };
            assert(r@ =~= selfpart);
            let mut k: usize = 0;
            while k < children.len()
                invariant
                    tree_wf(*t, text@.len() as int),
                    i < t.nodes@.len(),
                    t.nodes@[i as int] matches Node::Element { children: cref, .. } && cref@
                        == children@,
                    forall|j: int| 0 <= j < children@.len() ==> (children@[j] as int) < i,
                    k <= children@.len(),
                    r@ == selfpart + collect_class_list_s(
                        *t,
                        text@,
                        cls@,
                        children@,
                        i as int,
                        k as int,
                    ),
                decreases children@.len() - k,
            {
                let c = children[k];
                assert((c as int) < i);
                let mut sub = class_descendants(t, text, cls, c);
                r.append(&mut sub);
                k = k + 1;
            }
            assert(node_children_len(*t, i as int) == children@.len());
            r
        },
        Node::Text { .. } => {
            assert(r@ =~= collect_class_s(*t, text@, cls@, i as int));
            r
        },
    }
}

/// Executable side of [`collect_tag_s`].
pub fn tag_descendants(t: &Tree, text: &Vec<char>, tag: &Vec<char>, i: usize) -> (r: Vec<usize>)
    requires
        tree_wf(*t, text@.len() as int),
        i < t.nodes@.len(),
    ensures
        r@ == collect_tag_s(*t, text@, tag@, i as int),
    decreases i, node_children_len(*t, i as int) + 1,
{
    let mut r: Vec<usize> = Vec::new();
    if has_tag(t, text, tag, i) {
        r.push(i);
    }
    match &t.nodes[i] {
        Node::Element { children, .. } => {
            let ghost selfpart: Seq<usize> = if node_has_tag(*t, text@, i as int, tag@) {
                seq![i]
            } else {
                Seq::empty()
            };
            assert(r@ =~= selfpart);
            let mut k: usize = 0;
            while k < children.len()
                invariant
                    tree_wf(*t, text@.len() as int),
                    i < t.nodes@.len(),
                    t.nodes@[i as int] matches Node::Element { children: cref, .. } && cref@
                        == children@,
                    forall|j: int| 0 <= j < children@.len() ==> (children@[j] as int) < i,
                    k <= children@.len(),
                    r@ == selfpart + collect_tag_list_s(
                        *t,
                        text@,
                        tag@,
                        children@,
                        i as int,
                        k as int,
                    ),
                decreases children@.len() - k,
            {
                let c = children[k];
                assert((c as int) < i);
                let mut sub = tag_descendants(t, text, tag, c);
                r.append(&mut sub);
                k = k + 1;
            }
            assert(node_children_len(*t, i as int) == children@.len());
            r
        },
        Node::Text { .. } => {
            assert(r@ =~= collect_tag_s(*t, text@, tag@, i as int));
            r
        },
    }
}

/// All elements of the tree carrying class `cls`, in document order; the
/// executable side of [`by_class_s`].
pub fn elements_by_class(t: &Tree, text: &Vec<char>, cls: &Vec<char>) -> (r: Vec<usize>)
    requires
        tree_wf(*t, text@.len() as int),
    ensures
        r@ == by_class_s(*t, text@, cls@),
        forall|j: int| 0 <= j < r@.len() ==> (#[trigger] r@[j] as int) < t.nodes@.len(),
{
    let mut r: Vec<usize> = Vec::new();
    let mut k: usize = 0;
    while k < t.roots.len()
        invariant
            tree_wf(*t, text@.len() as int),
            k <= t.roots@.len(),
            r@ == collect_class_list_s(
                *t,
                text@,
                cls@,
                t.roots@,
                t.nodes@.len() as int,
                k as int,
            ),
            forall|j: int| 0 <= j < r@.len() ==> (#[trigger] r@[j] as int) < t.nodes@.len(),
        decreases t.roots@.len() - k,
    {
        let root = t.roots[k];
        assert((root as int) < t.nodes@.len());
        let mut sub = class_descendants(t, text, cls, root);
        proof {
            lemma_collect_class_in_bounds(*t, text@, cls@, root as int);
        }
        r.append(&mut sub);
        k = k + 1;
    }
    r
}

/// All elements of the tree with tag name `tag`, in document order; the
/// executable side of [`by_tag_s`].
pub fn elements_by_tag(t: &Tree, text: &Vec<char>, tag: &Vec<char>) -> (r: Vec<usize>)
    requires
        tree_wf(*t, text@.len() as int),
    ensures
        r@ == by_tag_s(*t, text@, tag@),
        forall|j: int| 0 <= j < r@.len() ==> (#[trigger] r@[j] as int) < t.nodes@.len(),
{
    let mut r: Vec<usize> = Vec::new();
    let mut k: usize = 0;
    while k < t.roots.len()
        invariant
            tree_wf(*t, text@.len() as int),
            k <= t.roots@.len(),
            r@ == collect_tag_list_s(*t, text@, tag@, t.roots@, t.nodes@.len() as int, k as int),
            forall|j: int| 0 <= j < r@.len() ==> (#[trigger] r@[j] as int) < t.nodes@.len(),
        decreases t.roots@.len() - k,
    {
        let root = t.roots[k];
        assert((root as int) < t.nodes@.len());
        let mut sub = tag_descendants(t, text, tag, root);
        proof {
            lemma_collect_tag_in_bounds(*t, text@, tag@, root as int);
        }
        r.append(&mut sub);
        k = k + 1;
    }
    r
}

/// Every index that the class collector returns is a valid arena index.
pub proof fn lemma_collect_class_in_bounds(t: Tree, text: Seq<char>, cls: Seq<char>, i: int)
    ensures
        forall|j: int|
            0 <= j < collect_class_s(t, text, cls, i).len() ==> (#[trigger] collect_class_s(
                t,
                text,
                cls,
                i,
            )[j] as int) < t.nodes@.len(),
    decreases i, node_children_len(t, i) + 1,
{
    broadcast use vstd::std_specs::vec::axiom_spec_len;

    if 0 <= i < t.nodes@.len() {
        match t.nodes@[i] {
            Node::Element { children, .. } => {
                lemma_collect_class_list_in_bounds(
                    t,
                    text,
                    cls,
                    children@,
                    i,
                    children@.len() as int,
                );
                let selfpart: Seq<usize> = if node_has_class(t, text, i, cls) {
                    seq![i as usize]
                } else {
                    Seq::empty()
                };
                let rest = collect_class_list_s(t, text, cls, children@, i, children@.len() as int);
                assert(collect_class_s(t, text, cls, i) == selfpart + rest);
                assert forall|j: int| 0 <= j < collect_class_s(t, text, cls, i).len() implies (
                #[trigger] collect_class_s(t, text, cls, i)[j] as int) < t.nodes@.len() by {
                    if j < selfpart.len() {
                        assert((selfpart + rest)[j] == selfpart[j]);
                    } else {
                        assert((selfpart + rest)[j] == rest[j - selfpart.len()]);
                    }
                }
            },
            Node::Text { .. } => {},
        }
    }
}

pub proof fn lemma_collect_class_list_in_bounds(
    t: Tree,
    text: Seq<char>,
    cls: Seq<char>,
    cs: Seq<usize>,
    bound: int,
    k: int,
)
    requires
        bound <= t.nodes@.len(),
    ensures
        forall|j: int|
            0 <= j < collect_class_list_s(t, text, cls, cs, bound, k).len() ==> (
            #[trigger] collect_class_list_s(t, text, cls, cs, bound, k)[j] as int)
                < t.nodes@.len(),
    decreases bound, k,
{
    if k > 0 {
        lemma_collect_class_list_in_bounds(t, text, cls, cs, bound, k - 1);
        let prev = collect_class_list_s(t, text, cls, cs, bound, k - 1);
        let last: Seq<usize> = if 0 <= (cs[k - 1] as int) < bound {
            collect_class_s(t, text, cls, cs[k - 1] as int)
        } else {
            Seq::empty()
        };
        if 0 <= (cs[k - 1] as int) < bound {
            lemma_collect_class_in_bounds(t, text, cls, cs[k - 1] as int);
        }
        assert(collect_class_list_s(t, text, cls, cs, bound, k) == prev + last);
        assert forall|j: int|
            0 <= j < collect_class_list_s(t, text, cls, cs, bound, k).len() implies (
        #[trigger] collect_class_list_s(t, text, cls, cs, bound, k)[j] as int)
            < t.nodes@.len() by {
            if j < prev.len() {
                assert((prev + last)[j] == prev[j]);
            } else {
                assert((prev + last)[j] == last[j - prev.len()]);
            }
        }
    }
}

/// Every index that the tag collector returns is a valid arena index.
pub proof fn lemma_collect_tag_in_bounds(t: Tree, text: Seq<char>, tag: Seq<char>, i: int)
    ensures
        forall|j: int|
            0 <= j < collect_tag_s(t, text, tag, i).len() ==> (#[trigger] collect_tag_s(
                t,
                text,
                tag,
                i,
            )[j] as int) < t.nodes@.len(),
    decreases i, node_children_len(t, i) + 1,
{
    broadcast use vstd::std_specs::vec::axiom_spec_len;

    if 0 <= i < t.nodes@.len() {
        match t.nodes@[i] {
            Node::Element { children, .. } => {
                lemma_collect_tag_list_in_bounds(t, text, tag, children@, i, children@.len() as int);
                let selfpart: Seq<usize> = if node_has_tag(t, text, i, tag) {
                    seq![i as usize]
                } else {
                    Seq::empty()
                };
                let rest = collect_tag_list_s(t, text, tag, children@, i, children@.len() as int);
                assert(collect_tag_s(t, text, tag, i) == selfpart + rest);
                assert forall|j: int| 0 <= j < collect_tag_s(t, text, tag, i).len() implies (
                #[trigger] collect_tag_s(t, text, tag, i)[j] as int) < t.nodes@.len() by {
                    if j < selfpart.len() {
                        assert((selfpart + rest)[j] == selfpart[j]);
                    } else {
                        assert((selfpart + rest)[j] == rest[j - selfpart.len()]);
                    }
                }
            },
            Node::Text { .. } => {},
        }
    }
}

pub proof fn lemma_collect_tag_list_in_bounds(
    t: Tree,
    text: Seq<char>,
    tag: Seq<char>,
    cs: Seq<usize>,
    bound: int,
    k: int,
)
    requires
        bound <= t.nodes@.len(),
    ensures
        forall|j: int|
            0 <= j < collect_tag_list_s(t, text, tag, cs, bound, k).len() ==> (
            #[trigger] collect_tag_list_s(t, text, tag, cs, bound, k)[j] as int) < t.nodes@.len(),
    decreases bound, k,
{
    if k > 0 {
        lemma_collect_tag_list_in_bounds(t, text, tag, cs, bound, k - 1);
        let prev = collect_tag_list_s(t, text, tag, cs, bound, k - 1);
        let last: Seq<usize> = if 0 <= (cs[k - 1] as int) < bound {
            collect_tag_s(t, text, tag, cs[k - 1] as int)
        } else {
            Seq::empty()
        };
        if 0 <= (cs[k - 1] as int) < bound {
            lemma_collect_tag_in_bounds(t, text, tag, cs[k - 1] as int);
        }
        assert(collect_tag_list_s(t, text, tag, cs, bound, k) == prev + last);
        assert forall|j: int|
            0 <= j < collect_tag_list_s(t, text, tag, cs, bound, k).len() implies (
        #[trigger] collect_tag_list_s(t, text, tag, cs, bound, k)[j] as int)
            < t.nodes@.len() by {
            if j < prev.len() {
                assert((prev + last)[j] == prev[j]);
            } else {
                assert((prev + last)[j] == last[j - prev.len()]);
            }
        }
    }
}

} // verus!
