//! What the grammar guarantees of well-formed documents: a canonical
//! rendering of trees, and proofs that parsing it gives the tree back.
use vstd::prelude::*;
use crate::grammar::{
    Step, scan_text, text_end, skip_space, word_end, word, value, char_at, tag_head, tag_end, span_of, opt_sub, block,
    element, elements, document_from, document, is_special, is_escapable, is_space, is_word_char,
};
use crate::tree::{ErrorKind, Node};

verus! {

/// Text made of characters that are not special and of escapes.
pub open spec fn valid_text(t: Seq<char>) -> bool
    decreases t.len(),
{
    if t.len() == 0 {
        true
    } else if !is_special(t[0]) {
        valid_text(t.subrange(1, t.len() as int))
    } else if t[0] == '\\' {
        t.len() >= 2 && is_escapable(t[1]) && valid_text(t.subrange(2, t.len() as int))
    } else {
        false
    }
}

/// A non-empty run of word characters: a tag name or an unquoted value.
pub open spec fn is_word(w: Seq<char>) -> bool {
    w.len() > 0 && forall|k: int| 0 <= k < w.len() ==> is_word_char(#[trigger] w[k])
}

/// A value that a tag head can carry: non-empty text.
pub open spec fn valid_value(v: Seq<char>) -> bool {
    v.len() > 0 && valid_text(v)
}

/// A value as written in a tag head: bare if it is a word, else quoted.
pub open spec fn render_value(v: Seq<char>) -> Seq<char> {
    if is_word(v) {
        v
    } else {
        seq!['"'] + v + seq!['"']
    }
}

/// The opening tag of a block with this name and value.
pub open spec fn render_head(name: Seq<char>, v: Option<Seq<char>>) -> Seq<char> {
    match v {
        Some(x) => seq!['['] + name + seq!['='] + render_value(x) + seq![']'],
        None => seq!['['] + name + seq![']'],
    }
}

/// The closing tag with this name.
pub open spec fn render_tail(name: Seq<char>) -> Seq<char> {
    seq!['[', '/'] + name + seq![']']
}

/// A node written back as text.
pub open spec fn render(n: Node) -> Seq<char>
    decreases n,
{
    match n {
        Node::Text(t) => t,
        Node::Block(name, v, kids) => render_head(name, v) + render_all(kids) + render_tail(name),
        Node::Eof => Seq::empty(),
    }
}

/// Nodes written back as text, one after another.
pub open spec fn render_all(ns: Seq<Node>) -> Seq<char>
    decreases ns,
{
    if ns.len() == 0 {
        Seq::empty()
    } else {
        render(ns[0]) + render_all(ns.subrange(1, ns.len() as int))
    }
}

/// A node that parsing can produce: non-empty valid text, or a block with a
/// word as name, a valid value if any, and well-formed children.
pub open spec fn wf_node(n: Node) -> bool
    decreases n,
{
    match n {
        Node::Text(t) => valid_value(t),
        Node::Block(name, v, kids) => is_word(name) && (v matches Some(x) ==> valid_value(x))
            && wf_nodes(kids),
        Node::Eof => false,
    }
}

/// Well-formed nodes of which no two texts are adjacent.
pub open spec fn wf_nodes(ns: Seq<Node>) -> bool
    decreases ns,
{
    if ns.len() == 0 {
        true
    } else {
        wf_node(ns[0]) && wf_nodes(ns.subrange(1, ns.len() as int))
            && !(ns.len() > 1 && ns[0] is Text && ns[1] is Text)
    }
}

/// `s` holds `x` at position `p`.
pub open spec fn holds_at(s: Seq<char>, p: int, x: Seq<char>) -> bool {
    0 <= p && p + x.len() <= s.len() && s.subrange(p, p + x.len()) == x
}

proof fn lemma_holds_split(s: Seq<char>, p: int, x: Seq<char>, y: Seq<char>)
    requires
        holds_at(s, p, x + y),
    ensures
        holds_at(s, p, x),
        holds_at(s, p + x.len(), y),
{
    let big = s.subrange(p, p + (x + y).len());
    assert(s.subrange(p, p + x.len()) =~= big.subrange(0, x.len() as int));
    assert(big.subrange(0, x.len() as int) =~= x);
    assert(s.subrange(p + x.len(), p + x.len() + y.len()) =~= big.subrange(x.len() as int, big.len() as int));
    assert(big.subrange(x.len() as int, big.len() as int) =~= y);
}

proof fn lemma_holds_char(s: Seq<char>, p: int, x: Seq<char>, k: int)
    requires
        holds_at(s, p, x),
        0 <= k < x.len(),
    ensures
        s[p + k] == x[k],
{
    assert(s.subrange(p, p + x.len())[k] == s[p + k]);
}

proof fn lemma_holds_tail(s: Seq<char>, p: int, x: Seq<char>, k: int)
    requires
        holds_at(s, p, x),
        0 <= k <= x.len(),
    ensures
        holds_at(s, p + k, x.subrange(k, x.len() as int)),
{
    assert(s.subrange(p + k, p + x.len()) =~= x.subrange(k, x.len() as int));
}

/// The run of word characters of `w` at `p` ends
/// where `w` does, when no word character follows.
proof fn lemma_word_end(s: Seq<char>, p: int, w: Seq<char>)
    requires
        holds_at(s, p, w),
        forall|k: int| 0 <= k < w.len() ==> is_word_char(#[trigger] w[k]),
        !(p + w.len() < s.len() && is_word_char(s[p + w.len()])),
    ensures
        word_end(s, p) == p + w.len(),
    decreases w.len(),
{
    if w.len() > 0 {
        lemma_holds_char(s, p, w, 0);
        lemma_holds_tail(s, p, w, 1);
        lemma_word_end(s, p + 1, w.subrange(1, w.len() as int));
    }
}

/// A valid text at `p`, followed by the end or by a special character other
/// than a backslash, is scanned exactly.
proof fn lemma_scan_text(s: Seq<char>, p: int, t: Seq<char>)
    requires
        holds_at(s, p, t),
        valid_text(t),
        p + t.len() == s.len() || (is_special(s[p + t.len()]) && s[p + t.len()] != '\\'),
    ensures
        scan_text(s, p) == Some(p + t.len()),
    decreases t.len(),
{
    if t.len() > 0 {
        lemma_holds_char(s, p, t, 0);
        if !is_special(t[0]) {
            lemma_holds_tail(s, p, t, 1);
            lemma_scan_text(s, p + 1, t.subrange(1, t.len() as int));
        } else {
            lemma_holds_char(s, p, t, 1);
            lemma_holds_tail(s, p, t, 2);
            lemma_scan_text(s, p + 2, t.subrange(2, t.len() as int));
        }
    }
}

proof fn lemma_wf_first(ns: Seq<Node>)
    requires
        wf_nodes(ns),
        ns.len() > 0,
    ensures
        wf_node(ns[0]),
{
}

/// A singleton is written out as its node, and is well formed if the node is.
proof fn lemma_single(n: Node)
    ensures
        render_all(seq![n]) == render(n),
        wf_nodes(seq![n]) == wf_node(n),
{
    let ns = seq![n];
    assert(ns.subrange(1, 1) =~= Seq::<Node>::empty());
    assert(render_all(ns.subrange(1, 1)) == Seq::<char>::empty());
    assert(wf_nodes(ns.subrange(1, 1)));
    assert(render(n) + Seq::<char>::empty() =~= render(n));
}

proof fn lemma_render_starts(n: Node)
    requires
        wf_node(n),
    ensures
        render(n).len() > 0,
        n is Block ==> render(n)[0] == '[',
{
    match n {
        Node::Block(name, v, kids) => {
            let h = render_head(name, v);
            assert(h[0] == '[');
            assert((h + render_all(kids) + render_tail(name))[0] == h[0]);
        },
        _ => {},
    }
}

/// The opening tag of a block is read back as its name and value.
proof fn lemma_tag_head(s: Seq<char>, p: int, name: Seq<char>, v: Option<Seq<char>>)
    requires
        is_word(name),
        v matches Some(x) ==> valid_value(x),
        holds_at(s, p, render_head(name, v)),
    ensures
        tag_head(s, p) matches Step::Done(j, (k, vs))
            && j == p + render_head(name, v).len() && span_of(s, k) == name && opt_sub(s, vs) == v,
{
    let b = p + 1 + name.len();
    match v {
        None => {
            lemma_holds_split(s, p, seq!['['] + name, seq![']']);
            lemma_holds_split(s, p, seq!['['], name);
            lemma_holds_char(s, p + 1, name, 0);
            lemma_holds_char(s, p, seq!['['], 0);
            lemma_holds_char(s, b, seq![']'], 0);
            lemma_word_end(s, p + 1, name);
        },
        Some(x) => {
            let rv = render_value(x);
            lemma_holds_split(s, p, seq!['['] + name + seq!['='] + rv, seq![']']);
            lemma_holds_split(s, p, seq!['['] + name + seq!['='], rv);
            lemma_holds_split(s, p, seq!['['] + name, seq!['=']);
            lemma_holds_split(s, p, seq!['['], name);
            lemma_holds_char(s, p + 1, name, 0);
            lemma_holds_char(s, p, seq!['['], 0);
            lemma_holds_char(s, b, seq!['='], 0);
            lemma_holds_char(s, b + 1 + rv.len(), seq![']'], 0);
            lemma_word_end(s, p + 1, name);
            if is_word(x) {
                lemma_holds_char(s, b + 1, x, 0);
                lemma_word_end(s, b + 1, x);
                assert(span_of(s, (b + 1, b + 1 + x.len())) == x);
            } else {
                lemma_holds_split(s, b + 1, seq!['"'] + x, seq!['"']);
                lemma_holds_split(s, b + 1, seq!['"'], x);
                lemma_holds_char(s, b + 1, seq!['"'], 0);
                lemma_holds_char(s, b + 2 + x.len(), seq!['"'], 0);
                lemma_scan_text(s, b + 2, x);
                assert(word_end(s, b + 1) == b + 1);
                assert(span_of(s, (b + 2, b + 2 + x.len())) == x);
            }
        },
    }
    assert(span_of(s, (p + 1, b)) == name);
}

/// A closing tag is read back as its name.
proof fn lemma_tag_end(s: Seq<char>, m: int, name: Seq<char>)
    requires
        is_word(name),
        holds_at(s, m, render_tail(name)),
    ensures
        tag_end(s, m) matches Step::Done(n, k) && n == m + render_tail(name).len()
            && span_of(s, k) == name,
{
    lemma_holds_split(s, m, seq!['[', '/'] + name, seq![']']);
    lemma_holds_split(s, m, seq!['[', '/'], name);
    lemma_holds_char(s, m, seq!['[', '/'], 0);
    lemma_holds_char(s, m, seq!['[', '/'], 1);
    lemma_holds_char(s, m + 2, name, 0);
    lemma_holds_char(s, m + 2 + name.len(), seq![']'], 0);
    assert(skip_space(s, m + 2) == m + 2);
    lemma_word_end(s, m + 2, name);
    assert(span_of(s, (m + 2, m + 2 + name.len())) == name);
}

/// A block written out with closing name `name2` parses as the block when
/// the names agree, and does not parse as a block otherwise.
proof fn lemma_block(
    s: Seq<char>,
    p: int,
    name: Seq<char>,
    v: Option<Seq<char>>,
    kids: Seq<Node>,
    name2: Seq<char>,
)
    requires
        is_word(name),
        is_word(name2),
        v matches Some(x) ==> valid_value(x),
        wf_nodes(kids),
        holds_at(s, p, render_head(name, v) + render_all(kids) + render_tail(name2)),
    ensures
        block(s, p) == (if name == name2 {
            Step::Done(
                p + (render_head(name, v) + render_all(kids) + render_tail(name2)).len(),
                Node::Block(name, v, kids),
            )
        } else {
            Step::<Node>::Miss
        }),
    decreases kids, 1int,
{
    let h = render_head(name, v);
    let r = render_all(kids);
    let t = render_tail(name2);
    lemma_holds_split(s, p, h + r, t);
    lemma_holds_split(s, p, h, r);
    let j = p + h.len();
    let m = j + r.len();
    lemma_tag_head(s, p, name, v);
    lemma_tag_end(s, m, name2);
    lemma_holds_split(s, m, seq!['[', '/'] + name2, seq![']']);
    lemma_holds_split(s, m, seq!['[', '/'], name2);
    lemma_holds_char(s, m, seq!['[', '/'], 0);
    lemma_holds_char(s, m, seq!['[', '/'], 1);
    lemma_elements(s, j, kids);
}

/// A well-formed node written out parses back as one element, provided a
/// text is followed by the end or by `[`.
proof fn lemma_node(s: Seq<char>, p: int, n: Node)
    requires
        wf_node(n),
        holds_at(s, p, render(n)),
        n is Text ==> (p + render(n).len() == s.len() || char_at(s, p + render(n).len(), '[')),
    ensures
        element(s, p) == Step::Done(p + render(n).len(), n),
    decreases n, 2int,
{
    lemma_render_starts(n);
    match n {
        Node::Text(t) => {
            lemma_scan_text(s, p, t);
            assert(s.subrange(p, p + t.len()) == t);
        },
        Node::Block(name, v, kids) => {
            lemma_holds_char(s, p, render(n), 0);
            assert(scan_text(s, p) == Some(p));
            lemma_block(s, p, name, v, kids, name);
        },
        Node::Eof => {},
    }
}

/// Well-formed nodes written out and followed by `[/` parse back as
/// elements that stop there.
proof fn lemma_elements(s: Seq<char>, p: int, ns: Seq<Node>)
    requires
        wf_nodes(ns),
        holds_at(s, p, render_all(ns)),
        char_at(s, p + render_all(ns).len(), '['),
        char_at(s, p + render_all(ns).len() + 1, '/'),
    ensures
        elements(s, p) == Step::Done(p + render_all(ns).len(), ns),
    decreases ns, 0int,
{
    if ns.len() == 0 {
        assert(scan_text(s, p) == Some(p));
        assert(tag_head(s, p) is Miss);
        assert(ns =~= Seq::<Node>::empty());
    } else {
        let n0 = ns[0];
        let rest = ns.subrange(1, ns.len() as int);
        lemma_holds_split(s, p, render(n0), render_all(rest));
        let q0 = p + render(n0).len();
        lemma_render_starts(n0);
        if rest.len() > 0 {
            assert(rest[0] == ns[1]);
            lemma_wf_first(rest);
            lemma_render_starts(rest[0]);
            assert(render_all(rest)[0] == render(rest[0])[0]);
            lemma_holds_char(s, q0, render_all(rest), 0);
        }
        lemma_node(s, p, n0);
        lemma_elements(s, q0, rest);
        assert(seq![n0] + rest =~= ns);
    }
}

/// Well-formed nodes written out up to the end of the input parse back as a
/// document.
proof fn lemma_document(s: Seq<char>, p: int, ns: Seq<Node>)
    requires
        wf_nodes(ns),
        holds_at(s, p, render_all(ns)),
        p + render_all(ns).len() == s.len(),
    ensures
        document_from(s, p) == Ok::<Seq<Node>, (ErrorKind, int)>(ns),
    decreases ns.len(),
{
    if ns.len() == 0 {
        assert(ns =~= Seq::<Node>::empty());
    } else {
        let n0 = ns[0];
        let rest = ns.subrange(1, ns.len() as int);
        lemma_holds_split(s, p, render(n0), render_all(rest));
        let q0 = p + render(n0).len();
        lemma_render_starts(n0);
        if rest.len() > 0 {
            assert(rest[0] == ns[1]);
            lemma_wf_first(rest);
            lemma_render_starts(rest[0]);
            assert(render_all(rest)[0] == render(rest[0])[0]);
            lemma_holds_char(s, q0, render_all(rest), 0);
        }
        lemma_node(s, p, n0);
        lemma_document(s, q0, rest);
        assert(seq![n0] + rest =~= ns);
    }
}

/// Round trip: well-formed nodes, written out with their tags, parse back
/// to the same nodes.
pub proof fn lemma_round_trip(ns: Seq<Node>)
    requires
        wf_nodes(ns),
    ensures
        document(render_all(ns)) == Ok::<Seq<Node>, (ErrorKind, int)>(ns),
{
    let s = render_all(ns);
    assert(s.subrange(0, s.len() as int) =~= s);
    lemma_document(s, 0, ns);
}

/// Text without unescaped special characters parses as a single text
/// element equal to the input.
pub proof fn lemma_plain_text(t: Seq<char>)
    requires
        t.len() > 0,
        valid_text(t),
    ensures
        document(t) == Ok::<Seq<Node>, (ErrorKind, int)>(seq![Node::Text(t)]),
{
    let ns = seq![Node::Text(t)];
    lemma_single(Node::Text(t));
    lemma_round_trip(ns);
}

/// A `[name]...[/name]` or `[name=value]...[/name]` pair parses as exactly
/// one block with that name and value, whose children are the nodes written
/// between the tags.
pub proof fn lemma_single_block(name: Seq<char>, v: Option<Seq<char>>, kids: Seq<Node>)
    requires
        is_word(name),
        v matches Some(x) ==> valid_value(x),
        wf_nodes(kids),
    ensures
        document(render_head(name, v) + render_all(kids) + render_tail(name))
            == Ok::<Seq<Node>, (ErrorKind, int)>(seq![Node::Block(name, v, kids)]),
{
    let ns = seq![Node::Block(name, v, kids)];
    lemma_single(Node::Block(name, v, kids));
    lemma_round_trip(ns);
}

/// A block whose closing tag names another tag fails the whole parse,
/// whatever follows it.
pub proof fn lemma_mismatch_fails(
    name: Seq<char>,
    v: Option<Seq<char>>,
    kids: Seq<Node>,
    name2: Seq<char>,
    rest: Seq<char>,
)
    requires
        is_word(name),
        is_word(name2),
        name != name2,
        v matches Some(x) ==> valid_value(x),
        wf_nodes(kids),
    ensures
        document(render_head(name, v) + render_all(kids) + render_tail(name2) + rest) is Err,
{
    let b = render_head(name, v) + render_all(kids) + render_tail(name2);
    let s = b + rest;
    assert(s.subrange(0, b.len() as int) =~= b);
    lemma_block(s, 0, name, v, kids, name2);
    assert(s[0] == b[0]);
    assert(b[0] == '[');
    assert(scan_text(s, 0) == Some(0int));
}

/// Text between the tags of a block, newlines included, is kept verbatim as
/// the block's single child.
pub proof fn lemma_text_in_block(name: Seq<char>, v: Option<Seq<char>>, t: Seq<char>)
    requires
        is_word(name),
        v matches Some(x) ==> valid_value(x),
        t.len() > 0,
        valid_text(t),
    ensures
        document(render_head(name, v) + t + render_tail(name))
            == Ok::<Seq<Node>, (ErrorKind, int)>(seq![Node::Block(name, v, seq![Node::Text(t)])]),
{
    lemma_single(Node::Text(t));
    lemma_single_block(name, v, seq![Node::Text(t)]);
}

/// Only whitespace.
pub open spec fn is_blank(w: Seq<char>) -> bool {
    forall|k: int| 0 <= k < w.len() ==> is_space(#[trigger] w[k])
}

/// An opening tag with whitespace `w1` before the name, `w2` after it, and,
/// with a value, `w3` after `=` and `w4` after the value.
pub open spec fn spaced_head(
    name: Seq<char>,
    v: Option<Seq<char>>,
    w1: Seq<char>,
    w2: Seq<char>,
    w3: Seq<char>,
    w4: Seq<char>,
) -> Seq<char> {
    match v {
        Some(x) => seq!['['] + w1 + name + w2 + seq!['='] + w3 + render_value(x) + w4 + seq![']'],
        None => seq!['['] + w1 + name + w2 + seq![']'],
    }
}

/// A closing tag with whitespace `w5` before the name and `w6` after it.
pub open spec fn spaced_tail(name: Seq<char>, w5: Seq<char>, w6: Seq<char>) -> Seq<char> {
    seq!['[', '/'] + w5 + name + w6 + seq![']']
}

proof fn lemma_skip_space(s: Seq<char>, p: int, w: Seq<char>)
    requires
        holds_at(s, p, w),
        is_blank(w),
        !(p + w.len() < s.len() && is_space(s[p + w.len()])),
    ensures
        skip_space(s, p) == p + w.len(),
    decreases w.len(),
{
    if w.len() > 0 {
        lemma_holds_char(s, p, w, 0);
        lemma_holds_tail(s, p, w, 1);
        lemma_skip_space(s, p + 1, w.subrange(1, w.len() as int));
    }
}

/// The character at `p`, where `s` holds blank `w` and then `x`, is a space
/// or the first of `x`.
proof fn lemma_after_blank(s: Seq<char>, p: int, w: Seq<char>, x: Seq<char>)
    requires
        holds_at(s, p, w + x),
        is_blank(w),
        x.len() > 0,
    ensures
        is_space(s[p]) || s[p] == x[0],
{
    lemma_holds_split(s, p, w, x);
    if w.len() > 0 {
        lemma_holds_char(s, p, w, 0);
    } else {
        lemma_holds_char(s, p, x, 0);
    }
}

/// An opening tag with whitespace around its name, `=`, value and closing
/// bracket is read as its name and value, whatever follows it.
pub proof fn lemma_spaced_head(
    s: Seq<char>,
    name: Seq<char>,
    v: Option<Seq<char>>,
    w1: Seq<char>,
    w2: Seq<char>,
    w3: Seq<char>,
    w4: Seq<char>,
)
    requires
        is_word(name),
        v matches Some(x) ==> valid_value(x),
        is_blank(w1),
        is_blank(w2),
        is_blank(w3),
        is_blank(w4),
        holds_at(s, 0, spaced_head(name, v, w1, w2, w3, w4)),
    ensures
        tag_head(s, 0) matches Step::Done(j, (k, vs))
            && j == spaced_head(name, v, w1, w2, w3, w4).len() && span_of(s, k) == name
            && opt_sub(s, vs) == v,
{
    let a: int = 1 + w1.len() as int;
    let b: int = a + name.len();
    match v {
        None => {
            let c: int = b + w2.len();
            lemma_holds_split(s, 0, seq!['['] + w1 + name + w2, seq![']']);
            lemma_holds_split(s, 0, seq!['['] + w1 + name, w2);
            lemma_holds_split(s, 0, seq!['['] + w1, name);
            lemma_holds_split(s, 0, seq!['['], w1);
            lemma_holds_char(s, 0, seq!['['], 0);
            lemma_holds_char(s, a, name, 0);
            lemma_holds_char(s, c, seq![']'], 0);
            assert(holds_at(s, 1, w1 + name)) by {
                assert(seq!['['] + w1 + name =~= seq!['['] + (w1 + name));
                lemma_holds_split(s, 0, seq!['['], w1 + name);
            }
            lemma_after_blank(s, 1, w1, name);
            lemma_skip_space(s, 1, w1);
            assert(holds_at(s, b, w2 + seq![']'])) by {
                assert(seq!['['] + w1 + name + w2 + seq![']'] =~= seq!['['] + w1 + name + (w2 + seq![']']));
                lemma_holds_split(s, 0, seq!['['] + w1 + name, w2 + seq![']']);
            }
            lemma_after_blank(s, b, w2, seq![']']);
            lemma_word_end(s, a, name);
            lemma_skip_space(s, b, w2);
        },
        Some(x) => {
            let rv = render_value(x);
            let e: int = b + w2.len();
            let f: int = e + 1 + w3.len();
            let g: int = f + rv.len();
            let h: int = g + w4.len();
            let pre = seq!['['] + w1 + name + w2 + seq!['='] + w3;
            lemma_holds_split(s, 0, pre + rv + w4, seq![']']);
            lemma_holds_split(s, 0, pre + rv, w4);
            lemma_holds_split(s, 0, pre, rv);
            lemma_holds_split(s, 0, seq!['['] + w1 + name + w2 + seq!['='], w3);
            lemma_holds_split(s, 0, seq!['['] + w1 + name + w2, seq!['=']);
            lemma_holds_split(s, 0, seq!['['] + w1 + name, w2);
            lemma_holds_split(s, 0, seq!['['] + w1, name);
            lemma_holds_split(s, 0, seq!['['], w1);
            lemma_holds_char(s, 0, seq!['['], 0);
            lemma_holds_char(s, a, name, 0);
            lemma_holds_char(s, e, seq!['='], 0);
            lemma_holds_char(s, h, seq![']'], 0);
            lemma_holds_char(s, f, rv, 0);
            assert(holds_at(s, 1, w1 + name)) by {
                assert(seq!['['] + w1 + name =~= seq!['['] + (w1 + name));
                lemma_holds_split(s, 0, seq!['['], w1 + name);
            }
            lemma_after_blank(s, 1, w1, name);
            lemma_skip_space(s, 1, w1);
            assert(holds_at(s, b, w2 + seq!['='])) by {
                assert(seq!['['] + w1 + name + w2 + seq!['='] =~= seq!['['] + w1 + name + (w2 + seq!['=']));
                lemma_holds_split(s, 0, seq!['['] + w1 + name, w2 + seq!['=']);
            }
            lemma_after_blank(s, b, w2, seq!['=']);
            lemma_word_end(s, a, name);
            lemma_skip_space(s, b, w2);
            assert(holds_at(s, g, w4 + seq![']'])) by {
                assert(pre + rv + w4 + seq![']'] =~= pre + rv + (w4 + seq![']']));
                lemma_holds_split(s, 0, pre + rv, w4 + seq![']']);
            }
            lemma_after_blank(s, g, w4, seq![']']);
            lemma_skip_space(s, g, w4);
            if is_word(x) {
                assert(rv == x);
                lemma_skip_space(s, e + 1, w3);
                lemma_word_end(s, f, x);
                assert(span_of(s, (f, g)) == x);
            } else {
                lemma_holds_split(s, f, seq!['"'] + x, seq!['"']);
                lemma_holds_split(s, f, seq!['"'], x);
                lemma_holds_char(s, f + 1 + x.len(), seq!['"'], 0);
                lemma_skip_space(s, e + 1, w3);
                lemma_scan_text(s, f + 1, x);
                assert(word_end(s, f) == f);
                assert(span_of(s, (f + 1, f + 1 + x.len())) == x);
            }
        },
    }
    assert(span_of(s, (a, b)) == name);
}

/// A closing tag with whitespace around its name is read as that name,
/// whatever follows it.
pub proof fn lemma_spaced_tail(s: Seq<char>, m: int, name: Seq<char>, w5: Seq<char>, w6: Seq<char>)
    requires
        is_word(name),
        is_blank(w5),
        is_blank(w6),
        holds_at(s, m, spaced_tail(name, w5, w6)),
    ensures
        tag_end(s, m) matches Step::Done(n, k) && n == m + spaced_tail(name, w5, w6).len()
            && span_of(s, k) == name,
        char_at(s, m, '['),
        char_at(s, m + 1, '/'),
{
    let a: int = m + 2 + w5.len();
    let b: int = a + name.len();
    let c: int = b + w6.len();
    lemma_holds_split(s, m, seq!['[', '/'] + w5 + name + w6, seq![']']);
    lemma_holds_split(s, m, seq!['[', '/'] + w5 + name, w6);
    lemma_holds_split(s, m, seq!['[', '/'] + w5, name);
    lemma_holds_split(s, m, seq!['[', '/'], w5);
    lemma_holds_char(s, m, seq!['[', '/'], 0);
    lemma_holds_char(s, m, seq!['[', '/'], 1);
    lemma_holds_char(s, a, name, 0);
    lemma_holds_char(s, c, seq![']'], 0);
    lemma_skip_space(s, m + 2, w5);
    assert(holds_at(s, b, w6 + seq![']'])) by {
        assert(seq!['[', '/'] + w5 + name + w6 + seq![']'] =~= seq!['[', '/'] + w5 + name + (w6 + seq![']']));
        lemma_holds_split(s, m, seq!['[', '/'] + w5 + name, w6 + seq![']']);
    }
    lemma_after_blank(s, b, w6, seq![']']);
    lemma_word_end(s, a, name);
    lemma_skip_space(s, b, w6);
    assert(skip_space(s, a) == a);
    assert(span_of(s, (a, b)) == name);
}

#[verifier::rlimit(80)]
proof fn lemma_spaced_block_at(
    s: Seq<char>,
    name: Seq<char>,
    v: Option<Seq<char>>,
    kids: Seq<Node>,
    w1: Seq<char>,
    w2: Seq<char>,
    w3: Seq<char>,
    w4: Seq<char>,
    w5: Seq<char>,
    w6: Seq<char>,
)
    requires
        is_word(name),
        v matches Some(x) ==> valid_value(x),
        wf_nodes(kids),
        is_blank(w1),
        is_blank(w2),
        is_blank(w3),
        is_blank(w4),
        is_blank(w5),
        is_blank(w6),
        s == spaced_head(name, v, w1, w2, w3, w4) + render_all(kids) + spaced_tail(name, w5, w6),
    ensures
        block(s, 0) == Step::Done(s.len() as int, Node::Block(name, v, kids)),
        s[0] == '[',
{
    let hd = spaced_head(name, v, w1, w2, w3, w4);
    let r = render_all(kids);
    let tl = spaced_tail(name, w5, w6);
    assert(s.subrange(0, s.len() as int) =~= s);
    lemma_holds_split(s, 0, hd + r, tl);
    lemma_holds_split(s, 0, hd, r);
    lemma_spaced_head(s, name, v, w1, w2, w3, w4);
    lemma_spaced_tail(s, (hd.len() + r.len()) as int, name, w5, w6);
    lemma_elements(s, hd.len() as int, kids);
}

/// Whitespace around the name, the `=`, the value and the closing bracket
/// of a tag head, and around the name of a closing tag, is skipped: the
/// pair parses as the block it would be without it.
#[verifier::rlimit(40)]
pub proof fn lemma_spaced_block(
    name: Seq<char>,
    v: Option<Seq<char>>,
    kids: Seq<Node>,
    w1: Seq<char>,
    w2: Seq<char>,
    w3: Seq<char>,
    w4: Seq<char>,
    w5: Seq<char>,
    w6: Seq<char>,
)
    requires
        is_word(name),
        v matches Some(x) ==> valid_value(x),
        wf_nodes(kids),
        is_blank(w1),
        is_blank(w2),
        is_blank(w3),
        is_blank(w4),
        is_blank(w5),
        is_blank(w6),
    ensures
        document(spaced_head(name, v, w1, w2, w3, w4) + render_all(kids) + spaced_tail(name, w5, w6))
            == Ok::<Seq<Node>, (ErrorKind, int)>(seq![Node::Block(name, v, kids)]),
{
    let s = spaced_head(name, v, w1, w2, w3, w4) + render_all(kids) + spaced_tail(name, w5, w6);
    let n = Node::Block(name, v, kids);
    lemma_spaced_block_at(s, name, v, kids, w1, w2, w3, w4, w5, w6);
    assert(s[0] == '[');
    assert(scan_text(s, 0) == Some(0int));
    assert(element(s, 0) == Step::Done(s.len() as int, n));
    assert(document_from(s, s.len() as int) == Ok::<Seq<Node>, (ErrorKind, int)>(Seq::empty()));
    assert(seq![n] + Seq::<Node>::empty() =~= seq![n]);
}

/// A node with no end-of-input marker in it.
pub open spec fn node_without_end(n: Node) -> bool
    decreases n,
{
    match n {
        Node::Text(_) => true,
        Node::Block(_, _, kids) => without_end(kids),
        Node::Eof => false,
    }
}

/// Nodes with no end-of-input marker in any of them.
pub open spec fn without_end(ns: Seq<Node>) -> bool
    decreases ns,
{
    ns.len() == 0 || (node_without_end(ns[0]) && without_end(ns.subrange(1, ns.len() as int)))
}

proof fn lemma_cons_without_end(e: Node, es: Seq<Node>)
    requires
        node_without_end(e),
        without_end(es),
    ensures
        without_end(seq![e] + es),
{
    assert((seq![e] + es).subrange(1, es.len() + 1int) =~= es);
}

proof fn lemma_element_without_end(s: Seq<char>, i: int)
    ensures
        element(s, i) matches Step::Done(n, e) ==> (i < n ==> node_without_end(e)),
    decreases s.len() - i, 2int,
{
    if i < s.len() && text_end(s, i) is None {
        lemma_block_without_end(s, i);
    }
}

proof fn lemma_block_without_end(s: Seq<char>, i: int)
    ensures
        block(s, i) matches Step::Done(_, e) ==> node_without_end(e),
    decreases s.len() - i, 1int,
{
    if let Step::Done(j, _) = tag_head(s, i) {
        if i < j <= s.len() {
            lemma_elements_without_end(s, j);
        }
    }
}

proof fn lemma_elements_without_end(s: Seq<char>, i: int)
    ensures
        elements(s, i) matches Step::Done(_, es) ==> without_end(es),
    decreases s.len() - i, 3int,
{
    if let Step::Done(n, e) = element(s, i) {
        if i < n <= s.len() {
            lemma_element_without_end(s, i);
            lemma_elements_without_end(s, n);
            if let Step::Done(_, es) = elements(s, n) {
                lemma_cons_without_end(e, es);
            }
        }
    }
}

proof fn lemma_document_without_end(s: Seq<char>, i: int)
    ensures
        document_from(s, i) matches Ok(ns) ==> without_end(ns),
    decreases s.len() - i,
{
    if i < s.len() {
        if let Step::Done(n, e) = element(s, i) {
            if i < n <= s.len() {
                lemma_element_without_end(s, i);
                lemma_document_without_end(s, n);
                if let Ok(es) = document_from(s, n) {
                    lemma_cons_without_end(e, es);
                }
            }
        }
    }
}

/// A parsed document holds no end-of-input marker, at any depth.
pub proof fn lemma_no_end_marker(s: Seq<char>)
    ensures
        document(s) matches Ok(ns) ==> without_end(ns),
{
    lemma_document_without_end(s, 0);
}

/// A closing tag whose name is quoted.
pub open spec fn quoted_tail(name: Seq<char>, w5: Seq<char>, w6: Seq<char>) -> Seq<char> {
    seq!['[', '/'] + w5 + seq!['"'] + name + seq!['"'] + w6 + seq![']']
}

/// A closing tag with a quoted name, whitespace around it, is read as the
/// name without its quotes, whatever follows it.
pub proof fn lemma_quoted_tail(s: Seq<char>, m: int, name: Seq<char>, w5: Seq<char>, w6: Seq<char>)
    requires
        valid_value(name),
        is_blank(w5),
        is_blank(w6),
        holds_at(s, m, quoted_tail(name, w5, w6)),
    ensures
        tag_end(s, m) matches Step::Done(n, k) && n == m + quoted_tail(name, w5, w6).len()
            && span_of(s, k) == name,
{
    let a: int = m + 2 + w5.len();
    let b: int = a + 1 + name.len();
    let c: int = b + 1 + w6.len();
    let pre = seq!['[', '/'] + w5;
    lemma_holds_split(s, m, pre + seq!['"'] + name + seq!['"'] + w6, seq![']']);
    lemma_holds_split(s, m, pre + seq!['"'] + name + seq!['"'], w6);
    lemma_holds_split(s, m, pre + seq!['"'] + name, seq!['"']);
    lemma_holds_split(s, m, pre + seq!['"'], name);
    lemma_holds_split(s, m, pre, seq!['"']);
    lemma_holds_split(s, m, seq!['[', '/'], w5);
    lemma_holds_char(s, m, seq!['[', '/'], 0);
    lemma_holds_char(s, m, seq!['[', '/'], 1);
    lemma_holds_char(s, a, seq!['"'], 0);
    lemma_holds_char(s, b, seq!['"'], 0);
    lemma_holds_char(s, c, seq![']'], 0);
    lemma_skip_space(s, m + 2, w5);
    assert(holds_at(s, b + 1, w6 + seq![']'])) by {
        assert(pre + seq!['"'] + name + seq!['"'] + w6 + seq![']'] =~= pre + seq!['"'] + name + seq!['"'] + (w6 + seq![']']));
        lemma_holds_split(s, m, pre + seq!['"'] + name + seq!['"'], w6 + seq![']']);
    }
    lemma_after_blank(s, b + 1, w6, seq![']']);
    lemma_skip_space(s, b + 1, w6);
    lemma_scan_text(s, a + 1, name);
    assert(skip_space(s, a) == a);
    assert(word_end(s, a) == a);
    assert(span_of(s, (a + 1, b)) == name);
}

/// Blocks nested one inside the other, outermost first, the innermost empty.
pub open spec fn nest(names: Seq<Seq<char>>) -> Seq<Node>
    decreases names.len(),
{
    if names.len() == 0 {
        Seq::empty()
    } else {
        seq![Node::Block(names[0], None, nest(names.subrange(1, names.len() as int)))]
    }
}

proof fn lemma_nest_wf(names: Seq<Seq<char>>)
    requires
        forall|k: int| 0 <= k < names.len() ==> is_word(#[trigger] names[k]),
    ensures
        wf_nodes(nest(names)),
    decreases names.len(),
{
    if names.len() > 0 {
        let rest = names.subrange(1, names.len() as int);
        assert forall|k: int| 0 <= k < rest.len() implies is_word(#[trigger] rest[k]) by {
            assert(rest[k] == names[k + 1]);
        }
        lemma_nest_wf(rest);
        assert(is_word(names[0]));
        lemma_single(Node::Block(names[0], None, nest(rest)));
    }
}

/// Nesting has no depth limit: `[a][b]...[/b][/a]` with any number of
/// names parses as that chain of blocks, each the single child of the one
/// around it.
pub proof fn lemma_nesting(names: Seq<Seq<char>>)
    requires
        forall|k: int| 0 <= k < names.len() ==> is_word(#[trigger] names[k]),
    ensures
        document(render_all(nest(names))) == Ok::<Seq<Node>, (ErrorKind, int)>(nest(names)),
{
    lemma_nest_wf(names);
    lemma_round_trip(nest(names));
}

proof fn lemma_scan_valid(s: Seq<char>, i: int)
    requires
        0 <= i <= s.len(),
    ensures
        scan_text(s, i) matches Some(e) ==> i <= e <= s.len() && valid_text(s.subrange(i, e))
            && (e == s.len() || (is_special(s[e]) && s[e] != '\\')),
    decreases s.len() - i,
{
    if i < s.len() {
        if !is_special(s[i]) {
            lemma_scan_valid(s, i + 1);
            if let Some(e) = scan_text(s, i + 1) {
                assert(s.subrange(i, e).subrange(1, e - i) =~= s.subrange(i + 1, e));
            }
        } else if s[i] == '\\' {
            if i + 1 < s.len() && is_escapable(s[i + 1]) {
                lemma_scan_valid(s, i + 2);
                if let Some(e) = scan_text(s, i + 2) {
                    assert(s.subrange(i, e).subrange(2, e - i) =~= s.subrange(i + 2, e));
                }
            }
        } else {
            assert(s.subrange(i, i).len() == 0);
        }
    } else {
        assert(s.subrange(i, i).len() == 0);
    }
}

proof fn lemma_word_chars(s: Seq<char>, a: int)
    requires
        0 <= a <= s.len(),
    ensures
        a <= word_end(s, a) <= s.len(),
        forall|k: int| a <= k < word_end(s, a) ==> is_word_char(#[trigger] s[k]),
    decreases s.len() - a,
{
    if a < s.len() && is_word_char(s[a]) {
        lemma_word_chars(s, a + 1);
    }
}

proof fn lemma_skip_bounds(s: Seq<char>, a: int)
    requires
        0 <= a <= s.len(),
    ensures
        a <= skip_space(s, a) <= s.len(),
    decreases s.len() - a,
{
    if a < s.len() && is_space(s[a]) {
        lemma_skip_bounds(s, a + 1);
    }
}

proof fn lemma_word_valid(w: Seq<char>)
    requires
        forall|k: int| 0 <= k < w.len() ==> is_word_char(#[trigger] w[k]),
    ensures
        valid_text(w),
    decreases w.len(),
{
    if w.len() > 0 {
        let t = w.subrange(1, w.len() as int);
        assert(is_word_char(w[0]));
        assert forall|k: int| 0 <= k < t.len() implies is_word_char(#[trigger] t[k]) by {
            assert(t[k] == w[k + 1]);
        }
        lemma_word_valid(t);
    }
}

proof fn lemma_word_span(s: Seq<char>, i: int)
    requires
        0 <= i <= s.len(),
    ensures
        word(s, i) matches Some((a, b)) ==> is_word(span_of(s, (a, b))) && valid_value(span_of(s, (a, b)))
            && i <= a < b <= s.len(),
{
    lemma_skip_bounds(s, i);
    let a = skip_space(s, i);
    lemma_word_chars(s, a);
    let b = word_end(s, a);
    if b > a {
        let w = s.subrange(a, b);
        assert forall|k: int| 0 <= k < w.len() implies is_word_char(#[trigger] w[k]) by {
            assert(w[k] == s[a + k]);
        }
        lemma_word_valid(w);
    }
}

proof fn lemma_value_span(s: Seq<char>, i: int)
    requires
        0 <= i <= s.len(),
    ensures
        value(s, i) matches Step::Done(n, sp) ==> valid_value(span_of(s, sp)) && i < n <= s.len(),
{
    lemma_word_span(s, i);
    if word(s, i) is None && char_at(s, i, '"') {
        lemma_scan_valid(s, i + 1);
    }
}

proof fn lemma_tag_head_wf(s: Seq<char>, i: int)
    requires
        0 <= i <= s.len(),
    ensures
        tag_head(s, i) matches Step::Done(_, (k, v)) ==> is_word(span_of(s, k))
            && (v matches Some(sp) ==> valid_value(span_of(s, sp))),
{
    if char_at(s, i, '[') {
        lemma_word_span(s, i + 1);
        if let Some((a, b)) = word(s, i + 1) {
            let e = skip_space(s, b);
            lemma_skip_bounds(s, b);
            if char_at(s, e, '=') {
                lemma_skip_bounds(s, e + 1);
                lemma_value_span(s, skip_space(s, e + 1));
            }
        }
    }
}

proof fn lemma_element_wf(s: Seq<char>, i: int)
    requires
        0 <= i <= s.len(),
    ensures
        element(s, i) matches Step::Done(n, e) ==> (i < n ==> wf_node(e)),
        element(s, i) matches Step::Done(n, e) ==> (e is Text ==> (n == s.len() || (is_special(s[n]) && s[n] != '\\'))),
        element(s, i) matches Step::Done(n, e) ==> (e is Text ==> !(i < s.len() && is_special(s[i]) && s[i] != '\\')),
    decreases s.len() - i, 2int,
{
    if i < s.len() {
        lemma_scan_valid(s, i);
        if text_end(s, i) is None {
            lemma_block_wf(s, i);
        }
    }
}

proof fn lemma_block_wf(s: Seq<char>, i: int)
    requires
        0 <= i <= s.len(),
    ensures
        block(s, i) matches Step::Done(_, e) ==> wf_node(e) && !(e is Text),
    decreases s.len() - i, 1int,
{
    lemma_tag_head_wf(s, i);
    if let Step::Done(j, _) = tag_head(s, i) {
        if i < j <= s.len() {
            lemma_elements_wf(s, j);
        }
    }
}

proof fn lemma_elements_wf(s: Seq<char>, i: int)
    requires
        0 <= i <= s.len(),
    ensures
        elements(s, i) matches Step::Done(_, es) ==> wf_nodes(es)
            && (es.len() > 0 && i < s.len() && is_special(s[i]) && s[i] != '\\' ==> !(es[0] is Text)),
    decreases s.len() - i, 3int,
{
    if let Step::Done(n, e) = element(s, i) {
        if i < n <= s.len() {
            lemma_element_wf(s, i);
            lemma_elements_wf(s, n);
            if let Step::Done(_, rest) = elements(s, n) {
                let es = seq![e] + rest;
                assert(es.subrange(1, es.len() as int) =~= rest);
                assert(es[0] == e);
                if rest.len() > 0 {
                    assert(es[1] == rest[0]);
                }
            }
        }
    }
}

proof fn lemma_document_wf(s: Seq<char>, i: int)
    requires
        0 <= i <= s.len(),
    ensures
        document_from(s, i) matches Ok(es) ==> wf_nodes(es)
            && (es.len() > 0 && i < s.len() && is_special(s[i]) && s[i] != '\\' ==> !(es[0] is Text)),
    decreases s.len() - i,
{
    if i < s.len() {
        if let Step::Done(n, e) = element(s, i) {
            if i < n <= s.len() {
                lemma_element_wf(s, i);
                lemma_document_wf(s, n);
                if let Ok(rest) = document_from(s, n) {
                    let es = seq![e] + rest;
                    assert(es.subrange(1, es.len() as int) =~= rest);
                    assert(es[0] == e);
                    if rest.len() > 0 {
                        assert(es[1] == rest[0]);
                    }
                }
            }
        }
    } else {
        assert(wf_nodes(Seq::<Node>::empty()));
    }
}

/// Every parsed document is well formed, so writing it out again, texts as
/// they were and tags with bare or quoted values, parses back to the same
/// tree.
pub proof fn lemma_reparse(s: Seq<char>)
    ensures
        document(s) matches Ok(ns) ==> wf_nodes(ns)
            && document(render_all(ns)) == Ok::<Seq<Node>, (ErrorKind, int)>(ns),
{
    lemma_document_wf(s, 0);
    if let Ok(ns) = document(s) {
        lemma_round_trip(ns);
    }
}

} // verus!
