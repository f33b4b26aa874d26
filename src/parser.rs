//! The executable parser. Each rule is proved to compute what the rule of the
//! same meaning in [`crate::grammar`] describes.
use vstd::prelude::*;
use vstd::string::*;
use crate::grammar::{
    Step, scan_text, text_end, skip_space, word_end, word, quoted, value, key_pair, tag_head,
    tag_end, block, element, elements, document_from, document, is_special, is_escapable, is_space,
};
use crate::tree::{Block, Element, ErrorKind, Node, ParseError, models, lemma_models_push};

verus! {

broadcast use vstd::string::group_string_axioms;

/// The characters of `input`, in order.
fn chars_of(input: &str) -> (r: Vec<char>)
    ensures
        r@ == input@,
{
    let mut v: Vec<char> = Vec::new();
    for c in it: input.chars()
        invariant
            it.seq() == input@,
            v@ == it.seq().take(it.index() as int),
    {
        v.push(c);
    }
    v
}

fn is_special_char(c: char) -> (r: bool)
    ensures
        r == is_special(c),
{
    c == '"' || c == '\\' || c == '[' || c == ']' || c == '/' || c == '='
}

fn is_escapable_char(c: char) -> (r: bool)
    ensures
        r == is_escapable(c),
{
    c == 'n' || is_special_char(c)
}

fn is_space_char(c: char) -> (r: bool)
    ensures
        r == is_space(c),
{
    c == ' ' || c == '\t' || c == '\n' || c == '\r'
}

/// A run of text with escapes from `i`; `None` where no run starts there.
fn escaped_str(cs: &Vec<char>, i: usize) -> (r: Option<usize>)
    requires
        i <= cs@.len(),
    ensures
        match r {
            Some(e) => text_end(cs@, i as int) == Some(e as int) && i <= e <= cs@.len(),
            None => text_end(cs@, i as int) is None,
        },
{
    if i >= cs.len() {
        return Some(i);
    }
    let mut j: usize = i;
    while j < cs.len() && !(is_special_char(cs[j]) && cs[j] != '\\')
        invariant
            i <= j <= cs@.len(),
            scan_text(cs@, i as int) == scan_text(cs@, j as int),
        decreases cs@.len() - j,
    {
        if cs[j] == '\\' {
            if j + 1 < cs.len() && is_escapable_char(cs[j + 1]) {
                j = j + 2;
            } else {
                return None;
            }
        } else {
            j = j + 1;
        }
    }
    if j > i {
        Some(j)
    } else {
        None
    }
}

fn skip_ws(cs: &Vec<char>, i: usize) -> (r: usize)
    requires
        i <= cs@.len(),
    ensures
        r == skip_space(cs@, i as int),
        i <= r <= cs@.len(),
{
    let mut j: usize = i;
    while j < cs.len() && is_space_char(cs[j])
        invariant
            i <= j <= cs@.len(),
            skip_space(cs@, i as int) == skip_space(cs@, j as int),
        decreases cs@.len() - j,
    {
        j = j + 1;
    }
    j
}

/// A word after optional whitespace, as a span.
fn string_without_space(cs: &Vec<char>, i: usize) -> (r: Option<(usize, usize)>)
    requires
        i <= cs@.len(),
    ensures
        match r {
            Some((a, b)) => word(cs@, i as int) == Some((a as int, b as int)) && i <= a < b <= cs@.len(),
            None => word(cs@, i as int) is None,
        },
{
    let a = skip_ws(cs, i);
    let mut b: usize = a;
    while b < cs.len() && !is_special_char(cs[b]) && !is_space_char(cs[b])
        invariant
            a <= b <= cs@.len(),
            word_end(cs@, a as int) == word_end(cs@, b as int),
        decreases cs@.len() - b,
    {
        b = b + 1;
    }
    if b > a {
        Some((a, b))
    } else {
        None
    }
}

spec fn opt_span(v: Option<(usize, usize)>) -> Option<(int, int)> {
    match v {
        Some((a, b)) => Some((a as int, b as int)),
        None => None,
    }
}

/// Why a rule did not produce a result: it does not apply, or it failed.
enum Stop {
    Miss,
    Fail(ParseError),
}

/// `e` is the executable form of the unsuccessful step `st`.
spec fn stopped_as<T>(e: Stop, st: Step<T>) -> bool {
    match e {
        Stop::Miss => st is Miss,
        Stop::Fail(pe) => st == Step::<T>::Fail(pe.kind, pe.offset as int),
    }
}

/// `r` is the executable form of the step `st` whose result is a span.
spec fn span_step(r: Result<(usize, usize, usize), Stop>, st: Step<(int, int)>) -> bool {
    match r {
        Ok((n, a, b)) => st == Step::Done(n as int, (a as int, b as int)),
        Err(e) => stopped_as(e, st),
    }
}

fn fail(kind: ErrorKind, offset: usize) -> (r: Stop)
    ensures
        r == Stop::Fail(ParseError { kind, offset }),
{
    Stop::Fail(ParseError { kind, offset })
}

/// A quoted value; the span excludes the quotes.
fn string_quoted(cs: &Vec<char>, i: usize) -> (r: Result<(usize, usize, usize), Stop>)
    requires
        i <= cs@.len(),
    ensures
        span_step(r, quoted(cs@, i as int)),
        r matches Ok((n, a, b)) ==> i < a <= b < n <= cs@.len(),
{
    if !(i < cs.len() && cs[i] == '"') {
        return Err(Stop::Miss);
    }
    match escaped_str(cs, i + 1) {
        Some(e) => if e < cs.len() && cs[e] == '"' {
            Ok((e + 1, i + 1, e))
        } else {
            Err(fail(ErrorKind::QuotedValue, i))
        },
        None => Err(fail(ErrorKind::QuotedValue, i)),
    }
}

/// A value: a word, or else a quoted value.
fn tag_value(cs: &Vec<char>, i: usize) -> (r: Result<(usize, usize, usize), Stop>)
    requires
        i <= cs@.len(),
    ensures
        span_step(r, value(cs@, i as int)),
        r matches Ok((n, a, b)) ==> i <= a <= b <= n <= cs@.len() && i < n,
{
    match string_without_space(cs, i) {
        Some((a, b)) => Ok((b, a, b)),
        None => string_quoted(cs, i),
    }
}

/// The inside of a tag head: the name's span, and the value's if there is one.
fn tag_head_keypair(cs: &Vec<char>, i: usize) -> (r: Result<(usize, (usize, usize), Option<(usize, usize)>), Stop>)
    requires
        i <= cs@.len(),
    ensures
        match r {
            Ok((n, (a, b), v)) => key_pair(cs@, i as int) == Step::Done(n as int, ((a as int, b as int), opt_span(v))),
            Err(e) => stopped_as(e, key_pair(cs@, i as int)),
        },
        r matches Ok((n, _, _)) ==> i < n <= cs@.len(),
{
    let (a, b) = match string_without_space(cs, i) {
        Some(k) => k,
        None => return Err(Stop::Miss),
    };
    let e = skip_ws(cs, b);
    if e < cs.len() && cs[e] == '=' {
        let v0 = skip_ws(cs, e + 1);
        match tag_value(cs, v0) {
            Ok((n, va, vb)) => Ok((n, (a, b), Some((va, vb)))),
            Err(Stop::Miss) => Ok((b, (a, b), None)),
            Err(x) => Err(x),
        }
    } else {
        Ok((b, (a, b), None))
    }
}

/// An opening tag.
fn parse_tag_head(cs: &Vec<char>, i: usize) -> (r: Result<(usize, (usize, usize), Option<(usize, usize)>), Stop>)
    requires
        i <= cs@.len(),
    ensures
        match r {
            Ok((n, (a, b), v)) => tag_head(cs@, i as int) == Step::Done(n as int, ((a as int, b as int), opt_span(v))),
            Err(e) => stopped_as(e, tag_head(cs@, i as int)),
        },
        r matches Ok((n, _, _)) ==> i < n <= cs@.len(),
{
    if !(i < cs.len() && cs[i] == '[') || (i + 1 < cs.len() && cs[i + 1] == '/') {
        return Err(Stop::Miss);
    }
    match tag_head_keypair(cs, i + 1) {
        Ok((n, k, v)) => {
            let c = skip_ws(cs, n);
            if c < cs.len() && cs[c] == ']' {
                Ok((c + 1, k, v))
            } else {
                Err(fail(ErrorKind::TagHead, i))
            }
        },
        Err(Stop::Miss) => Err(fail(ErrorKind::TagHead, i)),
        Err(x) => Err(x),
    }
}

/// A closing tag; the span is its name's.
fn parse_tag_end(cs: &Vec<char>, i: usize) -> (r: Result<(usize, usize, usize), Stop>)
    requires
        i <= cs@.len(),
    ensures
        span_step(r, tag_end(cs@, i as int)),
        r matches Ok((n, a, b)) ==> i < n <= cs@.len() && a <= b <= cs@.len(),
{
    if !(i < cs.len() && i + 1 < cs.len() && cs[i] == '[' && cs[i + 1] == '/') {
        return Err(Stop::Miss);
    }
    let v0 = skip_ws(cs, i + 2);
    match tag_value(cs, v0) {
        Ok((n, a, b)) => {
            let c = skip_ws(cs, n);
            if c < cs.len() && cs[c] == ']' {
                Ok((c + 1, a, b))
            } else {
                Err(fail(ErrorKind::TagEnd, i))
            }
        },
        Err(Stop::Miss) => Err(fail(ErrorKind::TagEnd, i)),
        Err(x) => Err(x),
    }
}

/// Whether the spans `(a, b)` and `(c, d)` hold the same characters.
fn same_span(cs: &Vec<char>, a: usize, b: usize, c: usize, d: usize) -> (r: bool)
    requires
        a <= b <= cs@.len(),
        c <= d <= cs@.len(),
    ensures
        r == (cs@.subrange(a as int, b as int) == cs@.subrange(c as int, d as int)),
{
    if b - a != d - c {
        assert(cs@.subrange(a as int, b as int).len() != cs@.subrange(c as int, d as int).len());
        return false;
    }
    let mut k: usize = 0;
    while k < b - a
        invariant
            a <= b <= cs@.len(),
            c <= d <= cs@.len(),
            b - a == d - c,
            k <= b - a,
            forall|t: int| 0 <= t < k ==> #[trigger] cs@.subrange(a as int, b as int)[t] == cs@.subrange(c as int, d as int)[t],
        decreases b - a - k,
    {
        if cs[a + k] != cs[c + k] {
            assert(cs@.subrange(a as int, b as int)[k as int] != cs@.subrange(c as int, d as int)[k as int]);
            return false;
        }
        k = k + 1;
    }
    assert(cs@.subrange(a as int, b as int) =~= cs@.subrange(c as int, d as int));
    true
}

/// The step `st`, its result, if any, preceded by `pre`.
spec fn prepend(pre: Seq<Node>, st: Step<Seq<Node>>) -> Step<Seq<Node>> {
    match st {
        Step::Done(m, es) => Step::Done(m, pre + es),
        other => other,
    }
}

/// A block: tag head, elements, and a closing tag with the same name.
fn closed_tag<'a>(input: &'a str, cs: &Vec<char>, i: usize) -> (r: Result<(usize, Block<'a>), Stop>)
    requires
        cs@ == input@,
        i <= cs@.len(),
    ensures
        match r {
            Ok((n, b)) => block(cs@, i as int) == Step::Done(n as int, Element::Block(b).model())
                && i < n <= cs@.len(),
            Err(e) => stopped_as(e, block(cs@, i as int)),
        },
    decreases cs@.len() - i, 1int,
{
    let (j, (a, b), v) = match parse_tag_head(cs, i) {
        Ok(x) => x,
        Err(e) => return Err(e),
    };
    let (m, inner) = match parse_elements(input, cs, j) {
        Ok(x) => x,
        Err(e) => return Err(e),
    };
    let (n, c, d) = match parse_tag_end(cs, m) {
        Ok(x) => x,
        Err(e) => return Err(e),
    };
    if !same_span(cs, a, b, c, d) {
        return Err(Stop::Miss);
    }
    let tag = input.substring_char(a, b);
    let value = match v {
        Some((va, vb)) => Some(input.substring_char(va, vb)),
        None => None,
    };
    Ok((n, Block { inner, tag, value }))
}

/// One element: the end of the input, a text run, or a block.
fn parse_element<'a>(input: &'a str, cs: &Vec<char>, i: usize) -> (r: Result<(usize, Element<'a>), Stop>)
    requires
        cs@ == input@,
        i <= cs@.len(),
    ensures
        match r {
            Ok((n, e)) => element(cs@, i as int) == Step::Done(n as int, e.model()) && i <= n <= cs@.len(),
            Err(e) => stopped_as(e, element(cs@, i as int)),
        },
    decreases cs@.len() - i, 2int,
{
    if i >= cs.len() {
        return Ok((i, Element::EOF));
    }
    match escaped_str(cs, i) {
        Some(e) => Ok((e, Element::Text(input.substring_char(i, e)))),
        None => match closed_tag(input, cs, i) {
            Ok((n, b)) => Ok((n, Element::Block(b))),
            Err(x) => Err(x),
        },
    }
}

/// Elements for as long as one applies and consumes input.
fn parse_elements<'a>(input: &'a str, cs: &Vec<char>, i: usize) -> (r: Result<(usize, Vec<Element<'a>>), Stop>)
    requires
        cs@ == input@,
        i <= cs@.len(),
    ensures
        match r {
            Ok((m, v)) => elements(cs@, i as int) == Step::Done(m as int, models(v@)) && i <= m <= cs@.len(),
            Err(e) => stopped_as(e, elements(cs@, i as int)),
        },
    decreases cs@.len() - i, 3int,
{
    let mut acc: Vec<Element<'a>> = Vec::new();
    let mut j: usize = i;
    assert(models(acc@) =~= Seq::<Node>::empty());
    assert(elements(cs@, i as int) == prepend(models(acc@), elements(cs@, j as int))) by {
        match elements(cs@, i as int) {
            Step::Done(m, es) => assert(Seq::<Node>::empty() + es =~= es),
            _ => {},
        }
    }
    loop
        invariant
            cs@ == input@,
            i <= j <= cs@.len(),
            elements(cs@, i as int) == prepend(models(acc@), elements(cs@, j as int)),
        decreases cs@.len() - j,
    {
        match parse_element(input, cs, j) {
            Err(Stop::Miss) => {
                assert(models(acc@) + Seq::<Node>::empty() =~= models(acc@));
                return Ok((j, acc));
            },
            Err(x) => return Err(x),
            Ok((n, e)) => {
                if n == j {
                    return Err(Stop::Miss);
                }
                let ghost pre = models(acc@);
                let ghost em = e.model();
                proof {
                    lemma_models_push(acc@, e);
                    match elements(cs@, n as int) {
                        Step::Done(m, rest) => assert(pre + (seq![em] + rest) =~= pre.push(em) + rest),
                        _ => {},
                    }
                }
                acc.push(e);
                j = n;
            },
        }
    }
}

/// The document result `d` preceded by `pre`.
spec fn prepend_doc(pre: Seq<Node>, d: Result<Seq<Node>, (ErrorKind, int)>) -> Result<Seq<Node>, (ErrorKind, int)> {
    match d {
        Ok(es) => Ok(pre + es),
        Err(x) => Err(x),
    }
}

/// Parses a whole document into its elements.
///
/// On success the first component is what is left of the input, always
/// empty, and the elements are what [`document`] describes; otherwise the
/// error is the kind and character offset that [`document`] gives.
pub fn parse<'a>(input: &'a str) -> (r: Result<(&'a str, Vec<Element<'a>>), ParseError>)
    ensures
        match r {
            Ok((rest, v)) => rest@.len() == 0 && document(input@) == Ok::<Seq<Node>, (ErrorKind, int)>(models(v@)),
            Err(e) => document(input@) == Err::<Seq<Node>, (ErrorKind, int)>((e.kind, e.offset as int)),
        },
{
    let cs = chars_of(input);
    let mut acc: Vec<Element<'a>> = Vec::new();
    let mut j: usize = 0;
    assert(models(acc@) =~= Seq::<Node>::empty());
    assert(document(cs@) == prepend_doc(models(acc@), document_from(cs@, 0))) by {
        match document_from(cs@, 0) {
            Ok(es) => assert(Seq::<Node>::empty() + es =~= es),
            _ => {},
        }
    }
    while j < cs.len()
        invariant
            cs@ == input@,
            j <= cs@.len(),
            document(cs@) == prepend_doc(models(acc@), document_from(cs@, j as int)),
        decreases cs@.len() - j,
    {
        match parse_element(input, &cs, j) {
            Err(Stop::Miss) => return Err(ParseError { kind: ErrorKind::NoElement, offset: j }),
            Err(Stop::Fail(e)) => return Err(e),
            Ok((n, e)) => {
                if n == j {
                    return Err(ParseError { kind: ErrorKind::NoElement, offset: j });
                }
                let ghost pre = models(acc@);
                let ghost em = e.model();
                proof {
                    lemma_models_push(acc@, e);
                    match document_from(cs@, n as int) {
                        Ok(rest) => assert(pre + (seq![em] + rest) =~= pre.push(em) + rest),
                        _ => {},
                    }
                }
                acc.push(e);
                j = n;
            },
        }
    }
    assert(models(acc@) + Seq::<Node>::empty() =~= models(acc@));
    Ok((input.substring_char(cs.len(), cs.len()), acc))
}

} // verus!
