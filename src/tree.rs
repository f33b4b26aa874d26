use vstd::prelude::*;

verus! {

/// One node of a parsed document. Text and tag values borrow from the input.
#[derive(Debug, PartialEq, Eq)]
pub enum Element<'a> {
    /// A run of text, escape sequences kept as written.
    Text(&'a str),
    /// A matched pair of opening and closing tags with what lies between.
    Block(Block<'a>),
    /// The end of the input; never part of a parsed document.
    EOF,
}

/// A matched `[tag]...[/tag]` or `[tag=value]...[/tag]` pair.
#[derive(Debug, PartialEq, Eq)]
pub struct Block<'a> {
    /// The elements between the opening and the closing tag, in order.
    pub inner: Vec<Element<'a>>,
    /// The tag's name, without surrounding whitespace.
    pub tag: &'a str,
    /// The value after `=`, without the quotes if it was quoted.
    pub value: Option<&'a str>,
}

/// The mathematical model of an [`Element`].
pub enum Node {
    Text(Seq<char>),
    Block(Seq<char>, Option<Seq<char>>, Seq<Node>),
    Eof,
}

/// Why a parse failed.
#[derive(Debug, Clone, Copy, PartialEq, Eq)]
pub enum ErrorKind {
    /// No element starts here: a stray `]`, `/` or `=`, a bad escape, an
    /// unclosed tag, or a closing tag whose name differs from the opening one.
    NoElement,
    /// A `[` not followed by `/` began a tag head that is not well formed.
    TagHead,
    /// A `[/` began a closing tag that is not well formed.
    TagEnd,
    /// A `"` began a quoted value that is not well formed or not terminated.
    QuotedValue,
}

/// A failed parse: what went wrong and the character offset where the
/// offending element, tag or quoted value starts.
#[derive(Debug, Clone, Copy, PartialEq, Eq)]
pub struct ParseError {
    pub kind: ErrorKind,
    pub offset: usize,
}

pub open spec fn opt_model(v: Option<&str>) -> Option<Seq<char>> {
    match v {
        Some(s) => Some(s@),
        None => None,
    }
}

impl<'a> Element<'a> {
    /// The model of this element.
    pub open spec fn model(self) -> Node
        decreases self,
    {
        match self {
            Element::Text(t) => Node::Text(t@),
            Element::Block(b) => Node::Block(b.tag@, opt_model(b.value), models(b.inner@)),
            Element::EOF => Node::Eof,
        }
    }
}

/// Appending an element appends its model.
pub proof fn lemma_models_push<'a>(v: Seq<Element<'a>>, e: Element<'a>)
    ensures
        models(v.push(e)) == models(v).push(e.model()),
{
    assert(v.push(e).drop_last() =~= v);
}

/// The models of a sequence of elements, one for one.
pub open spec fn models<'a>(v: Seq<Element<'a>>) -> Seq<Node>
    decreases v,
{
    if v.len() == 0 {
        Seq::empty()
    } else {
        models(v.drop_last()).push(v.last().model())
    }
}

impl<'a> Clone for Element<'a> {
    fn clone(&self) -> (r: Self)
        ensures
            r.model() == self.model(),
        decreases self,
    {
        match self {
            Element::Text(t) => Element::Text(t),
            Element::Block(b) => Element::Block(b.clone()),
            Element::EOF => Element::EOF,
        }
    }
}

impl<'a> Clone for Block<'a> {
    fn clone(&self) -> (r: Self)
        ensures
            r.tag == self.tag,
            r.value == self.value,
            models(r.inner@) == models(self.inner@),
        decreases self,
    {
        let mut inner: Vec<Element<'a>> = Vec::new();
        let mut k: usize = 0;
        while k < self.inner.len()
            invariant
                k <= self.inner@.len(),
                models(inner@) == models(self.inner@.take(k as int)),
            decreases self.inner.len() - k,
        {
            let e = self.inner[k].clone();
            proof {
                lemma_models_push(inner@, e);
                lemma_models_push(self.inner@.take(k as int), self.inner@[k as int]);
                assert(self.inner@.take(k as int).push(self.inner@[k as int]) =~= self.inner@.take(k + 1));
            }
            inner.push(e);
            k = k + 1;
        }
        assert(self.inner@.take(k as int) =~= self.inner@);
        Block { inner, tag: self.tag, value: self.value }
    }
}

} // verus!
