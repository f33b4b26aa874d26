//! The grammar, as spec functions over the input's characters `s` and a
//! position `i` in it. Each rule either matches and says where it stopped,
//! does not apply (`Miss`, so that the caller may try something else), or
//! fails for good (`Fail`), once a prefix has committed it.
use vstd::prelude::*;
use crate::tree::{ErrorKind, Node};

verus! {

/// The outcome of a rule: where it stopped and what it produced, or why not.
pub enum Step<T> {
    Done(int, T),
    Miss,
    Fail(ErrorKind, int),
}

/// A span `(start, end)` of positions in the input.
pub type Span = (int, int);

/// Characters that end a run of text unless escaped.
pub open spec fn is_special(c: char) -> bool {
    c == '"' || c == '\\' || c == '[' || c == ']' || c == '/' || c == '='
}

/// Characters that may follow a backslash.
pub open spec fn is_escapable(c: char) -> bool {
    c == '"' || c == '\\' || c == 'n' || c == '[' || c == ']' || c == '/' || c == '='
}

pub open spec fn is_space(c: char) -> bool {
    c == ' ' || c == '\t' || c == '\n' || c == '\r'
}

/// Characters of a tag name or of an unquoted value.
pub open spec fn is_word_char(c: char) -> bool {
    !is_special(c) && !is_space(c)
}

/// Where a run of text (with escapes) starting at `i` ends, or `None` on a
/// backslash that escapes nothing.
pub open spec fn scan_text(s: Seq<char>, i: int) -> Option<int>
    decreases s.len() - i,
{
    if i < 0 || i >= s.len() {
        Some(s.len() as int)
    } else if !is_special(s[i]) {
        scan_text(s, i + 1)
    } else if s[i] == '\\' {
        if i + 1 < s.len() && is_escapable(s[i + 1]) {
            scan_text(s, i + 2)
        } else {
            None
        }
    } else {
        Some(i)
    }
}

/// A text run at `i`: it must be non-empty unless the input ends at `i`.
pub open spec fn text_end(s: Seq<char>, i: int) -> Option<int> {
    if i >= s.len() {
        Some(i)
    } else {
        match scan_text(s, i) {
            Some(e) => if e > i { Some(e) } else { None },
            None => None,
        }
    }
}

/// The first position at or after `i` that holds no whitespace.
pub open spec fn skip_space(s: Seq<char>, i: int) -> int
    decreases s.len() - i,
{
    if 0 <= i < s.len() && is_space(s[i]) {
        skip_space(s, i + 1)
    } else {
        i
    }
}

/// The first position at or after `i` that holds no word character.
pub open spec fn word_end(s: Seq<char>, i: int) -> int
    decreases s.len() - i,
{
    if 0 <= i < s.len() && is_word_char(s[i]) {
        word_end(s, i + 1)
    } else {
        i
    }
}

/// A non-empty word after optional whitespace.
pub open spec fn word(s: Seq<char>, i: int) -> Option<Span> {
    let a = skip_space(s, i);
    let b = word_end(s, a);
    if b > a { Some((a, b)) } else { None }
}

/// Whether `s` holds `c` at `i`.
pub open spec fn char_at(s: Seq<char>, i: int, c: char) -> bool {
    0 <= i < s.len() && s[i] == c
}

/// A quoted value: `"`, a non-empty text run, `"`. The span excludes the quotes.
pub open spec fn quoted(s: Seq<char>, i: int) -> Step<Span> {
    if !char_at(s, i, '"') {
        Step::Miss
    } else {
        match text_end(s, i + 1) {
            Some(e) => if char_at(s, e, '"') {
                Step::Done(e + 1, (i + 1, e))
            } else {
                Step::Fail(ErrorKind::QuotedValue, i)
            },
            None => Step::Fail(ErrorKind::QuotedValue, i),
        }
    }
}

/// A value: a word, or else a quoted value.
pub open spec fn value(s: Seq<char>, i: int) -> Step<Span> {
    match word(s, i) {
        Some((a, b)) => Step::Done(b, (a, b)),
        None => quoted(s, i),
    }
}

/// The inside of a tag head: a name, then optionally `=` and a value.
pub open spec fn key_pair(s: Seq<char>, i: int) -> Step<(Span, Option<Span>)> {
    match word(s, i) {
        None => Step::Miss,
        Some((a, b)) => {
            let e = skip_space(s, b);
            if char_at(s, e, '=') {
                match value(s, skip_space(s, e + 1)) {
                    Step::Done(n, v) => Step::Done(n, ((a, b), Some(v))),
                    Step::Miss => Step::Done(b, ((a, b), None)),
                    Step::Fail(k, p) => Step::Fail(k, p),
                }
            } else {
                Step::Done(b, ((a, b), None))
            }
        },
    }
}

/// An opening tag `[name]` or `[name=value]`; after a `[` that is not
/// followed by `/`, it must be complete.
pub open spec fn tag_head(s: Seq<char>, i: int) -> Step<(Span, Option<Span>)> {
    if !char_at(s, i, '[') || char_at(s, i + 1, '/') {
        Step::Miss
    } else {
        match key_pair(s, i + 1) {
            Step::Done(n, kv) => {
                let c = skip_space(s, n);
                if char_at(s, c, ']') {
                    Step::Done(c + 1, kv)
                } else {
                    Step::Fail(ErrorKind::TagHead, i)
                }
            },
            Step::Miss => Step::Fail(ErrorKind::TagHead, i),
            Step::Fail(k, p) => Step::Fail(k, p),
        }
    }
}

/// A closing tag `[/name]` or `[/"name"]`, whitespace allowed around the
/// name; after `[/`, it must be complete.
pub open spec fn tag_end(s: Seq<char>, i: int) -> Step<Span> {
    if !(char_at(s, i, '[') && char_at(s, i + 1, '/')) {
        Step::Miss
    } else {
        match value(s, skip_space(s, i + 2)) {
            Step::Done(n, v) => {
                let c = skip_space(s, n);
                if char_at(s, c, ']') {
                    Step::Done(c + 1, v)
                } else {
                    Step::Fail(ErrorKind::TagEnd, i)
                }
            },
            Step::Miss => Step::Fail(ErrorKind::TagEnd, i),
            Step::Fail(k, p) => Step::Fail(k, p),
        }
    }
}

pub open spec fn span_of(s: Seq<char>, sp: Span) -> Seq<char> {
    s.subrange(sp.0, sp.1)
}

pub open spec fn opt_sub(s: Seq<char>, sp: Option<Span>) -> Option<Seq<char>> {
    match sp {
        Some(v) => Some(span_of(s, v)),
        None => None,
    }
}

/// A block: a tag head, the elements inside, and a closing tag with the
/// same name.
pub open spec fn block(s: Seq<char>, i: int) -> Step<Node>
    decreases s.len() - i, 1int,
{
    match tag_head(s, i) {
        Step::Done(j, (key, val)) => if i < j <= s.len() {
            match elements(s, j) {
                Step::Done(m, kids) => match tag_end(s, m) {
                    Step::Done(n, end) => if span_of(s, key) == span_of(s, end) {
                        Step::Done(n, Node::Block(span_of(s, key), opt_sub(s, val), kids))
                    } else {
                        Step::Miss
                    },
                    Step::Miss => Step::Miss,
                    Step::Fail(k, p) => Step::Fail(k, p),
                },
                Step::Miss => Step::Miss,
                Step::Fail(k, p) => Step::Fail(k, p),
            }
        } else {
            Step::Miss
        },
        Step::Miss => Step::Miss,
        Step::Fail(k, p) => Step::Fail(k, p),
    }
}

/// One element at `i`: the end of the input, a text run, or a block, tried
/// in that order.
pub open spec fn element(s: Seq<char>, i: int) -> Step<Node>
    decreases s.len() - i, 2int,
{
    if i >= s.len() {
        Step::Done(i, Node::Eof)
    } else {
        match text_end(s, i) {
            Some(e) => Step::Done(e, Node::Text(s.subrange(i, e))),
            None => block(s, i),
        }
    }
}

/// Elements from `i` for as long as one applies and consumes input. At the
/// end of the input this does not apply: a block must be closed.
pub open spec fn elements(s: Seq<char>, i: int) -> Step<Seq<Node>>
    decreases s.len() - i, 3int,
{
    match element(s, i) {
        Step::Done(n, e) => if i < n <= s.len() {
            match elements(s, n) {
                Step::Done(m, es) => Step::Done(m, seq![e] + es),
                other => other,
            }
        } else {
            Step::Miss
        },
        Step::Miss => Step::Done(i, Seq::empty()),
        Step::Fail(k, p) => Step::Fail(k, p),
    }
}

/// A whole document from `i`: elements up to the end of the input.
pub open spec fn document_from(s: Seq<char>, i: int) -> Result<Seq<Node>, (ErrorKind, int)>
    decreases s.len() - i,
{
    if i >= s.len() {
        Ok(Seq::empty())
    } else {
        match element(s, i) {
            Step::Done(n, e) => if i < n <= s.len() {
                match document_from(s, n) {
                    Ok(es) => Ok(seq![e] + es),
                    Err(x) => Err(x),
                }
            } else {
                Err((ErrorKind::NoElement, i))
            },
            Step::Miss => Err((ErrorKind::NoElement, i)),
            Step::Fail(k, p) => Err((k, p)),
        }
    }
}

/// What parsing the input `s` yields.
pub open spec fn document(s: Seq<char>) -> Result<Seq<Node>, (ErrorKind, int)> {
    document_from(s, 0)
}

} // verus!
