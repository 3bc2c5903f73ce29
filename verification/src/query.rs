//! Looking things up in nested markup: the child elements of an element
//! and the attributes of a tag, by name.

use vstd::prelude::*;
use vstd::string::*;
use crate::markup::{
    lex, lexical_fault, nest, nesting_fault, owner_of, slice, slice_of, stack_after, tokens_after,
    ParseError, Span, Token,
};
use crate::model::Triple;
use crate::numbers::{parse_real, parse_triple, real_of, triple_of};

verus! {

/// A text with its tokens and the owner of each token.
pub struct Doc {
    pub text: Seq<u8>,
    pub tokens: Seq<Token>,
    pub owners: Seq<Option<usize>>,
}

/// A text that has been read as markup.
#[derive(Debug)]
pub struct Markup {
    pub text: Vec<u8>,
    pub tokens: Vec<Token>,
    pub owners: Vec<Option<usize>>,
}

impl View for Markup {
    type V = Doc;

    open spec fn view(&self) -> Doc {
        Doc { text: self.text@, tokens: self.tokens@, owners: self.owners@ }
    }
}

/// The tokens of the whole of `text`.
pub open spec fn tokens_of(text: Seq<u8>) -> Seq<Token> {
    tokens_after(text, text.len())
}

/// `text` as markup: its tokens and their owners.
pub open spec fn doc_of(text: Seq<u8>) -> Doc {
    Doc {
        text,
        tokens: tokens_of(text),
        owners: Seq::new(tokens_of(text).len(), |i: int| owner_of(text, tokens_of(text), i)),
    }
}

/// Whether `e` is the fault of `text` as markup: its lexical fault if it has
/// one, otherwise its fault of nesting.
pub open spec fn markup_fault(text: Seq<u8>, e: ParseError) -> bool {
    match lexical_fault(text) {
        Some(first) => e == first,
        None => nesting_fault(text, tokens_of(text), e),
    }
}

/// Whether `text` is well-formed markup.
pub open spec fn is_markup(text: Seq<u8>) -> bool {
    lexical_fault(text) is None && stack_after(text, tokens_of(text), tokens_of(text).len())
        == Some(Seq::<usize>::empty())
}

impl Markup {
    /// The invariant: an owner for every token.
    pub open spec fn wf(&self) -> bool {
        self.owners.len() == self.tokens.len()
    }

    /// Reads `text` as markup.
    pub fn read(text: Vec<u8>) -> (r: Result<Markup, ParseError>)
        ensures
            match r {
                Ok(m) => is_markup(text@) && m@ == doc_of(text@) && m.wf(),
                Err(e) => markup_fault(text@, e),
            },
    {
        let tokens = match lex(&text) {
            Ok(tokens) => tokens,
            Err(e) => {
                return Err(e);
            },
        };
        let owners = match nest(&text, &tokens) {
            Ok(owners) => owners,
            Err(e) => {
                return Err(e);
            },
        };
        proof {
            assert(owners@ =~= doc_of(text@).owners);
        }
        Ok(Markup { text, tokens, owners })
    }
}

/// Whether token `i` opens an element called `word` inside `parent`.
pub open spec fn opens(d: Doc, i: int, parent: Option<usize>, word: Seq<u8>) -> bool {
    &&& 0 <= i < d.tokens.len()
    &&& i < d.owners.len()
    &&& d.owners[i] == parent
    &&& d.tokens[i] matches Token::Open { name }
    &&& slice_of(d.text, name) == word
}

/// The first element called `word` inside `parent` whose tag is token
/// `from` or a later one.
pub open spec fn child_from(d: Doc, parent: Option<usize>, word: Seq<u8>, from: int) -> Option<usize>
    decreases d.tokens.len() - from,
{
    if from < 0 || from >= d.tokens.len() {
        None
    } else if opens(d, from, parent, word) {
        Some(from as usize)
    } else {
        child_from(d, parent, word, from + 1)
    }
}

/// The first element called `word` inside `parent`.
pub open spec fn child_of(d: Doc, parent: usize, word: Seq<u8>) -> Option<usize> {
    child_from(d, Some(parent), word, 0)
}

/// All elements called `word` inside `parent` from token `from` on, in
/// order.
pub open spec fn children_from(d: Doc, parent: Option<usize>, word: Seq<u8>, from: int) -> Seq<usize>
    decreases d.tokens.len() - from,
{
    if from < 0 || from >= d.tokens.len() {
        Seq::empty()
    } else if opens(d, from, parent, word) {
        seq![from as usize] + children_from(d, parent, word, from + 1)
    } else {
        children_from(d, parent, word, from + 1)
    }
}

/// Whether token `i` gives the attribute `word` of tag `tag`.
pub open spec fn assigns(d: Doc, i: int, tag: usize, word: Seq<u8>) -> bool {
    &&& 0 <= i < d.tokens.len()
    &&& i < d.owners.len()
    &&& d.owners[i] == Some(tag)
    &&& d.tokens[i] matches Token::Attr { name, value }
    &&& slice_of(d.text, name) == word
}

/// The span of the value of the first attribute `word` of tag `tag` from
/// token `from` on.
pub open spec fn attr_from(d: Doc, tag: usize, word: Seq<u8>, from: int) -> Option<Span>
    decreases d.tokens.len() - from,
{
    if from < 0 || from >= d.tokens.len() {
        None
    } else if assigns(d, from, tag, word) {
        match d.tokens[from] {
            Token::Attr { name, value } => Some(value),
            _ => None,
        }
    } else {
        attr_from(d, tag, word, from + 1)
    }
}

/// The value of the attribute `word` of tag `tag`, if the tag has it.
pub open spec fn attr_value(d: Doc, tag: usize, word: Seq<u8>) -> Option<Seq<u8>> {
    match attr_from(d, tag, word, 0) {
        Some(span) => Some(slice_of(d.text, span)),
        None => None,
    }
}

/// The real in attribute `word` of tag `tag`: `fallback` where the tag has
/// no such attribute, nothing where its value is no numeral.
pub open spec fn attr_real(d: Doc, tag: usize, word: Seq<u8>, fallback: i64) -> Option<i64> {
    match attr_value(d, tag, word) {
        Some(value) => real_of(value),
        None => Some(fallback),
    }
}

/// The three reals in attribute `word` of tag `tag`: `fallback` where the
/// tag has no such attribute, nothing where its value is not three
/// numerals.
pub open spec fn attr_triple(d: Doc, tag: usize, word: Seq<u8>, fallback: Triple) -> Option<Triple> {
    match attr_value(d, tag, word) {
        Some(value) => triple_of(value),
        None => Some(fallback),
    }
}

/// Tells whether `bytes` spell `word`.
pub fn is_word(bytes: &Vec<u8>, word: &str) -> (r: bool)
    ensures
        r == (bytes@ == word.spec_bytes()),
{
    let wanted = word.as_bytes();
    if bytes.len() != wanted.len() {
        return false;
    }
    let mut i: usize = 0;
    while i < bytes.len()
        invariant
            i <= bytes.len(),
            bytes.len() == wanted.len(),
            wanted@ == word.spec_bytes(),
            forall|k: int| 0 <= k < i ==> bytes@[k] == wanted@[k],
        decreases bytes.len() - i,
    {
        if bytes[i] != wanted[i] {
            return false;
        }
        i += 1;
    }
    proof {
        assert(bytes@ =~= wanted@);
    }
    true
}

/// Tells whether two owners are the same.
pub fn same_owner(a: Option<usize>, b: Option<usize>) -> (r: bool)
    ensures
        r == (a == b),
{
    match (a, b) {
        (Some(x), Some(y)) => x == y,
        (None, None) => true,
        _ => false,
    }
}

/// Finds the first element called `word` inside `parent` whose tag is
/// token `from` or a later one.
pub fn find_child(m: &Markup, parent: Option<usize>, word: &str, from: usize) -> (r: Option<usize>)
    requires
        m.wf(),
    ensures
        r == child_from(m@, parent, word.spec_bytes(), from as int),
        r matches Some(i) ==> from <= i < m.tokens.len(),
{
    let mut i: usize = from;
    while i < m.tokens.len()
        invariant
            m.wf(),
            from <= i,
            child_from(m@, parent, word.spec_bytes(), from as int) == child_from(
                m@,
                parent,
                word.spec_bytes(),
                i as int,
            ),
        decreases m.tokens.len() - i,
    {
        let hit: bool = same_owner(m.owners[i], parent) && match m.tokens[i] {
            Token::Open { name } => is_word(&slice(&m.text, name), word),
            _ => false,
        };
        if hit {
            return Some(i);
        }
        i += 1;
    }
    None
}

/// Finds the value of the attribute `word` of tag `tag`.
pub fn find_attr(m: &Markup, tag: usize, word: &str) -> (r: Option<Vec<u8>>)
    requires
        m.wf(),
    ensures
        match r {
            Some(value) => attr_value(m@, tag, word.spec_bytes()) == Some(value@),
            None => attr_value(m@, tag, word.spec_bytes()) is None,
        },
{
    let mut i: usize = 0;
    while i < m.tokens.len()
        invariant
            m.wf(),
            attr_from(m@, tag, word.spec_bytes(), 0) == attr_from(m@, tag, word.spec_bytes(), i as int),
        decreases m.tokens.len() - i,
    {
        if same_owner(m.owners[i], Some(tag)) {
            match m.tokens[i] {
                Token::Attr { name, value } => {
                    if is_word(&slice(&m.text, name), word) {
                        return Some(slice(&m.text, value));
                    }
                },
                _ => {},
            }
        }
        i += 1;
    }
    None
}

/// Reads the real in attribute `word` of tag `tag`.
pub fn read_real(m: &Markup, tag: usize, word: &str, fallback: i64) -> (r: Option<i64>)
    requires
        m.wf(),
    ensures
        r == attr_real(m@, tag, word.spec_bytes(), fallback),
{
    match find_attr(m, tag, word) {
        Some(value) => parse_real(&value),
        None => Some(fallback),
    }
}

/// Reads the three reals in attribute `word` of tag `tag`.
pub fn read_triple(m: &Markup, tag: usize, word: &str, fallback: Triple) -> (r: Option<Triple>)
    requires
        m.wf(),
    ensures
        r == attr_triple(m@, tag, word.spec_bytes(), fallback),
{
    match find_attr(m, tag, word) {
        Some(value) => parse_triple(&value),
        None => Some(fallback),
    }
}

/// A text that has a fault as markup is no markup, so `Markup::read`
/// succeeds on well-formed markup and on nothing else.
pub proof fn lemma_markup_fault_is_no_markup(text: Seq<u8>, e: ParseError)
    requires
        markup_fault(text, e),
    ensures
        !is_markup(text),
{
    if lexical_fault(text) is None && e.fault == crate::markup::ParseFault::Mismatched {
        crate::markup::lemma_failed_nesting_stays(
            text,
            tokens_of(text),
            (e.at + 1) as nat,
            tokens_of(text).len(),
        );
    }
}

} // verus!
