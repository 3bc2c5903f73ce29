//! The markup of a description: tags with quoted attributes, nested.
//!
//! The text is read byte by byte by a small machine. `<name a="v">` opens an
//! element, `</name>` closes it, `<name a="v"/>` does both. Comments
//! (`<!-- -->`), declarations (`<!X >`, `<? ?>`) and text between tags are
//! passed over. The machine hands out tokens whose spans point into the
//! text; a stack of open elements then gives every token its owner.

use vstd::prelude::*;
use crate::model::same_bytes;
use crate::numbers::{belongs, in_class, Class};

verus! {

/// A stretch of the text: the bytes from `from` up to `to`.
#[derive(Clone, Copy, Debug, PartialEq, Eq, Structural)]
pub struct Span {
    pub from: usize,
    pub to: usize,
}

/// A piece of markup.
#[derive(Clone, Copy, Debug, PartialEq, Eq, Structural)]
pub enum Token {
    /// `<name`: an element begins.
    Open { name: Span },
    /// `name="value"` inside an opening tag.
    Attr { name: Span, value: Span },
    /// `/>`, with its `>` at offset `at`: the element that was opened last
    /// ends.
    CloseSelf { at: usize },
    /// `</name>`: the element `name` ends.
    Close { name: Span },
}

/// Where the machine stands.
#[derive(Clone, Copy, Debug, PartialEq, Eq, Structural)]
pub enum Mode {
    /// Between tags.
    Text,
    /// After `<`.
    TagStart,
    /// In the name of an opening tag that began at `from`.
    OpenName { from: usize },
    /// Inside an opening tag, between attributes.
    InTag,
    /// After `/` inside an opening tag.
    Slash,
    /// In the name of an attribute that began at `from`.
    AttrName { from: usize },
    /// After the `=` of the attribute `name`.
    AfterEq { name: Span },
    /// In the value of the attribute `name`, which began at `from` after
    /// the quote mark `quote`.
    Value { name: Span, from: usize, quote: u8 },
    /// In the name of a closing tag that began at `from`.
    CloseName { from: usize },
    /// After `<!`.
    Bang,
    /// After `<!-`.
    BangDash,
    /// In a comment.
    Comment,
    /// In a comment, after `-`.
    CommentDash,
    /// In a comment, after `--`.
    CommentEnd,
    /// In a declaration `<!X`.
    Decl,
    /// In a processing instruction `<?`.
    Prolog,
    /// In a processing instruction, after `?`.
    PrologMark,
    /// The byte at `at` cannot stand where it stands.
    Failed { at: usize },
}

/// Why a text is no description.
#[derive(Clone, Copy, Debug, PartialEq, Eq, Structural)]
pub enum ParseFault {
    /// A byte that cannot stand where it stands.
    Malformed,
    /// The text ends inside a tag, a comment or a declaration.
    Unterminated,
    /// The text ends with elements still open.
    Unclosed,
    /// A closing tag that closes nothing or another element.
    Mismatched,
    /// The outermost element is not `robot`, or there is none.
    NoRobot,
    /// A link or joint without a name, or a joint without a parent or child.
    MissingField,
    /// A joint whose type is none of the four.
    UnknownJointType,
    /// A pose, axis, size or limit that is no numeral.
    NotANumber,
    /// A movable joint whose axis is the zero vector, which has no direction.
    ZeroAxis,
}

/// A fault and where it was found: a byte offset for `Malformed` and
/// `Unterminated`, otherwise the number of the token at fault, counted
/// from zero in the order of the text (for `Unclosed`, the number of
/// tokens).
#[derive(Clone, Copy, Debug, PartialEq, Eq, Structural)]
pub struct ParseError {
    pub fault: ParseFault,
    pub at: usize,
}

/// One move of the machine: where it stands after byte `b` at offset `at`,
/// and the token that this byte completes, if any.
pub open spec fn step(mode: Mode, b: u8, at: usize) -> (Mode, Option<Token>) {
    let fail = (Mode::Failed { at }, None::<Token>);
    match mode {
        Mode::Text => if b == 60 {
            (Mode::TagStart, None)
        } else {
            (Mode::Text, None)
        },
        Mode::TagStart => if b == 47 {
            (Mode::CloseName { from: (at + 1) as usize }, None)
        } else if b == 33 {
            (Mode::Bang, None)
        } else if b == 63 {
            (Mode::Prolog, None)
        } else if in_class(Class::Name, b) {
            (Mode::OpenName { from: at }, None)
        } else {
            fail
        },
        Mode::OpenName { from } => {
            let opened = Some(Token::Open { name: Span { from, to: at } });
            if in_class(Class::Name, b) {
                (mode, None)
            } else if in_class(Class::Space, b) {
                (Mode::InTag, opened)
            } else if b == 62 {
                (Mode::Text, opened)
            } else if b == 47 {
                (Mode::Slash, opened)
            } else {
                fail
            }
        },
        Mode::InTag => if in_class(Class::Space, b) {
            (Mode::InTag, None)
        } else if b == 62 {
            (Mode::Text, None)
        } else if b == 47 {
            (Mode::Slash, None)
        } else if in_class(Class::Name, b) {
            (Mode::AttrName { from: at }, None)
        } else {
            fail
        },
        Mode::Slash => if b == 62 {
            (Mode::Text, Some(Token::CloseSelf { at }))
        } else {
            fail
        },
        Mode::AttrName { from } => if in_class(Class::Name, b) {
            (mode, None)
        } else if b == 61 {
            (Mode::AfterEq { name: Span { from, to: at } }, None)
        } else {
            fail
        },
        Mode::AfterEq { name } => if b == 34 || b == 39 {
            (Mode::Value { name, from: (at + 1) as usize, quote: b }, None)
        } else {
            fail
        },
        Mode::Value { name, from, quote } => if b == quote {
            (Mode::InTag, Some(Token::Attr { name, value: Span { from, to: at } }))
        } else {
            (mode, None)
        },
        Mode::CloseName { from } => if in_class(Class::Name, b) {
            (mode, None)
        } else if b == 62 {
            (Mode::Text, Some(Token::Close { name: Span { from, to: at } }))
        } else {
            fail
        },
        Mode::Bang => if b == 45 {
            (Mode::BangDash, None)
        } else if b == 62 {
            (Mode::Text, None)
        } else {
            (Mode::Decl, None)
        },
        Mode::BangDash => if b == 45 {
            (Mode::Comment, None)
        } else {
            fail
        },
        Mode::Comment => if b == 45 {
            (Mode::CommentDash, None)
        } else {
            (Mode::Comment, None)
        },
        Mode::CommentDash => if b == 45 {
            (Mode::CommentEnd, None)
        } else {
            (Mode::Comment, None)
        },
        Mode::CommentEnd => if b == 62 {
            (Mode::Text, None)
        } else if b == 45 {
            (Mode::CommentEnd, None)
        } else {
            (Mode::Comment, None)
        },
        Mode::Decl => if b == 62 {
            (Mode::Text, None)
        } else {
            (Mode::Decl, None)
        },
        Mode::Prolog => if b == 63 {
            (Mode::PrologMark, None)
        } else {
            (Mode::Prolog, None)
        },
        Mode::PrologMark => if b == 62 {
            (Mode::Text, None)
        } else if b == 63 {
            (Mode::PrologMark, None)
        } else {
            (Mode::Prolog, None)
        },
        Mode::Failed { at: first } => (mode, None),
    }
}

/// Where the machine stands after the first `n` bytes of `s`.
pub open spec fn mode_after(s: Seq<u8>, n: nat) -> Mode
    decreases n,
{
    if n == 0 {
        Mode::Text
    } else {
        step(mode_after(s, (n - 1) as nat), s[n - 1], (n - 1) as usize).0
    }
}

/// The tokens that the first `n` bytes of `s` complete.
pub open spec fn tokens_after(s: Seq<u8>, n: nat) -> Seq<Token>
    decreases n,
{
    if n == 0 {
        Seq::empty()
    } else {
        let before = tokens_after(s, (n - 1) as nat);
        match step(mode_after(s, (n - 1) as nat), s[n - 1], (n - 1) as usize).1 {
            Some(token) => before.push(token),
            None => before,
        }
    }
}

/// The fault of the text `s` as far as its bytes go, if it has one: the
/// first byte that cannot stand where it stands, or the end of the text
/// where it comes inside a tag, a comment or a declaration.
pub open spec fn lexical_fault(s: Seq<u8>) -> Option<ParseError> {
    match mode_after(s, s.len()) {
        Mode::Text => None,
        Mode::Failed { at } => Some(ParseError { fault: ParseFault::Malformed, at }),
        _ => Some(ParseError { fault: ParseFault::Unterminated, at: s.len() as usize }),
    }
}

/// One move of the machine.
pub fn advance(mode: Mode, b: u8, at: usize) -> (r: (Mode, Option<Token>))
    requires
        at < usize::MAX,
    ensures
        r == step(mode, b, at),
{
    let fail = (Mode::Failed { at }, None::<Token>);
    match mode {
        Mode::Text => if b == 60 {
            (Mode::TagStart, None)
        } else {
            (Mode::Text, None)
        },
        Mode::TagStart => if b == 47 {
            (Mode::CloseName { from: at + 1 }, None)
        } else if b == 33 {
            (Mode::Bang, None)
        } else if b == 63 {
            (Mode::Prolog, None)
        } else if belongs(Class::Name, b) {
            (Mode::OpenName { from: at }, None)
        } else {
            fail
        },
        Mode::OpenName { from } => {
            let opened = Some(Token::Open { name: Span { from, to: at } });
            if belongs(Class::Name, b) {
                (mode, None)
            } else if belongs(Class::Space, b) {
                (Mode::InTag, opened)
            } else if b == 62 {
                (Mode::Text, opened)
            } else if b == 47 {
                (Mode::Slash, opened)
            } else {
                fail
            }
        },
        Mode::InTag => if belongs(Class::Space, b) {
            (Mode::InTag, None)
        } else if b == 62 {
            (Mode::Text, None)
        } else if b == 47 {
            (Mode::Slash, None)
        } else if belongs(Class::Name, b) {
            (Mode::AttrName { from: at }, None)
        } else {
            fail
        },
        Mode::Slash => if b == 62 {
            (Mode::Text, Some(Token::CloseSelf { at }))
        } else {
            fail
        },
        Mode::AttrName { from } => if belongs(Class::Name, b) {
            (mode, None)
        } else if b == 61 {
            (Mode::AfterEq { name: Span { from, to: at } }, None)
        } else {
            fail
        },
        Mode::AfterEq { name } => if b == 34 || b == 39 {
            (Mode::Value { name, from: at + 1, quote: b }, None)
        } else {
            fail
        },
        Mode::Value { name, from, quote } => if b == quote {
            (Mode::InTag, Some(Token::Attr { name, value: Span { from, to: at } }))
        } else {
            (mode, None)
        },
        Mode::CloseName { from } => if belongs(Class::Name, b) {
            (mode, None)
        } else if b == 62 {
            (Mode::Text, Some(Token::Close { name: Span { from, to: at } }))
        } else {
            fail
        },
        Mode::Bang => if b == 45 {
            (Mode::BangDash, None)
        } else if b == 62 {
            (Mode::Text, None)
        } else {
            (Mode::Decl, None)
        },
        Mode::BangDash => if b == 45 {
            (Mode::Comment, None)
        } else {
            fail
        },
        Mode::Comment => if b == 45 {
            (Mode::CommentDash, None)
        } else {
            (Mode::Comment, None)
        },
        Mode::CommentDash => if b == 45 {
            (Mode::CommentEnd, None)
        } else {
            (Mode::Comment, None)
        },
        Mode::CommentEnd => if b == 62 {
            (Mode::Text, None)
        } else if b == 45 {
            (Mode::CommentEnd, None)
        } else {
            (Mode::Comment, None)
        },
        Mode::Decl => if b == 62 {
            (Mode::Text, None)
        } else {
            (Mode::Decl, None)
        },
        Mode::Prolog => if b == 63 {
            (Mode::PrologMark, None)
        } else {
            (Mode::Prolog, None)
        },
        Mode::PrologMark => if b == 62 {
            (Mode::Text, None)
        } else if b == 63 {
            (Mode::PrologMark, None)
        } else {
            (Mode::Prolog, None)
        },
        Mode::Failed { at: first } => (mode, None),
    }
}

/// Runs the machine over a text: the tokens it hands out and where it
/// stands at the end.
pub fn lex_all(text: &Vec<u8>) -> (r: (Vec<Token>, Mode))
    ensures
        r.0@ == tokens_after(text@, text@.len()),
        r.1 == mode_after(text@, text@.len()),
{
    let mut mode = Mode::Text;
    let mut tokens: Vec<Token> = Vec::new();
    let mut i: usize = 0;
    while i < text.len()
        invariant
            i <= text.len(),
            mode == mode_after(text@, i as nat),
            tokens@ == tokens_after(text@, i as nat),
        decreases text.len() - i,
    {
        let (next, made) = advance(mode, text[i], i);
        mode = next;
        match made {
            Some(token) => {
                tokens.push(token);
            },
            None => {},
        }
        i += 1;
    }
    (tokens, mode)
}

/// Reads the tokens of a text.
pub fn lex(text: &Vec<u8>) -> (r: Result<Vec<Token>, ParseError>)
    ensures
        match r {
            Ok(tokens) => lexical_fault(text@) is None && tokens@ == tokens_after(
                text@,
                text@.len(),
            ),
            Err(e) => lexical_fault(text@) == Some(e),
        },
{
    let (tokens, mode) = lex_all(text);
    match mode {
        Mode::Text => Ok(tokens),
        Mode::Failed { at } => Err(ParseError { fault: ParseFault::Malformed, at }),
        _ => Err(ParseError { fault: ParseFault::Unterminated, at: text.len() }),
    }
}

/// The bytes of `text` that `span` covers; nothing if the span does not lie
/// in the text.
pub open spec fn slice_of(text: Seq<u8>, span: Span) -> Seq<u8> {
    if span.from <= span.to <= text.len() {
        text.subrange(span.from as int, span.to as int)
    } else {
        Seq::empty()
    }
}

/// Copies the bytes of `text` that `span` covers.
pub fn slice(text: &Vec<u8>, span: Span) -> (r: Vec<u8>)
    ensures
        r@ == slice_of(text@, span),
{
    if span.from <= span.to && span.to <= text.len() {
        crate::numbers::copy_range(text, span.from, span.to)
    } else {
        Vec::new()
    }
}

/// The stack of open elements before token `i`, given the stack before the
/// token ahead of it: `None` once a closing tag has closed nothing or has
/// closed an element of another name.
pub open spec fn nest_step(
    text: Seq<u8>,
    tokens: Seq<Token>,
    stack: Option<Seq<usize>>,
    i: int,
) -> Option<Seq<usize>> {
    match stack {
        None => None,
        Some(open) => match tokens[i] {
            Token::Open { name } => Some(open.push(i as usize)),
            Token::Attr { name, value } => Some(open),
            Token::CloseSelf { at } => if open.len() > 0 {
                Some(open.drop_last())
            } else {
                None
            },
            Token::Close { name } => if open.len() > 0 && (tokens[open.last() as int] matches Token::Open {
                name: opened,
            } && slice_of(text, opened) == slice_of(text, name)) {
                Some(open.drop_last())
            } else {
                None
            },
        },
    }
}

/// The stack of open elements after the first `n` tokens.
pub open spec fn stack_after(text: Seq<u8>, tokens: Seq<Token>, n: nat) -> Option<Seq<usize>>
    decreases n,
{
    if n == 0 {
        Some(Seq::empty())
    } else {
        nest_step(text, tokens, stack_after(text, tokens, (n - 1) as nat), n - 1)
    }
}

/// The element that token `i` belongs to: for an attribute its tag, for an
/// opening tag the element around it. `None` at the outermost level.
pub open spec fn owner_of(text: Seq<u8>, tokens: Seq<Token>, i: int) -> Option<usize> {
    match stack_after(text, tokens, i as nat) {
        Some(open) => if open.len() > 0 {
            Some(open.last())
        } else {
            None
        },
        None => None,
    }
}

/// The fault of a token list as far as nesting goes, if it has one: the
/// first closing tag that closes nothing or another element, or the end of
/// the list where elements are still open.
pub open spec fn nesting_fault(text: Seq<u8>, tokens: Seq<Token>, e: ParseError) -> bool {
    match e.fault {
        ParseFault::Mismatched => e.at < tokens.len() && stack_after(text, tokens, e.at as nat) is Some
            && stack_after(text, tokens, (e.at + 1) as nat) is None,
        ParseFault::Unclosed => e.at == tokens.len() && (stack_after(
            text,
            tokens,
            tokens.len(),
        ) matches Some(open) && open.len() > 0),
        _ => false,
    }
}

/// Checks that the tags are nested and gives every token its owner.
pub fn nest(text: &Vec<u8>, tokens: &Vec<Token>) -> (r: Result<Vec<Option<usize>>, ParseError>)
    ensures
        match r {
            Ok(owners) => stack_after(text@, tokens@, tokens@.len()) == Some(Seq::<usize>::empty())
                && owners.len() == tokens.len() && forall|i: int|
                0 <= i < tokens.len() ==> #[trigger] owners@[i] == owner_of(text@, tokens@, i),
            Err(e) => nesting_fault(text@, tokens@, e),
        },
{
    let mut stack: Vec<usize> = Vec::new();
    let mut owners: Vec<Option<usize>> = Vec::new();
    let mut i: usize = 0;
    while i < tokens.len()
        invariant
            i <= tokens.len(),
            owners.len() == i,
            stack_after(text@, tokens@, i as nat) == Some(stack@),
            forall|k: int| 0 <= k < stack.len() ==> (#[trigger] stack@[k]) < i,
            forall|k: int| 0 <= k < i ==> #[trigger] owners@[k] == owner_of(text@, tokens@, k),
        decreases tokens.len() - i,
    {
        let top: Option<usize> = if stack.len() > 0 {
            Some(stack[stack.len() - 1])
        } else {
            None
        };
        owners.push(top);
        match tokens[i] {
            Token::Open { name } => {
                stack.push(i);
            },
            Token::Attr { name, value } => {},
            Token::CloseSelf { at } => {
                match top {
                    Some(t) => {
                        stack.pop();
                    },
                    None => {
                        return Err(ParseError { fault: ParseFault::Mismatched, at: i });
                    },
                }
            },
            Token::Close { name } => {
                let matched: bool = match top {
                    Some(t) => match tokens[t] {
                        Token::Open { name: opened } => same_bytes(
                            &slice(text, opened),
                            &slice(text, name),
                        ),
                        _ => false,
                    },
                    None => false,
                };
                if matched {
                    stack.pop();
                } else {
                    return Err(ParseError { fault: ParseFault::Mismatched, at: i });
                }
            },
        }
        i += 1;
    }
    if stack.len() > 0 {
        return Err(ParseError { fault: ParseFault::Unclosed, at: tokens.len() });
    }
    proof {
        assert(stack@ =~= Seq::<usize>::empty());
    }
    Ok(owners)
}

/// Once a closing tag has failed, the nesting stays failed: no later token
/// mends it.
pub proof fn lemma_failed_nesting_stays(text: Seq<u8>, tokens: Seq<Token>, a: nat, b: nat)
    requires
        a <= b,
        stack_after(text, tokens, a) is None,
    ensures
        stack_after(text, tokens, b) is None,
    decreases b,
{
    if a < b {
        lemma_failed_nesting_stays(text, tokens, a, (b - 1) as nat);
    }
}

/// Where a token stands in the text: the offset at which its name begins,
/// or, for `/>`, the offset of its `>`.
pub open spec fn offset_of(token: Token) -> usize {
    match token {
        Token::Open { name } => name.from,
        Token::Attr { name, value } => name.from,
        Token::CloseSelf { at } => at,
        Token::Close { name } => name.from,
    }
}

/// The byte offset that `e` points at in `text`: its `at` where that is an
/// offset; where it is the number of a token, the place of that token; the
/// end of the text where there is no such token.
pub open spec fn fault_offset(text: Seq<u8>, e: ParseError) -> usize {
    let tokens = tokens_after(text, text.len());
    match e.fault {
        ParseFault::Malformed => e.at,
        ParseFault::Unterminated => e.at,
        _ => if e.at < tokens.len() {
            offset_of(tokens[e.at as int])
        } else {
            text.len() as usize
        },
    }
}

/// How many line feeds stand among the first `n` bytes of `text`.
pub open spec fn line_feeds(text: Seq<u8>, n: nat) -> nat
    decreases n,
{
    if n == 0 {
        0
    } else {
        line_feeds(text, (n - 1) as nat) + if text[n - 1] == 10 {
            1nat
        } else {
            0nat
        }
    }
}

/// A place in a text, for a reader: the line, counted from zero, and the
/// byte offset.
#[derive(Clone, Copy, Debug, PartialEq, Eq, Structural)]
pub struct Location {
    pub line: usize,
    pub offset: usize,
}

/// The place in `text` that the fault `e` of `text` points at. An offset
/// beyond the text counts as its end.
pub fn locate(text: &Vec<u8>, e: ParseError) -> (r: Location)
    ensures
        r.offset == fault_offset(text@, e),
        r.line == line_feeds(
            text@,
            if r.offset <= text.len() {
                r.offset as nat
            } else {
                text@.len()
            },
        ),
{
    let offset: usize = match e.fault {
        ParseFault::Malformed => e.at,
        ParseFault::Unterminated => e.at,
        _ => {
            let (tokens, _) = lex_all(text);
            if e.at < tokens.len() {
                match tokens[e.at] {
                    Token::Open { name } => name.from,
                    Token::Attr { name, value } => name.from,
                    Token::CloseSelf { at } => at,
                    Token::Close { name } => name.from,
                }
            } else {
                text.len()
            }
        },
    };
    let upto: usize = if offset <= text.len() {
        offset
    } else {
        text.len()
    };
    let mut feeds: usize = 0;
    let mut i: usize = 0;
    while i < upto
        invariant
            i <= upto <= text.len(),
            feeds <= i,
            feeds == line_feeds(text@, i as nat),
        decreases upto - i,
    {
        if text[i] == 10 {
            feeds += 1;
        }
        i += 1;
    }
    Location { line: feeds, offset }
}

} // verus!
