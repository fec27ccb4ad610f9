//! Parser for the text proto files written by the IntelliJ aspect.
//!
//! A recursive-descent parser with error recovery: malformed fields are
//! skipped and recorded as errors, and parsing continues.  Every function
//! states its result as the value of the spec function of the same name
//! (prefixed `sp_`), which define the accepted language and the recovery.
use vstd::prelude::*;
use crate::strutil::{
    ascii_digit, chars_of, is_alphanumeric, is_alphabetic, is_whitespace, push_char,
    unicode_alphabetic, unicode_alphanumeric, unicode_whitespace,
};

verus! {

/// Abstract token.
pub enum TokenView {
    Identifier(Seq<char>),
    StringLiteral(Seq<char>),
    LBrace,
    RBrace,
    LBracket,
    RBracket,
    Colon,
    Comma,
    Bool(bool),
    Eof,
}

/// Abstract parse error.
pub enum ParseErrorView {
    UnexpectedEndOfInput(int),
    UnexpectedCharacter(int, char, Seq<char>),
    InvalidFieldValue(int, Seq<char>, Seq<char>),
    StringParseError(int, Seq<char>),
}

/// Errors that can occur during text proto parsing.
#[derive(Debug, Clone)]
pub enum ParseError {
    UnexpectedEndOfInput { position: usize },
    UnexpectedCharacter { position: usize, char: char, expected: String },
    InvalidFieldValue { position: usize, field: String, message: String },
    StringParseError { position: usize, message: String },
}

impl View for ParseError {
    type V = ParseErrorView;

    open spec fn view(&self) -> ParseErrorView {
        match self {
            ParseError::UnexpectedEndOfInput { position } => ParseErrorView::UnexpectedEndOfInput(
                *position as int,
            ),
            ParseError::UnexpectedCharacter { position, char, expected } =>
                ParseErrorView::UnexpectedCharacter(*position as int, *char, expected@),
            ParseError::InvalidFieldValue { position, field, message } =>
                ParseErrorView::InvalidFieldValue(*position as int, field@, message@),
            ParseError::StringParseError { position, message } => ParseErrorView::StringParseError(
                *position as int,
                message@,
            ),
        }
    }
}

/// Token of the text proto language.
#[derive(Debug, Clone)]
pub enum Token {
    Identifier(String),
    StringLiteral(String),
    LBrace,
    RBrace,
    LBracket,
    RBracket,
    Colon,
    Comma,
    Bool(bool),
    Eof,
}

impl View for Token {
    type V = TokenView;

    open spec fn view(&self) -> TokenView {
        match self {
            Token::Identifier(s) => TokenView::Identifier(s@),
            Token::StringLiteral(s) => TokenView::StringLiteral(s@),
            Token::LBrace => TokenView::LBrace,
            Token::RBrace => TokenView::RBrace,
            Token::LBracket => TokenView::LBracket,
            Token::RBracket => TokenView::RBracket,
            Token::Colon => TokenView::Colon,
            Token::Comma => TokenView::Comma,
            Token::Bool(b) => TokenView::Bool(*b),
            Token::Eof => TokenView::Eof,
        }
    }
}

/// Index of the first non-white-space character at or after `p`.
pub open spec fn sp_skip_ws(cs: Seq<char>, p: int) -> int
    decreases cs.len() - p,
{
    if 0 <= p < cs.len() && unicode_whitespace(cs[p]) {
        sp_skip_ws(cs, p + 1)
    } else {
        p
    }
}

/// Index of the end of the `#` comment that starts at or before `p`.
pub open spec fn sp_skip_comment(cs: Seq<char>, p: int) -> int
    decreases cs.len() - p,
{
    if 0 <= p < cs.len() && cs[p] != '\n' {
        sp_skip_comment(cs, p + 1)
    } else {
        p
    }
}

/// The character an escape sequence `\c` stands for in a double-quoted string.
pub open spec fn sp_unescape(c: char) -> char {
    if c == 'n' {
        '\n'
    } else if c == 't' {
        '\t'
    } else if c == 'r' {
        '\r'
    } else {
        c
    }
}

/// Scans the rest of a double-quoted string from `p` (after the opening
/// quote); `acc` holds the characters read so far.
pub open spec fn sp_scan_dq(cs: Seq<char>, p: int, acc: Seq<char>, start: int) -> (Result<
    Seq<char>,
    ParseErrorView,
>, int)
    decreases cs.len() - p,
{
    if p < 0 || p >= cs.len() {
        (Err(ParseErrorView::StringParseError(start, "Unterminated string"@)), p)
    } else if cs[p] == '"' {
        (Ok(acc), p + 1)
    } else if cs[p] == '\\' {
        if p + 1 >= cs.len() {
            (Err(ParseErrorView::StringParseError(p + 1, "Unexpected end after escape"@)), p + 1)
        } else {
            sp_scan_dq(cs, p + 2, acc.push(sp_unescape(cs[p + 1])), start)
        }
    } else {
        sp_scan_dq(cs, p + 1, acc.push(cs[p]), start)
    }
}

/// Scans the rest of a single-quoted string from `p`: a backslash keeps the
/// next character as it is.
pub open spec fn sp_scan_sq(cs: Seq<char>, p: int, acc: Seq<char>, start: int) -> (Result<
    Seq<char>,
    ParseErrorView,
>, int)
    decreases cs.len() + 1 - p,
{
    if p < 0 || p >= cs.len() {
        (Err(ParseErrorView::StringParseError(start, "Unterminated string"@)), p)
    } else if cs[p] == '\'' {
        (Ok(acc), p + 1)
    } else if cs[p] == '\\' {
        if p + 1 < cs.len() {
            sp_scan_sq(cs, p + 2, acc.push(cs[p + 1]), start)
        } else {
            sp_scan_sq(cs, p + 2, acc, start)
        }
    } else {
        sp_scan_sq(cs, p + 1, acc.push(cs[p]), start)
    }
}

/// Scans digits and dots.
pub open spec fn sp_scan_num(cs: Seq<char>, p: int, acc: Seq<char>) -> (Seq<char>, int)
    decreases cs.len() - p,
{
    if 0 <= p < cs.len() && (ascii_digit(cs[p]) || cs[p] == '.') {
        sp_scan_num(cs, p + 1, acc.push(cs[p]))
    } else {
        (acc, p)
    }
}

/// Characters that may continue an identifier.
pub open spec fn ident_char(c: char) -> bool {
    unicode_alphanumeric(c) || c == '_' || c == '-' || c == '.' || c == '/'
}

/// Scans identifier characters.
pub open spec fn sp_scan_ident(cs: Seq<char>, p: int, acc: Seq<char>) -> (Seq<char>, int)
    decreases cs.len() - p,
{
    if 0 <= p < cs.len() && ident_char(cs[p]) {
        sp_scan_ident(cs, p + 1, acc.push(cs[p]))
    } else {
        (acc, p)
    }
}

pub proof fn lemma_skip_ws_ge(cs: Seq<char>, p: int)
    ensures
        sp_skip_ws(cs, p) >= p,
    decreases cs.len() - p,
{
    if 0 <= p < cs.len() && unicode_whitespace(cs[p]) {
        lemma_skip_ws_ge(cs, p + 1);
    }
}

pub proof fn lemma_skip_comment_ge(cs: Seq<char>, p: int)
    ensures
        sp_skip_comment(cs, p) >= p,
        0 <= p < cs.len() && cs[p] != '\n' ==> sp_skip_comment(cs, p) > p,
        p <= cs.len() ==> sp_skip_comment(cs, p) <= cs.len(),
    decreases cs.len() - p,
{
    if 0 <= p < cs.len() && cs[p] != '\n' {
        lemma_skip_comment_ge(cs, p + 1);
    }
}

/// The next token at lexer position `p`, and the position after it.
pub open spec fn sp_lex(cs: Seq<char>, p: int) -> (Result<TokenView, ParseErrorView>, int)
    decreases cs.len() - p,
{
    let q = sp_skip_ws(cs, p);
    if q < 0 || q >= cs.len() {
        (Ok(TokenView::Eof), q)
    } else {
        let c = cs[q];
        if c == '#' {
            proof {
                lemma_skip_ws_ge(cs, p);
                lemma_skip_comment_ge(cs, q);
            }
            sp_lex(cs, sp_skip_comment(cs, q))
        } else if c == '{' {
            (Ok(TokenView::LBrace), q + 1)
        } else if c == '}' {
            (Ok(TokenView::RBrace), q + 1)
        } else if c == '[' {
            (Ok(TokenView::LBracket), q + 1)
        } else if c == ']' {
            (Ok(TokenView::RBracket), q + 1)
        } else if c == ':' {
            (Ok(TokenView::Colon), q + 1)
        } else if c == ',' {
            (Ok(TokenView::Comma), q + 1)
        } else if c == '"' {
            let (r, e) = sp_scan_dq(cs, q + 1, Seq::empty(), q);
            match r {
                Ok(s) => (Ok(TokenView::StringLiteral(s)), e),
                Err(err) => (Err(err), e),
            }
        } else if c == '\'' {
            let (r, e) = sp_scan_sq(cs, q + 1, Seq::empty(), q);
            match r {
                Ok(s) => (Ok(TokenView::StringLiteral(s)), e),
                Err(err) => (Err(err), e),
            }
        } else if ascii_digit(c) || c == '-' {
            let (s, e) = if c == '-' {
                sp_scan_num(cs, q + 1, seq!['-'])
            } else {
                sp_scan_num(cs, q, Seq::empty())
            };
            (Ok(TokenView::Identifier(s)), e)
        } else if unicode_alphabetic(c) || c == '_' {
            let (s, e) = sp_scan_ident(cs, q, Seq::empty());
            if s == "true"@ {
                (Ok(TokenView::Bool(true)), e)
            } else if s == "false"@ {
                (Ok(TokenView::Bool(false)), e)
            } else {
                (Ok(TokenView::Identifier(s)), e)
            }
        } else {
            (Err(ParseErrorView::UnexpectedCharacter(q, c, "valid token"@)), q)
        }
    }
}

/// Character-level scanner over the input.
struct Lexer {
    chars: Vec<char>,
    position: usize,
}

impl Lexer {
    /// The lexer's state is well formed.
    spec fn wf(&self) -> bool {
        &&& self.chars@.len() + 2 <= usize::MAX
        &&& self.position <= self.chars@.len() + 1
    }

    /// The input characters.
    spec fn input(&self) -> Seq<char> {
        self.chars@
    }

    /// The current position.
    spec fn pos(&self) -> int {
        self.position as int
    }

    fn new(input: &str) -> (r: Self)
        requires
            input@.len() + 2 <= usize::MAX,
        ensures
            r.wf(),
            r.input() == input@,
            r.pos() == 0,
    {
        Lexer { chars: chars_of(input), position: 0 }
    }

    fn peek(&self) -> (r: Option<char>)
        ensures
            r == if 0 <= self.pos() < self.input().len() {
                Some(self.input()[self.pos()])
            } else {
                None::<char>
            },
    {
        if self.position < self.chars.len() {
            Some(self.chars[self.position])
        } else {
            None
        }
    }

    fn skip_whitespace(&mut self)
        requires
            old(self).wf(),
        ensures
            final(self).wf(),
            final(self).input() == old(self).input(),
            final(self).pos() == sp_skip_ws(old(self).input(), old(self).pos()),
    {
        loop
            invariant
                self.wf(),
                self.input() == old(self).input(),
                sp_skip_ws(self.input(), self.pos()) == sp_skip_ws(old(self).input(), old(self).pos()),
            ensures
                self.pos() == sp_skip_ws(self.input(), self.pos()),
            decreases self.chars@.len() - self.position,
        {
            match self.peek() {
                Some(c) => {
                    if is_whitespace(c) {
                        self.position = self.position + 1;
                    } else {
                        break;
                    }
                },
                None => {
                    break;
                },
            }
        }
    }

    fn skip_comment(&mut self)
        requires
            old(self).wf(),
        ensures
            final(self).wf(),
            final(self).input() == old(self).input(),
            final(self).pos() == sp_skip_comment(old(self).input(), old(self).pos()),
    {
        loop
            invariant
                self.wf(),
                self.input() == old(self).input(),
                sp_skip_comment(self.input(), self.pos()) == sp_skip_comment(
                    old(self).input(),
                    old(self).pos(),
                ),
            ensures
                self.pos() == sp_skip_comment(self.input(), self.pos()),
            decreases self.chars@.len() - self.position,
        {
            match self.peek() {
                Some(c) => {
                    if c != '\n' {
                        self.position = self.position + 1;
                    } else {
                        break;
                    }
                },
                None => {
                    break;
                },
            }
        }
    }

    fn parse_string(&mut self) -> (r: Result<Token, ParseError>)
        requires
            old(self).wf(),
            0 <= old(self).pos() < old(self).input().len(),
        ensures
            final(self).wf(),
            final(self).input() == old(self).input(),
            ({
                let (sr, e) = sp_scan_dq(old(self).input(), old(self).pos() + 1, Seq::empty(), old(self).pos());
                &&& final(self).pos() == e
                &&& match (r, sr) {
                    (Ok(t), Ok(s)) => t@ == TokenView::StringLiteral(s),
                    (Err(x), Err(y)) => x@ == y,
                    _ => false,
                }
            }),
    {
        let start = self.position;
        self.position = self.position + 1;
        let mut result = String::new();
        loop
            invariant
                self.wf(),
                self.input() == old(self).input(),
                start == old(self).pos(),
                sp_scan_dq(self.input(), self.pos(), result@, start as int) == sp_scan_dq(
                    old(self).input(),
                    old(self).pos() + 1,
                    Seq::empty(),
                    old(self).pos(),
                ),
                self.pos() <= self.input().len(),
            decreases self.chars@.len() - self.position,
        {
            if self.position >= self.chars.len() {
                return Err(
                    ParseError::StringParseError {
                        position: start,
                        message: String::from_str("Unterminated string"),
                    },
                );
            }
            let c = self.chars[self.position];
            if c == '"' {
                self.position = self.position + 1;
                return Ok(Token::StringLiteral(result));
            } else if c == '\\' {
                self.position = self.position + 1;
                if self.position >= self.chars.len() {
                    return Err(
                        ParseError::StringParseError {
                            position: self.position,
                            message: String::from_str("Unexpected end after escape"),
                        },
                    );
                }
                let e = self.chars[self.position];
                let d = if e == 'n' {
                    '\n'
                } else if e == 't' {
                    '\t'
                } else if e == 'r' {
                    '\r'
                } else {
                    e
                };
                push_char(&mut result, d);
                self.position = self.position + 1;
            } else {
                push_char(&mut result, c);
                self.position = self.position + 1;
            }
        }
    }

    fn parse_single_quoted_string(&mut self) -> (r: Result<Token, ParseError>)
        requires
            old(self).wf(),
            0 <= old(self).pos() < old(self).input().len(),
        ensures
            final(self).wf(),
            final(self).input() == old(self).input(),
            ({
                let (sr, e) = sp_scan_sq(old(self).input(), old(self).pos() + 1, Seq::empty(), old(self).pos());
                &&& final(self).pos() == e
                &&& match (r, sr) {
                    (Ok(t), Ok(s)) => t@ == TokenView::StringLiteral(s),
                    (Err(x), Err(y)) => x@ == y,
                    _ => false,
                }
            }),
    {
        let start = self.position;
        self.position = self.position + 1;
        let mut result = String::new();
        loop
            invariant
                self.wf(),
                self.input() == old(self).input(),
                start == old(self).pos(),
                sp_scan_sq(self.input(), self.pos(), result@, start as int) == sp_scan_sq(
                    old(self).input(),
                    old(self).pos() + 1,
                    Seq::empty(),
                    old(self).pos(),
                ),
            decreases self.chars@.len() + 1 - self.position,
        {
            if self.position >= self.chars.len() {
                return Err(
                    ParseError::StringParseError {
                        position: start,
                        message: String::from_str("Unterminated string"),
                    },
                );
            }
            let c = self.chars[self.position];
            if c == '\'' {
                self.position = self.position + 1;
                return Ok(Token::StringLiteral(result));
            } else if c == '\\' {
                self.position = self.position + 1;
                if self.position < self.chars.len() {
                    push_char(&mut result, self.chars[self.position]);
                }
                self.position = self.position + 1;
            } else {
                push_char(&mut result, c);
                self.position = self.position + 1;
            }
        }
    }

    fn parse_number_or_bool(&mut self) -> (r: Token)
        requires
            old(self).wf(),
            0 <= old(self).pos() < old(self).input().len(),
        ensures
            final(self).wf(),
            final(self).input() == old(self).input(),
            ({
                let c = old(self).input()[old(self).pos()];
                let (s, e) = if c == '-' {
                    sp_scan_num(old(self).input(), old(self).pos() + 1, seq!['-'])
                } else {
                    sp_scan_num(old(self).input(), old(self).pos(), Seq::empty())
                };
                &&& final(self).pos() == e
                &&& r@ == TokenView::Identifier(s)
            }),
    {
        let mut s = String::new();
        if self.chars[self.position] == '-' {
            push_char(&mut s, '-');
            self.position = self.position + 1;
        }
        let ghost s0 = s@;
        let ghost p0 = self.pos();
        proof {
            if old(self).input()[old(self).pos()] == '-' {
                assert(s0 =~= seq!['-']);
            } else {
                assert(s0 =~= Seq::<char>::empty());
            }
        }
        while self.position < self.chars.len() && (('0' <= self.chars[self.position]
            && self.chars[self.position] <= '9') || self.chars[self.position] == '.')
            invariant
                self.wf(),
                self.input() == old(self).input(),
                self.pos() <= self.input().len(),
                sp_scan_num(self.input(), self.pos(), s@) == sp_scan_num(self.input(), p0, s0),
            decreases self.chars@.len() - self.position,
        {
            push_char(&mut s, self.chars[self.position]);
            self.position = self.position + 1;
        }
        Token::Identifier(s)
    }

    fn parse_identifier_or_bool(&mut self) -> (r: Token)
        requires
            old(self).wf(),
            0 <= old(self).pos() < old(self).input().len(),
        ensures
            final(self).wf(),
            final(self).input() == old(self).input(),
            ({
                let (s, e) = sp_scan_ident(old(self).input(), old(self).pos(), Seq::empty());
                &&& final(self).pos() == e
                &&& r@ == if s == "true"@ {
                    TokenView::Bool(true)
                } else if s == "false"@ {
                    TokenView::Bool(false)
                } else {
                    TokenView::Identifier(s)
                }
            }),
    {
        let mut s = String::new();
        loop
            invariant
                self.wf(),
                self.input() == old(self).input(),
                self.pos() <= self.input().len(),
                sp_scan_ident(self.input(), self.pos(), s@) == sp_scan_ident(
                    old(self).input(),
                    old(self).pos(),
                    Seq::empty(),
                ),
        ensures
            sp_scan_ident(self.input(), self.pos(), s@) == (s@, self.pos()),
            self.wf(),
            self.input() == old(self).input(),
            sp_scan_ident(self.input(), self.pos(), s@) == sp_scan_ident(old(self).input(), old(self).pos(), Seq::empty()),
            decreases self.chars@.len() - self.position,
        {
            if self.position >= self.chars.len() {
                break;
            }
            let c = self.chars[self.position];
            if is_alphanumeric(c) || c == '_' || c == '-' || c == '.' || c == '/' {
                push_char(&mut s, c);
                self.position = self.position + 1;
            } else {
                break;
            }
        }
        let sc = chars_of(s.as_str());
        let t = vec!['t', 'r', 'u', 'e'];
        let f = vec!['f', 'a', 'l', 's', 'e'];
        proof {
            reveal_strlit("true");
            reveal_strlit("false");
            assert(t@ =~= "true"@);
            assert(f@ =~= "false"@);
        }
        if chars_eq(sc.as_slice(), t.as_slice()) {
            Token::Bool(true)
        } else if chars_eq(sc.as_slice(), f.as_slice()) {
            Token::Bool(false)
        } else {
            Token::Identifier(s)
        }
    }

    /// The next token, per [`sp_lex`].
    fn next_token(&mut self) -> (r: Result<Token, ParseError>)
        requires
            old(self).wf(),
        ensures
            final(self).wf(),
            final(self).input() == old(self).input(),
            ({
                let (sr, e) = sp_lex(old(self).input(), old(self).pos());
                &&& final(self).pos() == e
                &&& match (r, sr) {
                    (Ok(t), Ok(v)) => t@ == v,
                    (Err(x), Err(y)) => x@ == y,
                    _ => false,
                }
            }),
        decreases old(self).input().len() + 2 - old(self).pos(),
    {
        self.skip_whitespace();
        let position = self.position;
        if self.position >= self.chars.len() {
            return Ok(Token::Eof);
        }
        let c = self.chars[self.position];
        if c == '#' {
            proof {
                lemma_skip_ws_ge(old(self).input(), old(self).pos());
            }
            self.skip_comment();
            proof {
                lemma_skip_comment_ge(old(self).input(), position as int);
            }
            return self.next_token();
        } else if c == '{' {
            self.position = self.position + 1;
            Ok(Token::LBrace)
        } else if c == '}' {
            self.position = self.position + 1;
            Ok(Token::RBrace)
        } else if c == '[' {
            self.position = self.position + 1;
            Ok(Token::LBracket)
        } else if c == ']' {
            self.position = self.position + 1;
            Ok(Token::RBracket)
        } else if c == ':' {
            self.position = self.position + 1;
            Ok(Token::Colon)
        } else if c == ',' {
            self.position = self.position + 1;
            Ok(Token::Comma)
        } else if c == '"' {
            self.parse_string()
        } else if c == '\'' {
            self.parse_single_quoted_string()
        } else if ('0' <= c && c <= '9') || c == '-' {
            Ok(self.parse_number_or_bool())
        } else if is_alphabetic(c) || c == '_' {
            Ok(self.parse_identifier_or_bool())
        } else {
            Err(
                ParseError::UnexpectedCharacter {
                    position,
                    char: c,
                    expected: String::from_str("valid token"),
                },
            )
        }
    }
}

/// Equality of two character slices.
pub fn chars_eq(a: &[char], b: &[char]) -> (r: bool)
    ensures
        r == (a@ == b@),
{
    if a.len() != b.len() {
        return false;
    }
    let mut i: usize = 0;
    while i < a.len()
        invariant
            a@.len() == b@.len(),
            i <= a@.len(),
            forall|j: int| 0 <= j < i ==> a@[j] == b@[j],
        decreases a@.len() - i,
    {
        if a[i] != b[i] {
            return false;
        }
        i = i + 1;
    }
    assert(a@ =~= b@);
    true
}


// ---------------------------------------------------------------------
// Values, field maps and the abstract parser.
// ---------------------------------------------------------------------

/// Abstract proto value.
pub enum PVView {
    Str(Seq<char>),
    Strs(Seq<Seq<char>>),
    Bool(bool),
    Msg(Seq<(Seq<char>, PVView)>),
    Msgs(Seq<Seq<(Seq<char>, PVView)>>),
}

/// Intermediate representation of proto values during parsing.  A message
/// is a list of `(field name, value)` pairs in which no name occurs twice.
#[derive(Debug)]
pub enum ProtoValue {
    String(String),
    Strings(Vec<String>),
    Bool(bool),
    Message(Vec<(String, ProtoValue)>),
    Messages(Vec<Vec<(String, ProtoValue)>>),
}

/// The view of a proto value.
pub open spec fn pv_view(v: ProtoValue) -> PVView
    decreases v,
{
    match v {
        ProtoValue::String(s) => PVView::Str(s@),
        ProtoValue::Strings(ss) => PVView::Strs(ss@.map_values(|x: String| x@)),
        ProtoValue::Bool(b) => PVView::Bool(b),
        ProtoValue::Message(m) => PVView::Msg(fields_view(m@)),
        ProtoValue::Messages(ms) => PVView::Msgs(msgs_view(ms@)),
    }
}

/// The view of a field list.
pub open spec fn fields_view(m: Seq<(String, ProtoValue)>) -> Seq<(Seq<char>, PVView)>
    decreases m,
{
    if m.len() == 0 {
        Seq::empty()
    } else {
        let last = m[m.len() - 1];
        fields_view(m.subrange(0, m.len() - 1)).push((last.0@, pv_view(last.1)))
    }
}

/// The view of a list of field lists.
pub open spec fn msgs_view(ms: Seq<Vec<(String, ProtoValue)>>) -> Seq<Seq<(Seq<char>, PVView)>>
    decreases ms,
{
    if ms.len() == 0 {
        Seq::empty()
    } else {
        let last = ms[ms.len() - 1];
        msgs_view(ms.subrange(0, ms.len() - 1)).push(fields_view(last@))
    }
}

/// Index of the entry named `k`.
pub open spec fn fm_find(m: Seq<(Seq<char>, PVView)>, k: Seq<char>) -> Option<int>
    decreases m.len(),
{
    if m.len() == 0 {
        None
    } else if m[0].0 == k {
        Some(0)
    } else {
        match fm_find(m.drop_first(), k) {
            Some(i) => Some(i + 1),
            None => None,
        }
    }
}

/// Value of the entry named `k`.
pub open spec fn fm_get(m: Seq<(Seq<char>, PVView)>, k: Seq<char>) -> Option<PVView> {
    match fm_find(m, k) {
        Some(i) => Some(m[i].1),
        None => None,
    }
}

/// The list without the entry named `k`.
pub open spec fn fm_remove(m: Seq<(Seq<char>, PVView)>, k: Seq<char>) -> Seq<(Seq<char>, PVView)> {
    match fm_find(m, k) {
        Some(i) => m.remove(i),
        None => m,
    }
}

/// The list with the entry named `k` set to `v` (appended when absent).
pub open spec fn fm_insert(m: Seq<(Seq<char>, PVView)>, k: Seq<char>, v: PVView) -> Seq<(Seq<char>, PVView)> {
    match fm_find(m, k) {
        Some(i) => m.update(i, (k, v)),
        None => m.push((k, v)),
    }
}

/// Parser state: lexer position and current token.
pub type PState = (int, TokenView);

/// Progress measure of a parser state: it never grows, and shrinks with
/// every token read past a token other than the end of input.
pub open spec fn sp_measure(cs: Seq<char>, st: PState) -> int {
    (if st.0 < cs.len() {
        2 * (cs.len() - st.0)
    } else {
        0
    }) + (if st.1 is Eof {
        0int
    } else {
        1int
    })
}

/// The states a parser can be in: the position is at most one past the end.
pub open spec fn sp_state_ok(cs: Seq<char>, st: PState) -> bool {
    0 <= st.0 <= cs.len() + 1
}

/// Reads the next token into the state.
pub open spec fn sp_advance(cs: Seq<char>, st: PState) -> (PState, Result<TokenView, ParseErrorView>) {
    let (r, e) = sp_lex(cs, st.0);
    match r {
        Ok(t) => ((e, t), Ok(t)),
        Err(x) => ((e, st.1), Err(x)),
    }
}

/// First character of the `Debug` form of a token.
pub open spec fn tok_initial(t: TokenView) -> char {
    match t {
        TokenView::Identifier(_) => 'I',
        TokenView::StringLiteral(_) => 'S',
        TokenView::LBrace => 'L',
        TokenView::RBrace => 'R',
        TokenView::LBracket => 'L',
        TokenView::RBracket => 'R',
        TokenView::Colon => 'C',
        TokenView::Comma => 'C',
        TokenView::Bool(_) => 'B',
        TokenView::Eof => 'E',
    }
}

/// Consumes the closing `}` (`closing_brace`) or `]`.
pub open spec fn sp_expect(cs: Seq<char>, st: PState, closing_brace: bool) -> (PState, Result<(), ParseErrorView>) {
    let matches = if closing_brace {
        st.1 is RBrace
    } else {
        st.1 is RBracket
    };
    if matches {
        let (s1, r) = sp_advance(cs, st);
        match r {
            Ok(_) => (s1, Ok(())),
            Err(x) => (s1, Err(x)),
        }
    } else {
        (
            st,
            Err(
                ParseErrorView::UnexpectedCharacter(
                    st.0,
                    tok_initial(st.1),
                    if closing_brace {
                        "RBrace"@
                    } else {
                        "RBracket"@
                    },
                ),
            ),
        )
    }
}

/// Merges a repeated field of a nested message into its previous value.
pub open spec fn merge_msg(existing: Option<PVView>, v: PVView) -> PVView {
    match (existing, v) {
        (Some(PVView::Strs(a)), PVView::Str(x)) => PVView::Strs(a.push(x)),
        (Some(PVView::Msgs(a)), PVView::Msg(m)) => PVView::Msgs(a.push(m)),
        (Some(PVView::Str(e)), PVView::Str(x)) => PVView::Strs(seq![e, x]),
        (Some(PVView::Msg(e)), PVView::Msg(m)) => PVView::Msgs(seq![e, m]),
        (_, v) => v,
    }
}

/// Merges a repeated top-level field into its previous value.
pub open spec fn merge_top(m: Seq<(Seq<char>, PVView)>, k: Seq<char>, v: PVView) -> Seq<(Seq<char>, PVView)> {
    match (fm_get(m, k), v) {
        (Some(PVView::Strs(e)), PVView::Str(x)) => fm_insert(m, k, PVView::Strs(e.push(x))),
        (Some(PVView::Str(o)), PVView::Str(x)) => fm_insert(m, k, PVView::Strs(seq![o, x])),
        (_, v) => fm_insert(m, k, v),
    }
}


pub proof fn lemma_scan_dq(cs: Seq<char>, p: int, acc: Seq<char>, start: int)
    requires
        0 <= p <= cs.len(),
    ensures
        p <= sp_scan_dq(cs, p, acc, start).1 <= cs.len(),
    decreases cs.len() - p,
{
    if p < cs.len() && cs[p] != '"' {
        if cs[p] == '\\' {
            if p + 1 < cs.len() {
                lemma_scan_dq(cs, p + 2, acc.push(sp_unescape(cs[p + 1])), start);
            }
        } else {
            lemma_scan_dq(cs, p + 1, acc.push(cs[p]), start);
        }
    }
}

pub proof fn lemma_scan_sq(cs: Seq<char>, p: int, acc: Seq<char>, start: int)
    requires
        0 <= p <= cs.len() + 1,
    ensures
        p <= sp_scan_sq(cs, p, acc, start).1 <= cs.len() + 1,
    decreases cs.len() + 1 - p,
{
    if p < cs.len() && cs[p] != '\'' {
        if cs[p] == '\\' {
            if p + 1 < cs.len() {
                lemma_scan_sq(cs, p + 2, acc.push(cs[p + 1]), start);
            } else {
                lemma_scan_sq(cs, p + 2, acc, start);
            }
        } else {
            lemma_scan_sq(cs, p + 1, acc.push(cs[p]), start);
        }
    }
}

pub proof fn lemma_scan_num(cs: Seq<char>, p: int, acc: Seq<char>)
    requires
        0 <= p <= cs.len(),
    ensures
        p <= sp_scan_num(cs, p, acc).1 <= cs.len(),
        p < cs.len() && (ascii_digit(cs[p]) || cs[p] == '.') ==> sp_scan_num(cs, p, acc).1 > p,
    decreases cs.len() - p,
{
    if 0 <= p < cs.len() && (ascii_digit(cs[p]) || cs[p] == '.') {
        lemma_scan_num(cs, p + 1, acc.push(cs[p]));
    }
}

pub proof fn lemma_scan_ident(cs: Seq<char>, p: int, acc: Seq<char>)
    requires
        0 <= p <= cs.len(),
    ensures
        p <= sp_scan_ident(cs, p, acc).1 <= cs.len(),
        p < cs.len() && ident_char(cs[p]) ==> sp_scan_ident(cs, p, acc).1 > p,
    decreases cs.len() - p,
{
    if 0 <= p < cs.len() && ident_char(cs[p]) {
        lemma_scan_ident(cs, p + 1, acc.push(cs[p]));
    }
}

pub proof fn lemma_skip_ws_le(cs: Seq<char>, p: int)
    ensures
        p <= sp_skip_ws(cs, p),
        p <= cs.len() + 1 ==> sp_skip_ws(cs, p) <= cs.len() + 1,
        0 <= p <= cs.len() ==> sp_skip_ws(cs, p) <= cs.len(),
    decreases cs.len() - p,
{
    if 0 <= p < cs.len() && unicode_whitespace(cs[p]) {
        lemma_skip_ws_le(cs, p + 1);
    }
}

/// Reading a token never moves the lexer backwards or more than one past
/// the end, and every token other than the end of input consumes input.
pub proof fn lemma_lex_progress(cs: Seq<char>, p: int)
    ensures
        p <= sp_lex(cs, p).1,
        p <= cs.len() + 1 ==> sp_lex(cs, p).1 <= cs.len() + 1,
        (sp_lex(cs, p).0 matches Ok(t) && !(t is Eof)) ==> p < cs.len() && p < sp_lex(cs, p).1,
    decreases cs.len() - p,
{
    let q = sp_skip_ws(cs, p);
    lemma_skip_ws_le(cs, p);
    if 0 <= q < cs.len() {
        let c = cs[q];
        if c == '#' {
            lemma_skip_comment_ge(cs, q);
            lemma_lex_progress(cs, sp_skip_comment(cs, q));
        } else if c == '"' {
            lemma_scan_dq(cs, q + 1, Seq::empty(), q);
        } else if c == '\'' {
            lemma_scan_sq(cs, q + 1, Seq::empty(), q);
        } else if ascii_digit(c) || c == '-' {
            if c == '-' {
                lemma_scan_num(cs, q + 1, seq!['-']);
            } else {
                lemma_scan_num(cs, q, Seq::empty());
            }
        } else if unicode_alphabetic(c) || c == '_' {
            lemma_scan_ident(cs, q, Seq::empty());
        }
    }
}

/// Reading a token never increases the measure, and decreases it when the
/// current token is not the end of input and the read succeeds.
pub proof fn lemma_advance_measure(cs: Seq<char>, st: PState)
    ensures
        sp_state_ok(cs, st) ==> sp_state_ok(cs, sp_advance(cs, st).0),
        st.0 <= sp_advance(cs, st).0.0,
        sp_measure(cs, sp_advance(cs, st).0) <= sp_measure(cs, st),
        !(st.1 is Eof) && sp_advance(cs, st).1 is Ok ==> sp_measure(cs, sp_advance(cs, st).0)
            < sp_measure(cs, st),
{
    lemma_lex_progress(cs, st.0);
}

/// Reading the name, the optional colon and an opening bracket of a field
/// decreases the measure.
pub proof fn lemma_field_progress(cs: Seq<char>, st: PState)
    requires
        st.1 is Identifier,
        sp_advance(cs, st).1 is Ok,
    ensures
        ({
            let s1 = sp_advance(cs, st).0;
            let s2 = if s1.1 is Colon {
                sp_advance(cs, s1).0
            } else {
                s1
            };
            let s3 = sp_advance(cs, s2).0;
            sp_measure(cs, s3) < sp_measure(cs, st)
        }),
{
    lemma_advance_measure(cs, st);
    let s1 = sp_advance(cs, st).0;
    lemma_advance_measure(cs, s1);
    let s2 = if s1.1 is Colon {
        sp_advance(cs, s1).0
    } else {
        s1
    };
    lemma_advance_measure(cs, s2);
}

/// Skips tokens up to the next field name at the current nesting depth,
/// or up to the `}` that closes it, or to the end of input.
pub open spec fn sp_skip(cs: Seq<char>, st: PState, depth: nat) -> PState
    decreases sp_measure(cs, st),
{
    if st.1 is Eof {
        st
    } else if st.1 is RBrace && depth == 0 {
        st
    } else if st.1 is Identifier && depth == 0 {
        st
    } else {
        let d = if st.1 is RBrace {
            (depth - 1) as nat
        } else if st.1 is LBrace {
            depth + 1
        } else {
            depth
        };
        let (s1, r) = sp_advance(cs, st);
        if r is Err {
            s1
        } else {
            proof {
                lemma_advance_measure(cs, st);
            }
            sp_skip(cs, s1, d)
        }
    }
}

/// Reads a string or name token after the field name: the field's value.
pub open spec fn sp_parse_field(cs: Seq<char>, st: PState) -> (PState, Result<(Seq<char>, PVView), ParseErrorView>)
    decreases sp_measure(cs, st), 1int,
{
    match st.1 {
        TokenView::Identifier(name) => {
            let (s1, r1) = sp_advance(cs, st);
            if r1 is Err {
                (s1, Err(r1->Err_0))
            } else {
                let (s2, r2) = if s1.1 is Colon {
                    sp_advance(cs, s1)
                } else {
                    (s1, Ok(TokenView::Colon))
                };
                if r2 is Err {
                    (s2, Err(r2->Err_0))
                } else {
                    match s2.1 {
                        TokenView::LBrace => {
                            let (s3, r3) = sp_advance(cs, s2);
                            if r3 is Err {
                                (s3, Err(r3->Err_0))
                            } else {
                                proof {
                                    lemma_field_progress(cs, st);
                                }
                                let (s4, r4) = sp_parse_message(cs, s3);
                                match r4 {
                                    Ok(m) => {
                                        let (s5, _) = sp_expect(cs, s4, true);
                                        (s5, Ok((name, PVView::Msg(m))))
                                    },
                                    Err(e) => (s4, Err(e)),
                                }
                            }
                        },
                        TokenView::LBracket => {
                            let (s3, r3) = sp_advance(cs, s2);
                            if r3 is Err {
                                (s3, Err(r3->Err_0))
                            } else {
                                proof {
                                    lemma_field_progress(cs, st);
                                }
                                let (s4, r4) = sp_parse_array(cs, s3, Seq::empty(), Seq::empty());
                                match r4 {
                                    Ok(a) => {
                                        let (s5, r5) = sp_expect(cs, s4, false);
                                        match r5 {
                                            Ok(_) => (s5, Ok((name, a))),
                                            Err(e) => (s5, Err(e)),
                                        }
                                    },
                                    Err(e) => (s4, Err(e)),
                                }
                            }
                        },
                        TokenView::StringLiteral(v) => {
                            let (s3, r3) = sp_advance(cs, s2);
                            if r3 is Err {
                                (s3, Err(r3->Err_0))
                            } else {
                                (s3, Ok((name, PVView::Str(v))))
                            }
                        },
                        TokenView::Identifier(v) => {
                            let (s3, r3) = sp_advance(cs, s2);
                            if r3 is Err {
                                (s3, Err(r3->Err_0))
                            } else {
                                (s3, Ok((name, PVView::Str(v))))
                            }
                        },
                        TokenView::Bool(b) => {
                            let (s3, r3) = sp_advance(cs, s2);
                            if r3 is Err {
                                (s3, Err(r3->Err_0))
                            } else {
                                (s3, Ok((name, PVView::Bool(b))))
                            }
                        },
                        _ => (
                            s2,
                            Err(ParseErrorView::UnexpectedCharacter(s2.0, tok_initial(s2.1), "value"@)),
                        ),
                    }
                }
            }
        },
        _ => (st, Err(ParseErrorView::UnexpectedCharacter(st.0, tok_initial(st.1), "identifier"@))),
    }
}

/// Fields of a nested message up to its closing `}`.
pub open spec fn sp_parse_message(cs: Seq<char>, st: PState) -> (PState, Result<Seq<(Seq<char>, PVView)>, ParseErrorView>)
    decreases sp_measure(cs, st), 3int,
{
    sp_message_loop(cs, st, Seq::empty())
}

/// End of a nested message: the input must not have ended.
pub open spec fn sp_message_end(st: PState, fields: Seq<(Seq<char>, PVView)>) -> (PState, Result<Seq<(Seq<char>, PVView)>, ParseErrorView>) {
    if st.1 is Eof {
        (st, Err(ParseErrorView::UnexpectedEndOfInput(0)))
    } else {
        (st, Ok(fields))
    }
}

/// The field loop of a nested message.
pub open spec fn sp_message_loop(cs: Seq<char>, st: PState, fields: Seq<(Seq<char>, PVView)>) -> (PState, Result<Seq<(Seq<char>, PVView)>, ParseErrorView>)
    decreases sp_measure(cs, st), 2int,
{
    if st.1 is RBrace || st.1 is Eof {
        sp_message_end(st, fields)
    } else {
        let (s1, r1) = sp_parse_field(cs, st);
        match r1 {
            Ok((n, v)) => {
                let f2 = fm_remove(fields, n).push((n, merge_msg(fm_get(fields, n), v)));
                if sp_measure(cs, s1) < sp_measure(cs, st) {
                    sp_message_loop(cs, s1, f2)
                } else {
                    sp_message_end(s1, f2)
                }
            },
            Err(_) => {
                if s1.1 is Eof {
                    sp_message_end(s1, fields)
                } else {
                    let s2 = sp_skip(cs, s1, 0);
                    if sp_measure(cs, s2) < sp_measure(cs, st) {
                        sp_message_loop(cs, s2, fields)
                    } else {
                        sp_message_end(s2, fields)
                    }
                }
            },
        }
    }
}

/// Elements of an array up to its closing `]`.
pub open spec fn sp_parse_array(cs: Seq<char>, st: PState, strings: Seq<Seq<char>>, messages: Seq<Seq<(Seq<char>, PVView)>>) -> (PState, Result<PVView, ParseErrorView>)
    decreases sp_measure(cs, st), 2int,
{
    if st.1 is RBracket || st.1 is Eof {
        if messages.len() > 0 {
            (st, Ok(PVView::Msgs(messages)))
        } else {
            (st, Ok(PVView::Strs(strings)))
        }
    } else {
        let (s1, r1) = sp_advance(cs, st);
        if r1 is Err {
            (s1, Err(r1->Err_0))
        } else {
            proof {
                lemma_advance_measure(cs, st);
            }
            match st.1 {
                TokenView::StringLiteral(x) => sp_parse_array(cs, s1, strings.push(x), messages),
                TokenView::Identifier(x) => sp_parse_array(cs, s1, strings.push(x), messages),
                TokenView::LBrace => {
                    let (s2, r2) = sp_parse_message(cs, s1);
                    match r2 {
                        Err(e) => (s2, Err(e)),
                        Ok(m) => {
                            let (s3, r3) = sp_expect(cs, s2, true);
                            match r3 {
                                Err(e) => (s3, Err(e)),
                                Ok(_) => if sp_measure(cs, s3) < sp_measure(cs, st) {
                                    sp_parse_array(cs, s3, strings, messages.push(m))
                                } else {
                                    (s3, Ok(PVView::Msgs(messages.push(m))))
                                },
                            }
                        },
                    }
                },
                _ => sp_parse_array(cs, s1, strings, messages),
            }
        }
    }
}

/// The top-level field loop: fields collected and errors met.  A field
/// that cannot be read is recorded as an error and skipped; where skipping
/// makes no progress (a stray `}`), one more token is passed over, and the
/// loop ends only where not even that moves on (the end of input, or a
/// character the lexer cannot read past).
pub open spec fn sp_top_loop(cs: Seq<char>, st: PState, fields: Seq<(Seq<char>, PVView)>, errs: Seq<ParseErrorView>) -> (Seq<(Seq<char>, PVView)>, Seq<ParseErrorView>)
    decreases sp_measure(cs, st),
{
    if st.1 is Eof {
        (fields, errs)
    } else {
        let (s1, r1) = sp_parse_field(cs, st);
        let (s2, f2, e2) = match r1 {
            Ok((n, v)) => (s1, merge_top(fields, n, v), errs),
            Err(x) => (sp_skip(cs, s1, 0), fields, errs.push(x)),
        };
        let s3 = if sp_measure(cs, s2) < sp_measure(cs, st) {
            s2
        } else {
            sp_advance(cs, s2).0
        };
        if sp_measure(cs, s3) < sp_measure(cs, st) {
            sp_top_loop(cs, s3, f2, e2)
        } else {
            (f2, e2)
        }
    }
}

/// The initial parser state: the first token, or the end of input when the
/// first token cannot be read.
pub open spec fn sp_initial(cs: Seq<char>) -> PState {
    let (r, e) = sp_lex(cs, 0);
    match r {
        Ok(t) => (e, t),
        Err(_) => (e, TokenView::Eof),
    }
}


// ---------------------------------------------------------------------
// From field lists to target information.
// ---------------------------------------------------------------------

/// The string value of field `k`.
pub open spec fn get_str(m: Seq<(Seq<char>, PVView)>, k: Seq<char>) -> Option<Seq<char>> {
    match fm_get(m, k) {
        Some(PVView::Str(s)) => Some(s),
        _ => None,
    }
}

/// The boolean value of field `k` (false when absent or not a boolean).
pub open spec fn get_bool(m: Seq<(Seq<char>, PVView)>, k: Seq<char>) -> bool {
    match fm_get(m, k) {
        Some(PVView::Bool(b)) => b,
        _ => false,
    }
}

/// The nested message of field `k`.
pub open spec fn get_msg(m: Seq<(Seq<char>, PVView)>, k: Seq<char>) -> Option<Seq<(Seq<char>, PVView)>> {
    match fm_get(m, k) {
        Some(PVView::Msg(x)) => Some(x),
        _ => None,
    }
}

/// The repeated messages of field `k` (empty unless the field repeats).
pub open spec fn get_msgs(m: Seq<(Seq<char>, PVView)>, k: Seq<char>) -> Seq<Seq<(Seq<char>, PVView)>> {
    match fm_get(m, k) {
        Some(PVView::Msgs(x)) => x,
        _ => Seq::empty(),
    }
}

/// The location without any information.
pub open spec fn empty_loc() -> crate::ide_info::ArtifactLocationView {
    crate::ide_info::ArtifactLocationView {
        relative_path: None,
        absolute_path: None,
        is_source: false,
        is_external: false,
        root_execution_path_fragment: None,
        root_path: None,
    }
}

/// An artifact location read from a message.
pub open spec fn sp_loc(m: Seq<(Seq<char>, PVView)>) -> crate::ide_info::ArtifactLocationView {
    crate::ide_info::ArtifactLocationView {
        relative_path: get_str(m, "relative_path"@),
        absolute_path: get_str(m, "absolute_path"@),
        is_source: get_bool(m, "is_source"@),
        is_external: get_bool(m, "is_external"@),
        root_execution_path_fragment: get_str(m, "root_execution_path_fragment"@),
        root_path: None,
    }
}

/// An optional location read from a message field.
pub open spec fn sp_opt_loc(m: Seq<(Seq<char>, PVView)>, k: Seq<char>) -> Option<crate::ide_info::ArtifactLocationView> {
    match get_msg(m, k) {
        Some(x) => Some(sp_loc(x)),
        None => None,
    }
}

/// A JAR read from a message.
pub open spec fn sp_jar(m: Seq<(Seq<char>, PVView)>) -> crate::ide_info::JarInfoView {
    crate::ide_info::JarInfoView {
        jar: match get_msg(m, "jar"@) {
            Some(x) => sp_loc(x),
            None => empty_loc(),
        },
        source_jar: sp_opt_loc(m, "source_jar"@),
        interface_jar: sp_opt_loc(m, "interface_jar"@),
    }
}

/// Locations of a repeated field.
pub open spec fn sp_locs(m: Seq<(Seq<char>, PVView)>, k: Seq<char>) -> Seq<crate::ide_info::ArtifactLocationView> {
    get_msgs(m, k).map_values(|x: Seq<(Seq<char>, PVView)>| sp_loc(x))
}

/// JARs of a repeated field.
pub open spec fn sp_jars(m: Seq<(Seq<char>, PVView)>, k: Seq<char>) -> Seq<crate::ide_info::JarInfoView> {
    get_msgs(m, k).map_values(|x: Seq<(Seq<char>, PVView)>| sp_jar(x))
}

/// The strings of a repeated string field.
pub open spec fn get_strs(m: Seq<(Seq<char>, PVView)>, k: Seq<char>) -> Option<Seq<Seq<char>>> {
    match fm_get(m, k) {
        Some(PVView::Strs(x)) => Some(x),
        _ => None,
    }
}

/// Java information read from a message: `sources` and `jars` may occur once
/// or repeatedly, the other location lists only count when repeated.
pub open spec fn sp_java(m: Seq<(Seq<char>, PVView)>) -> crate::ide_info::JavaIdeInfoView {
    crate::ide_info::JavaIdeInfoView {
        sources: match get_msg(m, "sources"@) {
            Some(x) => seq![sp_loc(x)],
            None => sp_locs(m, "sources"@),
        },
        jars: match get_msg(m, "jars"@) {
            Some(x) => seq![sp_jar(x)],
            None => sp_jars(m, "jars"@),
        },
        generated_jars: sp_jars(m, "generated_jars"@),
        compile_jars: sp_locs(m, "compile_jars"@),
        runtime_jars: sp_locs(m, "runtime_jars"@),
        annotation_processors: match get_strs(m, "annotation_processors"@) {
            Some(x) => x,
            None => Seq::empty(),
        },
        source_jars: sp_locs(m, "source_jars"@),
        javac_options: get_strs(m, "javac_options"@),
    }
}

/// A string list field that may occur once or repeatedly.
pub open spec fn sp_str_list(m: Seq<(Seq<char>, PVView)>, k: Seq<char>) -> Seq<Seq<char>> {
    match fm_get(m, k) {
        Some(PVView::Strs(x)) => x,
        Some(PVView::Str(x)) => seq![x],
        _ => Seq::empty(),
    }
}

/// Target information read from the top-level fields.
pub open spec fn sp_target(m: Seq<(Seq<char>, PVView)>) -> crate::ide_info::TargetIdeInfoView {
    crate::ide_info::TargetIdeInfoView {
        label: match get_str(m, "label"@) {
            Some(x) => x,
            None => Seq::empty(),
        },
        kind: match get_str(m, "kind"@) {
            Some(x) => x,
            None => Seq::empty(),
        },
        build_file: sp_opt_loc(m, "build_file"@),
        java_info: match get_msg(m, "java_info"@) {
            Some(x) => Some(sp_java(x)),
            None => None,
        },
        deps: sp_str_list(m, "deps"@),
        runtime_deps: sp_str_list(m, "runtime_deps"@),
        exports: sp_str_list(m, "exports"@),
    }
}

/// What parsing a whole input yields: the fields and the errors met.
pub open spec fn sp_parse_input(cs: Seq<char>) -> (Seq<(Seq<char>, PVView)>, Seq<ParseErrorView>) {
    sp_top_loop(cs, sp_initial(cs), Seq::empty(), Seq::empty())
}


// ---------------------------------------------------------------------
// Executable field lists.
// ---------------------------------------------------------------------

/// The view of a field list, entry by entry.
pub proof fn lemma_fields_view(m: Seq<(String, ProtoValue)>)
    ensures
        fields_view(m).len() == m.len(),
        forall|i: int| 0 <= i < m.len() ==> #[trigger] fields_view(m)[i] == (m[i].0@, pv_view(m[i].1)),
    decreases m.len(),
{
    if m.len() > 0 {
        lemma_fields_view(m.subrange(0, m.len() - 1));
    }
}

/// The view of a list of messages, message by message.
pub proof fn lemma_msgs_view(ms: Seq<Vec<(String, ProtoValue)>>)
    ensures
        msgs_view(ms).len() == ms.len(),
        forall|i: int| 0 <= i < ms.len() ==> #[trigger] msgs_view(ms)[i] == fields_view(ms[i]@),
    decreases ms.len(),
{
    if ms.len() > 0 {
        lemma_msgs_view(ms.subrange(0, ms.len() - 1));
    }
}

/// `fm_find` characterized: the first index whose name is `k`.
pub proof fn lemma_fm_find(m: Seq<(Seq<char>, PVView)>, k: Seq<char>)
    ensures
        match fm_find(m, k) {
            Some(i) => 0 <= i < m.len() && m[i].0 == k && forall|j: int| 0 <= j < i ==> m[j].0 != k,
            None => forall|j: int| 0 <= j < m.len() ==> m[j].0 != k,
        },
    decreases m.len(),
{
    if m.len() > 0 && m[0].0 != k {
        lemma_fm_find(m.drop_first(), k);
        match fm_find(m.drop_first(), k) {
            Some(i) => {
                assert forall|j: int| 0 <= j < i + 1 implies m[j].0 != k by {
                    if j > 0 {
                        assert(m[j] == m.drop_first()[j - 1]);
                    }
                }
            },
            None => {
                assert forall|j: int| 0 <= j < m.len() implies m[j].0 != k by {
                    if j > 0 {
                        assert(m[j] == m.drop_first()[j - 1]);
                    }
                }
            },
        }
    }
}

/// Index of the entry named `k`.
fn find_field(m: &Vec<(String, ProtoValue)>, k: &str) -> (r: Option<usize>)
    ensures
        match r {
            Some(i) => fm_find(fields_view(m@), k@) == Some(i as int),
            None => fm_find(fields_view(m@), k@) is None,
        },
        r matches Some(i) ==> i < m@.len(),
{
    proof {
        lemma_fields_view(m@);
        lemma_fm_find(fields_view(m@), k@);
    }
    let mut i: usize = 0;
    while i < m.len()
        invariant
            i <= m@.len(),
            fields_view(m@).len() == m@.len(),
            forall|j: int| 0 <= j < m@.len() ==> #[trigger] fields_view(m@)[j] == (m@[j].0@, pv_view(m@[j].1)),
            forall|j: int| 0 <= j < i ==> fields_view(m@)[j].0 != k@,
            match fm_find(fields_view(m@), k@) {
                Some(i) => 0 <= i < fields_view(m@).len() && fields_view(m@)[i].0 == k@ && forall|j: int| 0 <= j < i ==> fields_view(m@)[j].0 != k@,
                None => forall|j: int| 0 <= j < fields_view(m@).len() ==> fields_view(m@)[j].0 != k@,
            },
        decreases m@.len() - i,
    {
        if crate::strutil::str_eq(m[i].0.as_str(), k) {
            assert(fields_view(m@)[i as int].0 == k@);
            proof {
                match fm_find(fields_view(m@), k@) {
                    Some(f) => {
                        if f < i {
                        } else if f > i {
                        }
                    },
                    None => {},
                }
            }
            return Some(i);
        }
        i = i + 1;
    }
    None
}

/// Removing an entry commutes with taking the view.
proof fn lemma_fields_remove(m: Seq<(String, ProtoValue)>, i: int)
    requires
        0 <= i < m.len(),
    ensures
        fields_view(m.remove(i)) == fields_view(m).remove(i),
{
    lemma_fields_view(m);
    lemma_fields_view(m.remove(i));
    assert(fields_view(m.remove(i)) =~= fields_view(m).remove(i));
}

/// Replacing an entry commutes with taking the view.
proof fn lemma_fields_update(m: Seq<(String, ProtoValue)>, i: int, x: (String, ProtoValue))
    requires
        0 <= i < m.len(),
    ensures
        fields_view(m.update(i, x)) == fields_view(m).update(i, (x.0@, pv_view(x.1))),
{
    lemma_fields_view(m);
    lemma_fields_view(m.update(i, x));
    assert(fields_view(m.update(i, x)) =~= fields_view(m).update(i, (x.0@, pv_view(x.1))));
}

/// Appending an entry commutes with taking the view.
proof fn lemma_fields_push(m: Seq<(String, ProtoValue)>, x: (String, ProtoValue))
    ensures
        fields_view(m.push(x)) == fields_view(m).push((x.0@, pv_view(x.1))),
{
    assert(m.push(x).subrange(0, m.len() as int) =~= m);
}

/// Appending a message commutes with taking the view.
proof fn lemma_msgs_push(ms: Seq<Vec<(String, ProtoValue)>>, x: Vec<(String, ProtoValue)>)
    ensures
        msgs_view(ms.push(x)) == msgs_view(ms).push(fields_view(x@)),
{
    assert(ms.push(x).subrange(0, ms.len() as int) =~= ms);
}

/// Copies a list of strings.
pub fn clone_strings(v: &Vec<String>) -> (r: Vec<String>)
    ensures
        r@ == v@,
{
    let mut r: Vec<String> = Vec::new();
    let mut i: usize = 0;
    while i < v.len()
        invariant
            i <= v@.len(),
            r@ == v@.subrange(0, i as int),
        decreases v@.len() - i,
    {
        r.push(v[i].clone());
        assert(r@ =~= v@.subrange(0, i + 1));
        i = i + 1;
    }
    assert(v@.subrange(0, v@.len() as int) =~= v@);
    r
}

/// Copies a token.
fn clone_token(t: &Token) -> (r: Token)
    ensures
        r@ == t@,
{
    match t {
        Token::Identifier(s) => Token::Identifier(s.clone()),
        Token::StringLiteral(s) => Token::StringLiteral(s.clone()),
        Token::LBrace => Token::LBrace,
        Token::RBrace => Token::RBrace,
        Token::LBracket => Token::LBracket,
        Token::RBracket => Token::RBracket,
        Token::Colon => Token::Colon,
        Token::Comma => Token::Comma,
        Token::Bool(b) => Token::Bool(*b),
        Token::Eof => Token::Eof,
    }
}

/// First character of the `Debug` form of a token.
fn token_initial(t: &Token) -> (c: char)
    ensures
        c == tok_initial(t@),
{
    match t {
        Token::Identifier(_) => 'I',
        Token::StringLiteral(_) => 'S',
        Token::LBrace => 'L',
        Token::RBrace => 'R',
        Token::LBracket => 'L',
        Token::RBracket => 'R',
        Token::Colon => 'C',
        Token::Comma => 'C',
        Token::Bool(_) => 'B',
        Token::Eof => 'E',
    }
}

/// Result of parsing, with the errors recovered from.
#[derive(Debug)]
pub struct ParseResult<T> {
    /// The parsed value
    pub value: T,
    /// Errors encountered during parsing (non-fatal)
    pub errors: Vec<ParseError>,
    /// Number of fields that were skipped due to errors
    pub skipped_fields: usize,
}

/// The views of a list of errors.
pub open spec fn errs_view(v: Vec<ParseError>) -> Seq<ParseErrorView> {
    v@.map_values(|e: ParseError| e@)
}

impl<T> ParseResult<T> {
    /// A result with no errors.
    pub fn new(value: T) -> (r: Self)
        ensures
            r.value == value,
            r.errors@.len() == 0,
            r.skipped_fields == 0,
    {
        ParseResult { value, errors: Vec::new(), skipped_fields: 0 }
    }

    /// Records an error and counts the skipped field.
    pub fn add_error(&mut self, error: ParseError)
        requires
            old(self).skipped_fields < usize::MAX,
        ensures
            final(self).value == old(self).value,
            final(self).errors@ == old(self).errors@.push(error),
            final(self).skipped_fields == old(self).skipped_fields + 1,
    {
        self.errors.push(error);
        self.skipped_fields = self.skipped_fields + 1;
    }
}

/// Parser for text proto format.
pub struct TextProtoParser {
    lexer: Lexer,
    current_token: Token,
}

impl TextProtoParser {
    /// The input characters.
    pub closed spec fn input(&self) -> Seq<char> {
        self.lexer.input()
    }

    /// The parser state: lexer position and current token.
    pub closed spec fn state(&self) -> PState {
        (self.lexer.pos(), self.current_token@)
    }

    /// The parser is well formed.
    pub closed spec fn wf(&self) -> bool {
        &&& self.lexer.wf()
        &&& self.input().len() <= isize::MAX
        &&& sp_state_ok(self.input(), self.state())
    }

    /// Creates a parser positioned on the first token of `input` (or on the
    /// end of input when the first token cannot be read).
    pub fn new(input: &str) -> (r: Self)
        requires
            input@.len() <= isize::MAX,
        ensures
            r.wf(),
            r.input() == input@,
            r.state() == sp_initial(input@),
    {
        let mut lexer = Lexer::new(input);
        proof {
            lemma_lex_progress(input@, 0);
        }
        let current_token = match lexer.next_token() {
            Ok(t) => t,
            Err(_) => Token::Eof,
        };
        TextProtoParser { lexer, current_token }
    }

    fn measure(&self) -> (m: u128)
        requires
            self.wf(),
        ensures
            m == sp_measure(self.input(), self.state()),
    {
        let len = self.lexer.chars.len() as u128;
        let p = self.lexer.position as u128;
        let a: u128 = if p < len {
            2 * (len - p)
        } else {
            0
        };
        let b: u128 = match self.current_token {
            Token::Eof => 0,
            _ => 1,
        };
        a + b
    }

    fn advance(&mut self) -> (r: Result<Token, ParseError>)
        requires
            old(self).wf(),
        ensures
            final(self).wf(),
            final(self).input() == old(self).input(),
            ({
                let (st, rv) = sp_advance(old(self).input(), old(self).state());
                &&& final(self).state() == st
                &&& match (r, rv) {
                    (Ok(t), Ok(v)) => t@ == v,
                    (Err(x), Err(y)) => x@ == y,
                    _ => false,
                }
            }),
    {
        proof {
            lemma_advance_measure(self.input(), self.state());
        }
        let token = self.lexer.next_token();
        match token {
            Ok(t) => {
                self.current_token = clone_token(&t);
                Ok(t)
            },
            Err(e) => Err(e),
        }
    }

    fn expect(&mut self, closing_brace: bool) -> (r: Result<(), ParseError>)
        requires
            old(self).wf(),
        ensures
            final(self).wf(),
            final(self).input() == old(self).input(),
            ({
                let (st, rv) = sp_expect(old(self).input(), old(self).state(), closing_brace);
                &&& final(self).state() == st
                &&& match (r, rv) {
                    (Ok(_), Ok(_)) => true,
                    (Err(x), Err(y)) => x@ == y,
                    _ => false,
                }
            }),
    {
        let matches = match self.current_token {
            Token::RBrace => closing_brace,
            Token::RBracket => !closing_brace,
            _ => false,
        };
        if matches {
            match self.advance() {
                Ok(_) => Ok(()),
                Err(e) => Err(e),
            }
        } else {
            let expected = if closing_brace {
                String::from_str("RBrace")
            } else {
                String::from_str("RBracket")
            };
            Err(
                ParseError::UnexpectedCharacter {
                    position: self.lexer.position,
                    char: token_initial(&self.current_token),
                    expected,
                },
            )
        }
    }

    fn is_eof(&self) -> (b: bool)
        ensures
            b == (self.state().1 is Eof),
    {
        match self.current_token {
            Token::Eof => true,
            _ => false,
        }
    }
}


// ---------------------------------------------------------------------
// The measure never grows.
// ---------------------------------------------------------------------

proof fn lemma_expect_mono(cs: Seq<char>, st: PState, closing_brace: bool)
    ensures
        sp_measure(cs, sp_expect(cs, st, closing_brace).0) <= sp_measure(cs, st),
        sp_state_ok(cs, st) ==> sp_state_ok(cs, sp_expect(cs, st, closing_brace).0),
{
    lemma_advance_measure(cs, st);
}

proof fn lemma_skip_mono(cs: Seq<char>, st: PState, depth: nat)
    ensures
        sp_measure(cs, sp_skip(cs, st, depth)) <= sp_measure(cs, st),
        sp_state_ok(cs, st) ==> sp_state_ok(cs, sp_skip(cs, st, depth)),
    decreases sp_measure(cs, st),
{
    lemma_advance_measure(cs, st);
    if !(st.1 is Eof) && !(st.1 is RBrace && depth == 0) && !(st.1 is Identifier && depth == 0) {
        let d = if st.1 is RBrace {
            (depth - 1) as nat
        } else if st.1 is LBrace {
            depth + 1
        } else {
            depth
        };
        let (s1, r) = sp_advance(cs, st);
        if r is Ok {
            lemma_skip_mono(cs, s1, d);
        }
    }
}

proof fn lemma_field_mono(cs: Seq<char>, st: PState)
    ensures
        sp_measure(cs, sp_parse_field(cs, st).0) <= sp_measure(cs, st),
        sp_state_ok(cs, st) ==> sp_state_ok(cs, sp_parse_field(cs, st).0),
    decreases sp_measure(cs, st), 1int,
{
    if st.1 is Identifier {
        lemma_advance_measure(cs, st);
        let (s1, r1) = sp_advance(cs, st);
        if r1 is Ok {
            lemma_advance_measure(cs, s1);
            let (s2, r2) = if s1.1 is Colon {
                sp_advance(cs, s1)
            } else {
                (s1, Ok(TokenView::Colon))
            };
            if r2 is Ok {
                lemma_advance_measure(cs, s2);
                let (s3, r3) = sp_advance(cs, s2);
                if (s2.1 is LBrace || s2.1 is LBracket) && r3 is Ok {
                    lemma_field_progress(cs, st);
                    if s2.1 is LBrace {
                        lemma_message_mono(cs, s3);
                        let (s4, r4) = sp_parse_message(cs, s3);
                        lemma_expect_mono(cs, s4, true);
                    } else {
                        lemma_array_mono(cs, s3, Seq::empty(), Seq::empty());
                        let (s4, r4) = sp_parse_array(cs, s3, Seq::empty(), Seq::empty());
                        lemma_expect_mono(cs, s4, false);
                    }
                }
            }
        }
    }
}

proof fn lemma_message_mono(cs: Seq<char>, st: PState)
    ensures
        sp_measure(cs, sp_parse_message(cs, st).0) <= sp_measure(cs, st),
        sp_state_ok(cs, st) ==> sp_state_ok(cs, sp_parse_message(cs, st).0),
    decreases sp_measure(cs, st), 3int,
{
    lemma_message_loop_mono(cs, st, Seq::empty());
}

proof fn lemma_message_loop_mono(cs: Seq<char>, st: PState, fields: Seq<(Seq<char>, PVView)>)
    ensures
        sp_measure(cs, sp_message_loop(cs, st, fields).0) <= sp_measure(cs, st),
        sp_state_ok(cs, st) ==> sp_state_ok(cs, sp_message_loop(cs, st, fields).0),
    decreases sp_measure(cs, st), 2int,
{
    if !(st.1 is RBrace || st.1 is Eof) {
        lemma_field_mono(cs, st);
        let (s1, r1) = sp_parse_field(cs, st);
        match r1 {
            Ok((n, v)) => {
                let f2 = fm_remove(fields, n).push((n, merge_msg(fm_get(fields, n), v)));
                if sp_measure(cs, s1) < sp_measure(cs, st) {
                    lemma_message_loop_mono(cs, s1, f2);
                }
            },
            Err(_) => {
                if !(s1.1 is Eof) {
                    lemma_skip_mono(cs, s1, 0);
                    let s2 = sp_skip(cs, s1, 0);
                    if sp_measure(cs, s2) < sp_measure(cs, st) {
                        lemma_message_loop_mono(cs, s2, fields);
                    }
                }
            },
        }
    }
}

proof fn lemma_array_mono(
    cs: Seq<char>,
    st: PState,
    strings: Seq<Seq<char>>,
    messages: Seq<Seq<(Seq<char>, PVView)>>,
)
    ensures
        sp_measure(cs, sp_parse_array(cs, st, strings, messages).0) <= sp_measure(cs, st),
        sp_state_ok(cs, st) ==> sp_state_ok(cs, sp_parse_array(cs, st, strings, messages).0),
    decreases sp_measure(cs, st), 2int,
{
    if !(st.1 is RBracket || st.1 is Eof) {
        lemma_advance_measure(cs, st);
        let (s1, r1) = sp_advance(cs, st);
        if r1 is Ok {
            match st.1 {
                TokenView::StringLiteral(x) => {
                    lemma_array_mono(cs, s1, strings.push(x), messages);
                },
                TokenView::Identifier(x) => {
                    lemma_array_mono(cs, s1, strings.push(x), messages);
                },
                TokenView::LBrace => {
                    lemma_message_mono(cs, s1);
                    let (s2, r2) = sp_parse_message(cs, s1);
                    if r2 is Ok {
                        lemma_expect_mono(cs, s2, true);
                        let (s3, r3) = sp_expect(cs, s2, true);
                        if r3 is Ok && sp_measure(cs, s3) < sp_measure(cs, st) {
                            lemma_array_mono(cs, s3, strings, messages.push(r2->Ok_0));
                        }
                    }
                },
                _ => {
                    lemma_array_mono(cs, s1, strings, messages);
                },
            }
        }
    }
}


/// The view of a field result.
pub open spec fn field_res_view(r: Result<(String, ProtoValue), ParseError>) -> Result<(Seq<char>, PVView), ParseErrorView> {
    match r {
        Ok((n, v)) => Ok((n@, pv_view(v))),
        Err(e) => Err(e@),
    }
}

/// The view of a message result.
pub open spec fn msg_res_view(r: Result<Vec<(String, ProtoValue)>, ParseError>) -> Result<Seq<(Seq<char>, PVView)>, ParseErrorView> {
    match r {
        Ok(m) => Ok(fields_view(m@)),
        Err(e) => Err(e@),
    }
}

/// The view of an array result.
pub open spec fn val_res_view(r: Result<ProtoValue, ParseError>) -> Result<PVView, ParseErrorView> {
    match r {
        Ok(v) => Ok(pv_view(v)),
        Err(e) => Err(e@),
    }
}

/// Merges a repeated field of a nested message with its previous value.
fn merge_message_field(existing: Option<ProtoValue>, value: ProtoValue) -> (r: ProtoValue)
    ensures
        pv_view(r) == merge_msg(
            match existing {
                Some(e) => Some(pv_view(e)),
                None => None,
            },
            pv_view(value),
        ),
{
    match (existing, value) {
        (Some(ProtoValue::Strings(arr)), ProtoValue::String(s)) => {
            let mut arr = arr;
            let ghost old_arr = arr@;
            arr.push(s);
            assert(arr@.map_values(|x: String| x@) =~= old_arr.map_values(|x: String| x@).push(s@));
            ProtoValue::Strings(arr)
        },
        (Some(ProtoValue::Messages(arr)), ProtoValue::Message(m)) => {
            let mut arr = arr;
            let ghost old_arr = arr@;
            arr.push(m);
            proof {
                lemma_msgs_push(old_arr, m);
            }
            ProtoValue::Messages(arr)
        },
        (Some(ProtoValue::String(e)), ProtoValue::String(s)) => {
            let v = vec![e, s];
            assert(v@.map_values(|x: String| x@) =~= seq![e@, s@]);
            ProtoValue::Strings(v)
        },
        (Some(ProtoValue::Message(e)), ProtoValue::Message(m)) => {
            let v = vec![e, m];
            proof {
                lemma_msgs_view(v@);
                assert(msgs_view(v@) =~= seq![fields_view(e@), fields_view(m@)]);
            }
            ProtoValue::Messages(v)
        },
        (_, v) => v,
    }
}

/// Adds a field to a nested message (`fm_remove` then append).
fn add_message_field(fields: &mut Vec<(String, ProtoValue)>, name: String, value: ProtoValue)
    ensures
        fields_view(final(fields)@) == fm_remove(fields_view(old(fields)@), name@).push(
            (name@, merge_msg(fm_get(fields_view(old(fields)@), name@), pv_view(value))),
        ),
{
    proof {
        lemma_fields_view(old(fields)@);
    }
    let existing = match find_field(fields, name.as_str()) {
        Some(i) => {
            proof {
                lemma_fields_remove(fields@, i as int);
            }
            let (_, v) = fields.remove(i);
            Some(v)
        },
        None => None,
    };
    let merged = merge_message_field(existing, value);
    let ghost before = fields@;
    fields.push((name, merged));
    proof {
        lemma_fields_push(before, (name, merged));
    }
}

/// Adds a top-level field (`merge_top`).
fn add_top_field(fields: &mut Vec<(String, ProtoValue)>, name: String, value: ProtoValue)
    ensures
        fields_view(final(fields)@) == merge_top(fields_view(old(fields)@), name@, pv_view(value)),
{
    proof {
        lemma_fields_view(old(fields)@);
    }
    match find_field(fields, name.as_str()) {
        Some(i) => {
            let newv = match (&fields[i].1, value) {
                (ProtoValue::Strings(existing), ProtoValue::String(new)) => {
                    let mut u = clone_strings(existing);
                    let ghost e = u@;
                    u.push(new);
                    assert(u@.map_values(|x: String| x@) =~= e.map_values(|x: String| x@).push(new@));
                    ProtoValue::Strings(u)
                },
                (ProtoValue::String(old), ProtoValue::String(new)) => {
                    let v = vec![old.clone(), new];
                    assert(v@.map_values(|x: String| x@) =~= seq![old@, new@]);
                    ProtoValue::Strings(v)
                },
                (_, v) => v,
            };
            proof {
                lemma_fields_update(fields@, i as int, (name, newv));
            }
            fields.set(i, (name, newv));
        },
        None => {
            let ghost before = fields@;
            fields.push((name, value));
            proof {
                lemma_fields_push(before, (name, value));
            }
        },
    }
}

impl TextProtoParser {
    fn skip_to_next_field(&mut self)
        requires
            old(self).wf(),
        ensures
            final(self).wf(),
            final(self).input() == old(self).input(),
            final(self).state() == sp_skip(old(self).input(), old(self).state(), 0),
    {
        let mut depth: u128 = 0;
        loop
            invariant_except_break
                sp_skip(self.input(), self.state(), depth as nat) == sp_skip(
                    old(self).input(),
                    old(self).state(),
                    0,
                ),
            invariant
                self.wf(),
                self.input() == old(self).input(),
                depth + sp_measure(self.input(), self.state()) <= sp_measure(
                    old(self).input(),
                    old(self).state(),
                ),
                sp_measure(old(self).input(), old(self).state()) <= 2 * usize::MAX + 1,
            ensures
                self.wf(),
                self.input() == old(self).input(),
                self.state() == sp_skip(old(self).input(), old(self).state(), 0),
            decreases sp_measure(self.input(), self.state()),
        {
            let ghost st = self.state();
            let d = match &self.current_token {
                Token::Eof => {
                    break;
                },
                Token::RBrace => {
                    if depth == 0 {
                        break;
                    }
                    depth - 1
                },
                Token::LBrace => depth + 1,
                Token::Identifier(_) => {
                    if depth == 0 {
                        break;
                    }
                    depth
                },
                _ => depth,
            };
            proof {
                lemma_advance_measure(self.input(), st);
            }
            match self.advance() {
                Ok(_) => {},
                Err(_) => {
                    break;
                },
            }
            depth = d;
        }
    }

    /// Parses one field: `name: value`, `name { ... }` or `name [ ... ]`.
    fn parse_field(&mut self) -> (r: Result<(String, ProtoValue), ParseError>)
        requires
            old(self).wf(),
        ensures
            final(self).wf(),
            final(self).input() == old(self).input(),
            (final(self).state(), field_res_view(r)) == sp_parse_field(old(self).input(), old(self).state()),
        decreases sp_measure(old(self).input(), old(self).state()), 1int,
    {
        let ghost cs = self.input();
        let ghost st = self.state();
        let name = match &self.current_token {
            Token::Identifier(s) => s.clone(),
            _ => {
                return Err(
                    ParseError::UnexpectedCharacter {
                        position: self.lexer.position,
                        char: token_initial(&self.current_token),
                        expected: String::from_str("identifier"),
                    },
                );
            },
        };
        match self.advance() {
            Ok(_) => {},
            Err(e) => {
                return Err(e);
            },
        }
        let is_colon = match self.current_token {
            Token::Colon => true,
            _ => false,
        };
        if is_colon {
            match self.advance() {
                Ok(_) => {},
                Err(e) => {
                    return Err(e);
                },
            }
        }
        let ghost s2 = self.state();
        match &self.current_token {
            Token::LBrace => {
                match self.advance() {
                    Ok(_) => {},
                    Err(e) => {
                        return Err(e);
                    },
                }
                proof {
                    lemma_field_progress(cs, st);
                }
                match self.parse_message() {
                    Ok(msg) => {
                        let _ = self.expect(true);
                        Ok((name, ProtoValue::Message(msg)))
                    },
                    Err(e) => Err(e),
                }
            },
            Token::LBracket => {
                match self.advance() {
                    Ok(_) => {},
                    Err(e) => {
                        return Err(e);
                    },
                }
                proof {
                    lemma_field_progress(cs, st);
                }
                let arr = match self.parse_array() {
                    Ok(a) => a,
                    Err(e) => {
                        return Err(e);
                    },
                };
                match self.expect(false) {
                    Ok(_) => Ok((name, arr)),
                    Err(e) => Err(e),
                }
            },
            Token::StringLiteral(v) => {
                let v = v.clone();
                match self.advance() {
                    Ok(_) => Ok((name, ProtoValue::String(v))),
                    Err(e) => Err(e),
                }
            },
            Token::Identifier(v) => {
                let v = v.clone();
                match self.advance() {
                    Ok(_) => Ok((name, ProtoValue::String(v))),
                    Err(e) => Err(e),
                }
            },
            Token::Bool(b) => {
                let b = *b;
                match self.advance() {
                    Ok(_) => Ok((name, ProtoValue::Bool(b))),
                    Err(e) => Err(e),
                }
            },
            _ => Err(
                ParseError::UnexpectedCharacter {
                    position: self.lexer.position,
                    char: token_initial(&self.current_token),
                    expected: String::from_str("value"),
                },
            ),
        }
    }

    /// Parses the fields of a nested message up to its closing `}`.
    fn parse_message(&mut self) -> (r: Result<Vec<(String, ProtoValue)>, ParseError>)
        requires
            old(self).wf(),
        ensures
            final(self).wf(),
            final(self).input() == old(self).input(),
            (final(self).state(), msg_res_view(r)) == sp_parse_message(old(self).input(), old(self).state()),
        decreases sp_measure(old(self).input(), old(self).state()), 3int,
    {
        let mut fields: Vec<(String, ProtoValue)> = Vec::new();
        loop
            invariant_except_break
                sp_message_loop(self.input(), self.state(), fields_view(fields@)) == sp_parse_message(
                    old(self).input(),
                    old(self).state(),
                ),
            invariant
                self.wf(),
                self.input() == old(self).input(),
                sp_measure(self.input(), self.state()) <= sp_measure(old(self).input(), old(self).state()),
            ensures
                self.wf(),
                self.input() == old(self).input(),
                sp_message_end(self.state(), fields_view(fields@)) == sp_parse_message(
                    old(self).input(),
                    old(self).state(),
                ),
            decreases sp_measure(self.input(), self.state()),
        {
            let ghost st = self.state();
            let ghost fv = fields_view(fields@);
            let stop = match self.current_token {
                Token::RBrace => true,
                Token::Eof => true,
                _ => false,
            };
            if stop {
                break;
            }
            let m0 = self.measure();
            proof {
                lemma_field_mono(self.input(), st);
            }
            match self.parse_field() {
                Ok((name, value)) => {
                    add_message_field(&mut fields, name, value);
                    if self.measure() >= m0 {
                        break;
                    }
                },
                Err(_) => {
                    if self.is_eof() {
                        break;
                    }
                    let ghost s1 = self.state();
                    proof {
                        lemma_skip_mono(self.input(), s1, 0);
                    }
                    self.skip_to_next_field();
                    if self.measure() >= m0 {
                        break;
                    }
                },
            }
        }
        if self.is_eof() {
            return Err(ParseError::UnexpectedEndOfInput { position: 0 });
        }
        Ok(fields)
    }

    /// Parses the elements of an array up to its closing `]`.
    fn parse_array(&mut self) -> (r: Result<ProtoValue, ParseError>)
        requires
            old(self).wf(),
        ensures
            final(self).wf(),
            final(self).input() == old(self).input(),
            (final(self).state(), val_res_view(r)) == sp_parse_array(
                old(self).input(),
                old(self).state(),
                Seq::empty(),
                Seq::empty(),
            ),
        decreases sp_measure(old(self).input(), old(self).state()), 2int,
    {
        let mut strings: Vec<String> = Vec::new();
        let mut messages: Vec<Vec<(String, ProtoValue)>> = Vec::new();
        assert(strings@.map_values(|x: String| x@) =~= Seq::<Seq<char>>::empty());
        assert(msgs_view(messages@) =~= Seq::<Seq<(Seq<char>, PVView)>>::empty());
        loop
            invariant
                self.wf(),
                self.input() == old(self).input(),
                sp_parse_array(
                    self.input(),
                    self.state(),
                    strings@.map_values(|x: String| x@),
                    msgs_view(messages@),
                ) == sp_parse_array(old(self).input(), old(self).state(), Seq::empty(), Seq::empty()),
                sp_measure(self.input(), self.state()) <= sp_measure(old(self).input(), old(self).state()),
            ensures
                self.wf(),
                self.input() == old(self).input(),
                sp_parse_array(
                    self.input(),
                    self.state(),
                    strings@.map_values(|x: String| x@),
                    msgs_view(messages@),
                ) == sp_parse_array(old(self).input(), old(self).state(), Seq::empty(), Seq::empty()),
                self.state().1 is RBracket || self.state().1 is Eof,
            decreases sp_measure(self.input(), self.state()),
        {
            let ghost st = self.state();
            let stop = match self.current_token {
                Token::RBracket => true,
                Token::Eof => true,
                _ => false,
            };
            if stop {
                break;
            }
            proof {
                lemma_advance_measure(self.input(), st);
            }
            let cur = clone_token(&self.current_token);
            let m0 = self.measure();
            match self.advance() {
                Ok(_) => {},
                Err(e) => {
                    return Err(e);
                },
            }
            match cur {
                Token::StringLiteral(x) => {
                    let ghost before = strings@;
                    strings.push(x);
                    assert(strings@.map_values(|y: String| y@) =~= before.map_values(|y: String| y@).push(x@));
                },
                Token::Identifier(x) => {
                    let ghost before = strings@;
                    strings.push(x);
                    assert(strings@.map_values(|y: String| y@) =~= before.map_values(|y: String| y@).push(x@));
                },
                Token::LBrace => {
                    let ghost s1 = self.state();
                    proof {
                        lemma_message_mono(self.input(), s1);
                    }
                    let msg = match self.parse_message() {
                        Ok(m) => m,
                        Err(e) => {
                            return Err(e);
                        },
                    };
                    let ghost s2 = self.state();
                    proof {
                        lemma_expect_mono(self.input(), s2, true);
                    }
                    match self.expect(true) {
                        Ok(_) => {},
                        Err(e) => {
                            return Err(e);
                        },
                    }
                    let ghost before = messages@;
                    messages.push(msg);
                    proof {
                        lemma_msgs_push(before, msg);
                    }
                    if self.measure() >= m0 {
                        return Ok(ProtoValue::Messages(messages));
                    }
                },
                _ => {},
            }
        }
        proof {
            lemma_msgs_view(messages@);
        }
        if messages.len() > 0 {
            Ok(ProtoValue::Messages(messages))
        } else {
            Ok(ProtoValue::Strings(strings))
        }
    }
}


// ---------------------------------------------------------------------
// Extraction of target information, and the entry points.
// ---------------------------------------------------------------------

use crate::ide_info::{
    ArtifactLocation, JarInfo, JavaIdeInfo, JavacOptions, TargetIdeInfo, jars_view, locs_view, opt_view,
    strs_view, opt_loc_view,
};

/// The value of the field named `k`.
fn get_field<'a>(m: &'a Vec<(String, ProtoValue)>, k: &str) -> (r: Option<&'a ProtoValue>)
    ensures
        match r {
            Some(v) => fm_get(fields_view(m@), k@) == Some(pv_view(*v)),
            None => fm_get(fields_view(m@), k@) is None,
        },
{
    proof {
        lemma_fields_view(m@);
    }
    match find_field(m, k) {
        Some(i) => Some(&m[i].1),
        None => None,
    }
}

/// The string value of the field named `k`.
fn get_str_field(m: &Vec<(String, ProtoValue)>, k: &str) -> (r: Option<String>)
    ensures
        opt_view(r) == get_str(fields_view(m@), k@),
{
    match get_field(m, k) {
        Some(ProtoValue::String(s)) => Some(s.clone()),
        _ => None,
    }
}

/// The boolean value of the field named `k`.
fn get_bool_field(m: &Vec<(String, ProtoValue)>, k: &str) -> (r: bool)
    ensures
        r == get_bool(fields_view(m@), k@),
{
    match get_field(m, k) {
        Some(ProtoValue::Bool(b)) => *b,
        _ => false,
    }
}

/// A location with no information.
fn empty_location() -> (r: ArtifactLocation)
    ensures
        r@ == empty_loc(),
{
    ArtifactLocation {
        relative_path: None,
        absolute_path: None,
        is_source: false,
        is_external: false,
        root_execution_path_fragment: None,
        root_path: None,
    }
}

/// Reads an artifact location from a message.
fn extract_artifact_location(m: &Vec<(String, ProtoValue)>) -> (r: ArtifactLocation)
    ensures
        r@ == sp_loc(fields_view(m@)),
{
    ArtifactLocation {
        relative_path: get_str_field(m, "relative_path"),
        absolute_path: get_str_field(m, "absolute_path"),
        is_source: get_bool_field(m, "is_source"),
        is_external: get_bool_field(m, "is_external"),
        root_execution_path_fragment: get_str_field(m, "root_execution_path_fragment"),
        root_path: None,
    }
}

/// Reads an optional location from a message field.
fn extract_opt_location(m: &Vec<(String, ProtoValue)>, k: &str) -> (r: Option<ArtifactLocation>)
    ensures
        opt_loc_view(r) == sp_opt_loc(fields_view(m@), k@),
{
    match get_field(m, k) {
        Some(ProtoValue::Message(x)) => Some(extract_artifact_location(x)),
        _ => None,
    }
}

/// Reads a JAR from a message.
fn extract_jar_info(m: &Vec<(String, ProtoValue)>) -> (r: JarInfo)
    ensures
        r@ == crate::text_proto::sp_jar(fields_view(m@)),
{
    let jar = match get_field(m, "jar") {
        Some(ProtoValue::Message(x)) => extract_artifact_location(x),
        _ => empty_location(),
    };
    JarInfo {
        jar,
        source_jar: extract_opt_location(m, "source_jar"),
        interface_jar: extract_opt_location(m, "interface_jar"),
    }
}

/// Reads a list of locations from repeated messages.
fn extract_locations(ms: &Vec<Vec<(String, ProtoValue)>>) -> (r: Vec<ArtifactLocation>)
    ensures
        locs_view(r) == msgs_view(ms@).map_values(|x: Seq<(Seq<char>, PVView)>| sp_loc(x)),
{
    proof {
        lemma_msgs_view(ms@);
    }
    let mut r: Vec<ArtifactLocation> = Vec::new();
    let mut i: usize = 0;
    while i < ms.len()
        invariant
            i <= ms@.len(),
            r@.len() == i,
            msgs_view(ms@).len() == ms@.len(),
            forall|j: int| 0 <= j < ms@.len() ==> #[trigger] msgs_view(ms@)[j] == fields_view(ms@[j]@),
            forall|j: int| 0 <= j < i ==> #[trigger] r@[j]@ == sp_loc(msgs_view(ms@)[j]),
        decreases ms@.len() - i,
    {
        r.push(extract_artifact_location(&ms[i]));
        i = i + 1;
    }
    assert(locs_view(r) =~= msgs_view(ms@).map_values(|x: Seq<(Seq<char>, PVView)>| sp_loc(x)));
    r
}

/// Reads a list of JARs from repeated messages.
fn extract_jars(ms: &Vec<Vec<(String, ProtoValue)>>) -> (r: Vec<JarInfo>)
    ensures
        jars_view(r) == msgs_view(ms@).map_values(|x: Seq<(Seq<char>, PVView)>| sp_jar(x)),
{
    proof {
        lemma_msgs_view(ms@);
    }
    let mut r: Vec<JarInfo> = Vec::new();
    let mut i: usize = 0;
    while i < ms.len()
        invariant
            i <= ms@.len(),
            r@.len() == i,
            msgs_view(ms@).len() == ms@.len(),
            forall|j: int| 0 <= j < ms@.len() ==> #[trigger] msgs_view(ms@)[j] == fields_view(ms@[j]@),
            forall|j: int| 0 <= j < i ==> #[trigger] r@[j]@ == sp_jar(msgs_view(ms@)[j]),
        decreases ms@.len() - i,
    {
        r.push(extract_jar_info(&ms[i]));
        i = i + 1;
    }
    assert(jars_view(r) =~= msgs_view(ms@).map_values(|x: Seq<(Seq<char>, PVView)>| sp_jar(x)));
    r
}

/// Locations of a repeated field.
fn field_locations(m: &Vec<(String, ProtoValue)>, k: &str) -> (r: Vec<ArtifactLocation>)
    ensures
        locs_view(r) == sp_locs(fields_view(m@), k@),
{
    match get_field(m, k) {
        Some(ProtoValue::Messages(ms)) => extract_locations(ms),
        _ => {
            let r: Vec<ArtifactLocation> = Vec::new();
            assert(locs_view(r) =~= Seq::<crate::ide_info::ArtifactLocationView>::empty());
            r
        },
    }
}

/// JARs of a repeated field.
fn field_jars(m: &Vec<(String, ProtoValue)>, k: &str) -> (r: Vec<JarInfo>)
    ensures
        jars_view(r) == sp_jars(fields_view(m@), k@),
{
    match get_field(m, k) {
        Some(ProtoValue::Messages(ms)) => extract_jars(ms),
        _ => {
            let r: Vec<JarInfo> = Vec::new();
            assert(jars_view(r) =~= Seq::<crate::ide_info::JarInfoView>::empty());
            r
        },
    }
}

/// The strings of a repeated string field.
fn field_strings(m: &Vec<(String, ProtoValue)>, k: &str) -> (r: Option<Vec<String>>)
    ensures
        match r {
            Some(v) => get_strs(fields_view(m@), k@) == Some(strs_view(v)),
            None => get_strs(fields_view(m@), k@) is None,
        },
{
    match get_field(m, k) {
        Some(ProtoValue::Strings(v)) => Some(clone_strings(v)),
        _ => None,
    }
}

/// Reads Java information from a message.
fn extract_java_ide_info(m: &Vec<(String, ProtoValue)>) -> (r: JavaIdeInfo)
    ensures
        r@ == sp_java(fields_view(m@)),
{
    let sources = match get_field(m, "sources") {
        Some(ProtoValue::Message(x)) => {
            let v = vec![extract_artifact_location(x)];
            assert(locs_view(v) =~= seq![v@[0]@]);
            v
        },
        _ => field_locations(m, "sources"),
    };
    let jars = match get_field(m, "jars") {
        Some(ProtoValue::Message(x)) => {
            let v = vec![extract_jar_info(x)];
            assert(jars_view(v) =~= seq![v@[0]@]);
            v
        },
        _ => field_jars(m, "jars"),
    };
    let annotation_processors = match field_strings(m, "annotation_processors") {
        Some(v) => v,
        None => {
            let v: Vec<String> = Vec::new();
            assert(strs_view(v) =~= Seq::<Seq<char>>::empty());
            v
        },
    };
    let javac_options = match field_strings(m, "javac_options") {
        Some(v) => Some(JavacOptions { options: v }),
        None => None,
    };
    JavaIdeInfo {
        sources,
        jars,
        generated_jars: field_jars(m, "generated_jars"),
        compile_jars: field_locations(m, "compile_jars"),
        runtime_jars: field_locations(m, "runtime_jars"),
        annotation_processors,
        source_jars: field_locations(m, "source_jars"),
        javac_options,
    }
}

/// A string-list field that may occur once or repeatedly.
fn field_string_list(m: &Vec<(String, ProtoValue)>, k: &str) -> (r: Vec<String>)
    ensures
        strs_view(r) == sp_str_list(fields_view(m@), k@),
{
    match get_field(m, k) {
        Some(ProtoValue::Strings(v)) => clone_strings(v),
        Some(ProtoValue::String(x)) => {
            let v = vec![x.clone()];
            assert(strs_view(v) =~= seq![x@]);
            v
        },
        _ => {
            let v: Vec<String> = Vec::new();
            assert(strs_view(v) =~= Seq::<Seq<char>>::empty());
            v
        },
    }
}

/// Builds target information from the top-level fields.
fn extract_target(m: &Vec<(String, ProtoValue)>) -> (r: TargetIdeInfo)
    ensures
        r@ == sp_target(fields_view(m@)),
{
    let label = match get_str_field(m, "label") {
        Some(s) => s,
        None => String::new(),
    };
    let kind = match get_str_field(m, "kind") {
        Some(s) => s,
        None => String::new(),
    };
    let java_info = match get_field(m, "java_info") {
        Some(ProtoValue::Message(x)) => Some(extract_java_ide_info(x)),
        _ => None,
    };
    TargetIdeInfo {
        label,
        kind,
        build_file: extract_opt_location(m, "build_file"),
        java_info,
        deps: field_string_list(m, "deps"),
        runtime_deps: field_string_list(m, "runtime_deps"),
        exports: field_string_list(m, "exports"),
    }
}

impl TextProtoParser {
    /// Parses a complete target description, recovering from malformed
    /// fields: each is recorded as an error and skipped.
    pub fn parse_target_ide_info(&mut self) -> (r: ParseResult<TargetIdeInfo>)
        requires
            old(self).wf(),
        ensures
            final(self).wf(),
            final(self).input() == old(self).input(),
            ({
                let (f, e) = sp_top_loop(old(self).input(), old(self).state(), Seq::empty(), Seq::empty());
                &&& r.value@ == sp_target(f)
                &&& errs_view(r.errors) == e
                &&& r.skipped_fields == e.len()
            }),
            r.skipped_fields == r.errors@.len(),
    {
        let mut result = ParseResult::new(TargetIdeInfo::new(String::new(), String::new()));
        let mut fields: Vec<(String, ProtoValue)> = Vec::new();
        let ghost target = sp_top_loop(old(self).input(), old(self).state(), Seq::empty(), Seq::empty());
        assert(errs_view(result.errors) =~= Seq::<ParseErrorView>::empty());
        loop
            invariant_except_break
                sp_top_loop(self.input(), self.state(), fields_view(fields@), errs_view(result.errors))
                    == target,
                result.errors@.len() + sp_measure(self.input(), self.state()) <= sp_measure(
                    old(self).input(),
                    old(self).state(),
                ),
            invariant
                self.wf(),
                self.input() == old(self).input(),
                result.skipped_fields == result.errors@.len(),
                sp_measure(old(self).input(), old(self).state()) <= usize::MAX,
            ensures
                self.wf(),
                self.input() == old(self).input(),
                result.skipped_fields == result.errors@.len(),
                (fields_view(fields@), errs_view(result.errors)) == target,
            decreases sp_measure(self.input(), self.state()),
        {
            if self.is_eof() {
                break;
            }
            let ghost st = self.state();
            let m0 = self.measure();
            proof {
                lemma_field_mono(self.input(), st);
            }
            match self.parse_field() {
                Ok((name, value)) => {
                    add_top_field(&mut fields, name, value);
                },
                Err(e) => {
                    let ghost before = result.errors@;
                    result.add_error(e);
                    assert(errs_view(result.errors) =~= before.map_values(|x: ParseError| x@).push(e@));
                    let ghost s1 = self.state();
                    proof {
                        lemma_skip_mono(self.input(), s1, 0);
                    }
                    self.skip_to_next_field();
                },
            }
            if self.measure() >= m0 {
                let ghost s2 = self.state();
                proof {
                    lemma_advance_measure(self.input(), s2);
                }
                let _ = self.advance();
                if self.measure() >= m0 {
                    break;
                }
            }
        }
        result.value = extract_target(&fields);
        result
    }
}

/// Parses text proto input into a target description; malformed fields are
/// skipped and reported in `errors`.
pub fn parse_text_proto(input: &str) -> (r: ParseResult<TargetIdeInfo>)
    requires
        input@.len() <= isize::MAX,
    ensures
        r.value@ == sp_target(sp_parse_input(input@).0),
        errs_view(r.errors) == sp_parse_input(input@).1,
        r.skipped_fields == r.errors@.len(),
{
    let mut parser = TextProtoParser::new(input);
    parser.parse_target_ide_info()
}

/// Parses text proto input, returning only the target description.
pub fn parse_text_proto_quiet(input: &str) -> (r: TargetIdeInfo)
    requires
        input@.len() <= isize::MAX,
    ensures
        r@ == sp_target(sp_parse_input(input@).0),
{
    parse_text_proto(input).value
}

/// A location read from a message takes each attribute from the field of
/// the same name: its relative and absolute paths and root execution path
/// fragment from those string fields, its flags from those boolean fields.
pub proof fn law_location_fields_come_from_their_names(m: Seq<(Seq<char>, PVView)>)
    ensures
        sp_loc(m).relative_path == get_str(m, "relative_path"@),
        sp_loc(m).absolute_path == get_str(m, "absolute_path"@),
        sp_loc(m).root_execution_path_fragment == get_str(m, "root_execution_path_fragment"@),
        sp_loc(m).is_source == get_bool(m, "is_source"@),
        sp_loc(m).is_external == get_bool(m, "is_external"@),
{
}

/// A JAR read from a message takes each of its locations from the nested
/// message of the same name: the class JAR from `jar`, the source JAR from
/// `source_jar` and the interface JAR from `interface_jar`; a source or
/// interface JAR is present exactly when its field holds a message.
pub proof fn law_jar_locations_come_from_their_fields(m: Seq<(Seq<char>, PVView)>)
    ensures
        (get_msg(m, "jar"@) matches Some(x) ==> sp_jar(m).jar == sp_loc(x)),
        get_msg(m, "jar"@) is None ==> sp_jar(m).jar == empty_loc(),
        sp_jar(m).source_jar is Some <==> get_msg(m, "source_jar"@) is Some,
        (get_msg(m, "source_jar"@) matches Some(x) ==> sp_jar(m).source_jar == Some(sp_loc(x))),
        sp_jar(m).interface_jar is Some <==> get_msg(m, "interface_jar"@) is Some,
        (get_msg(m, "interface_jar"@) matches Some(x) ==> sp_jar(m).interface_jar == Some(sp_loc(x))),
{
}

/// The JARs of Java information are those of its `jars` field: the one
/// JAR of a single message, else one JAR per repeated message, in order;
/// and a target's Java information is read from its `java_info` message.
pub proof fn law_java_jars_come_from_the_jars_field(j: Seq<(Seq<char>, PVView)>, m: Seq<(Seq<char>, PVView)>)
    ensures
        (get_msg(j, "jars"@) matches Some(x) ==> sp_java(j).jars == seq![sp_jar(x)]),
        get_msg(j, "jars"@) is None ==> sp_java(j).jars.len() == get_msgs(j, "jars"@).len(),
        get_msg(j, "jars"@) is None ==> forall|i: int|
            0 <= i < get_msgs(j, "jars"@).len() ==> #[trigger] sp_java(j).jars[i] == sp_jar(get_msgs(j, "jars"@)[i]),
        sp_target(m).java_info is Some <==> get_msg(m, "java_info"@) is Some,
        (get_msg(m, "java_info"@) matches Some(x) ==> sp_target(m).java_info == Some(sp_java(x))),
{
}

/// The value of a string list field: all strings of a repeated field, the
/// one string of a single one, none otherwise.
pub open spec fn strings_of(v: Option<PVView>) -> Seq<Seq<char>> {
    match v {
        Some(PVView::Strs(x)) => x,
        Some(PVView::Str(x)) => seq![x],
        _ => Seq::empty(),
    }
}

/// A target read from the top-level fields takes each attribute from the
/// field of the same name: the label and kind strings (empty without
/// one), the build file location, and the `deps`, `runtime_deps` and
/// `exports` string lists.
pub proof fn law_target_fields_come_from_their_names(m: Seq<(Seq<char>, PVView)>)
    ensures
        sp_target(m).label == match get_str(m, "label"@) {
            Some(x) => x,
            None => Seq::empty(),
        },
        sp_target(m).kind == match get_str(m, "kind"@) {
            Some(x) => x,
            None => Seq::empty(),
        },
        sp_target(m).build_file is Some <==> get_msg(m, "build_file"@) is Some,
        (get_msg(m, "build_file"@) matches Some(x) ==> sp_target(m).build_file == Some(sp_loc(x))),
        sp_target(m).deps == strings_of(fm_get(m, "deps"@)),
        sp_target(m).runtime_deps == strings_of(fm_get(m, "runtime_deps"@)),
        sp_target(m).exports == strings_of(fm_get(m, "exports"@)),
{
}

/// Java information takes each location list from the repeated field of
/// the same name (`sources` may also be a single message), and its
/// annotation processors and javac options from those string lists.
pub proof fn law_java_lists_come_from_their_names(j: Seq<(Seq<char>, PVView)>)
    ensures
        (get_msg(j, "sources"@) matches Some(x) ==> sp_java(j).sources == seq![sp_loc(x)]),
        get_msg(j, "sources"@) is None ==> sp_java(j).sources == get_msgs(j, "sources"@).map_values(
            |x: Seq<(Seq<char>, PVView)>| sp_loc(x),
        ),
        sp_java(j).generated_jars == get_msgs(j, "generated_jars"@).map_values(|x: Seq<(Seq<char>, PVView)>| sp_jar(x)),
        sp_java(j).compile_jars == get_msgs(j, "compile_jars"@).map_values(|x: Seq<(Seq<char>, PVView)>| sp_loc(x)),
        sp_java(j).runtime_jars == get_msgs(j, "runtime_jars"@).map_values(|x: Seq<(Seq<char>, PVView)>| sp_loc(x)),
        sp_java(j).source_jars == get_msgs(j, "source_jars"@).map_values(|x: Seq<(Seq<char>, PVView)>| sp_loc(x)),
        sp_java(j).annotation_processors == match fm_get(j, "annotation_processors"@) {
            Some(PVView::Strs(x)) => x,
            _ => Seq::empty(),
        },
        sp_java(j).javac_options == match fm_get(j, "javac_options"@) {
            Some(PVView::Strs(x)) => Some(x),
            _ => None,
        },
{
}

} // verus!
