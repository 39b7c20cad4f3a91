//! The lexer: a state machine that classifies markup text into tokens.
//!
//! Tokenization is a single pass over the character sequence. A mode
//! selects how the current character is read: normal text, a quoted
//! attribute value, a comment, or a processing instruction. Multi-character
//! lookahead through a [`crate::cursor::Cursor`] disambiguates `</`, `<!--`
//! and `<?`, and detects the ` -->` and ` ?>` closers.
//!
//! The whole behaviour is pinned by the specification function
//! [`spec_tokenize`]: [`Tokenizer::tokenize`] returns exactly what it says,
//! tokens or error, for every input.

use vstd::prelude::*;

use crate::chars::{is_alnum_char, is_space_char, push_char};
use crate::cursor::Cursor;
use vstd::string::StrSliceExecFns;
use vstd::string::StringExecFns;

verus! {

/// The error of a failed tokenization: a human-readable description of
/// what was expected versus found.
#[derive(Debug, Clone)]
pub enum TokenError {
    LexingError(String),
}

impl View for TokenError {
    type V = Seq<char>;

    open spec fn view(&self) -> Seq<char> {
        match self {
            TokenError::LexingError(m) => m@,
        }
    }
}

impl PartialEq for TokenError {
    fn eq(&self, other: &TokenError) -> (r: bool) {
        match (self, other) {
            (TokenError::LexingError(a), TokenError::LexingError(b)) => *a == *b,
        }
    }
}

impl vstd::std_specs::cmp::PartialEqSpecImpl for TokenError {
    open spec fn obeys_eq_spec() -> bool {
        true
    }

    open spec fn eq_spec(&self, other: &TokenError) -> bool {
        self@ == other@
    }
}

/// One classified lexical unit of the input text.
#[derive(Debug, Clone)]
pub enum Token {
    /// `<`, beginning an opening or self-closing tag.
    TagStartOpen,
    /// `</`, beginning a closing tag.
    TagEndOpen,
    /// `>`, closing a tag that may contain children.
    TagCloseMany,
    /// `/>`, closing a tag with no children.
    TagCloseSingle,
    /// The content between `<!-- ` and ` -->`.
    Comment(String),
    /// The content between `<? ` and ` ?>`.
    ProcessingInstruction(String),
    /// A bare name: an element name or an attribute name.
    Identifier(String),
    /// The content of a quoted attribute value, without the quotes.
    Value(String),
    /// `=`, separating an attribute name from its value.
    Equals,
    /// A line break: `\n`, or `\n\r` taken as one.
    Linebreak,
}

/// The mathematical shape of a token: payloads as character sequences.
pub enum TokenView {
    TagStartOpen,
    TagEndOpen,
    TagCloseMany,
    TagCloseSingle,
    Comment(Seq<char>),
    ProcessingInstruction(Seq<char>),
    Identifier(Seq<char>),
    Value(Seq<char>),
    Equals,
    Linebreak,
}

impl View for Token {
    type V = TokenView;

    open spec fn view(&self) -> TokenView {
        match self {
            Token::TagStartOpen => TokenView::TagStartOpen,
            Token::TagEndOpen => TokenView::TagEndOpen,
            Token::TagCloseMany => TokenView::TagCloseMany,
            Token::TagCloseSingle => TokenView::TagCloseSingle,
            Token::Comment(s) => TokenView::Comment(s@),
            Token::ProcessingInstruction(s) => TokenView::ProcessingInstruction(s@),
            Token::Identifier(s) => TokenView::Identifier(s@),
            Token::Value(s) => TokenView::Value(s@),
            Token::Equals => TokenView::Equals,
            Token::Linebreak => TokenView::Linebreak,
        }
    }
}

impl PartialEq for Token {
    fn eq(&self, other: &Token) -> (r: bool) {
        match (self, other) {
            (Token::TagStartOpen, Token::TagStartOpen) => true,
            (Token::TagEndOpen, Token::TagEndOpen) => true,
            (Token::TagCloseMany, Token::TagCloseMany) => true,
            (Token::TagCloseSingle, Token::TagCloseSingle) => true,
            (Token::Comment(a), Token::Comment(b)) => *a == *b,
            (Token::ProcessingInstruction(a), Token::ProcessingInstruction(b)) => *a == *b,
            (Token::Identifier(a), Token::Identifier(b)) => *a == *b,
            (Token::Value(a), Token::Value(b)) => *a == *b,
            (Token::Equals, Token::Equals) => true,
            (Token::Linebreak, Token::Linebreak) => true,
            _ => false,
        }
    }
}

impl vstd::std_specs::cmp::PartialEqSpecImpl for Token {
    open spec fn obeys_eq_spec() -> bool {
        true
    }

    open spec fn eq_spec(&self, other: &Token) -> bool {
        self@ == other@
    }
}


/// The display text of a token: the literal it stands for, or its kind and
/// its content.
pub open spec fn token_text(t: TokenView) -> Seq<char> {
    match t {
        TokenView::TagStartOpen => "<"@,
        TokenView::TagEndOpen => "</"@,
        TokenView::TagCloseMany => ">"@,
        TokenView::TagCloseSingle => "/>"@,
        TokenView::Comment(s) => "Comment: "@ + s,
        TokenView::ProcessingInstruction(s) => "PI: "@ + s,
        TokenView::Identifier(s) => "Identifier: "@ + s,
        TokenView::Value(s) => "Value: "@ + s,
        TokenView::Equals => "="@,
        TokenView::Linebreak => ""@,
    }
}

impl Token {
    /// Renders the token as display text: exactly [`token_text`] of it.
    pub fn print(&self) -> (s: String)
        ensures
            s@ == token_text(self@),
    {
        match self {
            Token::TagStartOpen => "<".to_owned(),
            Token::TagEndOpen => "</".to_owned(),
            Token::TagCloseMany => ">".to_owned(),
            Token::TagCloseSingle => "/>".to_owned(),
            Token::Comment(s) => {
                let mut m = "Comment: ".to_owned();
                m.append(s.as_str());
                m
            },
            Token::ProcessingInstruction(s) => {
                let mut m = "PI: ".to_owned();
                m.append(s.as_str());
                m
            },
            Token::Identifier(s) => {
                let mut m = "Identifier: ".to_owned();
                m.append(s.as_str());
                m
            },
            Token::Value(s) => {
                let mut m = "Value: ".to_owned();
                m.append(s.as_str());
                m
            },
            Token::Equals => "=".to_owned(),
            Token::Linebreak => "".to_owned(),
        }
    }
}

impl TokenError {
    /// The diagnostic message the error carries.
    pub fn message(&self) -> (m: String)
        ensures
            m@ == self@,
    {
        match self {
            TokenError::LexingError(m) => m.clone(),
        }
    }
}

/// The exclusive sub-state governing how the current character is read.
#[derive(Debug, Clone, Copy)]
pub enum Mode {
    Normal,
    InsideQuotedValue,
    InsideComment,
    InsideProcessingInstruction,
}

/// The character at position `j`, or a placeholder once the input has run
/// out. The placeholder matches none of the delimiter characters the lexer
/// tests lookahead against, so a missing character never closes anything.
pub open spec fn peek_at(s: Seq<char>, j: int) -> char {
    if 0 <= j && j < s.len() {
        s[j]
    } else {
        'i'
    }
}

/// The tokens a pending identifier buffer flushes to: one `Identifier` if
/// the buffer is non-empty, none otherwise.
pub open spec fn flushed(buf: Seq<char>) -> Seq<TokenView> {
    if buf.len() == 0 {
        Seq::<TokenView>::empty()
    } else {
        seq![TokenView::Identifier(buf)]
    }
}

/// Prepends already-emitted tokens to the outcome of the rest of the scan;
/// an error swallows everything emitted before it.
pub open spec fn emit(
    ts: Seq<TokenView>,
    r: Result<Seq<TokenView>, Seq<char>>,
) -> Result<Seq<TokenView>, Seq<char>> {
    match r {
        Ok(rest) => Ok(ts + rest),
        Err(e) => Err(e),
    }
}

pub open spec fn expected_comment_msg() -> Seq<char> {
    "Expected comment after exclamation mark."@
}

pub open spec fn unknown_after_lt_msg() -> Seq<char> {
    "Unknown symbol '<' after '<'."@
}

pub open spec fn unknown_after_slash_msg() -> Seq<char> {
    "Unknown symbol '/' after '/'"@
}

pub open spec fn unknown_symbol_msg(c: char) -> Seq<char> {
    "Unknown symbol '"@.push(c) + "'"@
}

/// One normal-mode step at position `i`: dispatch on the current character,
/// with lookahead where the grammar needs it.
pub open spec fn lex_normal(s: Seq<char>, i: int, buf: Seq<char>) -> Result<
    Seq<TokenView>,
    Seq<char>,
>
    recommends
        0 <= i < s.len(),
    decreases s.len() - i + 5, 1int,
{
    if i < 0 || i >= s.len() {
        Ok(Seq::<TokenView>::empty())
    } else {
        lex_normal_step(s, i, buf)
    }
}

/// The dispatch of [`lex_normal`], on an in-range position.
pub open spec fn lex_normal_step(s: Seq<char>, i: int, buf: Seq<char>) -> Result<
    Seq<TokenView>,
    Seq<char>,
>
    recommends
        0 <= i < s.len(),
    decreases s.len() - i + 5, 0int
    when 0 <= i < s.len()
{
    let c = s[i];
    if c == '<' {
        if i + 1 >= s.len() {
            Err(unknown_after_lt_msg())
        } else {
            let p = s[i + 1];
            if p == '/' {
                emit(seq![TokenView::TagEndOpen], lex_from(s, i + 2, Mode::Normal, buf))
            } else if p == '!' {
                if peek_at(s, i + 2) == '-' && peek_at(s, i + 3) == '-' && peek_at(s, i + 4)
                    == ' ' {
                    lex_from(s, i + 5, Mode::InsideComment, buf)
                } else {
                    Err(expected_comment_msg())
                }
            } else if p == '?' {
                lex_from(s, i + 3, Mode::InsideProcessingInstruction, buf)
            } else if is_alnum_char(p) {
                emit(seq![TokenView::TagStartOpen], lex_from(s, i + 1, Mode::Normal, buf))
            } else {
                Err(unknown_after_lt_msg())
            }
        }
    } else if c == '/' {
        if i + 1 < s.len() && s[i + 1] == '>' {
            emit(
                flushed(buf) + seq![TokenView::TagCloseSingle],
                lex_from(s, i + 2, Mode::Normal, Seq::<char>::empty()),
            )
        } else {
            Err(unknown_after_slash_msg())
        }
    } else if c == '>' {
        emit(
            flushed(buf) + seq![TokenView::TagCloseMany],
            lex_from(s, i + 1, Mode::Normal, Seq::<char>::empty()),
        )
    } else if c == '\n' {
        let next = if i + 1 < s.len() && s[i + 1] == '\r' {
            i + 2
        } else {
            i + 1
        };
        emit(
            flushed(buf) + seq![TokenView::Linebreak],
            lex_from(s, next, Mode::Normal, Seq::<char>::empty()),
        )
    } else if c == '=' {
        emit(
            flushed(buf) + seq![TokenView::Equals],
            lex_from(s, i + 1, Mode::Normal, Seq::<char>::empty()),
        )
    } else if c == '"' || c == '\'' {
        lex_from(s, i + 1, Mode::InsideQuotedValue, buf)
    } else if is_alnum_char(c) {
        lex_from(s, i + 1, Mode::Normal, buf.push(c))
    } else if is_space_char(c) {
        emit(flushed(buf), lex_from(s, i + 1, Mode::Normal, Seq::<char>::empty()))
    } else {
        Err(unknown_symbol_msg(c))
    }
}

/// The scan from position `i` in mode `mode` with pending text `buf`:
/// the tokens still to come, or the error that stops everything.
///
/// At the end of the input the scan stops silently, whatever the mode:
/// pending text, an open quoted value, an open comment and an open
/// processing instruction are all discarded without a token.
pub open spec fn lex_from(s: Seq<char>, i: int, mode: Mode, buf: Seq<char>) -> Result<
    Seq<TokenView>,
    Seq<char>,
>
    decreases s.len() - i + 5, 2int,
{
    if i < 0 || i >= s.len() {
        Ok(Seq::<TokenView>::empty())
    } else {
        let c = s[i];
        match mode {
            Mode::Normal => lex_normal(s, i, buf),
            Mode::InsideQuotedValue => {
                if c == '"' || c == '\'' {
                    emit(
                        seq![TokenView::Value(buf)],
                        lex_from(s, i + 1, Mode::Normal, Seq::<char>::empty()),
                    )
                } else {
                    lex_from(s, i + 1, Mode::InsideQuotedValue, buf.push(c))
                }
            },
            Mode::InsideComment => {
                if c == ' ' && peek_at(s, i + 1) == '-' && peek_at(s, i + 2) == '-' && peek_at(
                    s,
                    i + 3,
                ) == '>' {
                    emit(
                        seq![TokenView::Comment(buf)],
                        lex_from(s, i + 4, Mode::Normal, Seq::<char>::empty()),
                    )
                } else {
                    lex_from(s, i + 1, Mode::InsideComment, buf.push(c))
                }
            },
            Mode::InsideProcessingInstruction => {
                if c == ' ' && peek_at(s, i + 1) == '?' && peek_at(s, i + 2) == '>' {
                    emit(
                        seq![TokenView::ProcessingInstruction(buf)],
                        lex_from(s, i + 3, Mode::Normal, Seq::<char>::empty()),
                    )
                } else {
                    lex_from(s, i + 1, Mode::InsideProcessingInstruction, buf.push(c))
                }
            },
        }
    }
}

/// What tokenizing a character sequence yields: the full token sequence,
/// or the error that aborted the pass.
pub open spec fn spec_tokenize(s: Seq<char>) -> Result<Seq<TokenView>, Seq<char>> {
    lex_from(s, 0, Mode::Normal, Seq::<char>::empty())
}

/// The views of a token sequence, element by element.
pub open spec fn token_views(ts: Seq<Token>) -> Seq<TokenView> {
    ts.map_values(|t: Token| t@)
}

/// The mathematical reading of a tokenization result.
pub open spec fn lex_output(r: Result<Vec<Token>, TokenError>) -> Result<
    Seq<TokenView>,
    Seq<char>,
> {
    match r {
        Ok(ts) => Ok(token_views(ts@)),
        Err(e) => Err(e@),
    }
}

proof fn lemma_views_push(ts: Seq<Token>, t: Token)
    ensures
        token_views(ts.push(t)) == token_views(ts) + seq![t@],
{
    assert(token_views(ts.push(t)) =~= token_views(ts) + seq![t@]);
}

pub proof fn lemma_emit_nil(r: Result<Seq<TokenView>, Seq<char>>)
    ensures
        emit(Seq::<TokenView>::empty(), r) == r,
{
    match r {
        Ok(ts) => {
            assert(Seq::<TokenView>::empty() + ts =~= ts);
        },
        Err(_) => {},
    }
}

pub proof fn lemma_emit_assoc(a: Seq<TokenView>, b: Seq<TokenView>, r: Result<Seq<TokenView>, Seq<char>>)
    ensures
        emit(a + b, r) == emit(a, emit(b, r)),
{
    match r {
        Ok(ts) => {
            assert((a + b) + ts =~= a + (b + ts));
        },
        Err(_) => {},
    }
}

fn push_token(tokens: &mut Vec<Token>, t: Token)
    ensures
        token_views(final(tokens)@) == token_views(old(tokens)@) + seq![t@],
{
    proof {
        lemma_views_push(tokens@, t);
    }
    tokens.push(t);
}

fn flush_identifier(tokens: &mut Vec<Token>, buf: String)
    ensures
        token_views(final(tokens)@) == token_views(old(tokens)@) + flushed(buf@),
{
    if !buf.as_str().is_empty() {
        let t = Token::Identifier(buf);
        proof {
            lemma_views_push(tokens@, t);
        }
        tokens.push(t);
    } else {
        proof {
            assert(token_views(tokens@) =~= token_views(tokens@) + flushed(buf@));
        }
    }
}

fn expected_comment_error() -> (e: TokenError)
    ensures
        e@ == expected_comment_msg(),
{
    TokenError::LexingError("Expected comment after exclamation mark.".to_owned())
}

fn unknown_after_lt_error() -> (e: TokenError)
    ensures
        e@ == unknown_after_lt_msg(),
{
    TokenError::LexingError("Unknown symbol '<' after '<'.".to_owned())
}

fn unknown_after_slash_error() -> (e: TokenError)
    ensures
        e@ == unknown_after_slash_msg(),
{
    TokenError::LexingError("Unknown symbol '/' after '/'".to_owned())
}

fn unknown_symbol_error(c: char) -> (e: TokenError)
    ensures
        e@ == unknown_symbol_msg(c),
{
    let mut m = "Unknown symbol '".to_owned();
    push_char(&mut m, c);
    TokenError::LexingError(m.concat("'"))
}

/// The tokenizer: holds one character sequence and is consumed by a single
/// call of [`Tokenizer::tokenize`].
pub struct Tokenizer {
    chars: Vec<char>,
}

impl View for Tokenizer {
    type V = Seq<char>;

    closed spec fn view(&self) -> Seq<char> {
        self.chars@
    }
}

impl Tokenizer {
    /// A tokenizer over the characters of `input`.
    pub fn new(input: &str) -> (t: Tokenizer)
        ensures
            t@ == input@,
    {
        let n = input.unicode_len();
        let mut chars: Vec<char> = Vec::new();
        let mut i: usize = 0;
        while i < n
            invariant
                n == input@.len(),
                i <= n,
                chars@ == input@.subrange(0, i as int),
            decreases n - i,
        {
            let c = input.get_char(i);
            chars.push(c);
            proof {
                assert(chars@ =~= input@.subrange(0, i + 1 as int));
            }
            i = i + 1;
        }
        proof {
            assert(input@.subrange(0, n as int) =~= input@);
        }
        Tokenizer { chars }
    }

    /// Tokenizes the whole input: returns exactly the token sequence that
    /// [`spec_tokenize`] assigns to it, or exactly its error. All-or-nothing:
    /// on an error no tokens are handed back.
    pub fn tokenize(self) -> (r: Result<Vec<Token>, TokenError>)
        ensures
            lex_output(r) == spec_tokenize(self@),
    {
        let ghost s: Seq<char> = self@;
        let mut tokens: Vec<Token> = Vec::new();
        let mut iter = Cursor::new(self.chars);
        let mut buf = String::new();
        let mut skip: u64 = 0;
        let mut mode = Mode::Normal;

        proof {
            lemma_emit_nil(lex_from(s, 0, Mode::Normal, buf@));
            assert(token_views(tokens@) =~= Seq::<TokenView>::empty());
        }

        loop
            invariant
                s == self@,
                iter.wf(),
                iter.src() == s,
                iter.ahead() <= skip as int,
                spec_tokenize(s) == emit(
                    token_views(tokens@),
                    lex_from(s, iter.pos() + skip as int, mode, buf@),
                ),
            ensures
                iter.pos() == s.len(),
                spec_tokenize(s) == emit(
                    token_views(tokens@),
                    lex_from(s, iter.pos() + skip as int, mode, buf@),
                ),
            decreases s.len() - iter.pos(),
        {
            let copt = iter.next();
            if copt.is_none() {
                break;
            }
            let c = copt.unwrap();
            let ghost i: int = iter.pos() - 1;
            let ghost bufv: Seq<char> = buf@;
            let ghost toks0: Seq<TokenView> = token_views(tokens@);

            if skip > 0 {
                skip = skip - 1;
                continue;
            }

            match mode {
                Mode::InsideQuotedValue => {
                    if c == '"' || c == '\'' {
                        mode = Mode::Normal;
                        push_token(&mut tokens, Token::Value(buf));
                        buf = String::new();
                        proof {
                            lemma_emit_assoc(
                                toks0,
                                seq![TokenView::Value(bufv)],
                                lex_from(s, i + 1, Mode::Normal, Seq::<char>::empty()),
                            );
                        }
                    } else {
                        push_char(&mut buf, c);
                    }
                },
                Mode::InsideComment => {
                    let d1 = match iter.peek() {
                        Some(x) => x,
                        None => 'i',
                    };
                    iter.advance_cursor();
                    let d2 = match iter.peek() {
                        Some(x) => x,
                        None => 'i',
                    };
                    iter.advance_cursor();
                    let close = match iter.peek() {
                        Some(x) => x,
                        None => 'i',
                    };

                    if c == ' ' && d1 == '-' && d2 == '-' && close == '>' {
                        mode = Mode::Normal;
                        skip = 3;
                        push_token(&mut tokens, Token::Comment(buf));
                        buf = String::new();
                        proof {
                            lemma_emit_assoc(
                                toks0,
                                seq![TokenView::Comment(bufv)],
                                lex_from(s, i + 4, Mode::Normal, Seq::<char>::empty()),
                            );
                        }
                    } else {
                        iter.reset_cursor();
                        push_char(&mut buf, c);
                    }
                },
                Mode::InsideProcessingInstruction => {
                    let question_mark = match iter.peek() {
                        Some(x) => x,
                        None => 'i',
                    };
                    iter.advance_cursor();
                    let close = match iter.peek() {
                        Some(x) => x,
                        None => 'i',
                    };
                    if c == ' ' && question_mark == '?' && close == '>' {
                        mode = Mode::Normal;
                        skip = 2;
                        push_token(&mut tokens, Token::ProcessingInstruction(buf));
                        buf = String::new();
                        proof {
                            lemma_emit_assoc(
                                toks0,
                                seq![TokenView::ProcessingInstruction(bufv)],
                                lex_from(s, i + 3, Mode::Normal, Seq::<char>::empty()),
                            );
                        }
                    } else {
                        iter.reset_cursor();
                        push_char(&mut buf, c);
                    }
                },
                Mode::Normal => {
                    if c == '<' {
                        let popt = iter.peek();
                        if popt.is_none() {
                            proof {
                                assert(iter.ahead() == 0);
                                assert(c == s[i]);
                                assert(i + 1 >= s.len());
                                assert(lex_normal_step(s, i, bufv) == Err::<
                                    Seq<TokenView>,
                                    Seq<char>,
                                >(unknown_after_lt_msg()));
                                assert(lex_normal(s, i, bufv) == Err::<
                                    Seq<TokenView>,
                                    Seq<char>,
                                >(unknown_after_lt_msg()));
                                assert(lex_from(s, i, mode, bufv) == Err::<
                                    Seq<TokenView>,
                                    Seq<char>,
                                >(unknown_after_lt_msg()));
                            }
                            return Err(unknown_after_lt_error());
                        }
                        let p = popt.unwrap();
                        if p == '/' {
                            push_token(&mut tokens, Token::TagEndOpen);
                            skip = 1;
                            proof {
                                lemma_emit_assoc(
                                    toks0,
                                    seq![TokenView::TagEndOpen],
                                    lex_from(s, i + 2, Mode::Normal, bufv),
                                );
                            }
                        } else if p == '!' {
                            iter.advance_cursor();
                            let d1 = match iter.peek() {
                                Some(x) => x,
                                None => 'i',
                            };
                            iter.advance_cursor();
                            let d2 = match iter.peek() {
                                Some(x) => x,
                                None => 'i',
                            };
                            iter.advance_cursor();
                            let w = match iter.peek() {
                                Some(x) => x,
                                None => 'i',
                            };
                            if d1 != '-' || d2 != '-' || w != ' ' {
                                proof {
                                    assert(c == s[i]);
                                    assert(p == s[i + 1]);
                                    assert(d1 == peek_at(s, i + 2));
                                    assert(d2 == peek_at(s, i + 3));
                                    assert(w == peek_at(s, i + 4));
                                    assert(lex_normal_step(s, i, bufv) == Err::<
                                        Seq<TokenView>,
                                        Seq<char>,
                                    >(expected_comment_msg()));
                                    assert(lex_normal(s, i, bufv) == Err::<
                                        Seq<TokenView>,
                                        Seq<char>,
                                    >(expected_comment_msg()));
                                    assert(lex_from(s, i, mode, bufv) == Err::<
                                        Seq<TokenView>,
                                        Seq<char>,
                                    >(expected_comment_msg()));
                                }
                                return Err(expected_comment_error());
                            }
                            skip = 4;
                            mode = Mode::InsideComment;
                            iter.reset_cursor();
                        } else if p == '?' {
                            skip = 2;
                            mode = Mode::InsideProcessingInstruction;
                            iter.reset_cursor();
                        } else if p.is_alphanumeric() {
                            push_token(&mut tokens, Token::TagStartOpen);
                            proof {
                                lemma_emit_assoc(
                                    toks0,
                                    seq![TokenView::TagStartOpen],
                                    lex_from(s, i + 1, Mode::Normal, bufv),
                                );
                            }
                        } else {
                            return Err(unknown_after_lt_error());
                        }
                    } else if c == '/' {
                        let popt = iter.peek();
                        let is_close = match popt {
                            Some(x) => x == '>',
                            None => false,
                        };
                        if !is_close {
                            return Err(unknown_after_slash_error());
                        }
                        flush_identifier(&mut tokens, buf);
                        buf = String::new();
                        push_token(&mut tokens, Token::TagCloseSingle);
                        skip = 1;
                        proof {
                            let em = flushed(bufv) + seq![TokenView::TagCloseSingle];
                            assert(token_views(tokens@) =~= toks0 + em);
                            lemma_emit_assoc(
                                toks0,
                                flushed(bufv) + seq![TokenView::TagCloseSingle],
                                lex_from(s, i + 2, Mode::Normal, Seq::<char>::empty()),
                            );
                        }
                    } else if c == '>' {
                        flush_identifier(&mut tokens, buf);
                        buf = String::new();
                        push_token(&mut tokens, Token::TagCloseMany);
                        proof {
                            let em = flushed(bufv) + seq![TokenView::TagCloseMany];
                            assert(token_views(tokens@) =~= toks0 + em);
                            lemma_emit_assoc(
                                toks0,
                                flushed(bufv) + seq![TokenView::TagCloseMany],
                                lex_from(s, i + 1, Mode::Normal, Seq::<char>::empty()),
                            );
                        }
                    } else if c == '\n' {
                        let popt = iter.peek();
                        let cr_follows = match popt {
                            Some(x) => x == '\r',
                            None => false,
                        };
                        if cr_follows {
                            skip = 1;
                        }
                        flush_identifier(&mut tokens, buf);
                        buf = String::new();
                        push_token(&mut tokens, Token::Linebreak);
                        proof {
                            let em = flushed(bufv) + seq![TokenView::Linebreak];
                            assert(token_views(tokens@) =~= toks0 + em);
                            lemma_emit_assoc(
                                toks0,
                                flushed(bufv) + seq![TokenView::Linebreak],
                                lex_from(s, i + 1 + skip as int, Mode::Normal, Seq::<char>::empty()),
                            );
                        }
                    } else if c == '=' {
                        flush_identifier(&mut tokens, buf);
                        buf = String::new();
                        push_token(&mut tokens, Token::Equals);
                        proof {
                            let em = flushed(bufv) + seq![TokenView::Equals];
                            assert(token_views(tokens@) =~= toks0 + em);
                            lemma_emit_assoc(
                                toks0,
                                flushed(bufv) + seq![TokenView::Equals],
                                lex_from(s, i + 1, Mode::Normal, Seq::<char>::empty()),
                            );
                        }
                    } else if c == '"' || c == '\'' {
                        mode = Mode::InsideQuotedValue;
                    } else if c.is_alphanumeric() {
                        push_char(&mut buf, c);
                    } else if c.is_whitespace() {
                        flush_identifier(&mut tokens, buf);
                        buf = String::new();
                        proof {
                            lemma_emit_assoc(
                                toks0,
                                flushed(bufv),
                                lex_from(s, i + 1, Mode::Normal, Seq::<char>::empty()),
                            );
                        }
                    } else {
                        return Err(unknown_symbol_error(c));
                    }
                },
            }
        }

        proof {
            lemma_emit_nil(Ok(Seq::<TokenView>::empty()));
            assert(token_views(tokens@) + Seq::<TokenView>::empty() =~= token_views(tokens@));
        }
        Ok(tokens)
    }
}

} // verus!
