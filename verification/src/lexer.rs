//! Lexical analysis of the equation language.
//!
//! The lexer is total: every character of the input either is horizontal
//! whitespace (and is skipped), starts a recognised token, or becomes an
//! `Unknown` token of its own.  The specification-level tokenizer
//! [`lex_from`] says exactly which token sequence a source text denotes, and
//! [`Lexer::lex_all`] is proved to produce it.

use vstd::prelude::*;
use vstd::string::StrSliceExecFns;
use vstd::string::StringExecFns;

verus! {

/// The classification of a lexical unit of the equation language.
#[derive(Debug, Clone, Copy, PartialEq, Eq, Structural)]
pub enum TokenType {
    Unknown,
    SetOpen,
    SetClose,
    DataPoint,
    Definition,
    Equals,
    Union,
    SetDifference,
    Comma,
    NewLine,
    EndOfInput,
}

/// A classified lexical unit together with the exact source text it matched.
#[derive(Debug, Clone)]
pub struct Token {
    pub token_type: TokenType,
    pub lexeme: String,
}

/// The mathematical value of a token: its tag and the characters of its
/// lexeme.
#[verifier::ext_equal]
pub struct TokenView {
    pub kind: TokenType,
    pub text: Seq<char>,
}

impl View for Token {
    type V = TokenView;

    open spec fn view(&self) -> TokenView {
        TokenView { kind: self.token_type, text: self.lexeme@ }
    }
}

impl Token {
    /// An exact copy of this token.
    pub fn duplicate(&self) -> (r: Token)
        ensures
            r@ == self@,
    {
        Token { token_type: self.token_type, lexeme: self.lexeme.clone() }
    }
}

/// The token views of a token sequence.
pub open spec fn tokens_view(ts: Seq<Token>) -> Seq<TokenView> {
    ts.map_values(|t: Token| t@)
}

pub broadcast proof fn lemma_tokens_view_len(ts: Seq<Token>)
    ensures
        (#[trigger] tokens_view(ts)).len() == ts.len(),
{
}

/// Horizontal whitespace (space and tab): skipped between tokens, never part
/// of one.  A newline is not horizontal whitespace; it is the token that
/// separates equations.
pub open spec fn is_hws(c: char) -> bool {
    c == ' ' || c == '\t'
}

/// ASCII decimal digit.
pub open spec fn is_digit_char(c: char) -> bool {
    '0' as u32 <= c as u32 && c as u32 <= '9' as u32
}

/// Length of the run of ASCII digits in `s` starting at position `i`.
pub open spec fn digit_run_len(s: Seq<char>, i: int) -> nat
    decreases s.len() - i,
{
    if 0 <= i < s.len() && is_digit_char(s[i]) {
        (1 + digit_run_len(s, i + 1)) as nat
    } else {
        0
    }
}

/// The tag of the token that begins at the non-whitespace character `s[i]`.
pub open spec fn token_kind_at(s: Seq<char>, i: int) -> TokenType {
    let c = s[i];
    if c == '\n' || c == ';' {
        TokenType::NewLine
    } else if c == '{' {
        TokenType::SetOpen
    } else if c == '}' {
        TokenType::SetClose
    } else if c == '=' {
        TokenType::Equals
    } else if c == 'U' {
        TokenType::Union
    } else if c == '\\' {
        TokenType::SetDifference
    } else if c == ',' {
        TokenType::Comma
    } else if c == 'L' {
        TokenType::DataPoint
    } else if c == 'd' {
        TokenType::Definition
    } else {
        TokenType::Unknown
    }
}

/// Number of characters consumed by the token that begins at `s[i]`: a data
/// point or definition takes its leading letter plus the digits that follow;
/// every other token is a single character.
#[verifier::inline]
pub open spec fn token_len_at(s: Seq<char>, i: int) -> nat {
    if s[i] == 'L' || s[i] == 'd' {
        (1 + digit_run_len(s, i + 1)) as nat
    } else {
        1
    }
}

/// The token that begins at the non-whitespace character `s[i]`.
pub open spec fn token_at(s: Seq<char>, i: int) -> TokenView {
    TokenView { kind: token_kind_at(s, i), text: s.subrange(i, i + token_len_at(s, i)) }
}

/// The token sequence denoted by `s`, reading from position `i`: whitespace
/// is skipped, and each remaining position yields the longest token that
/// matches there.
pub open spec fn lex_from(s: Seq<char>, i: int) -> Seq<TokenView>
    decreases s.len() - i,
{
    if i < 0 || i >= s.len() {
        Seq::empty()
    } else if is_hws(s[i]) {
        lex_from(s, i + 1)
    } else {
        let k = token_len_at(s, i);
        let next = if i + k <= s.len() {
            i + k
        } else {
            s.len() as int
        };
        seq![token_at(s, i)] + lex_from(s, next)
    }
}

/// The characters of `s` from position `i` on, with horizontal whitespace
/// removed.
pub open spec fn strip_hws(s: Seq<char>, i: int) -> Seq<char>
    decreases s.len() - i,
{
    if i < 0 || i >= s.len() {
        Seq::empty()
    } else if is_hws(s[i]) {
        strip_hws(s, i + 1)
    } else {
        seq![s[i]] + strip_hws(s, i + 1)
    }
}

/// The lexemes of a token sequence, concatenated in order.
pub open spec fn concat_lexemes(ts: Seq<TokenView>) -> Seq<char>
    decreases ts.len(),
{
    if ts.len() == 0 {
        Seq::empty()
    } else {
        ts[0].text + concat_lexemes(ts.drop_first())
    }
}

/// Every character of the run of digits starting at `i` is a digit.
proof fn lemma_digit_run_char_at(s: Seq<char>, i: int, j: int)
    requires
        0 <= i <= j,
        j < i + digit_run_len(s, i),
    ensures
        0 <= j < s.len() && is_digit_char(s[j]),
    decreases j - i,
{
    assert(digit_run_len(s, i) > 0);
    if j > i {
        lemma_digit_run_char_at(s, i + 1, j);
    }
}

/// A run of digits stays inside the text.
proof fn lemma_digit_run_bound(s: Seq<char>, i: int)
    requires
        0 <= i <= s.len(),
    ensures
        i + digit_run_len(s, i) <= s.len(),
    decreases s.len() - i,
{
    if i < s.len() && is_digit_char(s[i]) {
        lemma_digit_run_bound(s, i + 1);
    }
}

/// Stripping whitespace from a stretch of `k` non-whitespace characters keeps
/// them all.
proof fn lemma_strip_hws_run(s: Seq<char>, i: int, k: int)
    requires
        0 <= i,
        0 <= k,
        i + k <= s.len(),
        forall|j: int| i <= j < i + k ==> !is_hws(s[j]),
    ensures
        strip_hws(s, i) == s.subrange(i, i + k) + strip_hws(s, i + k),
    decreases k,
{
    if k == 0 {
        assert(s.subrange(i, i) + strip_hws(s, i) =~= strip_hws(s, i));
    } else {
        lemma_strip_hws_run(s, i + 1, k - 1);
        assert(seq![s[i]] + (s.subrange(i + 1, i + k) + strip_hws(s, i + k)) =~= s.subrange(
            i,
            i + k,
        ) + strip_hws(s, i + k));
    }
}

proof fn lemma_lex_round_trip_from(s: Seq<char>, i: int)
    requires
        0 <= i,
    ensures
        concat_lexemes(lex_from(s, i)) == strip_hws(s, i),
    decreases s.len() - i,
{
    if i >= s.len() {
    } else if is_hws(s[i]) {
        lemma_lex_round_trip_from(s, i + 1);
    } else {
        let k = token_len_at(s, i) as int;
        lemma_digit_run_bound(s, i + 1);
        assert forall|j: int| i <= j < i + k implies !is_hws(s[j]) by {
            if j > i {
                lemma_digit_run_char_at(s, i + 1, j);
            }
        }
        lemma_strip_hws_run(s, i, k);
        lemma_lex_round_trip_from(s, i + k);
        let rest = lex_from(s, i + k);
        assert((seq![token_at(s, i)] + rest).drop_first() =~= rest);
        assert(concat_lexemes(lex_from(s, i)) == token_at(s, i).text + concat_lexemes(rest));
    }
}

/// Lexing round-trip: concatenating the lexemes of all tokens of `s`
/// reproduces `s` with its horizontal whitespace removed.
pub proof fn lemma_lex_round_trip(s: Seq<char>)
    ensures
        concat_lexemes(lex_from(s, 0)) == strip_hws(s, 0),
{
    lemma_lex_round_trip_from(s, 0);
}

/// The abstract state of a lexer: the source text and the reading position.
pub struct LexerView {
    pub text: Seq<char>,
    pub cursor: int,
}

/// A cursor over one source text, producing tokens in order.
pub struct Lexer {
    text: String,
    cursor: usize,
}

impl View for Lexer {
    type V = LexerView;

    closed spec fn view(&self) -> LexerView {
        LexerView { text: self.text@, cursor: self.cursor as int }
    }
}

impl Lexer {
    /// The cursor never runs past the end of the text.
    pub open spec fn wf(&self) -> bool {
        self@.cursor <= self@.text.len()
    }

    pub fn new(text: String) -> (l: Lexer)
        ensures
            l@.text == text@,
            l@.cursor == 0,
            l.wf(),
    {
        Lexer { text, cursor: 0 }
    }

    /// The character at the cursor.
    fn current(&self) -> (c: char)
        requires
            self.wf(),
            self@.cursor < self@.text.len(),
        ensures
            c == self@.text[self@.cursor],
    {
        self.text.as_str().get_char(self.cursor)
    }

    /// Advance the cursor past horizontal whitespace; the token sequence
    /// denoted by the rest of the text is unchanged.
    fn skip_whitespace(&mut self)
        requires
            old(self).wf(),
        ensures
            final(self).wf(),
            final(self)@.text == old(self)@.text,
            old(self)@.cursor <= final(self)@.cursor,
            lex_from(final(self)@.text, final(self)@.cursor) == lex_from(
                old(self)@.text,
                old(self)@.cursor,
            ),
            final(self)@.cursor < final(self)@.text.len() ==> !is_hws(
                final(self)@.text[final(self)@.cursor],
            ),
    {
        let ghost t = self@.text;
        let ghost c0 = self@.cursor;
        let n = self.text.as_str().unicode_len();
        loop
            invariant
                self@.text == t,
                c0 <= self@.cursor <= t.len(),
                n == t.len(),
                lex_from(t, self@.cursor) == lex_from(t, c0),
            ensures
                self@.text == t,
                c0 <= self@.cursor <= t.len(),
                lex_from(t, self@.cursor) == lex_from(t, c0),
                self@.cursor < t.len() ==> !is_hws(t[self@.cursor]),
            decreases t.len() - self@.cursor,
        {
            if self.cursor >= n {
                break ;
            }
            let c = self.current();
            if c != ' ' && c != '\t' {
                break ;
            }
            self.cursor = self.cursor + 1;
        }
    }

    /// Consume the run of ASCII digits at the cursor and return it.
    fn lex_number(&mut self) -> (r: String)
        requires
            old(self).wf(),
        ensures
            final(self).wf(),
            final(self)@.text == old(self)@.text,
            final(self)@.cursor == old(self)@.cursor + digit_run_len(
                old(self)@.text,
                old(self)@.cursor,
            ),
            r@ == old(self)@.text.subrange(old(self)@.cursor, final(self)@.cursor),
    {
        let ghost t = self@.text;
        let start = self.cursor;
        let n = self.text.as_str().unicode_len();
        loop
            invariant
                self@.text == t,
                start <= self@.cursor <= t.len(),
                n == t.len(),
                digit_run_len(t, start as int) == self@.cursor - start + digit_run_len(
                    t,
                    self@.cursor,
                ),
            ensures
                self@.text == t,
                start <= self@.cursor <= t.len(),
                digit_run_len(t, start as int) == self@.cursor - start,
            decreases t.len() - self@.cursor,
        {
            if self.cursor >= n {
                break ;
            }
            let c = self.current();
            if !(c as u32 >= '0' as u32 && c as u32 <= '9' as u32) {
                break ;
            }
            self.cursor = self.cursor + 1;
        }
        self.text.as_str().substring_char(start, self.cursor).to_owned()
    }

    /// Produce the next token, or an `EndOfInput` token when only whitespace
    /// remains.
    fn lex(&mut self) -> (t: Token)
        requires
            old(self).wf(),
        ensures
            final(self).wf(),
            final(self)@.text == old(self)@.text,
            old(self)@.cursor <= final(self)@.cursor,
            (t.token_type == TokenType::EndOfInput) == (lex_from(
                old(self)@.text,
                old(self)@.cursor,
            ).len() == 0),
            ({
                let toks = lex_from(old(self)@.text, old(self)@.cursor);
                if toks.len() == 0 {
                    lex_from(final(self)@.text, final(self)@.cursor).len() == 0
                } else {
                    t@ == toks[0] && lex_from(final(self)@.text, final(self)@.cursor)
                        == toks.drop_first()
                }
            }),
    {
        let ghost t0 = self@.text;
        let ghost c0 = self@.cursor;
        self.skip_whitespace();
        let n = self.text.as_str().unicode_len();
        if self.cursor >= n {
            return Token { token_type: TokenType::EndOfInput, lexeme: String::from_str("EOF") };
        }
        let ghost p = self@.cursor;
        proof {
            lemma_digit_run_bound(t0, p + 1);
            assert(p + token_len_at(t0, p) <= t0.len());
            assert(lex_from(t0, c0) == seq![token_at(t0, p)] + lex_from(
                t0,
                p + token_len_at(t0, p),
            ));
            assert((seq![token_at(t0, p)] + lex_from(t0, p + token_len_at(t0, p))).drop_first()
                =~= lex_from(t0, p + token_len_at(t0, p)));
        }
        let c = self.current();
        if c == 'L' || c == 'd' {
            let kind = if c == 'L' {
                TokenType::DataPoint
            } else {
                TokenType::Definition
            };
            self.cursor = self.cursor + 1;
            let number = self.lex_number();
            let lexeme = if c == 'L' {
                String::from_str("L").concat(number.as_str())
            } else {
                String::from_str("d").concat(number.as_str())
            };
            proof {
                reveal_strlit("L");
                reveal_strlit("d");
                assert(lexeme@ =~= t0.subrange(p, p + token_len_at(t0, p)));
            }
            Token { token_type: kind, lexeme }
        } else {
            let kind = if c == '\n' || c == ';' {
                TokenType::NewLine
            } else if c == '{' {
                TokenType::SetOpen
            } else if c == '}' {
                TokenType::SetClose
            } else if c == '=' {
                TokenType::Equals
            } else if c == 'U' {
                TokenType::Union
            } else if c == '\\' {
                TokenType::SetDifference
            } else if c == ',' {
                TokenType::Comma
            } else {
                TokenType::Unknown
            };
            let lexeme = self.text.as_str().substring_char(self.cursor, self.cursor + 1).to_owned();
            self.cursor = self.cursor + 1;
            proof {
                assert(lexeme@ =~= t0.subrange(p, p + token_len_at(t0, p)));
            }
            Token { token_type: kind, lexeme }
        }
    }

    /// Tokenize the whole remaining text.  No `EndOfInput` marker is
    /// appended: the result is exactly the token sequence the text denotes.
    pub fn lex_all(&mut self) -> (tokens: Vec<Token>)
        requires
            old(self).wf(),
        ensures
            final(self).wf(),
            final(self)@.text == old(self)@.text,
            tokens_view(tokens@) == lex_from(old(self)@.text, old(self)@.cursor),
    {
        let ghost t = self@.text;
        let ghost c0 = self@.cursor;
        let mut tokens: Vec<Token> = Vec::new();
        let n = self.text.as_str().unicode_len();
        loop
            invariant
                self.wf(),
                self@.text == t,
                n == t.len(),
                tokens_view(tokens@) + lex_from(t, self@.cursor) == lex_from(t, c0),
            ensures
                self.wf(),
                self@.text == t,
                tokens_view(tokens@) == lex_from(t, c0),
            decreases lex_from(t, self@.cursor).len(),
        {
            if self.cursor >= n {
                proof {
                    assert(tokens_view(tokens@) + lex_from(t, self@.cursor) =~= tokens_view(
                        tokens@,
                    ));
                }
                break ;
            }
            let ghost before = self@.cursor;
            let tok = self.lex();
            if tok.token_type == TokenType::EndOfInput {
                proof {
                    assert(tokens_view(tokens@) + lex_from(t, before) =~= tokens_view(tokens@));
                }
                break ;
            }
            proof {
                let toks = lex_from(t, before);
                assert(tokens_view(tokens@.push(tok)) =~= tokens_view(tokens@).push(tok@));
                assert(tokens_view(tokens@).push(tok@) + toks.drop_first() =~= tokens_view(
                    tokens@,
                ) + toks);
            }
            tokens.push(tok);
        }
        tokens
    }
}

} // verus!

