use vstd::prelude::*;

verus! {

/// The operators that the lexer recognizes.
#[allow(non_camel_case_types)]
#[derive(Debug, Copy, Clone, PartialEq, Eq, Hash, Structural)]
pub enum OperatorType {
    AND,
    NOT,
    OR,
    CNDL,
    BI_CNDL,
}

/// The kind of a token.
#[derive(Copy, Clone, Debug, PartialEq, Eq, Structural)]
pub enum TokenType {
    Operator(OperatorType),
    Variable,
    Literal(bool),
    LeftParen,
    RightParen,
    LeftBrace,
    RightBrace,
    Error,
    EOF,
}

/// A token: the text it was read from and its kind.
#[derive(Copy, Clone, Debug)]
pub struct Token<'a> {
    pub lexeme: &'a str,
    pub token_type: TokenType,
}

impl<'a> View for Token<'a> {
    type V = (Seq<char>, TokenType);

    open spec fn view(&self) -> (Seq<char>, TokenType) {
        (self.lexeme@, self.token_type)
    }
}

/// The text of the end-of-input token.
pub open spec fn eof_lexeme() -> Seq<char> {
    seq!['<', 'E', 'O', 'F', '>']
}

/// Builds the end-of-input token.
pub fn eof_token() -> (r: Token<'static>)
    ensures
        r@ == (eof_lexeme(), TokenType::EOF),
{
    let t = Token { lexeme: "<EOF>", token_type: TokenType::EOF };
    proof {
        reveal_strlit("<EOF>");
        assert(t.lexeme@ =~= eof_lexeme());
    }
    t
}

/// The tokens in a sequence, as (text, kind) pairs.
pub open spec fn token_views<'a>(ts: Seq<Token<'a>>) -> Seq<(Seq<char>, TokenType)> {
    ts.map_values(|t: Token<'a>| t@)
}

pub open spec fn is_space(c: char) -> bool {
    c == ' ' || c == '\t' || c == '\n'
}

pub open spec fn is_alpha(c: char) -> bool {
    ('a' <= c && c <= 'z') || ('A' <= c && c <= 'Z')
}

pub open spec fn is_alnum(c: char) -> bool {
    is_alpha(c) || ('0' <= c && c <= '9')
}

/// `a` is the upper-case form of the lower-case ASCII letter `b`.
pub open spec fn is_upper_of(a: char, b: char) -> bool {
    'A' <= a && a <= 'Z' && (a as int) + 32 == (b as int)
}

/// `w` spells the lower-case word `lower`, ignoring ASCII case.
pub open spec fn matches_ignore_case(w: Seq<char>, lower: Seq<char>) -> bool {
    w.len() == lower.len() && forall|i: int|
        0 <= i < w.len() ==> (w[i] == lower[i] || is_upper_of(w[i], lower[i]))
}

/// The kind of an identifier: a keyword operator (case-sensitive), a literal
/// (case-insensitive) or a variable.
pub open spec fn word_kind(w: Seq<char>) -> TokenType {
    if w == seq!['a', 'n', 'd'] {
        TokenType::Operator(OperatorType::AND)
    } else if w == seq!['o', 'r'] {
        TokenType::Operator(OperatorType::OR)
    } else if w == seq!['n', 'o', 't'] {
        TokenType::Operator(OperatorType::NOT)
    } else if matches_ignore_case(w, seq!['t', 'r', 'u', 'e']) || matches_ignore_case(w, seq!['t']) {
        TokenType::Literal(true)
    } else if matches_ignore_case(w, seq!['f', 'a', 'l', 's', 'e']) || matches_ignore_case(
        w,
        seq!['f'],
    ) {
        TokenType::Literal(false)
    } else {
        TokenType::Variable
    }
}

/// The end of the run of letters and digits that starts at `j`.
pub open spec fn word_end(s: Seq<char>, j: int) -> int
    decreases s.len() - j,
{
    if 0 <= j < s.len() && is_alnum(s[j]) {
        word_end(s, j + 1)
    } else {
        j
    }
}

proof fn lemma_word_end(s: Seq<char>, j: int)
    requires
        0 <= j,
    ensures
        j <= word_end(s, j),
        j <= s.len() ==> word_end(s, j) <= s.len(),
    decreases s.len() - j,
{
    if 0 <= j < s.len() && is_alnum(s[j]) {
        lemma_word_end(s, j + 1);
    }
}

/// A single-character token kind, for the characters that stand alone.
pub open spec fn single_kind(c: char) -> Option<TokenType> {
    if c == '&' {
        Some(TokenType::Operator(OperatorType::AND))
    } else if c == '|' {
        Some(TokenType::Operator(OperatorType::OR))
    } else if c == '!' || c == '~' {
        Some(TokenType::Operator(OperatorType::NOT))
    } else if c == '(' {
        Some(TokenType::LeftParen)
    } else if c == ')' {
        Some(TokenType::RightParen)
    } else if c == '{' {
        Some(TokenType::LeftBrace)
    } else if c == '}' {
        Some(TokenType::RightBrace)
    } else {
        None
    }
}

/// An error token for `lexeme`, after which scanning stops.
pub open spec fn error_end(lexeme: Seq<char>) -> Seq<(Seq<char>, TokenType)> {
    seq![(lexeme, TokenType::Error), (eof_lexeme(), TokenType::EOF)]
}

/// The tokens of `s` from position `i` on, ending with the end-of-input token.
pub open spec fn lex_from(s: Seq<char>, i: int) -> Seq<(Seq<char>, TokenType)>
    decreases s.len() - i,
    via lex_from_decreases
{
    if i < 0 || i >= s.len() {
        seq![(eof_lexeme(), TokenType::EOF)]
    } else {
        let c = s[i];
        if is_space(c) {
            lex_from(s, i + 1)
        } else if single_kind(c) is Some {
            seq![(s.subrange(i, i + 1), single_kind(c)->Some_0)] + lex_from(s, i + 1)
        } else if c == '=' {
            if i + 1 < s.len() && s[i + 1] == '>' {
                seq![(s.subrange(i, i + 2), TokenType::Operator(OperatorType::CNDL))] + lex_from(
                    s,
                    i + 2,
                )
            } else {
                error_end(s.subrange(i, i + 1))
            }
        } else if c == '<' {
            if i + 2 < s.len() && s[i + 1] == '=' && s[i + 2] == '>' {
                seq![(s.subrange(i, i + 3), TokenType::Operator(OperatorType::BI_CNDL))]
                    + lex_from(s, i + 3)
            } else if i + 1 < s.len() && s[i + 1] == '=' {
                error_end(s.subrange(i, i + 2))
            } else {
                error_end(s.subrange(i, i + 1))
            }
        } else if is_alpha(c) {
            let e = word_end(s, i + 1);
            seq![(s.subrange(i, e), word_kind(s.subrange(i, e)))] + lex_from(s, e)
        } else {
            error_end(s.subrange(i, i + 1))
        }
    }
}

#[via_fn]
proof fn lex_from_decreases(s: Seq<char>, i: int) {
    if 0 <= i < s.len() {
        lemma_word_end(s, i + 1);
    }
}

/// The tokens of `s`.
pub open spec fn lex(s: Seq<char>) -> Seq<(Seq<char>, TokenType)> {
    lex_from(s, 0)
}

/// Scanning position over a statement: `start` opens the current token, `next_unobserved`
/// is the first character not yet read.
pub struct ScanState<'a> {
    source: &'a str,
    input_length: usize,
    start: usize,
    next_unobserved: usize,
}

impl<'a> ScanState<'a> {
    spec fn wf(&self) -> bool {
        &&& self.input_length == self.source@.len()
        &&& self.start <= self.next_unobserved <= self.input_length
    }

    fn init_from(stmt: &'a str) -> (r: ScanState<'a>)
        ensures
            r.wf(),
            r.source@ == stmt@,
            r.start == 0,
            r.next_unobserved == 0,
    {
        ScanState { source: stmt, input_length: stmt.unicode_len(), start: 0, next_unobserved: 0 }
    }

    fn is_at_end(&self) -> (r: bool)
        ensures
            r == (self.next_unobserved == self.input_length),
    {
        self.next_unobserved == self.input_length
    }

    fn peek(&self) -> (r: char)
        requires
            self.wf(),
            self.next_unobserved < self.input_length,
        ensures
            r == self.source@[self.next_unobserved as int],
    {
        self.source.get_char(self.next_unobserved)
    }

    fn move_forward(&mut self) -> (r: char)
        requires
            old(self).wf(),
            old(self).next_unobserved < old(self).input_length,
        ensures
            final(self).wf(),
            r == old(self).source@[old(self).next_unobserved as int],
            final(self).next_unobserved == old(self).next_unobserved + 1,
            final(self).source == old(self).source,
            final(self).start == old(self).start,
    {
        let ch = self.peek();
        self.next_unobserved = self.next_unobserved + 1;
        ch
    }

    fn move_if_match(&mut self, target: char) -> (r: bool)
        requires
            old(self).wf(),
        ensures
            final(self).wf(),
            r == (old(self).next_unobserved < old(self).input_length && old(self).source@[old(
                self,
            ).next_unobserved as int] == target),
            final(self).next_unobserved == old(self).next_unobserved + if r {
                1int
            } else {
                0
            },
            final(self).source == old(self).source,
            final(self).start == old(self).start,
    {
        if self.is_at_end() {
            return false;
        }
        if self.peek() != target {
            return false;
        }
        self.move_forward();
        true
    }

    fn make_token(&self, token_type: TokenType) -> (r: Token<'a>)
        requires
            self.wf(),
        ensures
            r@ == (self.source@.subrange(self.start as int, self.next_unobserved as int), token_type),
    {
        Token {
            lexeme: self.source.substring_char(self.start, self.next_unobserved),
            token_type,
        }
    }
}

fn is_ascii_alpha(c: char) -> (r: bool)
    ensures
        r == is_alpha(c),
{
    ('a' <= c && c <= 'z') || ('A' <= c && c <= 'Z')
}

fn is_ascii_alnum(c: char) -> (r: bool)
    ensures
        r == is_alnum(c),
{
    is_ascii_alpha(c) || ('0' <= c && c <= '9')
}

/// Compares `w` with the lower-case word `lower`, ignoring ASCII case in `w` when `fold` holds.
fn text_matches(w: &str, lower: &str, fold: bool) -> (r: bool)
    ensures
        r == if fold {
            matches_ignore_case(w@, lower@)
        } else {
            w@ == lower@
        },
{
    let n = w.unicode_len();
    if n != lower.unicode_len() {
        return false;
    }
    let mut i: usize = 0;
    while i < n
        invariant
            n == w@.len() == lower@.len(),
            i <= n,
            forall|j: int|
                0 <= j < i ==> (w@[j] == lower@[j] || (fold && is_upper_of(w@[j], lower@[j]))),
        decreases n - i,
    {
        let a = w.get_char(i);
        let b = lower.get_char(i);
        let same = a == b || (fold && ('A' <= a && a <= 'Z') && (a as u32) + 32 == (b as u32));
        if !same {
            return false;
        }
        i = i + 1;
    }
    proof {
        if !fold {
            assert(w@ =~= lower@);
        }
    }
    true
}

fn classify_word(w: &str) -> (r: TokenType)
    ensures
        r == word_kind(w@),
{
    proof {
        reveal_strlit("and");
        reveal_strlit("or");
        reveal_strlit("not");
        reveal_strlit("true");
        reveal_strlit("t");
        reveal_strlit("false");
        reveal_strlit("f");
        assert("and"@ =~= seq!['a', 'n', 'd']);
        assert("or"@ =~= seq!['o', 'r']);
        assert("not"@ =~= seq!['n', 'o', 't']);
        assert("true"@ =~= seq!['t', 'r', 'u', 'e']);
        assert("t"@ =~= seq!['t']);
        assert("false"@ =~= seq!['f', 'a', 'l', 's', 'e']);
        assert("f"@ =~= seq!['f']);
    }
    if text_matches(w, "and", false) {
        TokenType::Operator(OperatorType::AND)
    } else if text_matches(w, "or", false) {
        TokenType::Operator(OperatorType::OR)
    } else if text_matches(w, "not", false) {
        TokenType::Operator(OperatorType::NOT)
    } else if text_matches(w, "true", true) || text_matches(w, "t", true) {
        TokenType::Literal(true)
    } else if text_matches(w, "false", true) || text_matches(w, "f", true) {
        TokenType::Literal(false)
    } else {
        TokenType::Variable
    }
}

fn single_char_kind(c: char) -> (r: Option<TokenType>)
    ensures
        r == single_kind(c),
{
    if c == '&' {
        Some(TokenType::Operator(OperatorType::AND))
    } else if c == '|' {
        Some(TokenType::Operator(OperatorType::OR))
    } else if c == '!' || c == '~' {
        Some(TokenType::Operator(OperatorType::NOT))
    } else if c == '(' {
        Some(TokenType::LeftParen)
    } else if c == ')' {
        Some(TokenType::RightParen)
    } else if c == '{' {
        Some(TokenType::LeftBrace)
    } else if c == '}' {
        Some(TokenType::RightBrace)
    } else {
        None
    }
}

/// Ends the token list with an error token for the current lexeme and the end-of-input token.
fn finish_with_error<'a>(tokens: Vec<Token<'a>>, state: &ScanState<'a>) -> (r: Vec<Token<'a>>)
    requires
        state.wf(),
    ensures
        token_views(r@) == token_views(tokens@) + error_end(
            state.source@.subrange(state.start as int, state.next_unobserved as int),
        ),
{
    let mut tokens = tokens;
    let ghost before = token_views(tokens@);
    tokens.push(state.make_token(TokenType::Error));
    tokens.push(eof_token());
    proof {
        assert(token_views(tokens@) =~= before + error_end(
            state.source@.subrange(state.start as int, state.next_unobserved as int),
        ));
    }
    tokens
}

/// Splits a statement into tokens, ending with the end-of-input token; scanning stops
/// after the first malformed character, which becomes an error token.
pub fn tokenize<'a>(stmt: &'a str) -> (r: Vec<Token<'a>>)
    ensures
        token_views(r@) == lex(stmt@),
{
    let mut state = ScanState::init_from(stmt);
    let mut tokens: Vec<Token<'a>> = Vec::new();
    proof {
        assert(token_views(tokens@) + lex(stmt@) =~= lex(stmt@));
    }
    while !state.is_at_end()
        invariant
            state.wf(),
            state.source@ == stmt@,
            state.start == state.next_unobserved,
            token_views(tokens@) + lex_from(stmt@, state.start as int) == lex(stmt@),
        decreases state.input_length - state.next_unobserved,
    {
        let ghost i = state.start as int;
        let ghost before = token_views(tokens@);
        let ch = state.move_forward();
        if ch == ' ' || ch == '\t' || ch == '\n' {
        } else if let Some(kind) = single_char_kind(ch) {
            tokens.push(state.make_token(kind));
            proof {
                assert(token_views(tokens@) =~= before.push((stmt@.subrange(i, i + 1), kind)));
            }
        } else if ch == '=' {
            if state.move_if_match('>') {
                tokens.push(state.make_token(TokenType::Operator(OperatorType::CNDL)));
                proof {
                    assert(token_views(tokens@) =~= before.push(
                        (stmt@.subrange(i, i + 2), TokenType::Operator(OperatorType::CNDL)),
                    ));
                }
            } else {
                return finish_with_error(tokens, &state);
            }
        } else if ch == '<' {
            if state.move_if_match('=') && state.move_if_match('>') {
                tokens.push(state.make_token(TokenType::Operator(OperatorType::BI_CNDL)));
                proof {
                    assert(token_views(tokens@) =~= before.push(
                        (stmt@.subrange(i, i + 3), TokenType::Operator(OperatorType::BI_CNDL)),
                    ));
                }
            } else {
                return finish_with_error(tokens, &state);
            }
        } else if is_ascii_alpha(ch) {
            while !state.is_at_end() && is_ascii_alnum(state.peek())
                invariant
                    state.wf(),
                    state.source@ == stmt@,
                    state.start == i,
                    i < state.next_unobserved,
                    word_end(stmt@, i + 1) == word_end(stmt@, state.next_unobserved as int),
                decreases state.input_length - state.next_unobserved,
            {
                state.move_forward();
            }
            let token = state.make_token(TokenType::Variable);
            let kind = classify_word(token.lexeme);
            tokens.push(Token { lexeme: token.lexeme, token_type: kind });
            proof {
                let e = state.next_unobserved as int;
                assert(token_views(tokens@) =~= before.push(
                    (stmt@.subrange(i, e), word_kind(stmt@.subrange(i, e))),
                ));
            }
        } else {
            return finish_with_error(tokens, &state);
        }
        state.start = state.next_unobserved;
        proof {
            assert(token_views(tokens@) + lex_from(stmt@, state.start as int) =~= lex(stmt@));
        }
    }
    tokens.push(eof_token());
    proof {
        assert(token_views(tokens@) =~= lex(stmt@));
    }
    tokens
}

/// Every token has text.
pub open spec fn lexemes_nonempty(ts: Seq<(Seq<char>, TokenType)>) -> bool {
    forall|j: int| 0 <= j < ts.len() ==> (#[trigger] ts[j]).0.len() > 0
}

proof fn lemma_cons_nonempty(x: (Seq<char>, TokenType), rest: Seq<(Seq<char>, TokenType)>)
    requires
        x.0.len() > 0,
        lexemes_nonempty(rest),
    ensures
        lexemes_nonempty(seq![x] + rest),
{
    let all = seq![x] + rest;
    assert forall|j: int| 0 <= j < all.len() implies (#[trigger] all[j]).0.len() > 0 by {
        if j > 0 {
            assert(all[j] == rest[j - 1]);
        }
    }
}

proof fn lemma_lex_from_nonempty(s: Seq<char>, i: int)
    requires
        0 <= i,
    ensures
        lexemes_nonempty(lex_from(s, i)),
    decreases s.len() - i,
{
    if i < s.len() {
        let c = s[i];
        if is_space(c) {
            lemma_lex_from_nonempty(s, i + 1);
        } else if single_kind(c) is Some {
            lemma_lex_from_nonempty(s, i + 1);
            lemma_cons_nonempty((s.subrange(i, i + 1), single_kind(c)->Some_0), lex_from(s, i + 1));
        } else if c == '=' && i + 1 < s.len() && s[i + 1] == '>' {
            lemma_lex_from_nonempty(s, i + 2);
            lemma_cons_nonempty(
                (s.subrange(i, i + 2), TokenType::Operator(OperatorType::CNDL)),
                lex_from(s, i + 2),
            );
        } else if c == '<' && i + 2 < s.len() && s[i + 1] == '=' && s[i + 2] == '>' {
            lemma_lex_from_nonempty(s, i + 3);
            lemma_cons_nonempty(
                (s.subrange(i, i + 3), TokenType::Operator(OperatorType::BI_CNDL)),
                lex_from(s, i + 3),
            );
        } else if is_alpha(c) && c != '=' && c != '<' {
            let e = word_end(s, i + 1);
            lemma_word_end(s, i + 1);
            lemma_lex_from_nonempty(s, e);
            lemma_cons_nonempty((s.subrange(i, e), word_kind(s.subrange(i, e))), lex_from(s, e));
        }
    }
}

/// Every token of a statement has text.
pub proof fn lemma_lexemes_nonempty(s: Seq<char>)
    ensures
        lexemes_nonempty(lex(s)),
{
    lemma_lex_from_nonempty(s, 0);
}

/// `s` holds nothing but spaces, tabs and newlines from position `i` on.
pub open spec fn blank_from(s: Seq<char>, i: int) -> bool {
    forall|j: int| i <= j < s.len() ==> is_space(#[trigger] s[j])
}

proof fn lemma_lex_from_len(s: Seq<char>, i: int)
    requires
        0 <= i,
    ensures
        lex_from(s, i).len() >= 1,
        (lex_from(s, i).len() == 1) == blank_from(s, i),
    decreases s.len() - i,
{
    if i < s.len() {
        let c = s[i];
        if is_space(c) {
            lemma_lex_from_len(s, i + 1);
            if blank_from(s, i + 1) {
                assert(blank_from(s, i));
            }
        } else {
            assert(!blank_from(s, i));
            if single_kind(c) is Some {
                lemma_lex_from_len(s, i + 1);
            } else if c == '=' && i + 1 < s.len() && s[i + 1] == '>' {
                lemma_lex_from_len(s, i + 2);
            } else if c == '<' && i + 2 < s.len() && s[i + 1] == '=' && s[i + 2] == '>' {
                lemma_lex_from_len(s, i + 3);
            } else if is_alpha(c) && c != '=' && c != '<' {
                lemma_word_end(s, i + 1);
                lemma_lex_from_len(s, word_end(s, i + 1));
            }
        }
    }
}

/// A statement gives nothing but the end-of-input token exactly when it is blank: empty, or
/// only spaces, tabs and newlines.
pub proof fn lemma_only_eof_iff_blank(s: Seq<char>)
    ensures
        (lex(s).len() == 1) == blank_from(s, 0),
{
    lemma_lex_from_len(s, 0);
}

} // verus!
