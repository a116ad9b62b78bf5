//! Tokens and the scanner that produces them.
use crate::chars::{
    alphabetic, byte_offset, decode, is_alpha, is_num, is_space, is_white_space, numeric, slice,
    slice_rest,
};
use crate::model::{
    close_delim_at, count_dots, expr_step, has_invalid, is_operator, lemma_numeral_extend,
    lemma_step_advances, lemma_text_end, lemma_tokens_unfold, lex, name_end, numeral_end,
    open_delim_at, reachable, space_end, step, text_end, tokens_from, Lexeme, Mode,
};
use vstd::prelude::*;

verus! {

broadcast use vstd::string::to_string_from_display_ensures_for_str;

/// The kinds of token handed to a parser.
#[derive(PartialEq, Eq, Structural, Clone, Copy, Debug)]
pub enum TokenType {
    /// Literal text outside expressions.
    Text,
    /// A run of whitespace inside an expression.
    Space,
    /// `{{`
    VariableStart,
    /// `}}`
    VariableEnd,
    /// An identifier.
    Variable,
    Int,
    Float,
    /// One of `* + - / .`
    Operator,
    /// A malformed piece of an expression; the text is a diagnostic.
    Error,
}

/// A token: its kind and the text it carries.
#[derive(PartialEq, Debug)]
pub struct Token {
    kind: TokenType,
    value: String,
}

impl View for Token {
    type V = Lexeme;

    closed spec fn view(&self) -> Lexeme {
        (self.kind, self.value@)
    }
}

impl Token {
    pub fn new(kind: TokenType, value: &str) -> (r: Token)
        ensures
            r@ == (kind, value@),
    {
        Token { kind: kind, value: value.to_string() }
    }

    pub fn kind(&self) -> (r: TokenType)
        ensures
            r == self@.0,
    {
        self.kind
    }

    pub fn value(&self) -> (r: &str)
        ensures
            r@ == self@.1,
    {
        self.value.as_str()
    }
}

/// Scans one text, one token at a time, from the start to the end.
pub struct Scanner {
    input: String,
    /// Each character of `input` with the byte offset where it starts.
    chars: Vec<(usize, char)>,
    /// Position in `chars`: the next character to scan.
    index: usize,
    state: Mode,
}

impl View for Scanner {
    type V = (Seq<char>, int, Mode);

    closed spec fn view(&self) -> (Seq<char>, int, Mode) {
        (self.input@, self.index as int, self.state)
    }
}

impl Scanner {
    /// The decoded characters match the text, and the state is one that
    /// scanning the text can reach.
    pub closed spec fn wf(&self) -> bool {
        &&& self.chars@.len() == self.input@.len()
        &&& forall|k: int|
            0 <= k < self.chars@.len() ==> (#[trigger] self.chars@[k]).0 as nat == byte_offset(
                self.input@,
                k,
            ) && self.chars@[k].1 == self.input@[k]
        &&& self.chars@.len() <= usize::MAX
        &&& reachable(self.input@, self.index as int, self.state)
    }

    pub fn new(input: &str) -> (r: Scanner)
        ensures
            r.wf(),
            r@ == (input@, 0int, Mode::InText),
    {
        let chars = decode(input);
        let count = chars.len();
        assert(chars@.len() == count);
        Scanner { input: input.to_string(), chars: chars, index: 0, state: Mode::InText }
    }

    spec fn same_text(&self, other: &Scanner) -> bool {
        self.input@ == other.input@ && self.chars@ == other.chars@
    }

    /// The characters from `i` to `j`.
    fn text_between(&self, i: usize, j: usize) -> (r: String)
        requires
            self.wf(),
            i <= j <= self.chars@.len(),
        ensures
            r@ == self.input@.subrange(i as int, j as int),
    {
        if i == self.chars.len() {
            return String::new();
        }
        let start = self.chars[i].0;
        if j == self.chars.len() {
            assert(byte_offset(self.input@, i as int) == start);
            slice_rest(self.input.as_str(), start)
        } else {
            let end = self.chars[j].0;
            assert(byte_offset(self.input@, i as int) == start && byte_offset(self.input@, j as int)
                == end);
            slice(self.input.as_str(), start, end)
        }
    }

    fn char_at(&self, i: usize) -> (r: char)
        requires
            self.wf(),
            i < self.chars@.len(),
        ensures
            r == self.input@[i as int],
    {
        self.chars[i].1
    }

    fn open_delim(&self, i: usize) -> (r: bool)
        requires
            self.wf(),
            i <= self.chars@.len(),
        ensures
            r == open_delim_at(self.input@, i as int),
    {
        i < self.chars.len() && i + 1 < self.chars.len() && self.char_at(i) == '{'
            && self.char_at(i + 1) == '{'
    }

    fn close_delim(&self, i: usize) -> (r: bool)
        requires
            self.wf(),
            i <= self.chars@.len(),
        ensures
            r == close_delim_at(self.input@, i as int),
    {
        i < self.chars.len() && i + 1 < self.chars.len() && self.char_at(i) == '}'
            && self.char_at(i + 1) == '}'
    }

    /// At `{{`: consume it and enter the expression.
    fn lex_left_variable_delimiter(&mut self) -> (r: Token)
        requires
            old(self).wf(),
            open_delim_at(old(self)@.0, old(self)@.1),
        ensures
            final(self).wf(),
            final(self).same_text(old(self)),
            r@ == (TokenType::VariableStart, seq!['{', '{']),
            final(self)@.1 == old(self)@.1 + 2,
            final(self)@.2 == Mode::InsideExpr,
    {
        proof {
            reveal_strlit("{{");
        }
        self.index = self.index + 2;
        self.state = Mode::InsideExpr;
        Token::new(TokenType::VariableStart, "{{")
    }

    /// At `}}`: consume it and go back to text.
    fn lex_right_variable_delimiter(&mut self) -> (r: Token)
        requires
            old(self).wf(),
            close_delim_at(old(self)@.0, old(self)@.1),
        ensures
            final(self).wf(),
            final(self).same_text(old(self)),
            r@ == (TokenType::VariableEnd, seq!['}', '}']),
            final(self)@.1 == old(self)@.1 + 2,
            final(self)@.2 == Mode::InText,
    {
        proof {
            reveal_strlit("}}");
        }
        self.index = self.index + 2;
        self.state = Mode::InText;
        Token::new(TokenType::VariableEnd, "}}")
    }

    /// In text: a text run up to the next `{{` or the end, or the `{{` itself
    /// when the run would be empty.
    fn lex_text(&mut self) -> (r: Token)
        requires
            old(self).wf(),
            old(self)@.2 == Mode::InText,
            old(self)@.1 < old(self)@.0.len(),
        ensures
            final(self).wf(),
            final(self).same_text(old(self)),
            step(old(self)@.0, old(self)@.1, old(self)@.2) == Some(
                (r@, final(self)@.1, final(self)@.2),
            ),
    {
        let start = self.index;
        let mut i = start;
        while i < self.chars.len() && !self.open_delim(i)
            invariant
                self.wf(),
                start <= i <= self.chars@.len(),
                text_end(self.input@, start as int) == text_end(self.input@, i as int),
            decreases self.chars@.len() - i,
        {
            i = i + 1;
        }
        proof {
            lemma_text_end(self.input@, start as int);
        }
        if i == start {
            return self.lex_left_variable_delimiter();
        }
        let text = self.text_between(start, i);
        self.index = i;
        self.state = if i < self.chars.len() {
            Mode::AtExprStart
        } else {
            Mode::InText
        };
        Token { kind: TokenType::Text, value: text }
    }

    /// At whitespace: the whole run of it.
    fn lex_space(&mut self) -> (r: Token)
        requires
            old(self).wf(),
            old(self)@.2 == Mode::InsideExpr,
            old(self)@.1 < old(self)@.0.len(),
            is_white_space(old(self)@.0[old(self)@.1]),
        ensures
            final(self).wf(),
            final(self).same_text(old(self)),
            expr_step(old(self)@.0, old(self)@.1) == (r@, final(self)@.1, final(self)@.2),
    {
        let start = self.index;
        let mut i = start + 1;
        while i < self.chars.len() && is_space(self.char_at(i))
            invariant
                self.wf(),
                start < i <= self.chars@.len(),
                space_end(self.input@, start + 1) == space_end(self.input@, i as int),
            decreases self.chars@.len() - i,
        {
            i = i + 1;
        }
        let text = self.text_between(start, i);
        self.index = i;
        Token { kind: TokenType::Space, value: text }
    }

    /// At a letter or `_`: an identifier, up to a `.`, whitespace or the end.
    fn lex_variable(&mut self) -> (r: Token)
        requires
            old(self).wf(),
            old(self)@.2 == Mode::InsideExpr,
            old(self)@.1 < old(self)@.0.len(),
            !is_white_space(old(self)@.0[old(self)@.1]),
            !close_delim_at(old(self)@.0, old(self)@.1),
            !is_operator(old(self)@.0[old(self)@.1]),
            alphabetic(old(self)@.0[old(self)@.1]) || old(self)@.0[old(self)@.1] == '_',
        ensures
            final(self).wf(),
            final(self).same_text(old(self)),
            expr_step(old(self)@.0, old(self)@.1) == (r@, final(self)@.1, final(self)@.2),
    {
        let start = self.index;
        let mut i = start + 1;
        while i < self.chars.len() && self.char_at(i) != '.' && !is_space(self.char_at(i))
            invariant
                self.wf(),
                start < i <= self.chars@.len(),
                name_end(self.input@, start + 1) == name_end(self.input@, i as int),
            decreases self.chars@.len() - i,
        {
            i = i + 1;
        }
        let text = self.text_between(start, i);
        self.index = i;
        Token { kind: TokenType::Variable, value: text }
    }

    /// At a numeric character: a numeral, up to whitespace, `}` or the end,
    /// classified as an integer, a float or an error.
    fn lex_number(&mut self) -> (r: Token)
        requires
            old(self).wf(),
            old(self)@.2 == Mode::InsideExpr,
            old(self)@.1 < old(self)@.0.len(),
            !is_white_space(old(self)@.0[old(self)@.1]),
            !close_delim_at(old(self)@.0, old(self)@.1),
            !is_operator(old(self)@.0[old(self)@.1]),
            !(alphabetic(old(self)@.0[old(self)@.1]) || old(self)@.0[old(self)@.1] == '_'),
            numeric(old(self)@.0[old(self)@.1]),
        ensures
            final(self).wf(),
            final(self).same_text(old(self)),
            expr_step(old(self)@.0, old(self)@.1) == (r@, final(self)@.1, final(self)@.2),
    {
        let ghost s = self.input@;
        let start = self.index;
        let mut i = start + 1;
        let mut seen_dot = false;
        let mut two_dots = false;
        let mut invalid = false;
        proof {
            lemma_numeral_extend(s, start as int, start as int);
            assert(s.subrange(start as int, start as int) =~= Seq::<char>::empty());
        }
        while i < self.chars.len() && self.char_at(i) != '}' && !is_space(self.char_at(i))
            invariant
                self.wf(),
                s == self.input@,
                start < i <= self.chars@.len(),
                numeral_end(s, start + 1) == numeral_end(s, i as int),
                seen_dot == (count_dots(s.subrange(start as int, i as int)) >= 1),
                two_dots == (count_dots(s.subrange(start as int, i as int)) >= 2),
                invalid == has_invalid(s.subrange(start as int, i as int)),
            decreases self.chars@.len() - i,
        {
            let c = self.char_at(i);
            proof {
                lemma_numeral_extend(s, start as int, i as int);
            }
            if c == '.' {
                if seen_dot {
                    two_dots = true;
                } else {
                    seen_dot = true;
                }
            }
            if !is_num(c) && c != '.' {
                invalid = true;
            }
            i = i + 1;
        }
        self.index = i;
        if invalid {
            Token::new(TokenType::Error, "invalid character in numeral")
        } else if two_dots {
            Token::new(TokenType::Error, "multiple decimal points in numeral")
        } else {
            let text = self.text_between(start, i);
            let kind = if seen_dot {
                TokenType::Float
            } else {
                TokenType::Int
            };
            Token { kind: kind, value: text }
        }
    }

    /// At one of `* + - / .`: that character alone.
    fn lex_operator(&mut self) -> (r: Token)
        requires
            old(self).wf(),
            old(self)@.2 == Mode::InsideExpr,
            old(self)@.1 < old(self)@.0.len(),
            !is_white_space(old(self)@.0[old(self)@.1]),
            !close_delim_at(old(self)@.0, old(self)@.1),
            is_operator(old(self)@.0[old(self)@.1]),
        ensures
            final(self).wf(),
            final(self).same_text(old(self)),
            expr_step(old(self)@.0, old(self)@.1) == (r@, final(self)@.1, final(self)@.2),
    {
        let start = self.index;
        let text = self.text_between(start, start + 1);
        assert(text@ =~= seq![self.input@[start as int]]);
        self.index = start + 1;
        self.state = Mode::InsideExpr;
        Token { kind: TokenType::Operator, value: text }
    }

    /// Inside an expression: dispatch on the character at the cursor. One that
    /// no class takes is consumed and reported as an error. No operator
    /// character nor `}` is alphabetic or numeric, so testing those first
    /// keeps each class apart.
    fn lex_inside_variable_block(&mut self) -> (r: Token)
        requires
            old(self).wf(),
            old(self)@.2 == Mode::InsideExpr,
            old(self)@.1 < old(self)@.0.len(),
        ensures
            final(self).wf(),
            final(self).same_text(old(self)),
            expr_step(old(self)@.0, old(self)@.1) == (r@, final(self)@.1, final(self)@.2),
    {
        let c = self.char_at(self.index);
        if is_space(c) {
            self.lex_space()
        } else if self.close_delim(self.index) {
            self.lex_right_variable_delimiter()
        } else if c == '*' || c == '+' || c == '-' || c == '/' || c == '.' {
            self.lex_operator()
        } else if is_alpha(c) || c == '_' {
            self.lex_variable()
        } else if is_num(c) {
            self.lex_number()
        } else {
                self.index = self.index + 1;
            Token::new(TokenType::Error, "unexpected character in expression")
        }
    }

    /// The next token, or `None` once the whole text is scanned.
    pub fn next(&mut self) -> (r: Option<Token>)
        requires
            old(self).wf(),
        ensures
            final(self).wf(),
            final(self)@.0 == old(self)@.0,
            match step(old(self)@.0, old(self)@.1, old(self)@.2) {
                None => r is None && final(self)@ == old(self)@,
                Some((t, p, m)) => r matches Some(tok) && tok@ == t && final(self)@.1 == p
                    && final(self)@.2 == m,
            },
    {
        if self.index >= self.chars.len() {
            return None;
        }
        match self.state {
            Mode::InText => Some(self.lex_text()),
            Mode::AtExprStart => Some(self.lex_left_variable_delimiter()),
            Mode::InsideExpr => Some(self.lex_inside_variable_block()),
        }
    }

    /// All the tokens from the cursor to the end of the text.
    pub fn collect_tokens(&mut self) -> (r: Vec<Token>)
        requires
            old(self).wf(),
        ensures
            final(self).wf(),
            final(self)@.0 == old(self)@.0,
            lexemes(r@) == tokens_from(old(self)@.0, old(self)@.1, old(self)@.2),
            step(final(self)@.0, final(self)@.1, final(self)@.2) is None,
    {
        let ghost s = self@.0;
        let ghost goal = tokens_from(self@.0, self@.1, self@.2);
        let mut out: Vec<Token> = Vec::new();
        assert(lexemes(out@) =~= Seq::<Lexeme>::empty());
        loop
            invariant
                self.wf(),
                self@.0 == s,
                s == old(self)@.0,
                goal == tokens_from(old(self)@.0, old(self)@.1, old(self)@.2),
                lexemes(out@) + tokens_from(s, self@.1, self@.2) == goal,
            decreases s.len() - self@.1,
        {
            let ghost before = self@;
            let ghost seen = out@;
            proof {
                lemma_step_advances(s, before.1, before.2);
                if before.1 < s.len() {
                    lemma_tokens_unfold(s, before.1, before.2);
                }
            }
            match self.next() {
                None => {
                    assert(tokens_from(s, before.1, before.2) =~= Seq::<Lexeme>::empty());
                    assert(lexemes(out@) + Seq::<Lexeme>::empty() =~= lexemes(out@));
                    return out;
                },
                Some(t) => {
                    out.push(t);
                    let ghost rest = tokens_from(s, self@.1, self@.2);
                    assert(lexemes(out@) =~= lexemes(seen).push(t@));
                    assert(lexemes(seen) + (seq![t@] + rest) =~= lexemes(seen).push(t@) + rest);
                },
            }
        }
    }
}

/// The views of a sequence of tokens.
pub open spec fn lexemes(ts: Seq<Token>) -> Seq<Lexeme> {
    ts.map_values(|t: Token| t@)
}

/// All the tokens of `input`.
pub fn tokenize(input: &str) -> (r: Vec<Token>)
    ensures
        lexemes(r@) == lex(input@),
{
    let mut scanner = Scanner::new(input);
    scanner.collect_tokens()
}

} // verus!
