//! The token sequence of a text, as mathematics: what one scanning step
//! produces from a position and a mode, and the whole sequence from there.
use crate::chars::{alphabetic, is_white_space, numeric};
use crate::lexer::TokenType;
use vstd::prelude::*;

verus! {

/// Where the scanner stands with respect to expressions.
#[derive(PartialEq, Eq, Structural, Clone, Copy, Debug)]
pub enum Mode {
    /// In literal text.
    InText,
    /// In front of a `{{` that ends the text run just emitted.
    AtExprStart,
    /// Between `{{` and `}}`.
    InsideExpr,
}

/// A token as a kind and the characters it carries.
pub type Lexeme = (TokenType, Seq<char>);

pub open spec fn open_delim_at(s: Seq<char>, i: int) -> bool {
    0 <= i && i + 1 < s.len() && s[i] == '{' && s[i + 1] == '{'
}

pub open spec fn close_delim_at(s: Seq<char>, i: int) -> bool {
    0 <= i && i + 1 < s.len() && s[i] == '}' && s[i + 1] == '}'
}

pub open spec fn is_operator(c: char) -> bool {
    c == '*' || c == '+' || c == '-' || c == '/' || c == '.'
}

/// The first position from `i` on where `{{` starts, or the end of `s`.
pub open spec fn text_end(s: Seq<char>, i: int) -> int
    decreases s.len() - i,
{
    if i >= s.len() || open_delim_at(s, i) {
        i
    } else {
        text_end(s, i + 1)
    }
}

/// The first position from `i` on that holds no whitespace, or the end of `s`.
pub open spec fn space_end(s: Seq<char>, i: int) -> int
    decreases s.len() - i,
{
    if i >= s.len() || !is_white_space(s[i]) {
        i
    } else {
        space_end(s, i + 1)
    }
}

/// The first position from `i` on that holds a `.` or whitespace, or the end of `s`.
pub open spec fn name_end(s: Seq<char>, i: int) -> int
    decreases s.len() - i,
{
    if i >= s.len() || s[i] == '.' || is_white_space(s[i]) {
        i
    } else {
        name_end(s, i + 1)
    }
}

/// The first position from `i` on that holds whitespace or `}`, or the end of `s`.
pub open spec fn numeral_end(s: Seq<char>, i: int) -> int
    decreases s.len() - i,
{
    if i >= s.len() || s[i] == '}' || is_white_space(s[i]) {
        i
    } else {
        numeral_end(s, i + 1)
    }
}

/// How many decimal points `t` holds.
pub open spec fn count_dots(t: Seq<char>) -> nat
    decreases t.len(),
{
    if t.len() == 0 {
        0
    } else {
        count_dots(t.drop_last()) + if t.last() == '.' {
            1nat
        } else {
            0nat
        }
    }
}

/// Whether `t` holds a character that is neither numeric nor a decimal point.
pub open spec fn has_invalid(t: Seq<char>) -> bool {
    exists|k: int| 0 <= k < t.len() && !numeric(#[trigger] t[k]) && t[k] != '.'
}

/// The token for a numeral: an error when it holds a foreign character or
/// more than one decimal point, else a float when it holds one, else an integer.
pub open spec fn numeral_token(t: Seq<char>) -> Lexeme {
    if has_invalid(t) {
        (TokenType::Error, "invalid character in numeral"@)
    } else if count_dots(t) > 1 {
        (TokenType::Error, "multiple decimal points in numeral"@)
    } else if count_dots(t) == 1 {
        (TokenType::Float, t)
    } else {
        (TokenType::Int, t)
    }
}

/// One step inside an expression, at `pos < s.len()`: the token, where the
/// scan goes on, and in which mode.
pub open spec fn expr_step(s: Seq<char>, pos: int) -> (Lexeme, int, Mode) {
    let c = s[pos];
    if is_white_space(c) {
        let e = space_end(s, pos + 1);
        ((TokenType::Space, s.subrange(pos, e)), e, Mode::InsideExpr)
    } else if close_delim_at(s, pos) {
        ((TokenType::VariableEnd, seq!['}', '}']), pos + 2, Mode::InText)
    } else if is_operator(c) {
        ((TokenType::Operator, seq![c]), pos + 1, Mode::InsideExpr)
    } else if alphabetic(c) || c == '_' {
        let e = name_end(s, pos + 1);
        ((TokenType::Variable, s.subrange(pos, e)), e, Mode::InsideExpr)
    } else if numeric(c) {
        let e = numeral_end(s, pos + 1);
        (numeral_token(s.subrange(pos, e)), e, Mode::InsideExpr)
    } else {
        ((TokenType::Error, "unexpected character in expression"@), pos + 1, Mode::InsideExpr)
    }
}

/// One step of the scanner at `pos` in `mode`: `None` once the text is used up.
pub open spec fn step(s: Seq<char>, pos: int, mode: Mode) -> Option<(Lexeme, int, Mode)> {
    if pos >= s.len() {
        None
    } else {
        match mode {
            Mode::InText => {
                let e = text_end(s, pos);
                if e == pos {
                    Some(((TokenType::VariableStart, seq!['{', '{']), pos + 2, Mode::InsideExpr))
                } else {
                    let m = if e < s.len() {
                        Mode::AtExprStart
                    } else {
                        Mode::InText
                    };
                    Some(((TokenType::Text, s.subrange(pos, e)), e, m))
                }
            },
            Mode::AtExprStart => Some(
                ((TokenType::VariableStart, seq!['{', '{']), pos + 2, Mode::InsideExpr),
            ),
            Mode::InsideExpr => Some(expr_step(s, pos)),
        }
    }
}

/// The tokens that the scanner produces from `pos` in `mode` to the end.
pub open spec fn tokens_from(s: Seq<char>, pos: int, mode: Mode) -> Seq<Lexeme>
    decreases s.len() - pos,
{
    if pos >= s.len() {
        Seq::empty()
    } else {
        match step(s, pos, mode) {
            Some((t, p, m)) => if pos < p <= s.len() {
                seq![t] + tokens_from(s, p, m)
            } else {
                Seq::empty()
            },
            None => Seq::empty(),
        }
    }
}

/// The tokens of a whole text.
pub open spec fn lex(s: Seq<char>) -> Seq<Lexeme> {
    tokens_from(s, 0, Mode::InText)
}

/// A state that scanning a text can reach: a pending `{{` is really there.
pub open spec fn reachable(s: Seq<char>, pos: int, mode: Mode) -> bool {
    0 <= pos <= s.len() && (mode == Mode::AtExprStart ==> open_delim_at(s, pos))
}

pub proof fn lemma_text_end(s: Seq<char>, i: int)
    requires
        0 <= i <= s.len(),
    ensures
        i <= text_end(s, i) <= s.len(),
        text_end(s, i) < s.len() ==> open_delim_at(s, text_end(s, i)),
        forall|k: int| i <= k < text_end(s, i) ==> !open_delim_at(s, k),
    decreases s.len() - i,
{
    if i < s.len() && !open_delim_at(s, i) {
        lemma_text_end(s, i + 1);
    }
}

pub proof fn lemma_space_end(s: Seq<char>, i: int)
    requires
        0 <= i <= s.len(),
    ensures
        i <= space_end(s, i) <= s.len(),
        space_end(s, i) < s.len() ==> !is_white_space(s[space_end(s, i)]),
        forall|k: int| i <= k < space_end(s, i) ==> is_white_space(#[trigger] s[k]),
    decreases s.len() - i,
{
    if i < s.len() && is_white_space(s[i]) {
        lemma_space_end(s, i + 1);
    }
}

pub proof fn lemma_name_end(s: Seq<char>, i: int)
    requires
        0 <= i <= s.len(),
    ensures
        i <= name_end(s, i) <= s.len(),
    decreases s.len() - i,
{
    if i < s.len() && s[i] != '.' && !is_white_space(s[i]) {
        lemma_name_end(s, i + 1);
    }
}

pub proof fn lemma_numeral_end(s: Seq<char>, i: int)
    requires
        0 <= i <= s.len(),
    ensures
        i <= numeral_end(s, i) <= s.len(),
    decreases s.len() - i,
{
    if i < s.len() && s[i] != '}' && !is_white_space(s[i]) {
        lemma_numeral_end(s, i + 1);
    }
}

/// From a reachable state every step moves forward, stays within the text,
/// and leads to a reachable state.
pub proof fn lemma_step_advances(s: Seq<char>, pos: int, mode: Mode)
    requires
        reachable(s, pos, mode),
    ensures
        match step(s, pos, mode) {
            None => pos == s.len(),
            Some((t, p, m)) => pos < p && reachable(s, p, m),
        },
{
    if pos < s.len() {
        match mode {
            Mode::InText => lemma_text_end(s, pos),
            Mode::AtExprStart => {},
            Mode::InsideExpr => {
                lemma_space_end(s, pos + 1);
                lemma_name_end(s, pos + 1);
                lemma_numeral_end(s, pos + 1);
            },
        }
    }
}

/// From a reachable state the sequence is the step's token followed by the rest.
pub proof fn lemma_tokens_unfold(s: Seq<char>, pos: int, mode: Mode)
    requires
        reachable(s, pos, mode),
        pos < s.len(),
    ensures
        step(s, pos, mode) matches Some((t, p, m)) && tokens_from(s, pos, mode) == seq![t]
            + tokens_from(s, p, m),
{
    lemma_step_advances(s, pos, mode);
}

/// Extending a numeral by one character adds its decimal point, or its
/// foreign character, to what the numeral holds.
pub proof fn lemma_numeral_extend(s: Seq<char>, start: int, i: int)
    requires
        0 <= start <= i < s.len(),
    ensures
        count_dots(s.subrange(start, i + 1)) == count_dots(s.subrange(start, i)) + if s[i] == '.' {
            1nat
        } else {
            0nat
        },
        has_invalid(s.subrange(start, i + 1)) == (has_invalid(s.subrange(start, i)) || (!numeric(
            s[i],
        ) && s[i] != '.')),
{
    let t = s.subrange(start, i + 1);
    let u = s.subrange(start, i);
    assert(t.drop_last() =~= u);
    if has_invalid(u) {
        let k = choose|k: int| 0 <= k < u.len() && !numeric(#[trigger] u[k]) && u[k] != '.';
        assert(t[k] == u[k]);
    }
    if has_invalid(t) {
        let k = choose|k: int| 0 <= k < t.len() && !numeric(#[trigger] t[k]) && t[k] != '.';
        if k < u.len() {
            assert(t[k] == u[k]);
        }
    }
    if !numeric(s[i]) && s[i] != '.' {
        assert(t[i - start] == s[i]);
    }
}

} // verus!
