//! What holds of the token sequence of every text.
use crate::chars::is_white_space;
use crate::lexer::TokenType;
use crate::model::{
    is_operator, lemma_space_end, lemma_step_advances, lemma_text_end,
    lemma_tokens_unfold, lex, numeral_token, open_delim_at, reachable, step, text_end,
    tokens_from, Lexeme, Mode,
};
use vstd::prelude::*;

verus! {

/// The texts of the tokens laid end to end.
pub open spec fn joined(ts: Seq<Lexeme>) -> Seq<char>
    decreases ts.len(),
{
    if ts.len() == 0 {
        Seq::empty()
    } else {
        ts[0].1 + joined(ts.drop_first())
    }
}

/// Whether every `VariableStart` comes while no expression is open and every
/// `VariableEnd` closes the open one; `open` tells whether one is open first.
pub open spec fn alternates(ts: Seq<Lexeme>, open: bool) -> bool
    decreases ts.len(),
{
    if ts.len() == 0 {
        true
    } else {
        match ts[0].0 {
            TokenType::VariableStart => !open && alternates(ts.drop_first(), true),
            TokenType::VariableEnd => open && alternates(ts.drop_first(), false),
            _ => alternates(ts.drop_first(), open),
        }
    }
}

/// The empty text has no tokens.
pub proof fn lemma_empty_input()
    ensures
        lex(Seq::<char>::empty()) == Seq::<Lexeme>::empty(),
{
}

/// A text without `{{` is one `Text` token that holds all of it.
pub proof fn lemma_plain_text(s: Seq<char>)
    requires
        s.len() > 0,
        forall|i: int| !open_delim_at(s, i),
    ensures
        lex(s) == seq![(TokenType::Text, s)],
{
    lemma_text_end(s, 0);
    assert(s.subrange(0, s.len() as int) =~= s);
    lemma_tokens_unfold(s, 0, Mode::InText);
    assert(tokens_from(s, s.len() as int, Mode::InText) =~= Seq::<Lexeme>::empty());
    assert(lex(s) =~= seq![(TokenType::Text, s)]);
}

proof fn lemma_round_trip_from(s: Seq<char>, pos: int, mode: Mode)
    requires
        reachable(s, pos, mode),
        forall|k: int|
            0 <= k < tokens_from(s, pos, mode).len() ==> (#[trigger] tokens_from(
                s,
                pos,
                mode,
            )[k]).0 != TokenType::Error,
    ensures
        joined(tokens_from(s, pos, mode)) == s.subrange(pos, s.len() as int),
    decreases s.len() - pos,
{
    let ts = tokens_from(s, pos, mode);
    if pos == s.len() {
        assert(s.subrange(pos, s.len() as int) =~= Seq::<char>::empty());
    } else {
        lemma_tokens_unfold(s, pos, mode);
        lemma_step_advances(s, pos, mode);
        let (t, p, m) = step(s, pos, mode)->0;
        let rest = tokens_from(s, p, m);
        assert(ts[0] == t);
        assert(ts.drop_first() =~= rest);
        assert forall|k: int| 0 <= k < rest.len() implies (#[trigger] rest[k]).0
            != TokenType::Error by {
            assert(rest[k] == ts[k + 1]);
        }
        lemma_round_trip_from(s, p, m);
        assert(t.0 != TokenType::Error);
        if mode == Mode::InsideExpr {
            let c = s[pos];
            if !is_white_space(c) && !crate::model::close_delim_at(s, pos) && is_operator(c) {
                assert(t.1 =~= s.subrange(pos, p));
            }
            if !is_white_space(c) && crate::model::close_delim_at(s, pos) {
                assert(t.1 =~= s.subrange(pos, p));
            }
        } else if mode == Mode::InText && text_end(s, pos) == pos {
            lemma_text_end(s, pos);
            assert(t.1 =~= s.subrange(pos, p));
        } else if mode == Mode::AtExprStart {
            assert(t.1 =~= s.subrange(pos, p));
        }
        assert(t.1 == s.subrange(pos, p));
        assert(s.subrange(pos, p) + s.subrange(p, s.len() as int) =~= s.subrange(
            pos,
            s.len() as int,
        ));
    }
}

/// Where no token is an error, the token texts laid end to end give back the
/// text, `{{` and `}}` included.
pub proof fn lemma_round_trip(s: Seq<char>)
    requires
        forall|k: int| 0 <= k < lex(s).len() ==> (#[trigger] lex(s)[k]).0 != TokenType::Error,
    ensures
        joined(lex(s)) == s,
{
    let ts = tokens_from(s, 0, Mode::InText);
    assert forall|k: int| 0 <= k < ts.len() implies (#[trigger] ts[k]).0 != TokenType::Error by {
        assert(lex(s)[k] == ts[k]);
    }
    lemma_round_trip_from(s, 0, Mode::InText);
    assert(s.subrange(0, s.len() as int) =~= s);
}

/// Inside an expression an operator character is a token of its own, and
/// scanning goes on right after it, still inside the expression.
pub proof fn lemma_operator_singleton(s: Seq<char>, pos: int)
    requires
        0 <= pos < s.len(),
        is_operator(s[pos]),
    ensures
        tokens_from(s, pos, Mode::InsideExpr) == seq![(TokenType::Operator, seq![s[pos]])]
            + tokens_from(s, pos + 1, Mode::InsideExpr),
{
    lemma_tokens_unfold(s, pos, Mode::InsideExpr);
}

/// The step after a whitespace run, inside an expression, yields no `Space`.
proof fn lemma_no_space_after(s: Seq<char>, pos: int)
    requires
        0 <= pos <= s.len(),
        pos < s.len() ==> !is_white_space(s[pos]),
    ensures
        tokens_from(s, pos, Mode::InsideExpr).len() > 0 ==> tokens_from(s, pos, Mode::InsideExpr)[0].0
            != TokenType::Space,
{
    if pos < s.len() {
        lemma_tokens_unfold(s, pos, Mode::InsideExpr);
        let e = crate::model::numeral_end(s, pos + 1);
        let t = numeral_token(s.subrange(pos, e));
        assert(t.0 != TokenType::Space);
    }
}

/// Whether every character of `t` is whitespace.
pub open spec fn all_white(t: Seq<char>) -> bool {
    forall|j: int| 0 <= j < t.len() ==> is_white_space(#[trigger] t[j])
}

/// Whether every `Space` token holds a non-empty run of whitespace and is
/// not followed by another `Space` token.
pub open spec fn spaces_coalesced(ts: Seq<Lexeme>) -> bool {
    forall|k: int|
        0 <= k < ts.len() && (#[trigger] ts[k]).0 == TokenType::Space ==> ts[k].1.len() >= 1
            && all_white(ts[k].1) && (k + 1 < ts.len() ==> ts[k + 1].0 != TokenType::Space)
}

proof fn lemma_spaces_from(s: Seq<char>, pos: int, mode: Mode)
    requires
        reachable(s, pos, mode),
    ensures
        spaces_coalesced(tokens_from(s, pos, mode)),
    decreases s.len() - pos,
{
    let ts = tokens_from(s, pos, mode);
    if pos < s.len() {
        lemma_tokens_unfold(s, pos, mode);
        lemma_step_advances(s, pos, mode);
        let (t, p, m) = step(s, pos, mode)->0;
        let rest = tokens_from(s, p, m);
        lemma_spaces_from(s, p, m);
        assert(ts[0] == t);
        if t.0 == TokenType::Space {
            lemma_space_end(s, pos + 1);
            assert forall|j: int| 0 <= j < t.1.len() implies is_white_space(#[trigger] t.1[j]) by {
                assert(t.1[j] == s[pos + j]);
            }
            lemma_no_space_after(s, p);
        }
        assert forall|k: int|
            0 <= k < ts.len() && (#[trigger] ts[k]).0 == TokenType::Space implies ts[k].1.len()
                >= 1 && all_white(ts[k].1) && (k + 1 < ts.len() ==> ts[k + 1].0
                != TokenType::Space) by {
            if k > 0 {
                assert(ts[k] == rest[k - 1]);
                if k + 1 < ts.len() {
                    assert(ts[k + 1] == rest[k]);
                }
            } else if 1 < ts.len() {
                assert(ts[1] == rest[0]);
            }
        }
    }
}

/// Inside an expression, whitespace comes as `Space` tokens that each hold
/// a non-empty run of whitespace, and no two of them are adjacent: a run is
/// one token, never split and never dropped.
pub proof fn lemma_spaces_coalesce(s: Seq<char>)
    ensures
        spaces_coalesced(lex(s)),
{
    lemma_spaces_from(s, 0, Mode::InText);
}

proof fn lemma_alternates_from(s: Seq<char>, pos: int, mode: Mode)
    requires
        reachable(s, pos, mode),
    ensures
        alternates(tokens_from(s, pos, mode), mode == Mode::InsideExpr),
    decreases s.len() - pos,
{
    let ts = tokens_from(s, pos, mode);
    if pos < s.len() {
        lemma_tokens_unfold(s, pos, mode);
        lemma_step_advances(s, pos, mode);
        let (t, p, m) = step(s, pos, mode)->0;
        lemma_alternates_from(s, p, m);
        assert(ts.drop_first() =~= tokens_from(s, p, m));
        if mode == Mode::InsideExpr && !is_white_space(s[pos]) && !crate::model::close_delim_at(s, pos)
            && !is_operator(s[pos]) {
            let e = crate::model::numeral_end(s, pos + 1);
            let u = numeral_token(s.subrange(pos, e));
            assert(u.0 != TokenType::VariableStart && u.0 != TokenType::VariableEnd);
        }
    }
}

/// Delimiters pair up: the tokens open an expression with `VariableStart`
/// only while none is open, and close it with `VariableEnd` only while one
/// is, so each `VariableEnd` matches the `VariableStart` before it.
pub proof fn lemma_delimiters_alternate(s: Seq<char>)
    ensures
        alternates(lex(s), false),
{
    lemma_alternates_from(s, 0, Mode::InText);
}

/// Whether an expression is open after the tokens, `open` telling whether one
/// is open before them.
pub open spec fn open_after(ts: Seq<Lexeme>, open: bool) -> bool
    decreases ts.len(),
{
    if ts.len() == 0 {
        open
    } else {
        let next = match ts[0].0 {
            TokenType::VariableStart => true,
            TokenType::VariableEnd => false,
            _ => open,
        };
        open_after(ts.drop_first(), next)
    }
}

proof fn lemma_closed_from(ts: Seq<Lexeme>, open: bool)
    requires
        !open_after(ts, open),
    ensures
        open ==> exists|j: int| 0 <= j < ts.len() && (#[trigger] ts[j]).0 == TokenType::VariableEnd,
        forall|k: int|
            0 <= k < ts.len() && (#[trigger] ts[k]).0 == TokenType::VariableStart ==> exists|j: int|
                k < j < ts.len() && (#[trigger] ts[j]).0 == TokenType::VariableEnd,
    decreases ts.len(),
{
    if ts.len() > 0 {
        let rest = ts.drop_first();
        let next = match ts[0].0 {
            TokenType::VariableStart => true,
            TokenType::VariableEnd => false,
            _ => open,
        };
        lemma_closed_from(rest, next);
        if next {
            let j = choose|j: int| 0 <= j < rest.len() && (#[trigger] rest[j]).0
                == TokenType::VariableEnd;
            assert(ts[j + 1] == rest[j]);
        }
        assert forall|k: int|
            0 <= k < ts.len() && (#[trigger] ts[k]).0 == TokenType::VariableStart implies exists|
            j: int|
            k < j < ts.len() && (#[trigger] ts[j]).0 == TokenType::VariableEnd by {
            if k > 0 {
                assert(ts[k] == rest[k - 1]);
                let j = choose|j: int| k - 1 < j < rest.len() && (#[trigger] rest[j]).0
                    == TokenType::VariableEnd;
                assert(ts[j + 1] == rest[j]);
            } else {
                let j = choose|j: int| 0 <= j < rest.len() && (#[trigger] rest[j]).0
                    == TokenType::VariableEnd;
                assert(ts[j + 1] == rest[j]);
            }
        }
    }
}

/// In a document whose tokens leave no expression open, every
/// `VariableStart` is followed, later in the sequence, by a `VariableEnd`.
pub proof fn lemma_starts_are_closed(s: Seq<char>)
    requires
        !open_after(lex(s), false),
    ensures
        forall|k: int|
            0 <= k < lex(s).len() && (#[trigger] lex(s)[k]).0 == TokenType::VariableStart
                ==> exists|j: int| k < j < lex(s).len() && (#[trigger] lex(s)[j]).0
                == TokenType::VariableEnd,
{
    lemma_closed_from(lex(s), false);
}

} // verus!
