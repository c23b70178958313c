use crate::errors::{CellTailError, CellTailResult};
use crate::lexer::{copy_range, first_of_kind, lemma_lex_views, LexView, LexerToken, TokenGroup};
use crate::literal::{string_val, Literal, Val};
use crate::parse_expression::{
    bytes_of, expr_of, lemma_first_of_kind_bounds, lemma_next_of_kind, next_kind_index,
    next_of_kind, parse_as_expression, parse_number, parsed_isize, plain_delimiter, utf8_bytes,
};
use crate::pattern::{lemma_pat_views, pat_views, PatView, Pattern};
use crate::text::is_text;
use crate::tokenizer::TokenKind;
use vstd::prelude::*;

verus! {

/// The pattern that the group `s` under the delimiter `d` spells, or `None`.
/// Under another delimiter than `(`, `;` or none it is nothing. A single
/// element is a group, a number, a name (`_` matches anything, `N` is the
/// literal `Absent`, any other name binds) or a text. Otherwise, in this order:
/// commas make a tuple; `&` a conjunction; `|` a choice; `..` a range whose
/// empty sides are open; anything else is a guard expression.
pub open spec fn pat_of(s: Seq<LexView>, d: Option<char>) -> Option<PatView>
    decreases s, 2nat, 0nat,
{
    if !plain_delimiter(d) {
        None
    } else if s.len() == 1 {
        match s[0] {
            LexView::Group(d2, inner) => pat_of(inner, d2),
            LexView::Basic(t) => if t.0 == TokenKind::Number {
                match parsed_isize(t.3) {
                    Some(n) => Some(PatView::Lit(Val::Int(n))),
                    None => None,
                }
            } else if t.0 == TokenKind::Identifier {
                if t.3 == seq!['_'] {
                    Some(PatView::Any)
                } else if t.3 == seq!['N'] {
                    Some(PatView::Lit(Val::Absent))
                } else {
                    Some(PatView::Ident(t.3))
                }
            } else if t.0 == TokenKind::String {
                Some(PatView::Lit(string_val(utf8_bytes(t.3))))
            } else {
                None
            },
        }
    } else if next_of_kind(s, TokenKind::Comma, 0) < s.len() {
        match pats_from(s, TokenKind::Comma, 0) {
            Some(ps) => Some(PatView::Tuple(ps)),
            None => None,
        }
    } else if next_of_kind(s, TokenKind::Operator('&'), 0) < s.len() {
        match pats_from(s, TokenKind::Operator('&'), 0) {
            Some(ps) => Some(PatView::And(ps)),
            None => None,
        }
    } else if next_of_kind(s, TokenKind::Operator('|'), 0) < s.len() {
        match pats_from(s, TokenKind::Operator('|'), 0) {
            Some(ps) => Some(PatView::Or(ps)),
            None => None,
        }
    } else if first_of_kind(s, TokenKind::Elipsis, 0) is Some {
        let i = first_of_kind(s, TokenKind::Elipsis, 0)->Some_0;
        let lower = if i == 0 {
            Some(None)
        } else {
            match expr_of(s.subrange(0, i as int), d) {
                Some(e) => Some(Some(e)),
                None => None,
            }
        };
        let upper = if i + 1 >= s.len() {
            Some(None)
        } else {
            match expr_of(s.subrange((i + 1) as int, s.len() as int), d) {
                Some(e) => Some(Some(e)),
                None => None,
            }
        };
        match (lower, upper) {
            (Some(a), Some(b)) => Some(PatView::Range(a, b)),
            _ => None,
        }
    } else {
        match expr_of(s, d) {
            Some(e) => Some(PatView::Guard(e)),
            None => None,
        }
    }
}

/// The patterns between the tokens of the kind `kind` in `s`, from position
/// `from` on.
pub open spec fn pats_from(s: Seq<LexView>, kind: TokenKind, from: nat) -> Option<Seq<PatView>>
    decreases s, 1nat, s.len() + 1 - from,
{
    if from > s.len() {
        Some(Seq::empty())
    } else {
        let c = next_of_kind(s, kind, from);
        proof {
            lemma_next_of_kind(s, kind, from);
        }
        if from == 0 && c == s.len() {
            None
        } else {
            match pat_of(s.subrange(from as int, c as int), None) {
                None => None,
                Some(h) => if c < s.len() {
                    match pats_from(s, kind, c + 1) {
                        None => None,
                        Some(t) => Some(seq![h] + t),
                    }
                } else {
                    Some(seq![h])
                },
            }
        }
    }
}

/// The patterns between the tokens of the kind `kind` in `input`, which holds
/// one (see `pats_from`).
fn parse_pieces(input: &TokenGroup, kind: TokenKind) -> (r: CellTailResult<Vec<Pattern>>)
    requires
        next_of_kind(input@.1, kind, 0) < input@.1.len(),
    ensures
        r is Ok <==> pats_from(input@.1, kind, 0) is Some,
        r is Ok ==> pat_views(r->Ok_0@) == pats_from(input@.1, kind, 0)->Some_0,
    decreases input@.1, 1nat, 0nat,
{
    proof {
        lemma_lex_views(input.contents@);
    }
    let ghost s = input@.1;
    let n = input.contents.len();
    let mut items: Vec<Pattern> = Vec::new();
    let mut from: usize = 0;
    loop
        invariant
            from <= n,
            n == s.len(),
            n == input.contents@.len(),
            s == input@.1,
            next_of_kind(s, kind, 0) < s.len(),
            pats_from(s, kind, 0) == match pats_from(s, kind, from as nat) {
                Some(t) => Some(pat_views(items@) + t),
                None => None::<Seq<PatView>>,
            },
        decreases n + 1 - from,
    {
        let c = next_kind_index(&input.contents, kind, from);
        proof {
            lemma_next_of_kind(s, kind, from as nat);
            lemma_next_of_kind(s, kind, 0);
            assert(decreases_to!(s => s.subrange(from as int, c as int)));
        }
        let piece = TokenGroup { delimiter: None, contents: copy_range(&input.contents, from, c) };
        let ghost before = items@;
        let item = parse_as_pattern(piece)?;
        items.push(item);
        proof {
            lemma_pat_views(items@);
            lemma_pat_views(before);
            assert(pat_views(items@) =~= pat_views(before).push(item@));
        }
        if c == n {
            proof {
                assert(pat_views(before) + seq![item@] =~= pat_views(items@));
            }
            return Ok(items);
        }
        proof {
            match pats_from(s, kind, (c + 1) as nat) {
                Some(t) => {
                    assert(pat_views(before) + (seq![item@] + t) =~= pat_views(items@) + t);
                },
                None => {},
            }
        }
        from = c + 1;
    }
}

/// The group `input` parsed as a pattern (see `pat_of`).
pub fn parse_as_pattern(input: TokenGroup) -> (r: CellTailResult<Pattern>)
    ensures
        r is Ok <==> pat_of(input@.1, input.delimiter) is Some,
        r is Ok ==> r->Ok_0@ == pat_of(input@.1, input.delimiter)->Some_0,
    decreases input@.1, 2nat, 0nat,
{
    if !(input.delimiter == Some('(') || input.delimiter == Some(';') || input.delimiter.is_none()) {
        return Err(CellTailError::new(&input, "Unexpected input delimiter".to_owned()));
    }
    proof {
        lemma_lex_views(input.contents@);
        reveal_strlit("_");
        reveal_strlit("N");
        assert("_"@ =~= seq!['_']);
        assert("N"@ =~= seq!['N']);
    }
    let ghost s = input@.1;
    if input.contents.len() == 1 {
        match &input.contents[0] {
            LexerToken::Group(group) => {
                let inner = group.duplicate();
                proof {
                    assert(decreases_to!(s => s[0]));
                    assert(decreases_to!(s[0] => s[0]->Group_1));
                }
                return parse_as_pattern(inner);
            },
            LexerToken::BasicToken(token) => {
                match token.kind {
                    TokenKind::Number => {
                        return match parse_number(&token.value) {
                            Some(n) => Ok(Pattern::Literal(Literal::Number(n))),
                            None => Err(CellTailError::new(token, "Invalid number".to_owned())),
                        };
                    },
                    TokenKind::Identifier => {
                        if is_text(&token.value, "_") {
                            return Ok(Pattern::Any);
                        } else if is_text(&token.value, "N") {
                            return Ok(Pattern::Literal(Literal::Null));
                        } else {
                            return Ok(Pattern::Identifier(token.value.clone()));
                        }
                    },
                    TokenKind::String => {
                        return Ok(
                            Pattern::Literal(Literal::new_string_literal(bytes_of(&token.value))),
                        );
                    },
                    _ => {
                        return Err(
                            CellTailError::new(
                                &input,
                                "Unexpected token in match expression".to_owned(),
                            ),
                        );
                    },
                }
            },
        }
    }
    let n = input.contents.len();
    if next_kind_index(&input.contents, TokenKind::Comma, 0) < n {
        let parts = parse_pieces(&input, TokenKind::Comma)?;
        return Ok(Pattern::Tuple(parts));
    }
    if next_kind_index(&input.contents, TokenKind::Operator('&'), 0) < n {
        let parts = parse_pieces(&input, TokenKind::Operator('&'))?;
        return Ok(Pattern::And(parts));
    }
    if next_kind_index(&input.contents, TokenKind::Operator('|'), 0) < n {
        let parts = parse_pieces(&input, TokenKind::Operator('|'))?;
        return Ok(Pattern::Or(parts));
    }
    if let Some((part_a, _op, part_b)) = input.split_first(TokenKind::Elipsis) {
        proof {
            lemma_first_of_kind_bounds(s, TokenKind::Elipsis, 0);
        }
        let lower = if part_a.contents.len() == 0 {
            None
        } else {
            Some(Box::new(parse_as_expression(part_a)?))
        };
        let upper = if part_b.contents.len() == 0 {
            None
        } else {
            Some(Box::new(parse_as_expression(part_b)?))
        };
        return Ok(Pattern::Range(lower, upper));
    }
    let guard = parse_as_expression(input)?;
    Ok(Pattern::Expression(guard))
}

} // verus!
