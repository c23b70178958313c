use crate::errors::{CellTailError, CellTailResult};
use crate::expression::{
    expr_views, lemma_expr_views, BinaryOperator, ExprView, Expression, UnaryOperator,
};
use crate::lexer::{
    copy_range, first_of_kind, is_kind, lemma_lex_views, lex_views, LexView, LexerToken,
    TokenGroup,
};
use crate::literal::{string_val, Literal, Val};
use crate::text::is_text;
use crate::tokenizer::{TokenKind, TokenView};
use vstd::prelude::*;

verus! {

/// The value of the ASCII decimal digits `s`, the most significant first.
pub open spec fn digits_value(s: Seq<char>) -> int
    decreases s.len(),
{
    if s.len() == 0 {
        0
    } else {
        digits_value(s.drop_last()) * 10 + (s.last() as int - '0' as int)
    }
}

/// Every character of `s` is an ASCII decimal digit.
pub open spec fn all_digits(s: Seq<char>) -> bool {
    forall|i: int| 0 <= i < s.len() ==> '0' <= #[trigger] s[i] <= '9'
}

/// The integer that `s` spells in decimal: an optional sign `+` or `-`, then
/// one or more ASCII digits and nothing else; `None` for any other text, or a
/// value out of the range of `isize`.
pub open spec fn parsed_isize(s: Seq<char>) -> Option<isize> {
    let signed = s.len() > 0 && (s[0] == '-' || s[0] == '+');
    let body = if signed {
        s.drop_first()
    } else {
        s
    };
    let v = if signed && s[0] == '-' {
        -digits_value(body)
    } else {
        digits_value(body)
    };
    if body.len() == 0 || !all_digits(body) || v < isize::MIN || v > isize::MAX {
        None
    } else {
        Some(v as isize)
    }
}

/// The UTF-8 encoding of `s`.
pub uninterp spec fn utf8_bytes(s: Seq<char>) -> Seq<u8>;

/// Relies on `str::parse::<isize>`, which reads an optional sign and then
/// decimal digits, and fails on anything else or on a value that does not fit.
#[verifier::external_body]
pub(crate) fn parse_number(s: &String) -> (r: Option<isize>)
    ensures
        r == parsed_isize(s@),
{
    s.parse::<isize>().ok()
}

/// Relies on `str::as_bytes`: the UTF-8 encoding of `s`, which depends on its
/// characters alone.
#[verifier::external_body]
pub(crate) fn bytes_of(s: &String) -> (r: &[u8])
    ensures
        r@ == utf8_bytes(s@),
{
    s.as_bytes()
}

/// The element of a group at `i`, seen as a token.
pub open spec fn token_at(g: Seq<LexView>, i: int) -> Option<TokenView> {
    match g[i] {
        LexView::Basic(t) => Some(t),
        _ => None,
    }
}

/// The position of the first token of the kind `kind` in `s` from `from` on,
/// or the length of `s` when there is none.
pub open spec fn next_of_kind(s: Seq<LexView>, kind: TokenKind, from: nat) -> nat
    decreases s.len() - from,
{
    if from >= s.len() {
        s.len()
    } else if is_kind(s[from as int], kind) {
        from
    } else {
        next_of_kind(s, kind, from + 1)
    }
}

pub proof fn lemma_next_of_kind(s: Seq<LexView>, kind: TokenKind, from: nat)
    requires
        from <= s.len(),
    ensures
        from <= next_of_kind(s, kind, from) <= s.len(),
        next_of_kind(s, kind, from) < s.len() ==> is_kind(
            s[next_of_kind(s, kind, from) as int],
            kind,
        ),
        forall|j: int| from <= j < next_of_kind(s, kind, from) ==> !is_kind(#[trigger] s[j], kind),
    decreases s.len() - from,
{
    if from < s.len() && !is_kind(s[from as int], kind) {
        lemma_next_of_kind(s, kind, from + 1);
    }
}

pub proof fn lemma_first_of_kind_bounds(s: Seq<LexView>, kind: TokenKind, i: nat)
    ensures
        first_of_kind(s, kind, i) is Some ==> i <= first_of_kind(s, kind, i)->Some_0 < s.len(),
    decreases s.len() - i,
{
    if i < s.len() && !is_kind(s[i as int], kind) {
        lemma_first_of_kind_bounds(s, kind, i + 1);
    }
}

/// The binary operators in the order in which they are tried, the loosest
/// first.
pub open spec fn operator_at(k: int) -> (char, BinaryOperator) {
    if k == 0 {
        ('+', BinaryOperator::Add)
    } else if k == 1 {
        ('-', BinaryOperator::Subtract)
    } else if k == 2 {
        ('*', BinaryOperator::Multiply)
    } else if k == 3 {
        ('/', BinaryOperator::Divide)
    } else if k == 4 {
        ('^', BinaryOperator::Xor)
    } else {
        ('%', BinaryOperator::Mod)
    }
}

/// The first operator, in the order of `operator_at` from `k` on, that occurs
/// in `s`: the position of its first occurrence, and the operation.
pub open spec fn first_operator(s: Seq<LexView>, k: nat) -> Option<(nat, BinaryOperator)>
    decreases 6 - k,
{
    if k >= 6 {
        None
    } else {
        match first_of_kind(s, TokenKind::Operator(operator_at(k as int).0), 0) {
            Some(i) => Some((i, operator_at(k as int).1)),
            None => first_operator(s, k + 1),
        }
    }
}

pub proof fn lemma_first_operator(s: Seq<LexView>, k: nat)
    ensures
        first_operator(s, k) is Some ==> first_operator(s, k)->Some_0.0 < s.len(),
    decreases 6 - k,
{
    if k < 6 {
        lemma_first_of_kind_bounds(s, TokenKind::Operator(operator_at(k as int).0), 0);
        lemma_first_operator(s, k + 1);
    }
}

/// The unary operator that the first token of `s` stands for, if any.
pub open spec fn leading_unary(s: Seq<LexView>) -> Option<UnaryOperator> {
    if s.len() > 0 && token_at(s, 0) is Some {
        let t = token_at(s, 0)->Some_0;
        if t.0 == TokenKind::Operator('-') {
            Some(UnaryOperator::Neg)
        } else if t.0 == TokenKind::Operator('!') {
            Some(UnaryOperator::Not)
        } else {
            None
        }
    } else {
        None
    }
}

/// A delimiter under which a group holds a plain expression or pattern.
pub open spec fn plain_delimiter(d: Option<char>) -> bool {
    d == Some('(') || d == Some(';') || d is None
}

/// The rank of a delimiter in the order of parsing: a list comes before the
/// plain expressions in it.
pub open spec fn delimiter_rank(d: Option<char>) -> nat {
    if d == Some('[') {
        4
    } else {
        2
    }
}

/// The expression that the group `s` under the delimiter `d` spells, or `None`.
/// A group in square brackets is a list (see `array_from`); under another
/// delimiter than `(`, `;` or none it is nothing. A single element is a group,
/// a number, a name (`N` is `Absent`; `_` is refused) or a text. Otherwise, in
/// this order: commas make a tuple; a leading `-` or `!` negates or
/// complements the rest; the first operator of `first_operator` splits a
/// binary operation; a name before one element is a call.
pub open spec fn expr_of(s: Seq<LexView>, d: Option<char>) -> Option<ExprView>
    decreases s, delimiter_rank(d), 0nat,
{
    if d == Some('[') {
        array_from(s, 0)
    } else if !plain_delimiter(d) {
        None
    } else if s.len() == 1 {
        match s[0] {
            LexView::Group(d2, inner) => expr_of(inner, d2),
            LexView::Basic(t) => if t.0 == TokenKind::Number {
                match parsed_isize(t.3) {
                    Some(n) => Some(ExprView::Lit(Val::Int(n))),
                    None => None,
                }
            } else if t.0 == TokenKind::Identifier {
                if t.3 == seq!['N'] {
                    Some(ExprView::Lit(Val::Absent))
                } else if t.3 == seq!['_'] {
                    None
                } else {
                    Some(ExprView::Var(t.3))
                }
            } else if t.0 == TokenKind::String {
                Some(ExprView::Lit(string_val(utf8_bytes(t.3))))
            } else {
                None
            },
        }
    } else if next_of_kind(s, TokenKind::Comma, 0) < s.len() {
        match tuple_from(s, 0) {
            Some(items) => Some(ExprView::Tuple(items)),
            None => None,
        }
    } else if leading_unary(s) is Some {
        match expr_of(s.subrange(1, s.len() as int), None) {
            Some(e) => Some(ExprView::Un(leading_unary(s)->Some_0, Box::new(e))),
            None => None,
        }
    } else if first_operator(s, 0) is Some {
        let i = first_operator(s, 0)->Some_0.0;
        proof {
            lemma_first_operator(s, 0);
        }
        match (expr_of(s.subrange(0, i as int), d), expr_of(s.subrange((i + 1) as int, s.len() as int), d)) {
            (Some(a), Some(b)) => Some(
                ExprView::Bin(first_operator(s, 0)->Some_0.1, Box::new(a), Box::new(b)),
            ),
            _ => None,
        }
    } else if s.len() == 2 && token_at(s, 0) is Some && token_at(s, 0)->Some_0.0
        == TokenKind::Identifier {
        match expr_of(s.subrange(1, 2), None) {
            Some(a) => Some(ExprView::Call(token_at(s, 0)->Some_0.3, Box::new(a))),
            None => None,
        }
    } else {
        None
    }
}

/// The items of a tuple: the expressions between the commas of `s`, from
/// position `from` on.
pub open spec fn tuple_from(s: Seq<LexView>, from: nat) -> Option<Seq<ExprView>>
    decreases s, 1nat, s.len() + 1 - from,
{
    if from > s.len() {
        Some(Seq::empty())
    } else {
        let c = next_of_kind(s, TokenKind::Comma, from);
        proof {
            lemma_next_of_kind(s, TokenKind::Comma, from);
        }
        if from == 0 && c == s.len() {
            None
        } else {
            match expr_of(s.subrange(from as int, c as int), None) {
                None => None,
                Some(h) => if c < s.len() {
                    match tuple_from(s, c + 1) {
                        None => None,
                        Some(t) => Some(seq![h] + t),
                    }
                } else {
                    Some(seq![h])
                },
            }
        }
    }
}

/// A list: the expressions between the commas of `s`, from position `from`
/// on, as nested pairs `(element, rest)` that end in `Absent`.
pub open spec fn array_from(s: Seq<LexView>, from: nat) -> Option<ExprView>
    decreases s, 3nat, s.len() + 1 - from,
{
    if from > s.len() {
        Some(ExprView::Lit(Val::Absent))
    } else {
        let c = next_of_kind(s, TokenKind::Comma, from);
        proof {
            lemma_next_of_kind(s, TokenKind::Comma, from);
            if from == 0 && c == s.len() {
                assert(s.subrange(0, s.len() as int) =~= s);
            }
        }
        let rest = if c < s.len() {
            array_from(s, c + 1)
        } else {
            Some(ExprView::Lit(Val::Absent))
        };
        match (expr_of(s.subrange(from as int, c as int), None), rest) {
            (Some(h), Some(t)) => Some(ExprView::Tuple(seq![h, t])),
            _ => None,
        }
    }
}

/// The list whose elements are `hs` followed by the list `t`.
pub open spec fn chain_of(hs: Seq<ExprView>, t: ExprView) -> ExprView
    decreases hs.len(),
{
    if hs.len() == 0 {
        t
    } else {
        ExprView::Tuple(seq![hs[0], chain_of(hs.subrange(1, hs.len() as int), t)])
    }
}

proof fn lemma_chain_push(hs: Seq<ExprView>, h: ExprView, t: ExprView)
    ensures
        chain_of(hs.push(h), t) == chain_of(hs, ExprView::Tuple(seq![h, t])),
    decreases hs.len(),
{
    let g = hs.push(h);
    if hs.len() > 0 {
        let tail = hs.subrange(1, hs.len() as int);
        assert(g.subrange(1, g.len() as int) =~= tail.push(h));
        lemma_chain_push(tail, h, t);
        assert(g[0] == hs[0]);
        assert(chain_of(g, t) == ExprView::Tuple(seq![hs[0], chain_of(tail.push(h), t)]));
    } else {
        assert(g.subrange(1, 1) =~= Seq::<ExprView>::empty());
        assert(g[0] == h);
        assert(chain_of(g, t) == ExprView::Tuple(seq![h, chain_of(Seq::<ExprView>::empty(), t)]));
    }
}

/// The position of the first token of the kind `kind` in `v` from `from` on,
/// or the length of `v`.
pub fn next_kind_index(v: &Vec<LexerToken>, kind: TokenKind, from: usize) -> (r: usize)
    requires
        from <= v@.len(),
    ensures
        r == next_of_kind(lex_views(v@), kind, from as nat),
{
    proof {
        lemma_lex_views(v@);
    }
    let ghost s = lex_views(v@);
    let mut i: usize = from;
    while i < v.len() && !v[i].is_token_of(kind)
        invariant
            from <= i <= v@.len(),
            s.len() == v@.len(),
            forall|j: int| 0 <= j < v@.len() ==> #[trigger] s[j] == v@[j]@,
            next_of_kind(s, kind, from as nat) == next_of_kind(s, kind, i as nat),
        decreases v@.len() - i,
    {
        i += 1;
    }
    i
}

/// The group `input` parsed as an expression (see `expr_of`).
pub fn parse_as_expression(input: TokenGroup) -> (r: CellTailResult<Expression>)
    ensures
        r is Ok <==> expr_of(input@.1, input.delimiter) is Some,
        r is Ok ==> r->Ok_0@ == expr_of(input@.1, input.delimiter)->Some_0,
    decreases input@.1, delimiter_rank(input.delimiter), 0nat,
{
    if input.delimiter == Some('[') {
        return parse_array(input);
    }
    if !(input.delimiter == Some('(') || input.delimiter == Some(';') || input.delimiter.is_none()) {
        return Err(CellTailError::new(&input, "Unexpected input delimiter".to_owned()));
    }
    proof {
        lemma_lex_views(input.contents@);
        reveal_strlit("N");
        reveal_strlit("_");
        assert("N"@ =~= seq!['N']);
        assert("_"@ =~= seq!['_']);
    }
    let ghost s = input@.1;
    let ghost d = input.delimiter;
    if input.contents.len() == 1 {
        match &input.contents[0] {
            LexerToken::Group(group) => {
                let inner = group.duplicate();
                proof {
                    assert(decreases_to!(s => s[0]));
                    assert(decreases_to!(s[0] => s[0]->Group_1));
                }
                return parse_as_expression(inner);
            },
            LexerToken::BasicToken(token) => {
                match token.kind {
                    TokenKind::Number => {
                        return match parse_number(&token.value) {
                            Some(n) => Ok(Expression::Literal(Literal::Number(n))),
                            None => Err(CellTailError::new(token, "Invalid number".to_owned())),
                        };
                    },
                    TokenKind::Identifier => {
                        if is_text(&token.value, "N") {
                            return Ok(Expression::Literal(Literal::Null));
                        } else if is_text(&token.value, "_") {
                            return Err(
                                CellTailError::new(
                                    token,
                                    "'_' is not a valid variable name\nHelp: _ indicates discarding a value. Thus there can never be a value assigned to _.".to_owned(),
                                ),
                            );
                        } else {
                            return Ok(Expression::Variable(token.value.clone()));
                        }
                    },
                    TokenKind::String => {
                        return Ok(
                            Expression::Literal(Literal::new_string_literal(bytes_of(&token.value))),
                        );
                    },
                    _ => {
                        return Err(
                            CellTailError::new(
                                &input,
                                "Unexpected token in match expression".to_owned(),
                            ),
                        );
                    },
                }
            },
        }
    }
    let n = input.contents.len();
    let first_comma = next_kind_index(&input.contents, TokenKind::Comma, 0);
    if first_comma < n {
        let mut items: Vec<Expression> = Vec::new();
        let mut from: usize = 0;
        loop
            invariant
                from <= n,
                n == s.len(),
                n == input.contents@.len(),
                s == input@.1,
                d == input.delimiter,
                plain_delimiter(d),
                s.len() != 1,
                next_of_kind(s, TokenKind::Comma, 0) < s.len(),
                expr_of(s, d) == match tuple_from(s, 0) {
                    Some(items) => Some(ExprView::Tuple(items)),
                    None => None,
                },
                tuple_from(s, 0) == match tuple_from(s, from as nat) {
                    Some(t) => Some(expr_views(items@) + t),
                    None => None::<Seq<ExprView>>,
                },
            decreases n + 1 - from,
        {
            let c = next_kind_index(&input.contents, TokenKind::Comma, from);
            proof {
                lemma_next_of_kind(s, TokenKind::Comma, from as nat);
                lemma_next_of_kind(s, TokenKind::Comma, 0);
                assert(decreases_to!(s => s.subrange(from as int, c as int)));
            }
            let piece = TokenGroup { delimiter: None, contents: copy_range(&input.contents, from, c) };
            let ghost before = items@;
            let item = parse_as_expression(piece)?;
            items.push(item);
            proof {
                lemma_expr_views(items@);
                lemma_expr_views(before);
                assert(expr_views(items@) =~= expr_views(before).push(item@));
            }
            if c == n {
                proof {
                    assert(expr_views(before) + seq![item@] =~= expr_views(items@));
                    assert(Expression::Tuple(items)@ == ExprView::Tuple(expr_views(items@)));
                }
                return Ok(Expression::Tuple(items));
            }
            proof {
                match tuple_from(s, (c + 1) as nat) {
                    Some(t) => {
                        assert(expr_views(before) + (seq![item@] + t) =~= expr_views(items@) + t);
                    },
                    None => {},
                }
            }
            from = c + 1;
        }
    }
    if n > 0 {
        let negate = match &input.contents[0] {
            LexerToken::BasicToken(t) => {
                match t.kind {
                    TokenKind::Operator(c) => if c == '-' {
                        Some(UnaryOperator::Neg)
                    } else if c == '!' {
                        Some(UnaryOperator::Not)
                    } else {
                        None
                    },
                    _ => None,
                }
            },
            _ => None,
        };
        if let Some(op) = negate {
            let rest = TokenGroup { delimiter: None, contents: copy_range(&input.contents, 1, n) };
            proof {
                assert(rest@.1 == s.subrange(1, s.len() as int));
                assert(decreases_to!(s => s.subrange(1, s.len() as int)));
            }
            let operand = parse_as_expression(rest)?;
            return Ok(Expression::UnaryOperator(op, Box::new(operand)));
        }
    }
    let operators: [(char, BinaryOperator); 6] = [
        ('+', BinaryOperator::Add),
        ('-', BinaryOperator::Subtract),
        ('*', BinaryOperator::Multiply),
        ('/', BinaryOperator::Divide),
        ('^', BinaryOperator::Xor),
        ('%', BinaryOperator::Mod),
    ];
    let mut k: usize = 0;
    while k < 6
        invariant
            s == input@.1,
            d == input.delimiter,
            plain_delimiter(d),
            s.len() != 1,
            n == s.len(),
            next_of_kind(s, TokenKind::Comma, 0) >= s.len(),
            leading_unary(s) is None,
            k <= 6,
            first_operator(s, 0) == first_operator(s, k as nat),
            forall|j: int| 0 <= j < 6 ==> #[trigger] operators@[j] == operator_at(j),
        decreases 6 - k,
    {
        let (c, op) = operators[k];
        if let Some((part1, _op, part2)) = input.split_first(TokenKind::Operator(c)) {
            proof {
                let i = first_of_kind(s, TokenKind::Operator(c), 0)->Some_0 as int;
                lemma_first_of_kind_bounds(s, TokenKind::Operator(c), 0);
                assert(decreases_to!(s => s.subrange(0, i)));
                assert(decreases_to!(s => s.subrange(i + 1, s.len() as int)));
            }
            let left = parse_as_expression(part1)?;
            let right = parse_as_expression(part2)?;
            return Ok(Expression::BinaryOperator(op, Box::new(left), Box::new(right)));
        }
        k += 1;
    }
    if n == 2 {
        if let LexerToken::BasicToken(t) = &input.contents[0] {
            if t.kind == TokenKind::Identifier {
                let argument = TokenGroup { delimiter: None, contents: copy_range(&input.contents, 1, 2) };
                proof {
                    assert(decreases_to!(s => s.subrange(1, 2)));
                }
                let arg = parse_as_expression(argument)?;
                return Ok(Expression::FunctionCall(t.value.clone(), Box::new(arg)));
            }
        }
    }
    Err(CellTailError::new(&input, "Invalid expression".to_owned()))
}

/// A list in square brackets (see `array_from`); an error for any other group.
pub fn parse_array(input: TokenGroup) -> (r: CellTailResult<Expression>)
    ensures
        input.delimiter != Some('[') ==> r is Err,
        input.delimiter == Some('[') ==> (r is Ok <==> array_from(input@.1, 0) is Some),
        input.delimiter == Some('[') && r is Ok ==> r->Ok_0@ == array_from(input@.1, 0)->Some_0,
    decreases input@.1, 3nat, 0nat,
{
    if input.delimiter != Some('[') {
        return Err(
            CellTailError::new(&input, "Expected a list to be delimited by []".to_owned()),
        );
    }
    proof {
        lemma_lex_views(input.contents@);
    }
    let ghost s = input@.1;
    let n = input.contents.len();
    let mut heads: Vec<Expression> = Vec::new();
    let mut from: usize = 0;
    loop
        invariant
            from <= n,
            n == s.len(),
            n == input.contents@.len(),
            input.delimiter == Some('['),
            s == input@.1,
            array_from(s, 0) == match array_from(s, from as nat) {
                Some(t) => Some(chain_of(expr_views(heads@), t)),
                None => None::<ExprView>,
            },
        decreases n + 1 - from,
    {
        let c = next_kind_index(&input.contents, TokenKind::Comma, from);
        proof {
            lemma_next_of_kind(s, TokenKind::Comma, from as nat);
            if from == 0 && c == s.len() {
                assert(s.subrange(0, s.len() as int) =~= s);
            } else {
                assert(decreases_to!(s => s.subrange(from as int, c as int)));
            }
        }
        let piece = TokenGroup { delimiter: None, contents: copy_range(&input.contents, from, c) };
        let ghost before = heads@;
        let head = parse_as_expression(piece)?;
        heads.push(head);
        proof {
            lemma_expr_views(heads@);
            lemma_expr_views(before);
            assert(expr_views(heads@) =~= expr_views(before).push(head@));
        }
        if c == n {
            proof {
                lemma_chain_push(expr_views(before), head@, ExprView::Lit(Val::Absent));
            }
            let mut tail = Expression::Literal(Literal::Null);
            while heads.len() > 0
                invariant
                    array_from(s, 0) == Some(chain_of(expr_views(heads@), tail@)),
                    input.delimiter == Some('['),
                    s == input@.1,
                decreases heads@.len(),
            {
                let ghost hs = heads@;
                let h = heads.pop().unwrap();
                proof {
                    lemma_expr_views(hs);
                    lemma_expr_views(heads@);
                    assert(expr_views(hs) =~= expr_views(heads@).push(h@));
                    lemma_chain_push(expr_views(heads@), h@, tail@);
                }
                let ghost th = h@;
                let ghost tt = tail@;
                tail = Expression::Tuple(vec![h, tail]);
                proof {
                    lemma_expr_views(tail->Tuple_0@);
                    assert(expr_views(tail->Tuple_0@) =~= seq![th, tt]);
                }
            }
            proof {
                assert(expr_views(heads@) =~= Seq::<ExprView>::empty());
            }
            return Ok(tail);
        }
        proof {
            match array_from(s, (c + 1) as nat) {
                Some(t) => {
                    lemma_chain_push(expr_views(before), head@, t);
                },
                None => {},
            }
        }
        from = c + 1;
    }
}

} // verus!
