use crate::errors::{CellTailError, CellTailResult, PointError, SourceCodePosition};
use crate::text::{collect_chars, push_char};
use vstd::prelude::*;

verus! {

#[derive(Debug, Clone, Copy, PartialEq, Eq, Structural)]
pub enum TokenKind {
    Identifier,
    String,
    Number,
    Operator(char),
    OpeningBracket(char),
    ClosingBracket(char),
    Comma,
    Colon,
    Semicolon,
    Comment,
    Equals,
    Elipsis,
}

/// A token of the source: its kind, its place, and its text.
#[derive(Debug, Clone)]
pub struct Token {
    pub kind: TokenKind,
    pub start: usize,
    pub end: usize,
    pub value: String,
}

impl SourceCodePosition for Token {
    open spec fn spec_start(&self) -> Option<usize> {
        Some(self.start)
    }

    open spec fn spec_end(&self) -> Option<usize> {
        Some(self.end)
    }

    fn get_start(&self) -> (r: Option<usize>) {
        Some(self.start)
    }

    fn get_end(&self) -> (r: Option<usize>) {
        Some(self.end)
    }
}

/// The token as plain values: kind, start, end, text.
pub type TokenView = (TokenKind, usize, usize, Seq<char>);

impl View for Token {
    type V = TokenView;

    open spec fn view(&self) -> TokenView {
        (self.kind, self.start, self.end, self.value@)
    }
}

/// Which characters continue a token that has begun.
#[derive(Debug, Clone, Copy, PartialEq, Eq, Structural)]
pub enum RunClass {
    /// Anything up to the end of the line.
    Comment,
    /// Numeric characters.
    Number,
    /// Anything up to a double quote.
    Text,
    /// Alphanumeric characters and `_`.
    Word,
    /// The operator character itself, or `@`.
    Operator(char),
}

/// Whether `c` is in one of Unicode's number categories.
pub uninterp spec fn numeric_char(c: char) -> bool;

/// Whether `c` is alphabetic or numeric in Unicode.
pub uninterp spec fn alphanumeric_char(c: char) -> bool;

/// The message of the error on a character that starts no token.
pub open spec fn unexpected_char_message(c: char) -> Seq<char> {
    "Unexpected token: "@.push(c)
}

/// Relies on `char::is_numeric`: whether `c` is in a Unicode number category,
/// which the ASCII digits are.
#[verifier::external_body]
fn is_numeric(c: char) -> (r: bool)
    ensures
        r == numeric_char(c),
        '0' <= c <= '9' ==> r,
{
    c.is_numeric()
}

/// Relies on `char::is_alphanumeric`: whether `c` is alphabetic or numeric in
/// Unicode, which the ASCII letters and digits are.
#[verifier::external_body]
fn is_alphanumeric(c: char) -> (r: bool)
    ensures
        r == alphanumeric_char(c),
        ('0' <= c <= '9' || 'a' <= c <= 'z' || 'A' <= c <= 'Z') ==> r,
{
    c.is_alphanumeric()
}

/// The message of the error on the character `c`, which starts no token.
fn unexpected_char(c: char) -> (r: String)
    ensures
        r@ == unexpected_char_message(c),
{
    let mut m = "Unexpected token: ".to_owned();
    push_char(&mut m, c);
    m
}

/// `c` continues a token of the class `cls`.
pub open spec fn in_class(c: char, cls: RunClass) -> bool {
    match cls {
        RunClass::Comment => c != '\n',
        RunClass::Number => numeric_char(c),
        RunClass::Text => c != '"',
        RunClass::Word => alphanumeric_char(c) || c == '_',
        RunClass::Operator(x) => c == x || c == '@',
    }
}

/// The end of the run of characters of class `cls` that starts at `from`.
pub open spec fn run_end(input: Seq<char>, from: nat, cls: RunClass) -> nat
    decreases input.len() - from,
{
    if from < input.len() && in_class(input[from as int], cls) {
        run_end(input, from + 1, cls)
    } else {
        from
    }
}

/// A character that the tokenizer skips.
pub open spec fn is_blank(c: char) -> bool {
    c == ' ' || c == '\n' || c == '\t' || c == '\r'
}

/// A character that makes a token of its own.
pub open spec fn single_kind(c: char) -> Option<TokenKind> {
    if c == '(' || c == '[' || c == '{' {
        Some(TokenKind::OpeningBracket(c))
    } else if c == ')' || c == ']' || c == '}' {
        Some(TokenKind::ClosingBracket(c))
    } else if c == ':' {
        Some(TokenKind::Colon)
    } else if c == ',' {
        Some(TokenKind::Comma)
    } else if c == ';' {
        Some(TokenKind::Semicolon)
    } else if c == '=' {
        Some(TokenKind::Equals)
    } else {
        None
    }
}

/// A character that begins an operator.
pub open spec fn is_operator_char(c: char) -> bool {
    c == '+' || c == '-' || c == '/' || c == '*' || c == '&' || c == '|' || c == '^' || c == '%'
}

/// A character that begins a name.
pub open spec fn starts_word(c: char) -> bool {
    ('a' <= c <= 'z') || ('A' <= c <= 'Z') || c == '_'
}

/// The token that a run of class `cls` from `pos` makes, where the character
/// at `pos` belongs to it, and the position after it.
pub open spec fn run_token(input: Seq<char>, pos: nat, cls: RunClass, kind: TokenKind) -> (
    TokenView,
    nat,
) {
    let e = run_end(input, pos + 1, cls);
    ((kind, pos as usize, (e + 1) as usize, input.subrange(pos as int, e as int)), e)
}

/// The token that starts at `pos`, a character that is not blank, with the
/// position after it; `None` when no token can start with that character.
/// `#` starts a comment to the end of the line; a digit starts a number; a
/// double quote starts a text up to the next double quote, which is dropped;
/// a letter or `_` starts a name; `..` is a range; an operator character
/// starts an operator that runs on over the same character and `@`; brackets,
/// `:`, `,`, `;` and `=` are tokens of their own. A token's end is one past
/// the position after its last character.
pub open spec fn next_token(input: Seq<char>, pos: nat) -> Option<(TokenView, nat)> {
    let c = input[pos as int];
    if c == '#' {
        Some(run_token(input, pos, RunClass::Comment, TokenKind::Comment))
    } else if '0' <= c <= '9' {
        Some(run_token(input, pos, RunClass::Number, TokenKind::Number))
    } else if c == '"' {
        let e = run_end(input, pos + 1, RunClass::Text);
        Some(
            (
                (
                    TokenKind::String,
                    (pos + 1) as usize,
                    (e + 1) as usize,
                    input.subrange((pos + 1) as int, e as int),
                ),
                if e < input.len() {
                    e + 1
                } else {
                    e
                },
            ),
        )
    } else if starts_word(c) {
        Some(run_token(input, pos, RunClass::Word, TokenKind::Identifier))
    } else if c == '.' && pos + 1 < input.len() && input[(pos + 1) as int] == '.' {
        Some(((TokenKind::Elipsis, pos as usize, (pos + 2) as usize, seq!['.', '.']), pos + 2))
    } else if is_operator_char(c) {
        Some(run_token(input, pos, RunClass::Operator(c), TokenKind::Operator(c)))
    } else if single_kind(c) is Some {
        Some(((single_kind(c)->Some_0, pos as usize, (pos + 1) as usize, seq![c]), pos + 1))
    } else {
        None
    }
}

/// The tokens of `input` from position `pos` on, blanks skipped, or the
/// position of the first character that no token can start with.
pub open spec fn scan(input: Seq<char>, pos: nat) -> Result<Seq<TokenView>, usize>
    decreases input.len() - pos,
{
    if pos >= input.len() {
        Ok(Seq::empty())
    } else if is_blank(input[pos as int]) {
        scan(input, pos + 1)
    } else {
        match next_token(input, pos) {
            None => Err(pos as usize),
            Some((t, next)) => if next <= pos || next > input.len() {
                Ok(seq![t])
            } else {
                match scan(input, next) {
                    Ok(rest) => Ok(seq![t] + rest),
                    Err(e) => Err(e),
                }
            },
        }
    }
}

proof fn lemma_run_end_bounds(input: Seq<char>, from: nat, cls: RunClass)
    requires
        from <= input.len(),
    ensures
        from <= run_end(input, from, cls) <= input.len(),
    decreases input.len() - from,
{
    if from < input.len() && in_class(input[from as int], cls) {
        lemma_run_end_bounds(input, from + 1, cls);
    }
}

/// `c` continues a token of the class `cls`.
fn continues(c: char, cls: RunClass) -> (r: bool)
    ensures
        r == in_class(c, cls),
{
    match cls {
        RunClass::Comment => c != '\n',
        RunClass::Number => is_numeric(c),
        RunClass::Text => c != '"',
        RunClass::Word => is_alphanumeric(c) || c == '_',
        RunClass::Operator(x) => c == x || c == '@',
    }
}

/// Moves `counter` past the run of characters of class `cls` that starts
/// there.
fn skip_run(input: &Vec<char>, counter: &mut usize, cls: RunClass)
    requires
        *old(counter) <= input@.len(),
    ensures
        *final(counter) == run_end(input@, *old(counter) as nat, cls),
        *final(counter) <= input@.len(),
{
    while *counter < input.len() && continues(input[*counter], cls)
        invariant
            *counter <= input@.len(),
            run_end(input@, *old(counter) as nat, cls) == run_end(input@, *counter as nat, cls),
        decreases input@.len() - *counter,
    {
        *counter += 1;
    }
}

/// The token of class `cls` and kind `kind` that starts at `counter`, whose
/// first character belongs to it; `counter` moves past it.
fn match_rest(input: &Vec<char>, counter: &mut usize, cls: RunClass, kind: TokenKind) -> (r:
    Token)
    requires
        *old(counter) < input@.len(),
        input@.len() < usize::MAX,
    ensures
        (r@, *final(counter) as nat) == run_token(input@, *old(counter) as nat, cls, kind),
        *final(counter) > *old(counter),
        *final(counter) <= input@.len(),
{
    let start = *counter;
    *counter += 1;
    skip_run(input, counter, cls);
    proof {
        lemma_run_end_bounds(input@, (start + 1) as nat, cls);
    }
    Token { kind, start: start, end: *counter + 1, value: collect_chars(input, start, *counter) }
}

/// A token of one character.
fn single(input: &Vec<char>, counter: usize, kind: TokenKind) -> (r: Token)
    requires
        counter < input@.len(),
        input@.len() < usize::MAX,
    ensures
        r@ == (kind, counter, (counter + 1) as usize, seq![input@[counter as int]]),
{
    let value = collect_chars(input, counter, counter + 1);
    assert(input@.subrange(counter as int, counter + 1) =~= seq![input@[counter as int]]);
    Token { kind, start: counter, end: counter + 1, value }
}

/// The views of the tokens of `s`, in order.
pub open spec fn token_views(s: Seq<Token>) -> Seq<TokenView> {
    s.map_values(|t: Token| t@)
}

/// The tokens of `input` (see `scan`); an error at the position of the first
/// character that no token can start with.
pub fn tokenize(input: &Vec<char>) -> (r: CellTailResult<Vec<Token>>)
    requires
        input@.len() < usize::MAX - 1,
    ensures
        r is Ok <==> scan(input@, 0) is Ok,
        r is Ok ==> token_views(r->Ok_0@) == scan(input@, 0)->Ok_0,
        r is Err ==> r->Err_0.spec_start() == Some(scan(input@, 0)->Err_0) && r->Err_0.spec_end()
            is None && r->Err_0.spec_description() == unexpected_char_message(
            input@[scan(input@, 0)->Err_0 as int],
        ),
{
    let mut counter: usize = 0;
    let mut result: Vec<Token> = vec![];
    while counter < input.len()
        invariant
            counter <= input@.len(),
            input@.len() < usize::MAX - 1,
            scan(input@, 0) == match scan(input@, counter as nat) {
                Ok(rest) => Ok(token_views(result@) + rest),
                Err(e) => Err(e),
            },
        decreases input@.len() - counter,
    {
        let ghost before = counter as nat;
        let ghost old_result = result@;
        let c = input[counter];
        if c == ' ' || c == '\n' || c == '\t' || c == '\r' {
            counter += 1;
        } else {
            let t: Token;
            if c == '#' {
                t = match_rest(input, &mut counter, RunClass::Comment, TokenKind::Comment);
            } else if '0' <= c && c <= '9' {
                t = match_rest(input, &mut counter, RunClass::Number, TokenKind::Number);
            } else if c == '"' {
                counter += 1;
                let start = counter;
                skip_run(input, &mut counter, RunClass::Text);
                proof {
                    lemma_run_end_bounds(input@, start as nat, RunClass::Text);
                }
                t = Token {
                    kind: TokenKind::String,
                    start: start,
                    end: counter + 1,
                    value: collect_chars(input, start, counter),
                };
                if counter < input.len() {
                    counter += 1;
                }
            } else if ('a' <= c && c <= 'z') || ('A' <= c && c <= 'Z') || c == '_' {
                t = match_rest(input, &mut counter, RunClass::Word, TokenKind::Identifier);
            } else if c == '.' && counter + 1 < input.len() && input[counter + 1] == '.' {
                let value = collect_chars(input, counter, counter + 2);
                proof {
                    assert(input@.subrange(counter as int, counter + 2) =~= seq!['.', '.']);
                }
                t = Token { kind: TokenKind::Elipsis, start: counter, end: counter + 2, value };
                counter += 2;
            } else if c == '+' || c == '-' || c == '/' || c == '*' || c == '&' || c == '|' || c
                == '^' || c == '%' {
                t = match_rest(input, &mut counter, RunClass::Operator(c), TokenKind::Operator(c));
            } else if c == '(' || c == '[' || c == '{' {
                t = single(input, counter, TokenKind::OpeningBracket(c));
                counter += 1;
            } else if c == ')' || c == ']' || c == '}' {
                t = single(input, counter, TokenKind::ClosingBracket(c));
                counter += 1;
            } else if c == ':' {
                t = single(input, counter, TokenKind::Colon);
                counter += 1;
            } else if c == ',' {
                t = single(input, counter, TokenKind::Comma);
                counter += 1;
            } else if c == ';' {
                t = single(input, counter, TokenKind::Semicolon);
                counter += 1;
            } else if c == '=' {
                t = single(input, counter, TokenKind::Equals);
                counter += 1;
            } else {
                return Err(CellTailError::new(&PointError(counter), unexpected_char(c)));
            }
            result.push(t);
            proof {
                assert(token_views(result@) =~= token_views(old_result).push(t@));
                match scan(input@, counter as nat) {
                    Ok(rest) => {
                        assert(token_views(result@) + rest =~= token_views(old_result) + (seq![t@]
                            + rest));
                    },
                    Err(_) => {},
                }
            }
        }
    }
    proof {
        assert(token_views(result@) + Seq::<TokenView>::empty() =~= token_views(result@));
    }
    Ok(result)
}

} // verus!
