use crate::attributes::{Attributes, IOFormat, InputSource};
use crate::errors::{CellTailError, CellTailResult};
use crate::lexer::{first_of_kind, lemma_lex_views, pieces_upto, LexView, LexerToken, TokenGroup};
use crate::parse_expression::{
    lemma_first_of_kind_bounds, lemma_next_of_kind, next_of_kind, parse_number, parsed_isize,
    token_at,
};
use crate::text::{chars_of, is_text};
use crate::tokenizer::TokenKind;
use vstd::prelude::*;

verus! {

/// `s` in upper case, by Unicode's case mapping.
pub uninterp spec fn upper_of(s: Seq<char>) -> Seq<char>;

/// `s` in lower case, by Unicode's case mapping.
pub uninterp spec fn lower_of(s: Seq<char>) -> Seq<char>;

/// Relies on `str::to_uppercase`: the result depends on the characters alone.
#[verifier::external_body]
fn uppercase(s: &String) -> (r: String)
    ensures
        r@ == upper_of(s@),
{
    s.to_uppercase()
}

/// Relies on `str::to_lowercase`: the result depends on the characters alone.
#[verifier::external_body]
fn lowercase(s: &String) -> (r: String)
    ensures
        r@ == lower_of(s@),
{
    s.to_lowercase()
}

/// The number that the group `g` spells: a number token, or `-` and a number
/// token; `None` for anything else, or a number that does not fit.
pub open spec fn number_value(g: Seq<LexView>) -> Option<isize> {
    if g.len() == 2 && token_at(g, 0) is Some && token_at(g, 0)->Some_0.0 == TokenKind::Operator(
        '-',
    ) && token_at(g, 1) is Some && token_at(g, 1)->Some_0.0 == TokenKind::Number {
        match parsed_isize(token_at(g, 1)->Some_0.3) {
            Some(n) => if n == isize::MIN {
                None
            } else {
                Some((-n) as isize)
            },
            None => None,
        }
    } else if g.len() == 1 && token_at(g, 0) is Some && token_at(g, 0)->Some_0.0
        == TokenKind::Number {
        parsed_isize(token_at(g, 0)->Some_0.3)
    } else {
        None
    }
}

/// The number that `input` spells (see `number_value`).
pub fn parse_as_number(input: &TokenGroup) -> (r: CellTailResult<isize>)
    ensures
        r is Ok <==> number_value(input@.1) is Some,
        r is Ok ==> r->Ok_0 == number_value(input@.1)->Some_0,
{
    proof {
        lemma_lex_views(input.contents@);
    }
    if input.contents.len() == 2 {
        if let (LexerToken::BasicToken(sign), LexerToken::BasicToken(digits)) = (
            &input.contents[0],
            &input.contents[1],
        ) {
            if sign.kind == TokenKind::Operator('-') && digits.kind == TokenKind::Number {
                return match parse_number(&digits.value) {
                    Some(n) => {
                        if n == isize::MIN {
                            Err(
                                CellTailError::new(
                                    input,
                                    "Failed to parse negative number literal".to_owned(),
                                ),
                            )
                        } else {
                            Ok(-n)
                        }
                    },
                    None => Err(
                        CellTailError::new(
                            input,
                            "Failed to parse negative number literal".to_owned(),
                        ),
                    ),
                };
            }
        }
        Err(
            CellTailError::new(
                input,
                "Failure parsing as negative number literal, expected 2 tokens with the left being '-'".to_owned(),
            ),
        )
    } else if input.contents.len() == 1 {
        if let LexerToken::BasicToken(digits) = &input.contents[0] {
            if digits.kind == TokenKind::Number {
                return match parse_number(&digits.value) {
                    Some(n) => Ok(n),
                    None => Err(
                        CellTailError::new(
                            input,
                            "Failed to parse positive number literal".to_owned(),
                        ),
                    ),
                };
            }
        }
        Err(CellTailError::new(input, "Invalid positive number literal".to_owned()))
    } else {
        Err(CellTailError::new(input, "Empty or too long number literal".to_owned()))
    }
}

/// The name of the cap on generations, in any of its spellings.
pub open spec fn is_max_name(name: Seq<char>) -> bool {
    name == "M"@ || name == "Max"@ || name == "MaxIterations"@
}

/// The name of the input attribute.
pub open spec fn is_input_name(name: Seq<char>) -> bool {
    name == "I"@ || name == "Input"@
}

/// The name of the output attribute.
pub open spec fn is_output_name(name: Seq<char>) -> bool {
    name == "O"@ || name == "Output"@
}

/// The name of the tracing attribute.
pub open spec fn is_debug_name(name: Seq<char>) -> bool {
    name == "D"@ || name == "Debug"@
}

/// A name is the name of at most one attribute.
proof fn lemma_attribute_names_differ(n: Seq<char>)
    ensures
        is_max_name(n) ==> !is_input_name(n) && !is_output_name(n) && !is_debug_name(n),
        is_input_name(n) ==> !is_output_name(n) && !is_debug_name(n),
        is_output_name(n) ==> !is_debug_name(n),
{
    reveal_strlit("M");
    reveal_strlit("Max");
    reveal_strlit("MaxIterations");
    reveal_strlit("I");
    reveal_strlit("Input");
    reveal_strlit("O");
    reveal_strlit("Output");
    reveal_strlit("D");
    reveal_strlit("Debug");
    if is_max_name(n) {
        assert(n[0] == 'M');
    }
    if is_input_name(n) {
        assert(n[0] == 'I');
    }
    if is_output_name(n) {
        assert(n[0] == 'O');
    }
}

proof fn lemma_attr_apply_some(name: Seq<char>, value: Seq<LexView>, before: AttrsView)
    ensures
        attr_apply(name, value, before) is Some <==> attr_valid(name, value),
{
    lemma_attribute_names_differ(name);
}

/// The format that the upper-case word `w` names.
pub open spec fn format_of(w: Seq<char>) -> Option<IOFormat> {
    if w == "N"@ || w == "NUMBERS"@ || w == "NRS"@ {
        Some(IOFormat::Numbers)
    } else if w == "C"@ || w == "CHARACTERS"@ || w == "CHARS"@ {
        Some(IOFormat::Characters)
    } else {
        None
    }
}

/// The input source as plain values.
pub enum InputView {
    StdIn(IOFormat),
    Arg(IOFormat),
    Constant(Seq<isize>),
}

/// The plain values of an input source.
pub open spec fn input_view(i: InputSource) -> InputView {
    match i {
        InputSource::StdIn(f) => InputView::StdIn(f),
        InputSource::Arg(f) => InputView::Arg(f),
        InputSource::Constant(v) => InputView::Constant(v@),
    }
}

/// The numbers that the first `n` pieces of `ps` spell (see `number_value`).
pub open spec fn numbers_of(ps: Seq<Seq<LexView>>, n: nat) -> Option<Seq<isize>>
    decreases n,
{
    if n == 0 || n > ps.len() {
        Some(Seq::empty())
    } else {
        match (numbers_of(ps, (n - 1) as nat), number_value(ps[n - 1])) {
            (Some(v), Some(k)) => Some(v.push(k)),
            _ => None,
        }
    }
}

/// The input that the value `g` of the input attribute names: numbers between
/// commas; two words, a source (`I`/`STDIN`, or `C`/`CMD`/`ARGS`/... for the
/// command line) and a format, in any case; a text, whose characters are the
/// input; or one number.
pub open spec fn input_of(g: Seq<LexView>) -> Option<InputView> {
    if next_of_kind(g, TokenKind::Comma, 0) < g.len() {
        match numbers_of(
            pieces_upto(g, TokenKind::Comma, g.len()),
            pieces_upto(g, TokenKind::Comma, g.len()).len(),
        ) {
            Some(v) => Some(InputView::Constant(v)),
            None => None,
        }
    } else if g.len() == 2 && token_at(g, 0) is Some && token_at(g, 1) is Some && token_at(
        g,
        0,
    )->Some_0.0 == TokenKind::Identifier && token_at(g, 1)->Some_0.0 == TokenKind::Identifier {
        let source = upper_of(token_at(g, 0)->Some_0.3);
        match format_of(upper_of(token_at(g, 1)->Some_0.3)) {
            None => None,
            Some(f) => if source == "I"@ || source == "STDIN"@ {
                Some(InputView::StdIn(f))
            } else if source == "C"@ || source == "CMD"@ || source == "COMMANDLINEARGUMENTS"@
                || source == "ARGS"@ || source == "ARGV"@ || source == "A"@ {
                Some(InputView::Arg(f))
            } else {
                None
            },
        }
    } else if g.len() == 1 && token_at(g, 0) is Some && token_at(g, 0)->Some_0.0
        == TokenKind::String {
        Some(InputView::Constant(token_at(g, 0)->Some_0.3.map_values(|c: char| c as u32 as isize)))
    } else {
        match number_value(g) {
            Some(k) => Some(InputView::Constant(seq![k])),
            None => None,
        }
    }
}

/// The output format that the value `g` of the output attribute names: one
/// word, in any case.
pub open spec fn output_of(g: Seq<LexView>) -> Option<IOFormat> {
    if g.len() == 1 && token_at(g, 0) is Some && token_at(g, 0)->Some_0.0 == TokenKind::Identifier {
        let w = lower_of(token_at(g, 0)->Some_0.3);
        if w == "c"@ || w == "chars"@ || w == "characters"@ {
            Some(IOFormat::Characters)
        } else if w == "n"@ || w == "d"@ || w == "numbers"@ || w == "decimal"@ {
            Some(IOFormat::Numbers)
        } else {
            None
        }
    } else {
        None
    }
}

/// The tracing flag that the value `g` of the debug attribute names: its first
/// element, a word of yes or no, in any case.
pub open spec fn debug_of(g: Seq<LexView>) -> Option<bool> {
    if g.len() >= 1 && token_at(g, 0) is Some && token_at(g, 0)->Some_0.0 == TokenKind::Identifier {
        let w = lower_of(token_at(g, 0)->Some_0.3);
        if w == "t"@ || w == "y"@ || w == "true"@ || w == "yes"@ {
            Some(true)
        } else if w == "n"@ || w == "f"@ || w == "no"@ || w == "false"@ {
            Some(false)
        } else {
            None
        }
    } else {
        None
    }
}

/// The numbers that the comma-separated pieces of `value` spell.
fn parse_number_list(value: &TokenGroup) -> (r: CellTailResult<Vec<isize>>)
    ensures
        r is Ok <==> numbers_of(
            pieces_upto(value@.1, TokenKind::Comma, value@.1.len()),
            pieces_upto(value@.1, TokenKind::Comma, value@.1.len()).len(),
        ) is Some,
        r is Ok ==> r->Ok_0@ == numbers_of(
            pieces_upto(value@.1, TokenKind::Comma, value@.1.len()),
            pieces_upto(value@.1, TokenKind::Comma, value@.1.len()).len(),
        )->Some_0,
{
    let parts = value.split_all(TokenKind::Comma);
    let ghost ps = pieces_upto(value@.1, TokenKind::Comma, value@.1.len());
    let mut out: Vec<isize> = Vec::new();
    let mut i: usize = 0;
    while i < parts.len()
        invariant
            i <= parts@.len(),
            parts@.len() == ps.len(),
            ps == pieces_upto(value@.1, TokenKind::Comma, value@.1.len()),
            forall|j: int| 0 <= j < parts@.len() ==> #[trigger] parts@[j]@.1 == ps[j],
            numbers_of(ps, i as nat) == Some(out@),
        decreases parts@.len() - i,
    {
        let n = match parse_as_number(&parts[i]) {
            Ok(n) => n,
            Err(e) => {
                proof {
                    assert(parts@[i as int]@.1 == ps[i as int]);
                    assert(numbers_of(ps, (i + 1) as nat) is None);
                    lemma_numbers_stay_none(ps, (i + 1) as nat, ps.len());
                }
                return Err(e);
            },
        };
        out.push(n);
        i += 1;
    }
    Ok(out)
}

proof fn lemma_numbers_stay_none(ps: Seq<Seq<LexView>>, k: nat, n: nat)
    requires
        k <= n <= ps.len(),
        numbers_of(ps, k) is None,
    ensures
        numbers_of(ps, n) is None,
    decreases n - k,
{
    if k < n {
        lemma_numbers_stay_none(ps, k, (n - 1) as nat);
    }
}

/// The format that the upper-case word `word` names (see `format_of`).
fn format_named(word: &String) -> (r: Option<IOFormat>)
    ensures
        r == format_of(word@),
{
    if is_text(word, "N") || is_text(word, "NUMBERS") || is_text(word, "NRS") {
        Some(IOFormat::Numbers)
    } else if is_text(word, "C") || is_text(word, "CHARACTERS") || is_text(word, "CHARS") {
        Some(IOFormat::Characters)
    } else {
        None
    }
}

/// The input attribute set from `value` (see `input_of`).
fn parse_input(value: &TokenGroup) -> (r: CellTailResult<InputSource>)
    ensures
        r is Ok <==> input_of(value@.1) is Some,
        r is Ok ==> input_view(r->Ok_0) == input_of(value@.1)->Some_0,
{
    proof {
        lemma_lex_views(value.contents@);
        lemma_next_of_kind(value@.1, TokenKind::Comma, 0);
    }
    if value.contains(TokenKind::Comma) {
        let result = parse_number_list(value)?;
        return Ok(InputSource::Constant(result));
    }
    if value.contents.len() == 2 {
        if let (LexerToken::BasicToken(input_type), LexerToken::BasicToken(input_format)) = (
            &value.contents[0],
            &value.contents[1],
        ) {
            if input_type.kind == TokenKind::Identifier && input_format.kind
                == TokenKind::Identifier {
                let format = match format_named(&uppercase(&input_format.value)) {
                    Some(f) => f,
                    None => {
                        return Err(
                            CellTailError::new(
                                value,
                                "Invalid value for input format, expected one of 'NUMBERS' or 'CHARS'".to_owned(),
                            ),
                        );
                    },
                };
                let source = uppercase(&input_type.value);
                if is_text(&source, "I") || is_text(&source, "STDIN") {
                    return Ok(InputSource::StdIn(format));
                } else if is_text(&source, "C") || is_text(&source, "CMD") || is_text(
                    &source,
                    "COMMANDLINEARGUMENTS",
                ) || is_text(&source, "ARGS") || is_text(&source, "ARGV") || is_text(
                    &source,
                    "A",
                ) {
                    return Ok(InputSource::Arg(format));
                } else {
                    return Err(
                        CellTailError::new(
                            value,
                            "Invalid value for input mode, expected one of 'STDIN', 'CMD'".to_owned(),
                        ),
                    );
                }
            }
        }
    }
    if value.contents.len() == 1 {
        if let LexerToken::BasicToken(text) = &value.contents[0] {
            if text.kind == TokenKind::String {
                let chars = chars_of(&text.value);
                let mut codes: Vec<isize> = Vec::new();
                let mut i: usize = 0;
                while i < chars.len()
                    invariant
                        i <= chars@.len(),
                        codes@ == chars@.subrange(0, i as int).map_values(
                            |c: char| c as u32 as isize,
                        ),
                    decreases chars@.len() - i,
                {
                    codes.push(chars[i] as u32 as isize);
                    i += 1;
                    assert(codes@ =~= chars@.subrange(0, i as int).map_values(
                        |c: char| c as u32 as isize,
                    ));
                }
                assert(chars@.subrange(0, i as int) =~= chars@);
                return Ok(InputSource::Constant(codes));
            }
        }
    }
    match parse_as_number(value) {
        Ok(number) => {
            let v = vec![number];
            assert(v@ =~= seq![number]);
            Ok(InputSource::Constant(v))
        },
        Err(_) => Err(
            CellTailError::new(
                value,
                "Invalid attribute value for attribute \"input\", expected 2 words or a comma seperated list of numbers".to_owned(),
            ),
        ),
    }
}

/// The attributes as plain values: input, output format, tracing, cap.
pub type AttrsView = (InputView, IOFormat, bool, Option<isize>);

/// The plain values of `a`.
pub open spec fn attrs_view(a: Attributes) -> AttrsView {
    (input_view(a.input_mode), a.output_mode, a.debug, a.max_iterations)
}

/// The attributes after the attribute `name` is set from the value `value`,
/// from `before`: `Input`/`I` takes `input_of`, `Output`/`O` `output_of`,
/// `Debug`/`D` `debug_of`, `MaxIterations`/`Max`/`M` the cap on generations,
/// `number_value`; the other attributes stay as they were. `None` for any other
/// name, or a value that does not fit the attribute.
pub open spec fn attr_apply(name: Seq<char>, value: Seq<LexView>, before: AttrsView) -> Option<
    AttrsView,
> {
    if is_max_name(name) {
        match number_value(value) {
            Some(n) => Some((before.0, before.1, before.2, Some(n))),
            None => None,
        }
    } else if is_input_name(name) {
        match input_of(value) {
            Some(i) => Some((i, before.1, before.2, before.3)),
            None => None,
        }
    } else if is_output_name(name) {
        match output_of(value) {
            Some(f) => Some((before.0, f, before.2, before.3)),
            None => None,
        }
    } else if is_debug_name(name) {
        match debug_of(value) {
            Some(b) => Some((before.0, before.1, b, before.3)),
            None => None,
        }
    } else {
        None
    }
}

/// Setting the attribute `name` from `value` succeeds (whatever the
/// attributes before).
pub open spec fn attr_valid(name: Seq<char>, value: Seq<LexView>) -> bool {
    ||| is_max_name(name) && number_value(value) is Some
    ||| is_input_name(name) && input_of(value) is Some
    ||| is_output_name(name) && output_of(value) is Some
    ||| is_debug_name(name) && debug_of(value) is Some
}

/// How setting the attribute `name` from the value `value` goes: it succeeds
/// (`ok`) exactly when `attr_valid` holds, and then the attributes `after` it
/// are those of `attr_apply` from those `before` it.
pub open spec fn attribute_set(
    name: Seq<char>,
    value: Seq<LexView>,
    before: Attributes,
    after: Attributes,
    ok: bool,
) -> bool {
    &&& ok <==> attr_valid(name, value)
    &&& ok ==> attr_apply(name, value, attrs_view(before)) == Some(attrs_view(after))
}

/// The name and the value of the attribute statement `g`, `name = value`,
/// where the name is one word; `None` for any other statement.
pub open spec fn attribute_parts(g: Seq<LexView>) -> Option<(Seq<char>, Seq<LexView>)> {
    match first_of_kind(g, TokenKind::Equals, 0) {
        None => None,
        Some(i) => if i == 1 && token_at(g, 0) is Some && token_at(g, 0)->Some_0.0
            == TokenKind::Identifier {
            Some((token_at(g, 0)->Some_0.3, g.subrange(2, g.len() as int)))
        } else {
            None
        },
    }
}

/// Sets the attribute `name` of `attrs` from `value`: `Input`/`I` (see
/// `input_of`), `Output`/`O` (see `output_of`), `Debug`/`D` (see `debug_of`),
/// or `MaxIterations`/`Max`/`M`, the cap on generations (see `number_value`).
/// Any other name is an error. The other attributes stay as they were.
pub fn parse_single_attribute(name: &String, value: TokenGroup, attrs: &mut Attributes) -> (r:
    CellTailResult<()>)
    ensures
        attribute_set(name@, value@.1, *old(attrs), *final(attrs), r is Ok),
{
    proof {
        lemma_lex_views(value.contents@);
        lemma_attribute_names_differ(name@);
        lemma_attr_apply_some(name@, value@.1, attrs_view(*attrs));
    }
    if is_text(name, "M") || is_text(name, "Max") || is_text(name, "MaxIterations") {
        let n = parse_as_number(&value)?;
        attrs.max_iterations = Some(n);
        return Ok(());
    }
    if is_text(name, "I") || is_text(name, "Input") {
        let source = parse_input(&value)?;
        attrs.input_mode = source;
        return Ok(());
    }
    if is_text(name, "O") || is_text(name, "Output") {
        if value.contents.len() != 1 {
            return Err(
                CellTailError::new(&value, "Invalid length for property \"output\"".to_owned()),
            );
        }
        if let LexerToken::BasicToken(word) = &value.contents[0] {
            if word.kind == TokenKind::Identifier {
                let val = lowercase(&word.value);
                if is_text(&val, "c") || is_text(&val, "chars") || is_text(&val, "characters") {
                    attrs.output_mode = IOFormat::Characters;
                    return Ok(());
                } else if is_text(&val, "n") || is_text(&val, "d") || is_text(&val, "numbers")
                    || is_text(&val, "decimal") {
                    attrs.output_mode = IOFormat::Numbers;
                    return Ok(());
                } else {
                    return Err(
                        CellTailError::new(
                            &value,
                            "Invalid output mode, must be one of \"characters\" or \"numbers\"".to_owned(),
                        ),
                    );
                }
            }
        }
        return Err(
            CellTailError::new(
                &value,
                "Invalid type for property \"output\", note: must be token, no parenthesis allowed here".to_owned(),
            ),
        );
    }
    if is_text(name, "D") || is_text(name, "Debug") {
        if value.contents.len() == 0 {
            return Err(CellTailError::new(&value, "Missing value for property \"debug\"".to_owned()));
        }
        if let LexerToken::BasicToken(word) = &value.contents[0] {
            if word.kind == TokenKind::Identifier {
                let val = lowercase(&word.value);
                if is_text(&val, "t") || is_text(&val, "y") || is_text(&val, "true") || is_text(
                    &val,
                    "yes",
                ) {
                    attrs.debug = true;
                    return Ok(());
                } else if is_text(&val, "n") || is_text(&val, "f") || is_text(&val, "no")
                    || is_text(&val, "false") {
                    attrs.debug = false;
                    return Ok(());
                } else {
                    return Err(
                        CellTailError::new(
                            &value,
                            "Invalid debug mode, must be one of \"true\" or \"false\"".to_owned(),
                        ),
                    );
                }
            }
        }
        return Err(
            CellTailError::new(
                &value,
                "Invalid type for property \"debug\", note: must be token, no parenthesis allowed here".to_owned(),
            ),
        );
    }
    Err(
        CellTailError::new(
            &value,
            "Unexpected property name, expected one of 'Input', 'I', 'Output', 'O', 'Debug', 'D', 'MaxIterations', 'Max', 'M'".to_owned(),
        ),
    )
}

/// Parses the statement `name = value` into `attributes` (see
/// `parse_single_attribute`); the name must be one word.
pub fn parse_attribute(input: TokenGroup, attributes: &mut Attributes) -> (r: CellTailResult<()>)
    ensures
        attribute_parts(input@.1) is None ==> r is Err,
        attribute_parts(input@.1) is Some ==> attribute_set(
            attribute_parts(input@.1)->Some_0.0,
            attribute_parts(input@.1)->Some_0.1,
            *old(attributes),
            *final(attributes),
            r is Ok,
        ),
{
    proof {
        lemma_lex_views(input.contents@);
    }
    if let Some((name, _, value)) = input.split_first(TokenKind::Equals) {
        proof {
            lemma_lex_views(name.contents@);
            lemma_first_of_kind_bounds(input@.1, TokenKind::Equals, 0);
        }
        if name.contents.len() != 1 {
            proof {
                assert(attribute_parts(input@.1) is None);
            }
            return Err(CellTailError::new(&name, "Too long attribute name".to_owned()));
        }
        if let LexerToken::BasicToken(word) = &name.contents[0] {
            if word.kind == TokenKind::Identifier {
                proof {
                    let g = input@.1;
                    let i = first_of_kind(g, TokenKind::Equals, 0)->Some_0;
                    assert(name@.1 == g.subrange(0, i as int));
                    assert(i == 1);
                    assert(name@.1[0] == g[0]);
                    assert(token_at(g, 0) == Some(word@));
                    assert(value@.1 == g.subrange(2, g.len() as int));
                    assert(attribute_parts(g) == Some((word.value@, value@.1)));
                }
                return parse_single_attribute(&word.value, value, attributes);
            }
        }
        proof {
            let g = input@.1;
            assert(name@.1[0] == g[0]);
            assert(attribute_parts(g) is None);
        }
        Err(CellTailError::new(&input, "Expected a attribute name".to_owned()))
    } else {
        Err(CellTailError::new(&input, "Invalid attribute definition".to_owned()))
    }
}

} // verus!
