use crate::attributes::IOFormat;
use crate::interpreter::{cells_view, Cell, CellVal};
use crate::literal::{lemma_views_of, views_of, Literal, Val};
use crate::text::{push_char, push_text};
use vstd::prelude::*;

verus! {

/// The decimal digit `d`, below ten.
pub open spec fn digit_char(d: nat) -> char {
    seq!['0', '1', '2', '3', '4', '5', '6', '7', '8', '9'][d as int]
}

/// The decimal digits of `n`, the most significant first, without leading
/// zeros (`0` is one digit).
pub open spec fn digits_of(n: nat) -> Seq<char>
    decreases n,
{
    if n < 10 {
        seq![digit_char(n)]
    } else {
        digits_of(n / 10).push(digit_char(n % 10))
    }
}

/// `k` in decimal, with a `-` in front when it is negative.
pub open spec fn decimal_of(k: int) -> Seq<char> {
    if k < 0 {
        seq!['-'] + digits_of((-k) as nat)
    } else {
        digits_of(k as nat)
    }
}

/// Relies on `format!` with `{}` on an `isize`: its decimal digits, after a
/// `-` when it is negative.
#[verifier::external_body]
pub(crate) fn decimal(k: isize) -> (r: String)
    ensures
        r@ == decimal_of(k as int),
{
    format!("{}", k)
}

/// `s` right-justified to a width of four characters with spaces.
pub open spec fn pad4(s: Seq<char>) -> Seq<char> {
    if s.len() < 4 {
        Seq::new((4 - s.len()) as nat, |i: int| ' ') + s
    } else {
        s
    }
}

/// The text of a value inside another: a number in decimal, `NULL` for
/// `Absent`, and a tuple as `(` followed by each element and `, `, then `)`.
pub open spec fn render_plain(v: Val) -> Seq<char>
    decreases v, 1nat,
{
    match v {
        Val::Absent => "NULL"@,
        Val::Int(k) => decimal_of(k as int),
        Val::Tup(s) => "("@ + elems_text(s, s.len()) + ")"@,
    }
}

/// The texts of the first `n` elements of `s`, each followed by `, `.
pub open spec fn elems_text(s: Seq<Val>, n: nat) -> Seq<char>
    decreases s, n,
{
    if n == 0 || n > s.len() {
        Seq::empty()
    } else {
        elems_text(s, (n - 1) as nat) + render_plain(s[n - 1]) + ", "@
    }
}

/// The text of a value for tracing: a number right-justified to a width of
/// four, anything else as `render_plain` gives it.
pub open spec fn render_val(v: Val) -> Seq<char> {
    match v {
        Val::Int(k) => pad4(decimal_of(k as int)),
        _ => render_plain(v),
    }
}

/// The text of the cell at `i` in a traced row of `cells`: a cell with a value
/// on top, or one strictly inside the row, shows its three slots; otherwise
/// the first cell shows only what it holds from the right and the last only
/// what it holds from the left.
pub open spec fn cell_text(cells: Seq<CellVal>, i: int) -> Seq<char> {
    let c = cells[i];
    if !(c.1 is Absent) || (i > 0 && i < cells.len() - 1) {
        "("@ + render_val(c.0) + ", "@ + render_val(c.1) + ", "@ + render_val(c.2) + ") "@
    } else if i == 0 {
        render_val(c.2) + ") "@
    } else if i == cells.len() - 1 {
        "("@ + render_val(c.0) + ","@
    } else {
        Seq::empty()
    }
}

/// The traced row of the first `n` cells of `cells`.
pub open spec fn cells_text_upto(cells: Seq<CellVal>, n: nat) -> Seq<char>
    decreases n,
{
    if n == 0 || n > cells.len() {
        Seq::empty()
    } else {
        cells_text_upto(cells, (n - 1) as nat) + cell_text(cells, n - 1)
    }
}

/// The traced row of the tape `cells`.
pub open spec fn cells_text(cells: Seq<CellVal>) -> Seq<char> {
    cells_text_upto(cells, cells.len())
}

/// A code that names a character: at most U+10FFFF and not a surrogate.
pub open spec fn valid_code(i: int) -> bool {
    0 <= i <= 0x10FFFF && !(0xD800 <= i <= 0xDFFF)
}

/// The code of the character that stands for one output value: the value
/// itself when it names a character, U+FFFD when it does not, and `?` for an
/// output that is not an integer.
pub open spec fn output_code(o: Option<isize>) -> int {
    match o {
        Some(i) => if valid_code(i as int) {
            i as int
        } else {
            0xFFFD
        },
        None => '?' as int,
    }
}

/// The text of the first `n` output values in decimal: each integer followed
/// by `, `, and `???, ` for an output that is not an integer.
pub open spec fn numbers_text(result: Seq<Option<isize>>, n: nat) -> Seq<char>
    decreases n,
{
    if n == 0 || n > result.len() {
        Seq::empty()
    } else {
        numbers_text(result, (n - 1) as nat) + match result[n - 1] {
            Some(i) => decimal_of(i as int) + ", "@,
            None => "???, "@,
        }
    }
}

/// `r` is the output text of `result` in the format `format`: one character
/// for each value (see `output_code`), or the values in decimal (see
/// `numbers_text`).
pub open spec fn output_text(result: Seq<Option<isize>>, format: IOFormat, r: Seq<char>) -> bool {
    match format {
        IOFormat::Characters => r.len() == result.len() && forall|j: int|
            0 <= j < result.len() ==> #[trigger] r[j] as int == output_code(result[j]),
        IOFormat::Numbers => r == numbers_text(result, result.len()),
    }
}

/// Relies on `char::from_u32`: the character with the code `code`, which
/// exists unless `code` is past U+10FFFF or a surrogate.
#[verifier::external_body]
fn char_from_code(code: u32) -> (r: Option<char>)
    ensures
        r is Some <==> valid_code(code as int),
        r is Some ==> r->0 as int == code as int,
{
    char::from_u32(code)
}

impl Literal {
    /// The text of this literal inside another (see `render_plain`).
    pub fn render_plain(&self) -> (r: String)
        ensures
            r@ == render_plain(self@),
        decreases self,
    {
        match self {
            Literal::Null => "NULL".to_owned(),
            Literal::Number(k) => decimal(*k),
            Literal::Tuple(v) => {
                let mut out = "(".to_owned();
                let ghost s = views_of(v@);
                proof {
                    lemma_views_of(v@);
                }
                let mut i: usize = 0;
                while i < v.len()
                    invariant
                        i <= v@.len(),
                        s == views_of(v@),
                        s.len() == v@.len(),
                        forall|j: int| 0 <= j < v@.len() ==> #[trigger] s[j] == v@[j]@,
                        *self == Literal::Tuple(*v),
                        out@ == "("@ + elems_text(s, i as nat),
                    decreases v@.len() - i,
                {
                    proof {
                        assert(decreases_to!(*self => (*self)->Tuple_0));
                        assert(decreases_to!((*self)->Tuple_0 => (*self)->Tuple_0[i as int]));
                    }
                    let t = v[i].render_plain();
                    push_text(&mut out, t.as_str());
                    push_text(&mut out, ", ");
                    i += 1;
                    assert(out@ =~= "("@ + elems_text(s, i as nat));
                }
                push_text(&mut out, ")");
                out
            },
        }
    }

    /// The text of this literal for tracing (see `render_val`).
    pub fn render(&self) -> (r: String)
        ensures
            r@ == render_val(self@),
    {
        match self {
            Literal::Number(k) => {
                let digits = decimal(*k);
                let n = digits.as_str().unicode_len();
                let mut out = String::new();
                let mut i: usize = n;
                while i < 4
                    invariant
                        n <= i <= 4 || (n > 4 && i == n),
                        out@ == Seq::new((i - n) as nat, |j: int| ' '),
                    decreases 4 - i,
                {
                    push_char(&mut out, ' ');
                    i += 1;
                    assert(out@ =~= Seq::new((i - n) as nat, |j: int| ' '));
                }
                push_text(&mut out, digits.as_str());
                proof {
                    if n >= 4 {
                        assert(out@ =~= digits@);
                    } else {
                        assert(out@ =~= Seq::new((4 - n) as nat, |j: int| ' ') + digits@);
                    }
                }
                out
            },
            _ => self.render_plain(),
        }
    }
}

/// The traced row of the tape `cells` (see `cells_text`).
pub fn render_cells(cells: &Vec<Cell>) -> (r: String)
    ensures
        r@ == cells_text(cells_view(cells@)),
{
    let ghost cv = cells_view(cells@);
    let n = cells.len();
    let mut out = String::new();
    let mut i: usize = 0;
    while i < n
        invariant
            i <= n,
            n == cells@.len(),
            cv == cells_view(cells@),
            out@ == cells_text_upto(cv, i as nat),
        decreases n - i,
    {
        let c = &cells[i];
        assert(cv[i as int] == c@);
        if !c.value_from_top.is_null() || (i > 0 && i < n - 1) {
            push_text(&mut out, "(");
            push_text(&mut out, c.value_from_left.render().as_str());
            push_text(&mut out, ", ");
            push_text(&mut out, c.value_from_top.render().as_str());
            push_text(&mut out, ", ");
            push_text(&mut out, c.value_from_right.render().as_str());
            push_text(&mut out, ") ");
        } else if i == 0 {
            push_text(&mut out, c.value_from_right.render().as_str());
            push_text(&mut out, ") ");
        } else if i == n - 1 {
            push_text(&mut out, "(");
            push_text(&mut out, c.value_from_left.render().as_str());
            push_text(&mut out, ",");
        }
        proof {
            assert(out@ =~= cells_text_upto(cv, i as nat) + cell_text(cv, i as int));
        }
        i += 1;
    }
    out
}

/// The output text of `result` in the format `format` (see `output_text`).
pub fn render_output(result: &Vec<Option<isize>>, format: IOFormat) -> (r: String)
    ensures
        output_text(result@, format, r@),
{
    let n = result.len();
    let mut out = String::new();
    let mut i: usize = 0;
    match format {
        IOFormat::Characters => {
            while i < n
                invariant
                    i <= n,
                    n == result@.len(),
                    out@.len() == i,
                    forall|j: int| 0 <= j < i ==> #[trigger] out@[j] as int == output_code(result@[j]),
                decreases n - i,
            {
                let c = match result[i] {
                    Some(k) => {
                        if 0 <= k && k <= 0x10FFFF {
                            match char_from_code(k as u32) {
                                Some(c) => {
                                    assert(valid_code(k as int));
                                    c
                                },
                                None => {
                                    assert(!valid_code(k as int));
                                    '\u{FFFD}'
                                },
                            }
                        } else {
                            '\u{FFFD}'
                        }
                    },
                    None => '?',
                };
                assert('\u{FFFD}' as int == 0xFFFD);
                assert('?' as int == 63);
                assert(c as int == output_code(result@[i as int]));
                let ghost before = out@;
                push_char(&mut out, c);
                assert(out@[i as int] == c);
                assert(forall|j: int| 0 <= j < i ==> out@[j] == before[j]);
                i += 1;
            }
        },
        IOFormat::Numbers => {
            while i < n
                invariant
                    i <= n,
                    n == result@.len(),
                    out@ == numbers_text(result@, i as nat),
                decreases n - i,
            {
                match result[i] {
                    Some(k) => {
                        push_text(&mut out, decimal(k).as_str());
                        push_text(&mut out, ", ");
                    },
                    None => push_text(&mut out, "???, "),
                }
                i += 1;
                assert(out@ =~= numbers_text(result@, i as nat));
            }
        },
    }
    out
}

} // verus!
