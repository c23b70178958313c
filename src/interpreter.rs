use crate::attributes::IOFormat;
use crate::errors::{CellTailError, CellTailResult, UnkownLocationError};
use crate::parse_expression::{parse_number, parsed_isize};
use crate::render::{decimal, decimal_of};
use crate::text::{chars_of, collect_chars, push_text};
use crate::literal::{lemma_views_of, views_of, Literal, Val};
use crate::parser::Program;
use crate::pattern_list::{dispatch, PatternList};
use vstd::prelude::*;

verus! {

/// One position of the tape: the values that arrive from the left neighbour,
/// from above, and from the right neighbour.
#[derive(Debug)]
pub struct Cell {
    pub value_from_left: Literal,
    pub value_from_top: Literal,
    pub value_from_right: Literal,
}

/// The value of a cell: (from left, from top, from right).
pub type CellVal = (Val, Val, Val);

impl View for Cell {
    type V = CellVal;

    open spec fn view(&self) -> CellVal {
        (self.value_from_left@, self.value_from_top@, self.value_from_right@)
    }
}

/// The values of the cells of `s`, in order.
pub open spec fn cells_view(s: Seq<Cell>) -> Seq<CellVal> {
    s.map_values(|c: Cell| c@)
}

/// A cell with nothing in it.
pub open spec fn empty_cell() -> CellVal {
    (Val::Absent, Val::Absent, Val::Absent)
}

/// A cell takes part in a generation when one of its slots holds a value.
pub open spec fn is_active(c: CellVal) -> bool {
    !(c.0 is Absent && c.1 is Absent && c.2 is Absent)
}

/// A rule's result as what goes left, what stays on top, and what goes right:
/// a triple is taken apart, any other value stays on top alone.
pub open spec fn split_result(r: Val) -> CellVal {
    match r {
        Val::Tup(s) => if s.len() == 3 {
            (s[0], s[1], s[2])
        } else {
            (Val::Absent, r, Val::Absent)
        },
        _ => (Val::Absent, r, Val::Absent),
    }
}

/// Writes the output `out` of the cell at position `i` of the previous
/// generation into the buffer `buf`, whose positions are shifted by `off`.
/// A value going left from the first cell makes room with a new cell in front;
/// the buffer always keeps one empty cell past the position written.
pub open spec fn write_back(buf: Seq<CellVal>, off: nat, i: nat, out: CellVal) -> (
    Seq<CellVal>,
    nat,
) {
    let grow = i == 0 && !(out.0 is Absent);
    let b1 = if grow {
        seq![empty_cell()] + buf
    } else {
        buf
    };
    let o1 = if grow {
        off + 1
    } else {
        off
    };
    let w: int = (i + o1) as int;
    let b2 = if w + 1 >= b1.len() {
        b1.push(empty_cell())
    } else {
        b1
    };
    let b3 = if w > 0 {
        b2.update(w - 1, (b2[w - 1].0, b2[w - 1].1, out.0))
    } else {
        b2
    };
    let b4 = b3.update(w, (b3[w].0, out.1, b3[w].2));
    let b5 = b4.update(w + 1, (out.2, b4[w + 1].1, b4[w + 1].2));
    (b5, o1)
}

/// The buffer and its shift after the first `n` cells of `cells` have been
/// handled, starting from a copy of `cells`.
pub open spec fn generation_upto(
    cells: Seq<CellVal>,
    n: nat,
    rules: PatternList,
    fns: Seq<(String, PatternList)>,
) -> (Seq<CellVal>, nat)
    decreases n,
{
    if n == 0 || n > cells.len() {
        (cells, 0)
    } else {
        let prev = generation_upto(cells, (n - 1) as nat, rules, fns);
        let c = cells[n - 1];
        if !is_active(c) {
            prev
        } else {
            match dispatch(rules.0@, 0, Val::Tup(seq![c.0, c.1, c.2]), fns, 1) {
                None => prev,
                Some(r) => write_back(prev.0, prev.1, (n - 1) as nat, split_result(r)),
            }
        }
    }
}

/// The generation that follows `cells` under the global rules `rules`.
pub open spec fn next_generation(
    cells: Seq<CellVal>,
    rules: PatternList,
    fns: Seq<(String, PatternList)>,
) -> Seq<CellVal> {
    generation_upto(cells, cells.len(), rules, fns).0
}

/// The tape at the start: one cell for each input value, on top.
pub open spec fn initial_cells(input: Seq<isize>) -> Seq<CellVal> {
    input.map_values(|v: isize| (Val::Absent, Val::Int(v), Val::Absent))
}

/// What the tape hands out: for each cell with a value on top, in order, that
/// value when it is an integer and `None` for any other value.
pub open spec fn output_of(cells: Seq<CellVal>) -> Seq<Option<isize>>
    decreases cells.len(),
{
    if cells.len() == 0 {
        Seq::empty()
    } else {
        let rest = output_of(cells.drop_last());
        match cells.last().1 {
            Val::Absent => rest,
            Val::Int(k) => rest.push(Some(k)),
            _ => rest.push(None),
        }
    }
}

impl Cell {
    /// A cell with nothing in it.
    pub fn new() -> (r: Cell)
        ensures
            r@ == empty_cell(),
    {
        Cell { value_from_left: Literal::Null, value_from_top: Literal::Null, value_from_right: Literal::Null }
    }

    /// A copy of this cell.
    pub fn duplicate(&self) -> (r: Cell)
        ensures
            r@ == self@,
    {
        Cell {
            value_from_left: self.value_from_left.duplicate(),
            value_from_top: self.value_from_top.duplicate(),
            value_from_right: self.value_from_right.duplicate(),
        }
    }

    /// The two cells hold the same values.
    pub fn same_as(&self, other: &Cell) -> (r: bool)
        ensures
            r == (self@ == other@),
    {
        self.value_from_left.same_as(&other.value_from_left) && self.value_from_top.same_as(
            &other.value_from_top,
        ) && self.value_from_right.same_as(&other.value_from_right)
    }
}

/// A rule's result taken apart into what goes left, on top and right (see
/// `split_result`).
pub fn parse_literal(lit: Literal) -> (r: (Literal, Literal, Literal))
    ensures
        (r.0@, r.1@, r.2@) == split_result(lit@),
{
    match lit {
        Literal::Tuple(mut t) => {
            proof {
                lemma_views_of(t@);
            }
            if t.len() == 3 {
                let c = t.pop().unwrap();
                let b = t.pop().unwrap();
                let a = t.pop().unwrap();
                (a, b, c)
            } else {
                (Literal::Null, Literal::Tuple(t), Literal::Null)
            }
        },
        b => (Literal::Null, b, Literal::Null),
    }
}

/// A copy of the cells of `cells`.
fn copy_cells(cells: &Vec<Cell>) -> (r: Vec<Cell>)
    ensures
        r@.len() == cells@.len(),
        cells_view(r@) == cells_view(cells@),
{
    let mut out: Vec<Cell> = Vec::new();
    let mut i: usize = 0;
    while i < cells.len()
        invariant
            i <= cells@.len(),
            out@.len() == i,
            forall|j: int| 0 <= j < i ==> #[trigger] out@[j]@ == cells@[j]@,
        decreases cells@.len() - i,
    {
        out.push(cells[i].duplicate());
        i += 1;
    }
    assert(cells_view(out@) =~= cells_view(cells@));
    out
}

/// Sets the slot from the right of the cell at `w`.
fn set_from_right(buf: &mut Vec<Cell>, w: usize, v: Literal)
    requires
        w < old(buf)@.len(),
    ensures
        final(buf)@.len() == old(buf)@.len(),
        cells_view(final(buf)@) == cells_view(old(buf)@).update(
            w as int,
            (cells_view(old(buf)@)[w as int].0, cells_view(old(buf)@)[w as int].1, v@),
        ),
{
    let c = Cell {
        value_from_left: buf[w].value_from_left.duplicate(),
        value_from_top: buf[w].value_from_top.duplicate(),
        value_from_right: v,
    };
    buf.set(w, c);
    assert(cells_view(buf@) =~= cells_view(old(buf)@).update(
        w as int,
        (cells_view(old(buf)@)[w as int].0, cells_view(old(buf)@)[w as int].1, v@),
    ));
}

/// Sets the slot from the top of the cell at `w`.
fn set_from_top(buf: &mut Vec<Cell>, w: usize, v: Literal)
    requires
        w < old(buf)@.len(),
    ensures
        final(buf)@.len() == old(buf)@.len(),
        cells_view(final(buf)@) == cells_view(old(buf)@).update(
            w as int,
            (cells_view(old(buf)@)[w as int].0, v@, cells_view(old(buf)@)[w as int].2),
        ),
{
    let c = Cell {
        value_from_left: buf[w].value_from_left.duplicate(),
        value_from_top: v,
        value_from_right: buf[w].value_from_right.duplicate(),
    };
    buf.set(w, c);
    assert(cells_view(buf@) =~= cells_view(old(buf)@).update(
        w as int,
        (cells_view(old(buf)@)[w as int].0, v@, cells_view(old(buf)@)[w as int].2),
    ));
}

/// Sets the slot from the left of the cell at `w`.
fn set_from_left(buf: &mut Vec<Cell>, w: usize, v: Literal)
    requires
        w < old(buf)@.len(),
    ensures
        final(buf)@.len() == old(buf)@.len(),
        cells_view(final(buf)@) == cells_view(old(buf)@).update(
            w as int,
            (v@, cells_view(old(buf)@)[w as int].1, cells_view(old(buf)@)[w as int].2),
        ),
{
    let c = Cell {
        value_from_left: v,
        value_from_top: buf[w].value_from_top.duplicate(),
        value_from_right: buf[w].value_from_right.duplicate(),
    };
    buf.set(w, c);
    assert(cells_view(buf@) =~= cells_view(old(buf)@).update(
        w as int,
        (v@, cells_view(old(buf)@)[w as int].1, cells_view(old(buf)@)[w as int].2),
    ));
}

/// The generation that follows `cells` under the program's global rules (see
/// `next_generation`): every active cell of `cells` is handed, as the triple
/// (left, top, right), to the first global rule that matches it, and the
/// result is written to its neighbours and itself in a copy of `cells`.
pub fn interpret_iteration(cells: &Vec<Cell>, program: &Program) -> (r: Vec<Cell>)
    ensures
        cells_view(r@) == next_generation(
            cells_view(cells@),
            program.rules,
            program.functions@,
        ),
{
    let ghost cv = cells_view(cells@);
    let mut next_value = copy_cells(cells);
    let mut cell_offset: usize = 0;
    let mut index: usize = 0;
    while index < cells.len()
        invariant
            index <= cells@.len(),
            cv == cells_view(cells@),
            cell_offset <= 1,
            next_value@.len() >= cells@.len() + cell_offset,
            generation_upto(cv, index as nat, program.rules, program.functions@) == (
                cells_view(next_value@),
                cell_offset as nat,
            ),
        decreases cells@.len() - index,
    {
        let ghost prev_buf = cells_view(next_value@);
        let ghost prev_off = cell_offset as nat;
        let cell = &cells[index];
        assert(cv[index as int] == cell@);
        let active = !(cell.value_from_left.is_null() && cell.value_from_top.is_null()
            && cell.value_from_right.is_null());
        if active {
            let v: Vec<Literal> = vec![
                cell.value_from_left.duplicate(),
                cell.value_from_top.duplicate(),
                cell.value_from_right.duplicate(),
            ];
            proof {
                lemma_views_of(v@);
                assert(views_of(v@) =~= seq![cell@.0, cell@.1, cell@.2]);
            }
            let found = program.rules.apply_first_matching_pattern(
                Literal::Tuple(v),
                &program.functions,
            );
            if let Some(raw_result) = found {
                let ghost out = split_result(raw_result@);
                let result = parse_literal(raw_result);
                if index == 0 && !result.0.is_null() {
                    next_value.insert(0, Cell::new());
                    cell_offset += 1;
                    proof {
                        assert(cells_view(next_value@) =~= seq![empty_cell()] + prev_buf);
                    }
                }
                let w = index + cell_offset;
                let ghost b1 = cells_view(next_value@);
                if w >= next_value.len() - 1 {
                    next_value.push(Cell::new());
                    proof {
                        assert(cells_view(next_value@) =~= b1.push(empty_cell()));
                    }
                }
                if w > 0 {
                    set_from_right(&mut next_value, w - 1, result.0);
                }
                set_from_top(&mut next_value, w, result.1);
                set_from_left(&mut next_value, w + 1, result.2);
                proof {
                    assert(write_back(prev_buf, prev_off, index as nat, out) == (
                        cells_view(next_value@),
                        cell_offset as nat,
                    ));
                }
            }
        }
        index += 1;
    }
    next_value
}

/// The tape at the start: one cell for each value of `input`, on top.
pub fn initial_tape(input: &Vec<isize>) -> (r: Vec<Cell>)
    ensures
        cells_view(r@) == initial_cells(input@),
{
    let mut out: Vec<Cell> = Vec::new();
    let mut i: usize = 0;
    while i < input.len()
        invariant
            i <= input@.len(),
            out@.len() == i,
            forall|j: int|
                0 <= j < i ==> #[trigger] out@[j]@ == (Val::Absent, Val::Int(input@[j]), Val::Absent),
        decreases input@.len() - i,
    {
        out.push(
            Cell {
                value_from_left: Literal::Null,
                value_from_top: Literal::Number(input[i]),
                value_from_right: Literal::Null,
            },
        );
        i += 1;
    }
    assert(cells_view(out@) =~= initial_cells(input@));
    out
}

/// The two tapes hold the same cells, in the same order.
pub fn same_cells(a: &Vec<Cell>, b: &Vec<Cell>) -> (r: bool)
    ensures
        r == (cells_view(a@) == cells_view(b@)),
{
    if a.len() != b.len() {
        assert(cells_view(a@).len() != cells_view(b@).len());
        return false;
    }
    let mut i: usize = 0;
    while i < a.len()
        invariant
            i <= a@.len(),
            a@.len() == b@.len(),
            forall|j: int| 0 <= j < i ==> #[trigger] a@[j]@ == b@[j]@,
        decreases a@.len() - i,
    {
        if !a[i].same_as(&b[i]) {
            assert(cells_view(a@)[i as int] != cells_view(b@)[i as int]);
            return false;
        }
        i += 1;
    }
    assert(cells_view(a@) =~= cells_view(b@));
    true
}

/// What the tape hands out (see `output_of`).
pub fn get_output(cells: &Vec<Cell>) -> (r: Vec<Option<isize>>)
    ensures
        r@ == output_of(cells_view(cells@)),
{
    let mut out: Vec<Option<isize>> = Vec::new();
    let mut i: usize = 0;
    while i < cells.len()
        invariant
            i <= cells@.len(),
            out@ == output_of(cells_view(cells@).subrange(0, i as int)),
        decreases cells@.len() - i,
    {
        let ghost pre = cells_view(cells@).subrange(0, i as int);
        let ghost next = cells_view(cells@).subrange(0, i + 1);
        assert(next.drop_last() =~= pre);
        match &cells[i].value_from_top {
            Literal::Null => {},
            Literal::Number(k) => out.push(Some(*k)),
            Literal::Tuple(_) => out.push(None),
        }
        i += 1;
    }
    assert(cells_view(cells@).subrange(0, cells@.len() as int) =~= cells_view(cells@));
    out
}

/// Whether a generation changed the tape.
#[derive(Debug, Clone, Copy, PartialEq, Eq, Structural)]
pub enum Status {
    Changed,
    FixedPoint,
}

/// A run of a program: the tape and how many generations have been computed.
#[derive(Debug)]
pub struct Run {
    pub cells: Vec<Cell>,
    pub generation: usize,
}

/// The message of the error on a run that exceeds its cap `max`.
pub open spec fn iteration_limit_message(max: isize) -> Seq<char> {
    "Exceeded maximum iteration number "@ + decimal_of(max as int)
}

/// The message of the error on a run that exceeds its cap `max`.
fn limit_message(max: isize) -> (r: String)
    ensures
        r@ == iteration_limit_message(max),
{
    let mut m = "Exceeded maximum iteration number ".to_owned();
    push_text(&mut m, decimal(max).as_str());
    m
}

impl Run {
    /// A run at generation 0 on the tape made from `input`.
    pub fn new(input: &Vec<isize>) -> (r: Run)
        ensures
            cells_view(r.cells@) == initial_cells(input@),
            r.generation == 0,
    {
        Run { cells: initial_tape(input), generation: 0 }
    }

    /// Computes the next generation. It is an error when the count of
    /// generations then exceeds the program's cap; otherwise the result says
    /// whether the tape changed.
    pub fn advance(&mut self, program: &Program) -> (r: CellTailResult<Status>)
        requires
            old(self).generation < usize::MAX,
        ensures
            cells_view(final(self).cells@) == next_generation(
                cells_view(old(self).cells@),
                program.rules,
                program.functions@,
            ),
            final(self).generation == old(self).generation + 1,
            match program.attributes.max_iterations {
                Some(m) if final(self).generation > m => r is Err && r->Err_0.spec_description()
                    == iteration_limit_message(m) && r->Err_0.spec_start() is None
                    && r->Err_0.spec_end() is None,
                _ => r is Ok,
            },
            r is Ok ==> (r->Ok_0 == Status::Changed <==> cells_view(final(self).cells@)
                != cells_view(old(self).cells@)),
    {
        let new_cells = interpret_iteration(&self.cells, program);
        let modified = !same_cells(&self.cells, &new_cells);
        self.cells = new_cells;
        self.generation = self.generation + 1;
        if let Some(max_iteration_number) = program.attributes.max_iterations {
            if max_iteration_number < 0 || self.generation > max_iteration_number as usize {
                return Err(
                    CellTailError::new(&UnkownLocationError, limit_message(max_iteration_number)),
                );
            }
        }
        if modified {
            Ok(Status::Changed)
        } else {
            Ok(Status::FixedPoint)
        }
    }

    /// What the tape hands out now (see `output_of`).
    pub fn output(&self) -> (r: Vec<Option<isize>>)
        ensures
            r@ == output_of(cells_view(self.cells@)),
    {
        get_output(&self.cells)
    }
}

/// The pieces of `s` between its commas, which are dropped: one more piece
/// than there are commas.
pub open spec fn comma_pieces(s: Seq<char>, n: nat) -> Seq<Seq<char>>
    decreases n,
{
    if n == 0 || n > s.len() {
        seq![Seq::empty()]
    } else {
        let p = comma_pieces(s, (n - 1) as nat);
        if s[n - 1] == ',' {
            p.push(Seq::empty())
        } else {
            p.update(p.len() - 1, p.last().push(s[n - 1]))
        }
    }
}

/// The numbers that the comma-separated pieces of `s` spell, or `None` when one
/// of them spells none.
pub open spec fn numbers_of(pieces: Seq<Seq<char>>, n: nat) -> Option<Seq<isize>>
    decreases n,
{
    if n == 0 || n > pieces.len() {
        Some(Seq::empty())
    } else {
        match numbers_of(pieces, (n - 1) as nat) {
            None => None,
            Some(v) => match parsed_isize(pieces[n - 1]) {
                None => None,
                Some(k) => Some(v.push(k)),
            },
        }
    }
}

/// The input values that `data` holds in the format `format`: the code of each
/// character, or the numbers between its commas.
pub open spec fn contents_of(data: Seq<char>, format: IOFormat) -> Option<Seq<isize>> {
    match format {
        IOFormat::Characters => Some(data.map_values(|c: char| c as u32 as isize)),
        IOFormat::Numbers => numbers_of(comma_pieces(data, data.len()), comma_pieces(data, data.len()).len()),
    }
}

proof fn lemma_comma_pieces_len(s: Seq<char>, n: nat)
    ensures
        comma_pieces(s, n).len() >= 1,
    decreases n,
{
    if n > 0 && n <= s.len() {
        lemma_comma_pieces_len(s, (n - 1) as nat);
    }
}

proof fn lemma_numbers_stay_none(pieces: Seq<Seq<char>>, k: nat, n: nat)
    requires
        k <= n <= pieces.len(),
        numbers_of(pieces, k) is None,
    ensures
        numbers_of(pieces, n) is None,
    decreases n - k,
{
    if k < n {
        lemma_numbers_stay_none(pieces, k, (n - 1) as nat);
    }
}

/// The input values that `data` holds in the format `format` (see
/// `contents_of`); an error when a piece is not a number.
pub fn get_contents(data: &String, format: IOFormat) -> (r: CellTailResult<Vec<isize>>)
    requires
        data@.len() < usize::MAX,
    ensures
        r is Ok <==> contents_of(data@, format) is Some,
        r is Ok ==> r->Ok_0@ == contents_of(data@, format)->Some_0,
{
    let chars = chars_of(data);
    match format {
        IOFormat::Characters => {
            let mut out: Vec<isize> = Vec::new();
            let mut i: usize = 0;
            while i < chars.len()
                invariant
                    i <= chars@.len(),
                    out@ == chars@.subrange(0, i as int).map_values(|c: char| c as u32 as isize),
                decreases chars@.len() - i,
            {
                out.push(chars[i] as u32 as isize);
                i += 1;
                assert(out@ =~= chars@.subrange(0, i as int).map_values(|c: char| c as u32 as isize));
            }
            assert(chars@.subrange(0, i as int) =~= chars@);
            Ok(out)
        },
        IOFormat::Numbers => {
            let ghost s = chars@;
            let mut out: Vec<isize> = Vec::new();
            let mut start: usize = 0;
            let mut i: usize = 0;
            while i < chars.len()
                invariant
                    s == chars@,
                    s == data@,
                    format == IOFormat::Numbers,
                    s.len() < usize::MAX,
                    start <= i <= s.len(),
                    comma_pieces(s, i as nat).last() == s.subrange(start as int, i as int),
                    numbers_of(
                        comma_pieces(s, i as nat),
                        (comma_pieces(s, i as nat).len() - 1) as nat,
                    ) == Some(out@),
                decreases s.len() - i,
            {
                proof {
                    lemma_comma_pieces_len(s, i as nat);
                }
                let ghost p = comma_pieces(s, i as nat);
                if chars[i] == ',' {
                    let piece = collect_chars(&chars, start, i);
                    match parse_number(&piece) {
                        Some(k) => out.push(k),
                        None => {
                            proof {
                                let q = comma_pieces(s, (i + 1) as nat);
                                assert(q == p.push(Seq::empty()));
                                assert(q.len() == p.len() + 1);
                                assert(numbers_of(q, (q.len() - 1) as nat) == numbers_of(p, p.len()))
                                    by {
                                    lemma_numbers_prefix(p, q, p.len());
                                }
                                assert(p.last() == piece@);
                                lemma_numbers_to_end(s, (i + 1) as nat);

                            }
                            return Err(
                                CellTailError::new(
                                    &UnkownLocationError,
                                    "Failed to parse command line arguments".to_owned(),
                                ),
                            );
                        },
                    }
                    start = i + 1;
                    proof {
                        let q = comma_pieces(s, (i + 1) as nat);
                        assert(q == p.push(Seq::empty()));
                        lemma_numbers_prefix(p, q, p.len());
                        assert(q.last() =~= s.subrange(start as int, (i + 1) as int));
                    }
                } else {
                    proof {
                        let q = comma_pieces(s, (i + 1) as nat);
                        assert(q == p.update(p.len() - 1, p.last().push(s[i as int])));
                        assert(q.last() =~= s.subrange(start as int, (i + 1) as int));
                        lemma_numbers_prefix(p, q, (p.len() - 1) as nat);
                    }
                }
                i += 1;
            }
            proof {
                lemma_comma_pieces_len(s, i as nat);
            }
            let piece = collect_chars(&chars, start, i);
            match parse_number(&piece) {
                Some(k) => {
                    out.push(k);
                    Ok(out)
                },
                None => Err(
                    CellTailError::new(
                        &UnkownLocationError,
                        "Failed to parse command line arguments".to_owned(),
                    ),
                ),
            }
        },
    }
}

/// `numbers_of` on the first `n` pieces reads only those pieces.
proof fn lemma_numbers_prefix(p: Seq<Seq<char>>, q: Seq<Seq<char>>, n: nat)
    requires
        n <= p.len(),
        n <= q.len(),
        forall|j: int| 0 <= j < n ==> p[j] == q[j],
    ensures
        numbers_of(p, n) == numbers_of(q, n),
    decreases n,
{
    if n > 0 {
        lemma_numbers_prefix(p, q, (n - 1) as nat);
    }
}

/// Once the pieces finished so far hold one that is not a number, so do all of
/// them.
proof fn lemma_numbers_to_end(s: Seq<char>, i: nat)
    requires
        i <= s.len(),
        numbers_of(comma_pieces(s, i), (comma_pieces(s, i).len() - 1) as nat) is None,
    ensures
        numbers_of(comma_pieces(s, s.len()), comma_pieces(s, s.len()).len()) is None,
    decreases s.len() - i,
{
    lemma_comma_pieces_len(s, i);
    if i < s.len() {
        let p = comma_pieces(s, i);
        let q = comma_pieces(s, i + 1);
        if s[i as int] == ',' {
            lemma_numbers_prefix(p, q, (p.len() - 1) as nat);
            lemma_numbers_stay_none(q, (p.len() - 1) as nat, (q.len() - 1) as nat);
        } else {
            lemma_numbers_prefix(p, q, (p.len() - 1) as nat);
        }
        lemma_numbers_to_end(s, i + 1);
    } else {
        let p = comma_pieces(s, i);
        lemma_numbers_stay_none(p, (p.len() - 1) as nat, p.len());
    }
}

} // verus!
