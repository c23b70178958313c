use vstd::prelude::*;

verus! {

/// A place in the source text: where it starts and where it ends, when known.
pub trait SourceCodePosition {
    spec fn spec_start(&self) -> Option<usize>;

    spec fn spec_end(&self) -> Option<usize>;

    fn get_start(&self) -> (r: Option<usize>)
        ensures
            r == self.spec_start(),
    ;

    fn get_end(&self) -> (r: Option<usize>)
        ensures
            r == self.spec_end(),
    ;
}

/// A start and an end in order: when both are known, the start does not come
/// after the end.
pub open spec fn span_ok(start: Option<usize>, end: Option<usize>) -> bool {
    match (start, end) {
        (Some(s), Some(e)) => s <= e,
        _ => true,
    }
}

/// One position of the source.
#[derive(Debug)]
pub struct PointError(pub usize);

/// A range of the source, from its first position to its last.
#[derive(Debug)]
pub struct RangeError(pub usize, pub usize);

/// A place that is not known.
#[derive(Debug)]
pub struct UnkownLocationError;

impl SourceCodePosition for PointError {
    open spec fn spec_start(&self) -> Option<usize> {
        Some(self.0)
    }

    open spec fn spec_end(&self) -> Option<usize> {
        None
    }

    fn get_start(&self) -> (r: Option<usize>) {
        Some(self.0)
    }

    fn get_end(&self) -> (r: Option<usize>) {
        None
    }
}

impl SourceCodePosition for RangeError {
    open spec fn spec_start(&self) -> Option<usize> {
        Some(self.0)
    }

    open spec fn spec_end(&self) -> Option<usize> {
        Some(self.1)
    }

    fn get_start(&self) -> (r: Option<usize>) {
        Some(self.0)
    }

    fn get_end(&self) -> (r: Option<usize>) {
        Some(self.1)
    }
}

impl SourceCodePosition for UnkownLocationError {
    open spec fn spec_start(&self) -> Option<usize> {
        None
    }

    open spec fn spec_end(&self) -> Option<usize> {
        None
    }

    fn get_start(&self) -> (r: Option<usize>) {
        None
    }

    fn get_end(&self) -> (r: Option<usize>) {
        None
    }
}

/// An error of the language: a message and, when known, where in the source
/// it arose.
#[derive(Debug)]
pub struct CellTailError {
    start: Option<usize>,
    end: Option<usize>,
    description: String,
}

pub type CellTailResult<T> = Result<T, CellTailError>;

impl CellTailError {
    pub closed spec fn spec_start(&self) -> Option<usize> {
        self.start
    }

    pub closed spec fn spec_end(&self) -> Option<usize> {
        self.end
    }

    pub closed spec fn spec_description(&self) -> Seq<char> {
        self.description@
    }

    /// An error at `location` with the message `message`. A place whose known
    /// start comes after its known end is not a place: the error then has no
    /// place.
    pub fn new<T: SourceCodePosition>(location: &T, message: String) -> (r: CellTailError)
        ensures
            span_ok(location.spec_start(), location.spec_end()) ==> r.spec_start()
                == location.spec_start() && r.spec_end() == location.spec_end(),
            !span_ok(location.spec_start(), location.spec_end()) ==> r.spec_start() is None
                && r.spec_end() is None,
            r.spec_description() == message@,
    {
        let start = location.get_start();
        let end = location.get_end();
        if let (Some(s), Some(e)) = (start, end) {
            if s > e {
                return CellTailError { start: None, end: None, description: message };
            }
        }
        CellTailError { start, end, description: message }
    }

    /// Where the error starts, when known.
    pub fn start(&self) -> (r: Option<usize>)
        ensures
            r == self.spec_start(),
    {
        self.start
    }

    /// Where the error ends, when known.
    pub fn end(&self) -> (r: Option<usize>)
        ensures
            r == self.spec_end(),
    {
        self.end
    }

    /// The message.
    pub fn description(&self) -> (r: &String)
        ensures
            r@ == self.spec_description(),
    {
        &self.description
    }

    /// Some part of the place is known.
    pub fn is_location_known(&self) -> (r: bool)
        ensures
            r == (self.spec_start() is Some || self.spec_end() is Some),
    {
        self.start.is_some() || self.end.is_some()
    }
}

/// `res`, where an error whose place is unknown gets the place of `fallback`
/// (as `CellTailError::new` takes it) and keeps its message.
pub fn fallback_position<T, E: SourceCodePosition>(
    res: CellTailResult<T>,
    fallback: &E,
) -> (r: CellTailResult<T>)
    ensures
        res is Ok ==> r == res,
        res is Err ==> r is Err,
        res is Err && (res->Err_0.spec_start() is Some || res->Err_0.spec_end() is Some) ==> r
            == res,
        res is Err && res->Err_0.spec_start() is None && res->Err_0.spec_end() is None ==> {
            &&& span_ok(fallback.spec_start(), fallback.spec_end()) ==> r->Err_0.spec_start()
                == fallback.spec_start() && r->Err_0.spec_end() == fallback.spec_end()
            &&& !span_ok(fallback.spec_start(), fallback.spec_end()) ==> r->Err_0.spec_start()
                is None && r->Err_0.spec_end() is None
            &&& r->Err_0.spec_description() == res->Err_0.spec_description()
        },
{
    match res {
        Ok(v) => Ok(v),
        Err(u) => {
            if u.is_location_known() {
                Err(u)
            } else {
                Err(CellTailError::new(fallback, u.description))
            }
        },
    }
}

/// Where a position of the source stands in its lines: the line (counted from
/// 0), the column in it (from 0), and where that line starts and ends.
#[derive(Debug, Clone, Copy, PartialEq, Eq, Structural)]
pub struct LinePosition {
    pub line_number: usize,
    pub column_number: usize,
    pub line_start: usize,
    pub line_end: usize,
}

/// The character at `i` of `s` ends a line.
pub open spec fn newline_at(s: Seq<char>, i: int) -> bool {
    0 <= i < s.len() && s[i] == '\n'
}

/// The number of line ends before position `p`.
pub open spec fn lines_before(s: Seq<char>, p: nat) -> nat
    decreases p,
{
    if p == 0 {
        0
    } else if newline_at(s, p - 1) {
        lines_before(s, (p - 1) as nat) + 1
    } else {
        lines_before(s, (p - 1) as nat)
    }
}

/// Where the line of position `p` starts: just after the last line end
/// before `p`, or at 0.
pub open spec fn line_start_of(s: Seq<char>, p: nat) -> nat
    decreases p,
{
    if p == 0 {
        0
    } else if newline_at(s, p - 1) {
        p
    } else {
        line_start_of(s, (p - 1) as nat)
    }
}

/// Where the line of position `p` ends: at the first line end from `p` on, or
/// at the end of the source.
pub open spec fn line_end_of(s: Seq<char>, p: nat) -> nat
    decreases s.len() - p,
{
    if p >= s.len() {
        s.len()
    } else if newline_at(s, p as int) {
        p
    } else {
        line_end_of(s, p + 1)
    }
}

proof fn lemma_line_bounds(s: Seq<char>, p: nat)
    ensures
        line_start_of(s, p) <= p,
        lines_before(s, p) <= p,
    decreases p,
{
    if p > 0 {
        lemma_line_bounds(s, (p - 1) as nat);
    }
}

/// Where `position` stands in the lines of `source`.
pub fn line_position(source: &Vec<char>, position: usize) -> (r: LinePosition)
    ensures
        r.line_number == lines_before(source@, position as nat),
        r.line_start == line_start_of(source@, position as nat),
        r.column_number == position - line_start_of(source@, position as nat),
        r.line_end == line_end_of(source@, position as nat),
{
    proof {
        lemma_line_bounds(source@, position as nat);
    }
    let mut count: usize = 0;
    let mut start: usize = 0;
    let mut i: usize = 0;
    while i < position
        invariant
            i <= position,
            count == lines_before(source@, i as nat),
            start == line_start_of(source@, i as nat),
            count <= i,
            start <= i,
        decreases position - i,
    {
        if i < source.len() && source[i] == '\n' {
            count += 1;
            start = i + 1;
        }
        i += 1;
    }
    let mut end: usize = position;
    if end > source.len() {
        end = source.len();
    }
    proof {
        if position >= source@.len() {
            assert(line_end_of(source@, position as nat) == source@.len());
        }
    }
    while end < source.len() && source[end] != '\n'
        invariant
            position <= end <= source@.len() || (end == source@.len() && position > source@.len()),
            line_end_of(source@, position as nat) == line_end_of(source@, end as nat),
        decreases source@.len() - end,
    {
        end += 1;
    }
    LinePosition { line_number: count, column_number: position - start, line_start: start, line_end: end }
}

} // verus!
