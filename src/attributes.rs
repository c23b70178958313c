use vstd::prelude::*;

verus! {

/// How values are read in or written out: as characters or as decimal numbers.
#[derive(Debug, Clone, Copy, PartialEq, Eq, Structural)]
pub enum IOFormat {
    Characters,
    Numbers,
}

/// Where the input comes from.
#[derive(Debug)]
pub enum InputSource {
    StdIn(IOFormat),
    Arg(IOFormat),
    Constant(Vec<isize>),
}

/// How a program runs: its input and output, tracing, and an optional cap on
/// the number of generations.
#[derive(Debug)]
pub struct Attributes {
    pub input_mode: InputSource,
    pub output_mode: IOFormat,
    pub debug: bool,
    pub max_iterations: Option<isize>,
}

impl Attributes {
    /// Characters from the command line in, characters out, no tracing, no cap.
    pub fn new() -> (r: Attributes)
        ensures
            r.input_mode == InputSource::Arg(IOFormat::Characters),
            r.output_mode == IOFormat::Characters,
            !r.debug,
            r.max_iterations is None,
    {
        Attributes {
            input_mode: InputSource::Arg(IOFormat::Characters),
            output_mode: IOFormat::Characters,
            debug: false,
            max_iterations: None,
        }
    }
}

} // verus!
