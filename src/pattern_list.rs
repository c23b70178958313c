use crate::bindings::Bindings;
use crate::errors::SourceCodePosition;
use crate::expression::{eval, Expression};
use crate::literal::{Literal, Val};
use crate::pattern::{match_pat, Pattern};
use vstd::prelude::*;

verus! {

/// Rules in the order of their declaration: a pattern, the expression that
/// gives the result when it matches, and where the rule stands in the source.
#[derive(Debug)]
pub struct PatternList(pub Vec<(Pattern, Expression, PatternPosition)>);

/// Where a rule stands in the source.
#[derive(Debug)]
pub struct PatternPosition {
    start: Option<usize>,
    end: Option<usize>,
}

impl PatternPosition {
    /// The position of `m`.
    pub fn new<T: SourceCodePosition>(m: &T) -> (r: PatternPosition)
        ensures
            r.spec_start() == m.spec_start(),
            r.spec_end() == m.spec_end(),
    {
        PatternPosition { start: m.get_start(), end: m.get_end() }
    }
}

impl SourceCodePosition for PatternPosition {
    closed spec fn spec_start(&self) -> Option<usize> {
        self.start
    }

    closed spec fn spec_end(&self) -> Option<usize> {
        self.end
    }

    fn get_start(&self) -> (r: Option<usize>) {
        self.start
    }

    fn get_end(&self) -> (r: Option<usize>) {
        self.end
    }
}

/// The rules of the first function named `name` in `fns`, from position `i` on.
pub open spec fn lookup(fns: Seq<(String, PatternList)>, name: Seq<char>, i: nat) -> Option<
    PatternList,
>
    decreases fns.len() - i,
{
    if i >= fns.len() {
        None
    } else if fns[i as int].0@ == name {
        Some(fns[i as int].1)
    } else {
        lookup(fns, name, i + 1)
    }
}

/// The result of the first rule of `rules`, from position `i` on, whose pattern
/// matches `v` from no bindings: its expression's value with the bindings of
/// that match. `None` when no rule matches.
pub open spec fn dispatch(
    rules: Seq<(Pattern, Expression, PatternPosition)>,
    i: nat,
    v: Val,
    fns: Seq<(String, PatternList)>,
    level: nat,
) -> Option<Val>
    decreases level, 2nat, rules, rules.len() - i,
{
    if i >= rules.len() {
        None
    } else {
        match match_pat(rules[i as int].0, v, Map::empty(), fns, level) {
            Some(b) => Some(eval(rules[i as int].1, b, fns, level)),
            None => dispatch(rules, i + 1, v, fns, level),
        }
    }
}

/// The rules of the function named `name` in `functions`, if there is one.
pub fn find_function<'a>(functions: &'a Vec<(String, PatternList)>, name: &String) -> (r: Option<
    &'a PatternList,
>)
    ensures
        lookup(functions@, name@, 0) is None ==> r is None,
        lookup(functions@, name@, 0) is Some ==> r is Some && *r->0 == lookup(
            functions@,
            name@,
            0,
        )->Some_0,
{
    let mut i: usize = 0;
    while i < functions.len()
        invariant
            i <= functions@.len(),
            lookup(functions@, name@, 0) == lookup(functions@, name@, i as nat),
        decreases functions@.len() - i,
    {
        if functions[i].0 == *name {
            return Some(&functions[i].1);
        }
        i += 1;
    }
    None
}

proof fn lemma_first_match_from(
    rules: Seq<(Pattern, Expression, PatternPosition)>,
    i: nat,
    k: nat,
    v: Val,
    fns: Seq<(String, PatternList)>,
    level: nat,
)
    requires
        i <= k < rules.len(),
        match_pat(rules[k as int].0, v, Map::empty(), fns, level) is Some,
        forall|j: int|
            0 <= j < k ==> #[trigger] match_pat(rules[j].0, v, Map::empty(), fns, level) is None,
    ensures
        dispatch(rules, i, v, fns, level) == Some(
            eval(
                rules[k as int].1,
                match_pat(rules[k as int].0, v, Map::empty(), fns, level)->Some_0,
                fns,
                level,
            ),
        ),
    decreases k - i,
{
    if i < k {
        assert(match_pat(rules[i as int].0, v, Map::empty(), fns, level) is None);
        lemma_first_match_from(rules, i + 1, k, v, fns, level);
    }
}

/// The first rule that matches decides: when the rule at position `k` matches
/// `v` and none before it does, the result is that rule's expression evaluated
/// with the bindings of its match, whatever the rules after it would give.
pub proof fn lemma_first_match_wins(
    rules: Seq<(Pattern, Expression, PatternPosition)>,
    k: nat,
    v: Val,
    fns: Seq<(String, PatternList)>,
    level: nat,
)
    requires
        k < rules.len(),
        match_pat(rules[k as int].0, v, Map::empty(), fns, level) is Some,
        forall|j: int|
            0 <= j < k ==> #[trigger] match_pat(rules[j].0, v, Map::empty(), fns, level) is None,
    ensures
        dispatch(rules, 0, v, fns, level) == Some(
            eval(
                rules[k as int].1,
                match_pat(rules[k as int].0, v, Map::empty(), fns, level)->Some_0,
                fns,
                level,
            ),
        ),
{
    lemma_first_match_from(rules, 0, k, v, fns, level);
}

impl PatternList {
    /// The result of the first rule that matches `literal`, at call level
    /// `level` (see `dispatch`).
    pub fn dispatch_at(
        &self,
        literal: Literal,
        functions: &Vec<(String, PatternList)>,
        level: usize,
    ) -> (r: Option<Literal>)
        ensures
            r is Some == dispatch(self.0@, 0, literal@, functions@, level as nat) is Some,
            r is Some ==> r->0@ == dispatch(self.0@, 0, literal@, functions@, level as nat)->Some_0,
        decreases level, 2nat, *self, 0nat,
    {
        let mut i: usize = 0;
        while i < self.0.len()
            invariant
                i <= self.0@.len(),
                dispatch(self.0@, 0, literal@, functions@, level as nat) == dispatch(
                    self.0@,
                    i as nat,
                    literal@,
                    functions@,
                    level as nat,
                ),
            decreases self.0@.len() - i,
        {
            let mut vars = Bindings::new();
            if self.0[i].0.match_at(&literal, &mut vars, functions, level) {
                return Some(self.0[i].1.evaluate_at(&vars, functions, level));
            }
            i += 1;
        }
        None
    }

    /// The result of the first rule, in the order of declaration, whose pattern
    /// matches `literal`; `None` when no rule matches. A function that a rule's
    /// result calls runs at the level below, where a further call has the
    /// value `Absent`.
    pub fn apply_first_matching_pattern(
        &self,
        literal: Literal,
        functions: &Vec<(String, PatternList)>,
    ) -> (r: Option<Literal>)
        ensures
            r is Some == dispatch(self.0@, 0, literal@, functions@, 1) is Some,
            r is Some ==> r->0@ == dispatch(self.0@, 0, literal@, functions@, 1)->Some_0,
    {
        self.dispatch_at(literal, functions, 1)
    }
}

} // verus!
