use crate::bindings::Bindings;
use crate::expression::{eval, ExprView, Expression};
use crate::literal::{lemma_views_of, val_lt, views_of, Literal, Val};
use crate::pattern_list::PatternList;
use vstd::prelude::*;

verus! {

/// What a value must look like for a rule to apply, and which names it binds.
#[derive(Debug)]
pub enum Pattern {
    Literal(Literal),
    Identifier(String),
    Any,
    Tuple(Vec<Pattern>),
    Expression(Expression),
    And(Vec<Pattern>),
    Or(Vec<Pattern>),
    Range(Option<Box<Expression>>, Option<Box<Expression>>),
}

/// The shape of a pattern as plain values.
pub enum PatView {
    Lit(Val),
    Ident(Seq<char>),
    Any,
    Tuple(Seq<PatView>),
    Guard(ExprView),
    And(Seq<PatView>),
    Or(Seq<PatView>),
    Range(Option<ExprView>, Option<ExprView>),
}

/// The shapes of the first `n` patterns of `s`, in order.
pub open spec fn pat_views_upto(s: Seq<Pattern>, n: nat) -> Seq<PatView>
    decreases s, n,
{
    if n == 0 || n > s.len() {
        Seq::empty()
    } else {
        pat_views_upto(s, (n - 1) as nat).push(s[n - 1].view_at())
    }
}

/// The shapes of the patterns of `s`, in order.
pub open spec fn pat_views(s: Seq<Pattern>) -> Seq<PatView> {
    pat_views_upto(s, s.len())
}

/// The shape of an optional bound.
pub open spec fn bound_view(b: Option<Box<Expression>>) -> Option<ExprView> {
    match b {
        Some(e) => Some(e@),
        None => None,
    }
}

impl Pattern {
    pub open spec fn view_at(self) -> PatView
        decreases self, 0nat,
    {
        match self {
            Pattern::Literal(l) => PatView::Lit(l@),
            Pattern::Identifier(n) => PatView::Ident(n@),
            Pattern::Any => PatView::Any,
            Pattern::Tuple(ps) => PatView::Tuple(pat_views_upto(ps@, ps@.len())),
            Pattern::Expression(e) => PatView::Guard(e@),
            Pattern::And(ps) => PatView::And(pat_views_upto(ps@, ps@.len())),
            Pattern::Or(ps) => PatView::Or(pat_views_upto(ps@, ps@.len())),
            Pattern::Range(a, b) => PatView::Range(bound_view(a), bound_view(b)),
        }
    }
}

impl View for Pattern {
    type V = PatView;

    open spec fn view(&self) -> PatView {
        self.view_at()
    }
}

pub proof fn lemma_pat_views_upto(s: Seq<Pattern>, n: nat)
    requires
        n <= s.len(),
    ensures
        pat_views_upto(s, n).len() == n,
        forall|i: int| 0 <= i < n ==> #[trigger] pat_views_upto(s, n)[i] == s[i]@,
    decreases n,
{
    if n > 0 {
        lemma_pat_views_upto(s, (n - 1) as nat);
    }
}

pub proof fn lemma_pat_views(s: Seq<Pattern>)
    ensures
        pat_views(s).len() == s.len(),
        forall|i: int| 0 <= i < s.len() ==> #[trigger] pat_views(s)[i] == s[i]@,
{
    lemma_pat_views_upto(s, s.len());
}

/// The bindings after matching `p` against `v`, starting from `b`, or `None`
/// when it does not match. Guards and bounds are evaluated at call level `level`.
pub open spec fn match_pat(
    p: Pattern,
    v: Val,
    b: Map<Seq<char>, Val>,
    fns: Seq<(String, PatternList)>,
    level: nat,
) -> Option<Map<Seq<char>, Val>>
    decreases level, 1nat, p, 0nat,
{
    match p {
        Pattern::Literal(l) => if l@ == v {
            Some(b)
        } else {
            None
        },
        Pattern::Identifier(name) => if b.contains_key(name@) {
            if b[name@] == v {
                Some(b)
            } else {
                None
            }
        } else {
            Some(b.insert(name@, v))
        },
        Pattern::Any => Some(b),
        Pattern::Tuple(ps) => match v {
            Val::Tup(vs) => if vs.len() == ps@.len() {
                match_elems(ps@, vs, ps@.len(), b, fns, level)
            } else {
                None
            },
            _ => None,
        },
        Pattern::Expression(e) => if eval(e, b, fns, level) == v {
            Some(b)
        } else {
            None
        },
        Pattern::And(ps) => match_all(ps@, ps@.len(), v, b, fns, level),
        Pattern::Or(ps) => match_any(ps@, 0, v, b, fns, level),
        Pattern::Range(lo, hi) => {
            let above = match lo {
                Some(e) => val_lt(eval(*e, b, fns, level), v),
                None => true,
            };
            let below = match hi {
                Some(e) => val_lt(v, eval(*e, b, fns, level)),
                None => true,
            };
            if above && below {
                Some(b)
            } else {
                None
            }
        },
    }
}

/// The first `n` patterns of `ps` matched in order against the values at the
/// same positions of `vs`, each starting from the bindings of the one before.
pub open spec fn match_elems(
    ps: Seq<Pattern>,
    vs: Seq<Val>,
    n: nat,
    b: Map<Seq<char>, Val>,
    fns: Seq<(String, PatternList)>,
    level: nat,
) -> Option<Map<Seq<char>, Val>>
    decreases level, 1nat, ps, n,
{
    if n == 0 || n > ps.len() || n > vs.len() {
        Some(b)
    } else {
        match match_elems(ps, vs, (n - 1) as nat, b, fns, level) {
            None => None,
            Some(b2) => match_pat(ps[n - 1], vs[n - 1], b2, fns, level),
        }
    }
}

/// The first `n` patterns of `ps` matched in order against the one value `v`,
/// each starting from the bindings of the one before.
pub open spec fn match_all(
    ps: Seq<Pattern>,
    n: nat,
    v: Val,
    b: Map<Seq<char>, Val>,
    fns: Seq<(String, PatternList)>,
    level: nat,
) -> Option<Map<Seq<char>, Val>>
    decreases level, 1nat, ps, n,
{
    if n == 0 || n > ps.len() {
        Some(b)
    } else {
        match match_all(ps, (n - 1) as nat, v, b, fns, level) {
            None => None,
            Some(b2) => match_pat(ps[n - 1], v, b2, fns, level),
        }
    }
}

/// The first pattern of `ps`, from position `i` on, that matches `v` from the
/// bindings `b`, with the bindings it gives.
pub open spec fn match_any(
    ps: Seq<Pattern>,
    i: nat,
    v: Val,
    b: Map<Seq<char>, Val>,
    fns: Seq<(String, PatternList)>,
    level: nat,
) -> Option<Map<Seq<char>, Val>>
    decreases level, 1nat, ps, ps.len() - i,
{
    if i >= ps.len() {
        None
    } else {
        match match_pat(ps[i as int], v, b, fns, level) {
            Some(r) => Some(r),
            None => match_any(ps, i + 1, v, b, fns, level),
        }
    }
}

proof fn lemma_match_elems_fails(
    ps: Seq<Pattern>,
    vs: Seq<Val>,
    k: nat,
    n: nat,
    b: Map<Seq<char>, Val>,
    fns: Seq<(String, PatternList)>,
    level: nat,
)
    requires
        k <= n <= ps.len(),
        n <= vs.len(),
        match_elems(ps, vs, k, b, fns, level) is None,
    ensures
        match_elems(ps, vs, n, b, fns, level) is None,
    decreases n - k,
{
    if k < n {
        lemma_match_elems_fails(ps, vs, k, (n - 1) as nat, b, fns, level);
    }
}

proof fn lemma_match_all_fails(
    ps: Seq<Pattern>,
    k: nat,
    n: nat,
    v: Val,
    b: Map<Seq<char>, Val>,
    fns: Seq<(String, PatternList)>,
    level: nat,
)
    requires
        k <= n <= ps.len(),
        match_all(ps, k, v, b, fns, level) is None,
    ensures
        match_all(ps, n, v, b, fns, level) is None,
    decreases n - k,
{
    if k < n {
        lemma_match_all_fails(ps, k, (n - 1) as nat, v, b, fns, level);
    }
}

/// What `Pattern::matches` hands back for `p` and `v` with the functions
/// `fns`: the bindings of a match that starts from none, or `None`.
pub open spec fn matches_result(
    p: Pattern,
    v: Val,
    fns: Seq<(String, PatternList)>,
    r: Option<Bindings>,
) -> bool {
    match match_pat(p, v, Map::empty(), fns, 1) {
        Some(m) => r is Some && r->0.wf() && r->0@ == m,
        None => r is None,
    }
}

/// Matching is deterministic: any two results that `Pattern::matches` may
/// hand back for the same pattern and value agree on success and on every
/// binding.
pub proof fn lemma_matches_deterministic(
    p: Pattern,
    v: Val,
    fns: Seq<(String, PatternList)>,
    r1: Option<Bindings>,
    r2: Option<Bindings>,
)
    requires
        matches_result(p, v, fns, r1),
        matches_result(p, v, fns, r2),
    ensures
        r1.is_some() == r2.is_some(),
        r1.is_some() ==> r1.unwrap()@ == r2.unwrap()@,
{
}

impl Pattern {
    /// Matches this pattern against `value` at call level `level`, from the
    /// bindings in `variables`. On success `variables` holds the bindings of
    /// the match; on failure it holds some well-formed bindings.
    pub fn match_at(
        &self,
        value: &Literal,
        variables: &mut Bindings,
        functions: &Vec<(String, PatternList)>,
        level: usize,
    ) -> (r: bool)
        requires
            old(variables).wf(),
        ensures
            final(variables).wf(),
            r == match_pat(*self, value@, old(variables)@, functions@, level as nat) is Some,
            r ==> final(variables)@ == match_pat(
                *self,
                value@,
                old(variables)@,
                functions@,
                level as nat,
            )->Some_0,
        decreases level, 1nat, *self, 0nat,
    {
        match self {
            Pattern::Literal(lit) => lit.same_as(value),
            Pattern::Identifier(ident) => {
                match variables.get(ident) {
                    Some(bound) => bound.same_as(value),
                    None => {
                        variables.insert(ident.clone(), value.duplicate());
                        true
                    },
                }
            },
            Pattern::Any => true,
            Pattern::Tuple(ps) => {
                match value {
                    Literal::Tuple(vs) => {
                        proof {
                            lemma_views_of(vs@);
                        }
                        if vs.len() != ps.len() {
                            return false;
                        }
                        let ghost start = variables@;
                        let ghost vals = views_of(vs@);
                        let mut i: usize = 0;
                        while i < ps.len()
                            invariant
                                i <= ps@.len(),
                                vs@.len() == ps@.len(),
                                vals == views_of(vs@),
                                vals.len() == vs@.len(),
                                start == old(variables)@,
                                *value == Literal::Tuple(*vs),
                                forall|j: int| 0 <= j < vs@.len() ==> #[trigger] vals[j] == vs@[j]@,
                                *self == Pattern::Tuple(*ps),
                                variables.wf(),
                                match_elems(ps@, vals, i as nat, start, functions@, level as nat)
                                    == Some(variables@),
                            decreases ps@.len() - i,
                        {
                            proof {
                                assert(decreases_to!(*self => (*self)->Tuple_0));
                                assert(decreases_to!((*self)->Tuple_0 => (*self)->Tuple_0[i as int]));
                            }
                            let ghost before = variables@;
                            if !ps[i].match_at(&vs[i], variables, functions, level) {
                                proof {
                                    assert(match_elems(ps@, vals, (i + 1) as nat, start, functions@, level as nat)
                                        == match_pat(ps@[i as int], vals[i as int], before, functions@, level as nat));
                                    lemma_match_elems_fails(
                                        ps@,
                                        vals,
                                        (i + 1) as nat,
                                        ps@.len(),
                                        start,
                                        functions@,
                                        level as nat,
                                    );
                                }
                                return false;
                            }
                            i += 1;
                        }
                        true
                    },
                    _ => false,
                }
            },
            Pattern::Expression(expr) => {
                let new_value = expr.evaluate_at(variables, functions, level);
                new_value.same_as(value)
            },
            Pattern::And(parts) => {
                let ghost start = variables@;
                let mut i: usize = 0;
                while i < parts.len()
                    invariant
                        i <= parts@.len(),
                        *self == Pattern::And(*parts),
                        start == old(variables)@,
                        variables.wf(),
                        match_all(parts@, i as nat, value@, start, functions@, level as nat)
                            == Some(variables@),
                    decreases parts@.len() - i,
                {
                    proof {
                        assert(decreases_to!(*self => (*self)->And_0));
                        assert(decreases_to!((*self)->And_0 => (*self)->And_0[i as int]));
                    }
                    let ghost before = variables@;
                    if !parts[i].match_at(value, variables, functions, level) {
                        proof {
                            assert(match_all(parts@, (i + 1) as nat, value@, start, functions@, level as nat)
                                == match_pat(parts@[i as int], value@, before, functions@, level as nat));
                            lemma_match_all_fails(
                                parts@,
                                (i + 1) as nat,
                                parts@.len(),
                                value@,
                                start,
                                functions@,
                                level as nat,
                            );
                        }
                        return false;
                    }
                    i += 1;
                }
                true
            },
            Pattern::Or(parts) => {
                let mut i: usize = 0;
                while i < parts.len()
                    invariant
                        i <= parts@.len(),
                        *self == Pattern::Or(*parts),
                        variables.wf(),
                        *variables == *old(variables),
                        match_any(parts@, 0, value@, variables@, functions@, level as nat)
                            == match_any(parts@, i as nat, value@, variables@, functions@, level as nat),
                    decreases parts@.len() - i,
                {
                    proof {
                        assert(decreases_to!(*self => (*self)->Or_0));
                        assert(decreases_to!((*self)->Or_0 => (*self)->Or_0[i as int]));
                    }
                    let mut copy = variables.duplicate();
                    if parts[i].match_at(value, &mut copy, functions, level) {
                        *variables = copy;
                        return true;
                    }
                    i += 1;
                }
                false
            },
            Pattern::Range(ba, be) => {
                let first_part = match ba {
                    Some(expr) => expr.evaluate_at(variables, functions, level).less_than(value),
                    None => true,
                };
                let second_part = match be {
                    Some(expr) => value.less_than(&expr.evaluate_at(variables, functions, level)),
                    None => true,
                };
                first_part && second_part
            },
        }
    }

    /// Matches this pattern against `value` from the bindings in `variables`;
    /// a guard or a bound may call the functions `functions`, whose own rules
    /// make no further calls. On success `variables` holds the bindings of the
    /// match; on failure it holds some well-formed bindings.
    pub fn match_dict(
        &self,
        value: &Literal,
        variables: &mut Bindings,
        functions: &Vec<(String, PatternList)>,
    ) -> (r: bool)
        requires
            old(variables).wf(),
        ensures
            final(variables).wf(),
            r == match_pat(*self, value@, old(variables)@, functions@, 1) is Some,
            r ==> final(variables)@ == match_pat(
                *self,
                value@,
                old(variables)@,
                functions@,
                1,
            )->Some_0,
    {
        self.match_at(value, variables, functions, 1)
    }

    /// The bindings of a match of this pattern against `value` that starts from
    /// no bindings, or `None` when it does not match (see `match_dict`).
    pub fn matches(&self, value: &Literal, functions: &Vec<(String, PatternList)>) -> (r: Option<
        Bindings,
    >)
        ensures
            matches_result(*self, value@, functions@, r),
    {
        let mut result = Bindings::new();
        if self.match_dict(value, &mut result, functions) {
            Some(result)
        } else {
            None
        }
    }
}

} // verus!
