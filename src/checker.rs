use crate::errors::{fallback_position, CellTailError, CellTailResult, UnkownLocationError};
use crate::expression::{eval, eval_elems, Expression};
use crate::literal::Val;
use crate::parser::Program;
use crate::pattern::Pattern;
use crate::pattern_list::PatternList;
use crate::text::is_text;
use vstd::prelude::*;

verus! {

/// The names held by `v`.
pub open spec fn name_set(v: Seq<String>) -> Set<Seq<char>> {
    Set::new(|n: Seq<char>| exists|i: int| 0 <= i < v.len() && #[trigger] v[i]@ == n)
}

/// `e` uses only the variables `vars` (besides `N`), and calls only functions
/// named in `names`; `names` is `None` in the rules of a function, where no call
/// is allowed.
pub open spec fn expr_ok(e: Expression, vars: Set<Seq<char>>, names: Option<Set<Seq<char>>>) -> bool
    decreases 0nat, e, 0nat,
{
    match e {
        Expression::Literal(_) => true,
        Expression::Tuple(es) => elems_ok(es@, es@.len(), vars, names),
        Expression::BinaryOperator(_, a, b) => expr_ok(*a, vars, names) && expr_ok(*b, vars, names),
        Expression::UnaryOperator(_, a) => expr_ok(*a, vars, names),
        Expression::FunctionCall(f, a) => match names {
            None => false,
            Some(ns) => ns.contains(f@) && expr_ok(*a, vars, names),
        },
        Expression::Variable(v) => v@ == seq!['N'] || vars.contains(v@),
    }
}

/// The first `n` expressions of `es` pass `expr_ok`.
pub open spec fn elems_ok(
    es: Seq<Expression>,
    n: nat,
    vars: Set<Seq<char>>,
    names: Option<Set<Seq<char>>>,
) -> bool
    decreases 0nat, es, n,
{
    if n == 0 || n > es.len() {
        true
    } else {
        elems_ok(es, (n - 1) as nat, vars, names) && expr_ok(es[n - 1], vars, names)
    }
}

/// The variables known after the pattern `p`, starting from `vars`, or `None`
/// when `p` uses a variable before it is bound, calls a function it may not
/// call, or has an `Or` whose alternatives bind different variables (or none).
pub open spec fn pat_vars(p: Pattern, vars: Set<Seq<char>>, names: Option<Set<Seq<char>>>) -> Option<
    Set<Seq<char>>,
>
    decreases 1nat, p, 0nat,
{
    match p {
        Pattern::Any => Some(vars),
        Pattern::Identifier(v) => Some(vars.insert(v@)),
        Pattern::Literal(_) => Some(vars),
        Pattern::Expression(e) => if expr_ok(e, vars, names) {
            Some(vars)
        } else {
            None
        },
        Pattern::Tuple(ps) => pats_vars(ps@, ps@.len(), vars, names),
        Pattern::And(ps) => pats_vars(ps@, ps@.len(), vars, names),
        Pattern::Or(ps) => if ps@.len() == 0 {
            None
        } else {
            match pat_vars(ps@[0], vars, names) {
                None => None,
                Some(first) => if alts_agree(ps@, ps@.len(), vars, names, first) {
                    Some(first)
                } else {
                    None
                },
            }
        },
        Pattern::Range(a, b) => {
            let a_ok = match a {
                Some(e) => expr_ok(*e, vars, names),
                None => true,
            };
            let b_ok = match b {
                Some(e) => expr_ok(*e, vars, names),
                None => true,
            };
            if a_ok && b_ok {
                Some(vars)
            } else {
                None
            }
        },
    }
}

/// The first `n` patterns of `ps` in order, each from the variables of the one
/// before.
pub open spec fn pats_vars(
    ps: Seq<Pattern>,
    n: nat,
    vars: Set<Seq<char>>,
    names: Option<Set<Seq<char>>>,
) -> Option<Set<Seq<char>>>
    decreases 1nat, ps, n,
{
    if n == 0 || n > ps.len() {
        Some(vars)
    } else {
        match pats_vars(ps, (n - 1) as nat, vars, names) {
            None => None,
            Some(v) => pat_vars(ps[n - 1], v, names),
        }
    }
}

/// Each of the first `n` alternatives of `ps`, from `vars`, passes and gives
/// exactly the variables `first`.
pub open spec fn alts_agree(
    ps: Seq<Pattern>,
    n: nat,
    vars: Set<Seq<char>>,
    names: Option<Set<Seq<char>>>,
    first: Set<Seq<char>>,
) -> bool
    decreases 1nat, ps, n,
{
    if n == 0 || n > ps.len() {
        true
    } else {
        alts_agree(ps, (n - 1) as nat, vars, names, first) && pat_vars(ps[n - 1], vars, names)
            == Some(first)
    }
}

/// A rule whose pattern passes from no variables, and whose expression uses
/// only the variables that the pattern binds.
pub open spec fn rule_ok(p: Pattern, e: Expression, names: Option<Set<Seq<char>>>) -> bool {
    match pat_vars(p, Set::empty(), names) {
        None => false,
        Some(v) => expr_ok(e, v, names),
    }
}

/// A global pattern is a tuple of three elements: left, top, right.
pub open spec fn global_shape_ok(p: Pattern) -> bool {
    match p {
        Pattern::Tuple(ps) => ps@.len() == 3,
        _ => false,
    }
}

/// The names of the functions `fns`.
pub open spec fn function_name_set(fns: Seq<(String, PatternList)>) -> Set<Seq<char>> {
    Set::new(|n: Seq<char>| exists|i: int| 0 <= i < fns.len() && #[trigger] fns[i].0@ == n)
}

/// What the checks ask of a program: every global rule has the shape of a
/// triple and passes with calls to the program's functions; every function's
/// rule passes with no calls at all.
pub open spec fn program_ok(p: Program) -> bool {
    &&& forall|i: int|
        0 <= i < p.rules.0@.len() ==> global_shape_ok(#[trigger] p.rules.0@[i].0) && rule_ok(
            p.rules.0@[i].0,
            p.rules.0@[i].1,
            Some(function_name_set(p.functions@)),
        )
    &&& forall|f: int, i: int|
        0 <= f < p.functions@.len() && 0 <= i < p.functions@[f].1.0@.len() ==> rule_ok(
            #[trigger] p.functions@[f].1.0@[i].0,
            p.functions@[f].1.0@[i].1,
            None,
        )
}

/// `name` is held by `v`.
fn has_name(v: &Vec<String>, name: &String) -> (r: bool)
    ensures
        r == name_set(v@).contains(name@),
{
    let mut i: usize = 0;
    while i < v.len()
        invariant
            i <= v@.len(),
            forall|j: int| 0 <= j < i ==> v@[j]@ != name@,
        decreases v@.len() - i,
    {
        if v[i] == *name {
            return true;
        }
        i += 1;
    }
    false
}

/// A copy of the names of `v`.
fn copy_names(v: &Vec<String>) -> (r: Vec<String>)
    ensures
        name_set(r@) == name_set(v@),
{
    let mut out: Vec<String> = Vec::new();
    let mut i: usize = 0;
    while i < v.len()
        invariant
            i <= v@.len(),
            out@.len() == i,
            forall|j: int| 0 <= j < i ==> #[trigger] out@[j]@ == v@[j]@,
        decreases v@.len() - i,
    {
        out.push(v[i].clone());
        i += 1;
    }
    assert forall|n: Seq<char>| name_set(out@).contains(n) <==> name_set(v@).contains(n) by {
        if name_set(out@).contains(n) {
            let i = choose|i: int| 0 <= i < out@.len() && #[trigger] out@[i]@ == n;
            assert(v@[i]@ == n);
        }
        if name_set(v@).contains(n) {
            let i = choose|i: int| 0 <= i < v@.len() && #[trigger] v@[i]@ == n;
            assert(out@[i]@ == n);
        }
    }
    assert(name_set(out@) =~= name_set(v@));
    out
}

/// The two hold the same names.
fn same_names(a: &Vec<String>, b: &Vec<String>) -> (r: bool)
    ensures
        r == (name_set(a@) == name_set(b@)),
{
    let mut i: usize = 0;
    while i < a.len()
        invariant
            i <= a@.len(),
            forall|j: int| 0 <= j < i ==> name_set(b@).contains(#[trigger] a@[j]@),
        decreases a@.len() - i,
    {
        if !has_name(b, &a[i]) {
            assert(name_set(a@).contains(a@[i as int]@));
            return false;
        }
        i += 1;
    }
    let mut k: usize = 0;
    while k < b.len()
        invariant
            k <= b@.len(),
            forall|j: int| 0 <= j < a@.len() ==> name_set(b@).contains(#[trigger] a@[j]@),
            forall|j: int| 0 <= j < k ==> name_set(a@).contains(#[trigger] b@[j]@),
        decreases b@.len() - k,
    {
        if !has_name(a, &b[k]) {
            assert(name_set(b@).contains(b@[k as int]@));
            return false;
        }
        k += 1;
    }
    assert(name_set(a@) =~= name_set(b@));
    true
}

/// The names `names` as `expr_ok` takes them: `None` in a function.
pub open spec fn names_of(in_function: bool, names: Seq<String>) -> Option<Set<Seq<char>>> {
    if in_function {
        None
    } else {
        Some(name_set(names))
    }
}

fn unknown_error(message: &str) -> (r: CellTailError)
    ensures
        r.spec_start() is None,
        r.spec_end() is None,
{
    CellTailError::new(&UnkownLocationError, message.to_owned())
}

/// Checks that `expr` uses only the variables `variables` and calls only the
/// functions `function_names` (none at all when `in_function`).
pub fn check_expression(
    expr: &Expression,
    variables: &Vec<String>,
    in_function: bool,
    function_names: &Vec<String>,
) -> (r: CellTailResult<()>)
    ensures
        r is Ok == expr_ok(*expr, name_set(variables@), names_of(in_function, function_names@)),
    decreases 0nat, *expr, 0nat,
{
    match expr {
        Expression::Literal(_) => Ok(()),
        Expression::BinaryOperator(_, a, b) => {
            check_expression(a, variables, in_function, function_names)?;
            check_expression(b, variables, in_function, function_names)
        },
        Expression::Tuple(z) => {
            let mut i: usize = 0;
            while i < z.len()
                invariant
                    i <= z@.len(),
                    *expr == Expression::Tuple(*z),
                    elems_ok(z@, i as nat, name_set(variables@), names_of(in_function, function_names@)),
                decreases z@.len() - i,
            {
                proof {
                    assert(decreases_to!(*expr => (*expr)->Tuple_0));
                    assert(decreases_to!((*expr)->Tuple_0 => (*expr)->Tuple_0[i as int]));
                }
                let part = check_expression(&z[i], variables, in_function, function_names);
                if part.is_err() {
                    proof {
                        lemma_elems_ok_fails(
                            z@,
                            (i + 1) as nat,
                            z@.len(),
                            name_set(variables@),
                            names_of(in_function, function_names@),
                        );
                    }
                    return part;
                }
                i += 1;
            }
            Ok(())
        },
        Expression::UnaryOperator(_, z) => check_expression(z, variables, in_function, function_names),
        Expression::FunctionCall(funk, arguments) => {
            if in_function {
                return Err(unknown_error("Can't call a function inside of a function"));
            }
            if !has_name(function_names, funk) {
                return Err(unknown_error("Call to undefined function"));
            }
            check_expression(arguments, variables, in_function, function_names)
        },
        Expression::Variable(var) => {
            proof {
                reveal_strlit("N");
                assert("N"@ =~= seq!['N']);
            }
            if is_text(var, "N") || has_name(variables, var) {
                Ok(())
            } else {
                Err(unknown_error("Reference to unknown variable"))
            }
        },
    }
}

proof fn lemma_elems_ok_fails(
    es: Seq<Expression>,
    k: nat,
    n: nat,
    vars: Set<Seq<char>>,
    names: Option<Set<Seq<char>>>,
)
    requires
        k <= n <= es.len(),
        !elems_ok(es, k, vars, names),
    ensures
        !elems_ok(es, n, vars, names),
    decreases n - k,
{
    if k < n {
        lemma_elems_ok_fails(es, k, (n - 1) as nat, vars, names);
    }
}

/// Adds `name` to `v`.
fn add_name(v: &mut Vec<String>, name: String)
    ensures
        name_set(final(v)@) == name_set(old(v)@).insert(name@),
{
    let ghost before = v@;
    v.push(name);
    assert forall|n: Seq<char>| name_set(v@).contains(n) <==> name_set(before).insert(
        name@,
    ).contains(n) by {
        if name_set(v@).contains(n) && n != name@ {
            let i = choose|i: int| 0 <= i < v@.len() && #[trigger] v@[i]@ == n;
            assert(before[i]@ == n);
        }
        if name_set(before).contains(n) {
            let i = choose|i: int| 0 <= i < before.len() && #[trigger] before[i]@ == n;
            assert(v@[i]@ == n);
        }
        if n == name@ {
            assert(v@[before.len() as int]@ == n);
        }
    }
    assert(name_set(v@) =~= name_set(before).insert(name@));
}

proof fn lemma_pats_vars_fails(
    ps: Seq<Pattern>,
    k: nat,
    n: nat,
    vars: Set<Seq<char>>,
    names: Option<Set<Seq<char>>>,
)
    requires
        k <= n <= ps.len(),
        pats_vars(ps, k, vars, names) is None,
    ensures
        pats_vars(ps, n, vars, names) is None,
    decreases n - k,
{
    if k < n {
        lemma_pats_vars_fails(ps, k, (n - 1) as nat, vars, names);
    }
}

proof fn lemma_alts_fail(
    ps: Seq<Pattern>,
    k: nat,
    n: nat,
    vars: Set<Seq<char>>,
    names: Option<Set<Seq<char>>>,
    first: Set<Seq<char>>,
)
    requires
        k <= n <= ps.len(),
        !alts_agree(ps, k, vars, names, first),
    ensures
        !alts_agree(ps, n, vars, names, first),
    decreases n - k,
{
    if k < n {
        lemma_alts_fail(ps, k, (n - 1) as nat, vars, names, first);
    }
}

/// Checks the pattern `pat` (see `pat_vars`) and adds the variables it binds
/// to `variables`.
pub fn check_pattern(
    pat: &Pattern,
    in_function: bool,
    function_names: &Vec<String>,
    variables: &mut Vec<String>,
) -> (r: CellTailResult<()>)
    ensures
        r is Ok == pat_vars(*pat, name_set(old(variables)@), names_of(in_function, function_names@))
            is Some,
        r is Ok ==> name_set(final(variables)@) == pat_vars(
            *pat,
            name_set(old(variables)@),
            names_of(in_function, function_names@),
        )->Some_0,
    decreases 1nat, *pat, 0nat,
{
    let ghost names = names_of(in_function, function_names@);
    match pat {
        Pattern::Any => Ok(()),
        Pattern::Identifier(val) => {
            add_name(variables, val.clone());
            Ok(())
        },
        Pattern::Literal(_) => Ok(()),
        Pattern::Expression(expr) => check_expression(expr, variables, in_function, function_names),
        Pattern::Tuple(tup) | Pattern::And(tup) => {
            let ghost start = name_set(variables@);
            let mut i: usize = 0;
            while i < tup.len()
                invariant
                    i <= tup@.len(),
                    *pat == Pattern::Tuple(*tup) || *pat == Pattern::And(*tup),
                    start == name_set(old(variables)@),
                    names == names_of(in_function, function_names@),
                    pats_vars(tup@, i as nat, start, names) == Some(name_set(variables@)),
                decreases tup@.len() - i,
            {
                proof {
                    if *pat == Pattern::Tuple(*tup) {
                        assert(decreases_to!(*pat => (*pat)->Tuple_0));
                        assert(decreases_to!((*pat)->Tuple_0 => (*pat)->Tuple_0[i as int]));
                    } else {
                        assert(decreases_to!(*pat => (*pat)->And_0));
                        assert(decreases_to!((*pat)->And_0 => (*pat)->And_0[i as int]));
                    }
                }
                let part = check_pattern(&tup[i], in_function, function_names, variables);
                if part.is_err() {
                    proof {
                        lemma_pats_vars_fails(tup@, (i + 1) as nat, tup@.len(), start, names);
                    }
                    return part;
                }
                i += 1;
            }
            Ok(())
        },
        Pattern::Or(tup) => {
            if tup.len() == 0 {
                return Err(unknown_error("Empty OR statement"));
            }
            let ghost start = name_set(variables@);
            proof {
                assert(decreases_to!(*pat => (*pat)->Or_0));
                assert(decreases_to!((*pat)->Or_0 => (*pat)->Or_0[0]));
            }
            let mut first = copy_names(variables);
            let head = check_pattern(&tup[0], in_function, function_names, &mut first);
            if head.is_err() {
                return head;
            }
            let mut i: usize = 0;
            while i < tup.len()
                invariant
                    i <= tup@.len(),
                    *pat == Pattern::Or(*tup),
                    start == name_set(old(variables)@),
                    start == name_set(variables@),
                    names == names_of(in_function, function_names@),
                    pat_vars(tup@[0], start, names) == Some(name_set(first@)),
                    alts_agree(tup@, i as nat, start, names, name_set(first@)),
                decreases tup@.len() - i,
            {
                proof {
                    assert(decreases_to!(*pat => (*pat)->Or_0));
                    assert(decreases_to!((*pat)->Or_0 => (*pat)->Or_0[i as int]));
                }
                let mut alternative = copy_names(variables);
                let part = check_pattern(&tup[i], in_function, function_names, &mut alternative);
                if part.is_err() {
                    proof {
                        lemma_alts_fail(tup@, (i + 1) as nat, tup@.len(), start, names, name_set(first@));
                    }
                    return part;
                }
                if !same_names(&alternative, &first) {
                    proof {
                        lemma_alts_fail(tup@, (i + 1) as nat, tup@.len(), start, names, name_set(first@));
                    }
                    return Err(unknown_error("Parts of OR expression define different variables"));
                }
                i += 1;
            }
            *variables = first;
            Ok(())
        },
        Pattern::Range(ab, bc) => {
            if let Some(k) = ab {
                check_expression(k, variables, in_function, function_names)?;
            }
            if let Some(k) = bc {
                check_expression(k, variables, in_function, function_names)?;
            }
            Ok(())
        },
    }
}

/// The names of the functions `fns`.
fn function_names_of(fns: &Vec<(String, PatternList)>) -> (r: Vec<String>)
    ensures
        name_set(r@) == function_name_set(fns@),
{
    let mut out: Vec<String> = Vec::new();
    let mut i: usize = 0;
    while i < fns.len()
        invariant
            i <= fns@.len(),
            out@.len() == i,
            forall|j: int| 0 <= j < i ==> #[trigger] out@[j]@ == fns@[j].0@,
        decreases fns@.len() - i,
    {
        out.push(fns[i].0.clone());
        i += 1;
    }
    assert forall|n: Seq<char>| name_set(out@).contains(n) <==> function_name_set(fns@).contains(
        n,
    ) by {
        if name_set(out@).contains(n) {
            let i = choose|i: int| 0 <= i < out@.len() && #[trigger] out@[i]@ == n;
            assert(fns@[i].0@ == n);
        }
        if function_name_set(fns@).contains(n) {
            let i = choose|i: int| 0 <= i < fns@.len() && #[trigger] fns@[i].0@ == n;
            assert(out@[i]@ == n);
        }
    }
    assert(name_set(out@) =~= function_name_set(fns@));
    out
}

/// Checks one rule (see `rule_ok`).
fn check_rule(
    pattern: &Pattern,
    expression: &Expression,
    in_function: bool,
    function_names: &Vec<String>,
) -> (r: CellTailResult<()>)
    ensures
        r is Ok == rule_ok(*pattern, *expression, names_of(in_function, function_names@)),
{
    let mut vars: Vec<String> = Vec::new();
    assert(name_set(vars@) =~= Set::<Seq<char>>::empty());
    check_pattern(pattern, in_function, function_names, &mut vars)?;
    check_expression(expression, &vars, in_function, function_names)
}

/// Checks a program before it runs (see `program_ok`): every variable is bound
/// before it is used, every call names a function of the program and stands
/// in a global rule, the alternatives of an `Or` bind the same variables, and
/// every global pattern is a tuple of three elements.
pub fn check_program(program: &Program) -> (r: CellTailResult<()>)
    ensures
        r is Ok == program_ok(*program),
{
    let function_names = function_names_of(&program.functions);
    let mut i: usize = 0;
    while i < program.rules.0.len()
        invariant
            i <= program.rules.0@.len(),
            name_set(function_names@) == function_name_set(program.functions@),
            forall|j: int|
                0 <= j < i ==> global_shape_ok(#[trigger] program.rules.0@[j].0) && rule_ok(
                    program.rules.0@[j].0,
                    program.rules.0@[j].1,
                    Some(function_name_set(program.functions@)),
                ),
        decreases program.rules.0@.len() - i,
    {
        let rule = &program.rules.0[i];
        let shaped = match &rule.0 {
            Pattern::Tuple(a) => a.len() == 3,
            _ => false,
        };
        if !shaped {
            return Err(unknown_error("A global rule must match 3 elements (left, center, right)"));
        }
        let checked = check_rule(&rule.0, &rule.1, false, &function_names);
        if checked.is_err() {
            return fallback_position(checked, &rule.2);
        }
        i += 1;
    }
    let mut f: usize = 0;
    while f < program.functions.len()
        invariant
            f <= program.functions@.len(),
            name_set(function_names@) == function_name_set(program.functions@),
            forall|j: int|
                0 <= j < program.rules.0@.len() ==> global_shape_ok(#[trigger] program.rules.0@[j].0)
                    && rule_ok(
                    program.rules.0@[j].0,
                    program.rules.0@[j].1,
                    Some(function_name_set(program.functions@)),
                ),
            forall|g: int, j: int|
                0 <= g < f && 0 <= j < program.functions@[g].1.0@.len() ==> rule_ok(
                    #[trigger] program.functions@[g].1.0@[j].0,
                    program.functions@[g].1.0@[j].1,
                    None,
                ),
        decreases program.functions@.len() - f,
    {
        let rules = &program.functions[f].1.0;
        let mut k: usize = 0;
        while k < rules.len()
            invariant
                k <= rules@.len(),
                f < program.functions@.len(),
                *rules == program.functions@[f as int].1.0,
                forall|g: int, j: int|
                    0 <= g < f && 0 <= j < program.functions@[g].1.0@.len() ==> rule_ok(
                        #[trigger] program.functions@[g].1.0@[j].0,
                        program.functions@[g].1.0@[j].1,
                        None,
                    ),
                forall|j: int| 0 <= j < k ==> rule_ok(#[trigger] rules@[j].0, rules@[j].1, None),
            decreases rules@.len() - k,
        {
            let checked = check_rule(&rules[k].0, &rules[k].1, true, &function_names);
            if checked.is_err() {
                return fallback_position(checked, &rules[k].2);
            }
            k += 1;
        }
        f += 1;
    }
    Ok(())
}

/// An expression that passes the checks of a function's rules, which allow no
/// call, has the same value at every call level: within a checked program the
/// one level of calls cuts nothing off.
pub proof fn lemma_call_free_any_level(
    e: Expression,
    vars: Set<Seq<char>>,
    b: Map<Seq<char>, Val>,
    fns: Seq<(String, PatternList)>,
    l1: nat,
    l2: nat,
)
    requires
        expr_ok(e, vars, None),
    ensures
        eval(e, b, fns, l1) == eval(e, b, fns, l2),
    decreases e, 0nat,
{
    match e {
        Expression::Tuple(es) => {
            lemma_elems_any_level(es@, es@.len(), vars, b, fns, l1, l2);
        },
        Expression::BinaryOperator(_, x, y) => {
            lemma_call_free_any_level(*x, vars, b, fns, l1, l2);
            lemma_call_free_any_level(*y, vars, b, fns, l1, l2);
        },
        Expression::UnaryOperator(_, x) => {
            lemma_call_free_any_level(*x, vars, b, fns, l1, l2);
        },
        _ => {},
    }
}

proof fn lemma_elems_any_level(
    es: Seq<Expression>,
    n: nat,
    vars: Set<Seq<char>>,
    b: Map<Seq<char>, Val>,
    fns: Seq<(String, PatternList)>,
    l1: nat,
    l2: nat,
)
    requires
        elems_ok(es, n, vars, None),
    ensures
        eval_elems(es, n, b, fns, l1) == eval_elems(es, n, b, fns, l2),
    decreases es, n,
{
    if n > 0 && n <= es.len() {
        lemma_elems_any_level(es, (n - 1) as nat, vars, b, fns, l1, l2);
        lemma_call_free_any_level(es[n - 1], vars, b, fns, l1, l2);
    }
}

} // verus!
