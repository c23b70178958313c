use crate::bindings::Bindings;
use crate::text::is_text;
use crate::literal::{lemma_views_of, views_of, Literal, Val};
use crate::pattern_list::{dispatch, find_function, lookup, PatternList};
use vstd::prelude::*;

verus! {

#[derive(Debug, Clone, Copy, PartialEq, Eq, Structural)]
pub enum BinaryOperator {
    Add,
    Subtract,
    Multiply,
    Divide,
    And,
    Or,
    Xor,
    Mod,
}

#[derive(Debug, Clone, Copy, PartialEq, Eq, Structural)]
pub enum UnaryOperator {
    Neg,
    Not,
}

/// The computation tree of a rule's result, or of a guard in a pattern.
#[derive(Debug)]
pub enum Expression {
    Literal(Literal),
    Tuple(Vec<Expression>),
    BinaryOperator(BinaryOperator, Box<Expression>, Box<Expression>),
    UnaryOperator(UnaryOperator, Box<Expression>),
    FunctionCall(String, Box<Expression>),
    Variable(String),
}

/// The shape of an expression as plain values.
pub enum ExprView {
    Lit(Val),
    Tuple(Seq<ExprView>),
    Bin(BinaryOperator, Box<ExprView>, Box<ExprView>),
    Un(UnaryOperator, Box<ExprView>),
    Call(Seq<char>, Box<ExprView>),
    Var(Seq<char>),
}

/// The shapes of the first `n` expressions of `s`, in order.
pub open spec fn expr_views_upto(s: Seq<Expression>, n: nat) -> Seq<ExprView>
    decreases s, n,
{
    if n == 0 || n > s.len() {
        Seq::empty()
    } else {
        expr_views_upto(s, (n - 1) as nat).push(s[n - 1].view_at())
    }
}

/// The shapes of the expressions of `s`, in order.
pub open spec fn expr_views(s: Seq<Expression>) -> Seq<ExprView> {
    expr_views_upto(s, s.len())
}

impl Expression {
    pub open spec fn view_at(self) -> ExprView
        decreases self, 0nat,
    {
        match self {
            Expression::Literal(l) => ExprView::Lit(l@),
            Expression::Tuple(es) => ExprView::Tuple(expr_views_upto(es@, es@.len())),
            Expression::BinaryOperator(op, a, b) => ExprView::Bin(
                op,
                Box::new(a.view_at()),
                Box::new(b.view_at()),
            ),
            Expression::UnaryOperator(op, a) => ExprView::Un(op, Box::new(a.view_at())),
            Expression::FunctionCall(f, a) => ExprView::Call(f@, Box::new(a.view_at())),
            Expression::Variable(v) => ExprView::Var(v@),
        }
    }
}

impl View for Expression {
    type V = ExprView;

    open spec fn view(&self) -> ExprView {
        self.view_at()
    }
}

pub proof fn lemma_expr_views_upto(s: Seq<Expression>, n: nat)
    requires
        n <= s.len(),
    ensures
        expr_views_upto(s, n).len() == n,
        forall|i: int| 0 <= i < n ==> #[trigger] expr_views_upto(s, n)[i] == s[i]@,
    decreases n,
{
    if n > 0 {
        lemma_expr_views_upto(s, (n - 1) as nat);
    }
}

pub proof fn lemma_expr_views(s: Seq<Expression>)
    ensures
        expr_views(s).len() == s.len(),
        forall|i: int| 0 <= i < s.len() ==> #[trigger] expr_views(s)[i] == s[i]@,
{
    lemma_expr_views_upto(s, s.len());
}

/// Truncating division of `x` by a non-zero `y`; the one quotient that does
/// not fit, `isize::MIN / -1`, wraps round to `isize::MIN`.
pub open spec fn quotient(x: isize, y: isize) -> isize {
    match x.checked_div(y) {
        Some(q) => q,
        None => isize::MIN,
    }
}

/// Remainder of truncating division of `x` by a non-zero `y` (its sign is that
/// of `x`); for `isize::MIN % -1` it is 0.
pub open spec fn remainder(x: isize, y: isize) -> isize {
    match x.checked_rem(y) {
        Some(r) => r,
        None => 0,
    }
}

/// `-x`, where `-isize::MIN` wraps round to `isize::MIN`.
pub open spec fn negated(x: isize) -> isize {
    if x == isize::MIN {
        x
    } else {
        (-x) as isize
    }
}

/// The value `Absent`, for a name that stands for it.
pub open spec fn is_absent_name(name: Seq<char>) -> bool {
    name == seq!['N']
}

impl BinaryOperator {
    /// The operator on two integers: wrapping arithmetic, bitwise logic, and
    /// `Absent` for a division or remainder by zero.
    pub open spec fn on_ints(self, x: isize, y: isize) -> Val {
        match self {
            BinaryOperator::Add => Val::Int(x.wrapping_add(y)),
            BinaryOperator::Subtract => Val::Int(x.wrapping_sub(y)),
            BinaryOperator::Multiply => Val::Int(x.wrapping_mul(y)),
            BinaryOperator::Divide => if y == 0 {
                Val::Absent
            } else {
                Val::Int(quotient(x, y))
            },
            BinaryOperator::And => Val::Int(x & y),
            BinaryOperator::Or => Val::Int(x | y),
            BinaryOperator::Xor => Val::Int(x ^ y),
            BinaryOperator::Mod => if y == 0 {
                Val::Absent
            } else {
                Val::Int(remainder(x, y))
            },
        }
    }

    /// The operator on two values. `Absent` on either side gives the other side;
    /// an integer with a tuple on its right gives the pair of the two; a tuple on
    /// the left has the operator applied to its last element only (an empty
    /// tuple has none and stays as it is).
    pub open spec fn spec_apply(self, a: Val, b: Val) -> Val
        decreases a,
    {
        if a is Absent {
            b
        } else if b is Absent {
            a
        } else {
            match a {
                Val::Int(x) => match b {
                    Val::Int(y) => self.on_ints(x, y),
                    _ => Val::Tup(seq![a, b]),
                },
                Val::Tup(s) => if s.len() == 0 {
                    a
                } else {
                    Val::Tup(s.drop_last().push(self.spec_apply(s.last(), b)))
                },
                Val::Absent => b,
            }
        }
    }

    fn apply_add(op1: isize, op2: isize) -> (r: isize)
        ensures
            r == op1.wrapping_add(op2),
    {
        op1.wrapping_add(op2)
    }

    fn apply_sub(op1: isize, op2: isize) -> (r: isize)
        ensures
            r == op1.wrapping_sub(op2),
    {
        op1.wrapping_sub(op2)
    }

    fn apply_mul(op1: isize, op2: isize) -> (r: isize)
        ensures
            r == op1.wrapping_mul(op2),
    {
        op1.wrapping_mul(op2)
    }

    fn apply_div(op1: isize, op2: isize) -> (r: Literal)
        ensures
            r@ == BinaryOperator::Divide.on_ints(op1, op2),
    {
        if op2 == 0 {
            Literal::Null
        } else {
            match op1.checked_div(op2) {
                Some(q) => Literal::Number(q),
                None => Literal::Number(isize::MIN),
            }
        }
    }

    fn apply_mod(op1: isize, op2: isize) -> (r: Literal)
        ensures
            r@ == BinaryOperator::Mod.on_ints(op1, op2),
    {
        if op2 == 0 {
            Literal::Null
        } else {
            match op1.checked_rem(op2) {
                Some(m) => Literal::Number(m),
                None => Literal::Number(0),
            }
        }
    }

    fn apply_and(op1: isize, op2: isize) -> (r: isize)
        ensures
            r == op1 & op2,
    {
        op1 & op2
    }

    fn apply_or(op1: isize, op2: isize) -> (r: isize)
        ensures
            r == op1 | op2,
    {
        op1 | op2
    }

    fn apply_xor(op1: isize, op2: isize) -> (r: isize)
        ensures
            r == op1 ^ op2,
    {
        op1 ^ op2
    }

    /// Applies the operator to two values (see `spec_apply`).
    pub fn apply(self, op1: Literal, op2: Literal) -> (r: Literal)
        ensures
            r@ == self.spec_apply(op1@, op2@),
        decreases op1,
    {
        if let Literal::Null = op1 {
            return op2;
        }
        if let Literal::Null = op2 {
            return op1;
        }
        match op1 {
            Literal::Number(n) => match op2 {
                Literal::Number(n2) => match self {
                    BinaryOperator::Add => Literal::Number(Self::apply_add(n, n2)),
                    BinaryOperator::Subtract => Literal::Number(Self::apply_sub(n, n2)),
                    BinaryOperator::Multiply => Literal::Number(Self::apply_mul(n, n2)),
                    BinaryOperator::Divide => Self::apply_div(n, n2),
                    BinaryOperator::And => Literal::Number(Self::apply_and(n, n2)),
                    BinaryOperator::Or => Literal::Number(Self::apply_or(n, n2)),
                    BinaryOperator::Xor => Literal::Number(Self::apply_xor(n, n2)),
                    BinaryOperator::Mod => Self::apply_mod(n, n2),
                },
                b => {
                    let v: Vec<Literal> = vec![Literal::Number(n), b];
                    proof {
                        lemma_views_of(v@);
                        assert(views_of(v@) =~= seq![op1@, op2@]);
                    }
                    Literal::Tuple(v)
                },
            },
            Literal::Tuple(mut b) => {
                proof {
                    lemma_views_of(b@);
                }
                if b.len() == 0 {
                    return Literal::Tuple(b);
                }
                let ghost before = b@;
                let last = b.pop().unwrap();
                proof {
                    assert(decreases_to!(op1 => op1->Tuple_0));
                    assert(decreases_to!(op1->Tuple_0 => op1->Tuple_0[before.len() - 1]));
                    assert(last == before[before.len() - 1]);
                }
                let applied = self.apply(last, op2);
                b.push(applied);
                proof {
                    lemma_views_of(b@);
                    lemma_views_of(before);
                    assert(views_of(b@) =~= views_of(before).drop_last().push(
                        self.spec_apply(views_of(before).last(), op2@),
                    ));
                }
                Literal::Tuple(b)
            },
            Literal::Null => op2,
        }
    }
}

/// `Absent` is an identity on both sides of every binary operator: combined
/// with any value `v`, in either order, it gives `v`.
pub proof fn lemma_absent_identity(op: BinaryOperator, v: Val)
    ensures
        op.spec_apply(Val::Absent, v) == v,
        op.spec_apply(v, Val::Absent) == v,
{
}

impl UnaryOperator {
    /// `Neg` negates an integer (wrapping) and applies to the last element of a
    /// tuple; `Not` complements an integer's bits (`-1 - x`) and reverses a tuple's
    /// elements. Both leave `Absent` as it is, and an empty tuple too.
    pub open spec fn spec_apply(self, v: Val) -> Val
        decreases v,
    {
        match v {
            Val::Absent => Val::Absent,
            Val::Int(x) => match self {
                UnaryOperator::Neg => Val::Int(negated(x)),
                UnaryOperator::Not => Val::Int((-1 - x) as isize),
            },
            Val::Tup(s) => match self {
                UnaryOperator::Neg => if s.len() == 0 {
                    v
                } else {
                    Val::Tup(s.drop_last().push(self.spec_apply(s.last())))
                },
                UnaryOperator::Not => Val::Tup(s.reverse()),
            },
        }
    }

    /// Applies the operator to a value (see `spec_apply`).
    pub fn apply(self, value: Literal) -> (r: Literal)
        ensures
            r@ == self.spec_apply(value@),
        decreases value,
    {
        match value {
            Literal::Null => Literal::Null,
            Literal::Number(v) => match self {
                UnaryOperator::Neg => {
                    if v == isize::MIN {
                        Literal::Number(v)
                    } else {
                        Literal::Number(-v)
                    }
                },
                UnaryOperator::Not => Literal::Number(-1 - v),
            },
            Literal::Tuple(mut k) => {
                proof {
                    lemma_views_of(k@);
                }
                match self {
                    UnaryOperator::Neg => {
                        if k.len() == 0 {
                            return Literal::Tuple(k);
                        }
                        let ghost before = k@;
                        let last = k.pop().unwrap();
                        proof {
                            assert(decreases_to!(value => value->Tuple_0));
                            assert(decreases_to!(value->Tuple_0 => value->Tuple_0[before.len() - 1]));
                            assert(last == before[before.len() - 1]);
                        }
                        let applied = self.apply(last);
                        k.push(applied);
                        proof {
                            lemma_views_of(k@);
                            lemma_views_of(before);
                            assert(views_of(k@) =~= views_of(before).drop_last().push(
                                self.spec_apply(views_of(before).last()),
                            ));
                        }
                        Literal::Tuple(k)
                    },
                    UnaryOperator::Not => Self::array_reverse(k),
                }
            },
        }
    }

    /// The tuple of the same elements in reverse order.
    fn array_reverse(tuple: Vec<Literal>) -> (r: Literal)
        ensures
            r@ == Val::Tup(views_of(tuple@).reverse()),
    {
        let ghost orig = tuple@;
        let mut rest = tuple;
        let mut out: Vec<Literal> = Vec::new();
        while rest.len() > 0
            invariant
                rest@.len() + out@.len() == orig.len(),
                forall|j: int| 0 <= j < rest@.len() ==> #[trigger] rest@[j] == orig[j],
                forall|j: int| 0 <= j < out@.len() ==> #[trigger] out@[j] == orig[orig.len() - 1 - j],
            decreases rest@.len(),
        {
            let x = rest.pop().unwrap();
            out.push(x);
        }
        proof {
            lemma_views_of(out@);
            lemma_views_of(orig);
            assert(views_of(out@) =~= views_of(orig).reverse());
        }
        Literal::Tuple(out)
    }
}

/// The value of `e` with the variables `b` and the functions `fns`. A call is
/// dispatched at `level - 1`; at level 0 (the rules of a function) a call has
/// the value `Absent`, as it has when no function of that name exists or none
/// of its rules matches. An unbound variable has the value `Absent`.
pub open spec fn eval(
    e: Expression,
    b: Map<Seq<char>, Val>,
    fns: Seq<(String, PatternList)>,
    level: nat,
) -> Val
    decreases level, 0nat, e, 0nat,
{
    match e {
        Expression::Literal(l) => l@,
        Expression::Tuple(es) => Val::Tup(eval_elems(es@, es@.len(), b, fns, level)),
        Expression::Variable(name) => if is_absent_name(name@) || !b.contains_key(name@) {
            Val::Absent
        } else {
            b[name@]
        },
        Expression::BinaryOperator(op, x, y) => op.spec_apply(
            eval(*x, b, fns, level),
            eval(*y, b, fns, level),
        ),
        Expression::UnaryOperator(op, x) => op.spec_apply(eval(*x, b, fns, level)),
        Expression::FunctionCall(name, arg) => {
            let a = eval(*arg, b, fns, level);
            if level == 0 {
                Val::Absent
            } else {
                match lookup(fns, name@, 0) {
                    None => Val::Absent,
                    Some(pl) => match dispatch(pl.0@, 0, a, fns, (level - 1) as nat) {
                        Some(r) => r,
                        None => Val::Absent,
                    },
                }
            }
        },
    }
}

/// The values of the first `n` expressions of `es`, in order.
pub open spec fn eval_elems(
    es: Seq<Expression>,
    n: nat,
    b: Map<Seq<char>, Val>,
    fns: Seq<(String, PatternList)>,
    level: nat,
) -> Seq<Val>
    decreases level, 0nat, es, n,
{
    if n == 0 || n > es.len() {
        Seq::empty()
    } else {
        eval_elems(es, (n - 1) as nat, b, fns, level).push(eval(es[n - 1], b, fns, level))
    }
}

pub proof fn lemma_eval_elems(
    es: Seq<Expression>,
    n: nat,
    b: Map<Seq<char>, Val>,
    fns: Seq<(String, PatternList)>,
    level: nat,
)
    requires
        n <= es.len(),
    ensures
        eval_elems(es, n, b, fns, level).len() == n,
        forall|i: int|
            0 <= i < n ==> #[trigger] eval_elems(es, n, b, fns, level)[i] == eval(
                es[i],
                b,
                fns,
                level,
            ),
    decreases n,
{
    if n > 0 {
        lemma_eval_elems(es, (n - 1) as nat, b, fns, level);
    }
}

impl Expression {
    /// The value of this expression with the variables `vars`; a function call
    /// in it runs the named function's rules, where a further call has the
    /// value `Absent`.
    pub fn evaluate(&self, vars: &Bindings, functions: &Vec<(String, PatternList)>) -> (r: Literal)
        requires
            vars.wf(),
        ensures
            r@ == eval(*self, vars@, functions@, 1),
    {
        self.evaluate_at(vars, functions, 1)
    }

    /// The value of this expression at call level `level` (see `eval`).
    pub fn evaluate_at(
        &self,
        vars: &Bindings,
        functions: &Vec<(String, PatternList)>,
        level: usize,
    ) -> (r: Literal)
        requires
            vars.wf(),
        ensures
            r@ == eval(*self, vars@, functions@, level as nat),
        decreases level, 0nat, *self, 0nat,
    {
        match self {
            Expression::Literal(v) => {
v.duplicate()
            },
            Expression::Tuple(es) => {
                let mut out: Vec<Literal> = Vec::new();
                let mut i: usize = 0;
                while i < es.len()
                    invariant
                        i <= es@.len(),
                        out@.len() == i,
                        vars.wf(),
                        *self == Expression::Tuple(*es),
                        forall|j: int|
                            0 <= j < i ==> #[trigger] out@[j]@ == eval(
                                es@[j],
                                vars@,
                                functions@,
                                level as nat,
                            ),
                    decreases es@.len() - i,
                {
                    proof {
                        assert(decreases_to!(*self => (*self)->Tuple_0));
                        assert(decreases_to!((*self)->Tuple_0 => (*self)->Tuple_0[i as int]));
                    }
                    let x = es[i].evaluate_at(vars, functions, level);
                    out.push(x);
                    i += 1;
                }
                proof {
                    lemma_views_of(out@);
                    lemma_eval_elems(es@, es@.len(), vars@, functions@, level as nat);
                    assert(views_of(out@) =~= eval_elems(
                        es@,
                        es@.len(),
                        vars@,
                        functions@,
                        level as nat,
                    ));
                }
                Literal::Tuple(out)
            },
            Expression::Variable(name) => {
                if is_text(name, "N") {
                    proof {
                        reveal_strlit("N");
                        assert(name@ =~= seq!['N']);
                    }
                    Literal::Null
                } else {
                    proof {
                        reveal_strlit("N");
                        assert("N"@ =~= seq!['N']);
                    }
                    match vars.get(name) {
                        Some(v) => v.duplicate(),
                        None => Literal::Null,
                    }
                }
            },
            Expression::BinaryOperator(op, ex1, ex2) => {
                let a = ex1.evaluate_at(vars, functions, level);
                let b = ex2.evaluate_at(vars, functions, level);
                op.apply(a, b)
            },
            Expression::UnaryOperator(op, ex) => {
                let a = ex.evaluate_at(vars, functions, level);
                op.apply(a)
            },
            Expression::FunctionCall(name, argument) => {
                let a = argument.evaluate_at(vars, functions, level);
                if level == 0 {
                    return Literal::Null;
                }
                match find_function(functions, name) {
                    None => Literal::Null,
                    Some(pl) => match pl.dispatch_at(a, functions, level - 1) {
                        Some(r) => r,
                        None => Literal::Null,
                    },
                }
            },
        }
    }
}

} // verus!
