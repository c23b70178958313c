use vstd::prelude::*;

verus! {

/// The mathematical value that a `Literal` stands for.
pub enum Val {
    Absent,
    Int(isize),
    Tup(Seq<Val>),
}

/// A runtime value: nothing, an integer, or an ordered tuple of values.
#[derive(Debug)]
pub enum Literal {
    Null,
    Number(isize),
    Tuple(Vec<Literal>),
}

/// The values of the first `n` literals of `s`, in order.
pub open spec fn views_upto(s: Seq<Literal>, n: nat) -> Seq<Val>
    decreases s, n,
{
    if n == 0 || n > s.len() {
        Seq::empty()
    } else {
        views_upto(s, (n - 1) as nat).push(s[n - 1].view_at())
    }
}

/// The values of all the literals of `s`, in order.
pub open spec fn views_of(s: Seq<Literal>) -> Seq<Val> {
    views_upto(s, s.len())
}

impl Literal {
    pub open spec fn view_at(self) -> Val
        decreases self, 0nat,
    {
        match self {
            Literal::Null => Val::Absent,
            Literal::Number(n) => Val::Int(n),
            Literal::Tuple(v) => Val::Tup(views_upto(v@, v@.len())),
        }
    }
}

impl View for Literal {
    type V = Val;

    open spec fn view(&self) -> Val {
        self.view_at()
    }
}

pub proof fn lemma_views_upto(s: Seq<Literal>, n: nat)
    requires
        n <= s.len(),
    ensures
        views_upto(s, n).len() == n,
        forall|i: int| 0 <= i < n ==> #[trigger] views_upto(s, n)[i] == s[i]@,
    decreases n,
{
    if n > 0 {
        lemma_views_upto(s, (n - 1) as nat);
    }
}

pub proof fn lemma_views_of(s: Seq<Literal>)
    ensures
        views_of(s).len() == s.len(),
        forall|i: int| 0 <= i < s.len() ==> #[trigger] views_of(s)[i] == s[i]@,
{
    lemma_views_upto(s, s.len());
}

/// The string convention: each byte, first to last, as a right-nested chain of
/// pairs `(byte, rest)` that ends in `Absent`.
pub open spec fn string_val(s: Seq<u8>) -> Val
    decreases s.len(),
{
    if s.len() == 0 {
        Val::Absent
    } else {
        Val::Tup(seq![Val::Int(s[0] as isize), string_val(s.drop_first())])
    }
}

/// Rank of a value's variant in the total order: `Absent < Int < Tup`.
pub open spec fn variant_rank(v: Val) -> int {
    match v {
        Val::Absent => 0,
        Val::Int(_) => 1,
        Val::Tup(_) => 2,
    }
}

/// Three-way comparison of two values: -1, 0 or 1. Integers compare numerically,
/// tuples lexicographically, element by element, a proper prefix first.
pub open spec fn val_cmp(a: Val, b: Val) -> int
    decreases a, 0nat,
{
    match (a, b) {
        (Val::Int(x), Val::Int(y)) => if x < y {
            -1
        } else if x > y {
            1
        } else {
            0
        },
        (Val::Tup(s), Val::Tup(t)) => seq_cmp(s, t, 0),
        _ => if variant_rank(a) < variant_rank(b) {
            -1
        } else if variant_rank(a) > variant_rank(b) {
            1
        } else {
            0
        },
    }
}

/// Lexicographic comparison of `s` and `t` from position `i` on.
pub open spec fn seq_cmp(s: Seq<Val>, t: Seq<Val>, i: nat) -> int
    decreases s, s.len() - i,
{
    if i >= s.len() {
        if i >= t.len() {
            0
        } else {
            -1
        }
    } else if i >= t.len() {
        1
    } else if val_cmp(s[i as int], t[i as int]) != 0 {
        val_cmp(s[i as int], t[i as int])
    } else {
        seq_cmp(s, t, i + 1)
    }
}

/// `a` comes strictly before `b` in the total order of values.
pub open spec fn val_lt(a: Val, b: Val) -> bool {
    val_cmp(a, b) < 0
}

impl Literal {
    /// A copy of this literal, with the same value.
    pub fn duplicate(&self) -> (r: Literal)
        ensures
            r@ == self@,
        decreases self,
    {
        match self {
            Literal::Null => Literal::Null,
            Literal::Number(n) => Literal::Number(*n),
            Literal::Tuple(v) => {
                let mut out: Vec<Literal> = Vec::new();
                let mut i: usize = 0;
                while i < v.len()
                    invariant
                        i <= v.len(),
                        out@.len() == i,
                        forall|j: int| 0 <= j < i ==> #[trigger] out@[j]@ == v@[j]@,
                        *self == Literal::Tuple(*v),
                    decreases v.len() - i,
                {
                    proof {
                        assert(decreases_to!(*self => (*self)->Tuple_0));
                        assert(decreases_to!(*v => v[i as int]));
                    }
                    out.push(v[i].duplicate());
                    i += 1;
                }
                proof {
                    lemma_views_of(out@);
                    lemma_views_of(v@);
                    assert(views_of(out@) =~= views_of(v@));
                }
                Literal::Tuple(out)
            },
        }
    }

    /// Structural equality of the two values.
    pub fn same_as(&self, other: &Literal) -> (r: bool)
        ensures
            r == (self@ == other@),
        decreases self,
    {
        match (self, other) {
            (Literal::Null, Literal::Null) => true,
            (Literal::Number(a), Literal::Number(b)) => *a == *b,
            (Literal::Tuple(a), Literal::Tuple(b)) => {
                proof {
                    lemma_views_of(a@);
                    lemma_views_of(b@);
                }
                if a.len() != b.len() {
                    assert(views_of(a@).len() != views_of(b@).len());
                    return false;
                }
                let mut i: usize = 0;
                while i < a.len()
                    invariant
                        i <= a.len(),
                        a.len() == b.len(),
                        forall|j: int| 0 <= j < i ==> #[trigger] a@[j]@ == b@[j]@,
                        *self == Literal::Tuple(*a),
                        *other == Literal::Tuple(*b),
                    decreases a.len() - i,
                {
                    proof {
                        assert(decreases_to!(*self => (*self)->Tuple_0));
                        assert(decreases_to!(*a => a[i as int]));
                        lemma_views_of(a@);
                        lemma_views_of(b@);
                    }
                    if !a[i].same_as(&b[i]) {
                        assert(views_of(a@)[i as int] != views_of(b@)[i as int]);
                        return false;
                    }
                    i += 1;
                }
                assert(views_of(a@) =~= views_of(b@));
                true
            },
            _ => false,
        }
    }

    /// Three-way comparison in the total order of values: -1, 0 or 1.
    pub fn compare(&self, other: &Literal) -> (r: i8)
        ensures
            r as int == val_cmp(self@, other@),
        decreases self,
    {
        match (self, other) {
            (Literal::Number(a), Literal::Number(b)) => {
                if *a < *b {
                    -1
                } else if *a > *b {
                    1
                } else {
                    0
                }
            },
            (Literal::Tuple(a), Literal::Tuple(b)) => {
                proof {
                    lemma_views_of(a@);
                    lemma_views_of(b@);
                }
                let ghost s = views_of(a@);
                let ghost t = views_of(b@);
                let mut i: usize = 0;
                while i < a.len() && i < b.len()
                    invariant
                        i <= a.len(),
                        i <= b.len(),
                        s == views_of(a@),
                        t == views_of(b@),
                        s.len() == a.len(),
                        t.len() == b.len(),
                        forall|j: int| 0 <= j < a.len() ==> #[trigger] s[j] == a@[j]@,
                        forall|j: int| 0 <= j < b.len() ==> #[trigger] t[j] == b@[j]@,
                        seq_cmp(s, t, 0) == seq_cmp(s, t, i as nat),
                        *self == Literal::Tuple(*a),
                        *other == Literal::Tuple(*b),
                    decreases a.len() - i,
                {
                    proof {
                        assert(decreases_to!(*self => (*self)->Tuple_0));
                        assert(decreases_to!(*a => a[i as int]));
                    }
                    let c = a[i].compare(&b[i]);
                    if c != 0 {
                        return c;
                    }
                    i += 1;
                }
                if a.len() == b.len() {
                    0
                } else if i == a.len() {
                    -1
                } else {
                    1
                }
            },
            _ => {
                let x: u8 = self.rank();
                let y: u8 = other.rank();
                if x < y {
                    -1
                } else if x > y {
                    1
                } else {
                    0
                }
            },
        }
    }

    /// This literal is `Null`.
    pub fn is_null(&self) -> (r: bool)
        ensures
            r == (self@ is Absent),
    {
        match self {
            Literal::Null => true,
            _ => false,
        }
    }

    fn rank(&self) -> (r: u8)
        ensures
            r as int == variant_rank(self@),
    {
        match self {
            Literal::Null => 0,
            Literal::Number(_) => 1,
            Literal::Tuple(_) => 2,
        }
    }

    /// `self` comes strictly before `other` in the total order of values.
    pub fn less_than(&self, other: &Literal) -> (r: bool)
        ensures
            r == val_lt(self@, other@),
    {
        self.compare(other) < 0
    }

    /// The string convention applied to `item`: a right-nested chain of pairs
    /// `(byte, rest)`, one for each byte in order, that ends in `Null`.
    pub fn new_string_literal(item: &[u8]) -> (r: Literal)
        ensures
            r@ == string_val(item@),
    {
        let mut acc = Literal::Null;
        let mut i: usize = item.len();
        while i > 0
            invariant
                i <= item@.len(),
                acc@ == string_val(item@.subrange(i as int, item@.len() as int)),
            decreases i,
        {
            i -= 1;
            let ghost rest = item@.subrange(i + 1, item@.len() as int);
            let ghost whole = item@.subrange(i as int, item@.len() as int);
            assert(whole.drop_first() =~= rest);
            let v: Vec<Literal> = vec![Literal::Number(item[i] as isize), acc];
            proof {
                lemma_views_of(v@);
                assert(views_of(v@) =~= seq![Val::Int(item@[i as int] as isize), string_val(rest)]);
            }
            acc = Literal::Tuple(v);
        }
        assert(item@.subrange(0, item@.len() as int) =~= item@);
        acc
    }
}

impl PartialEq for Literal {
    fn eq(&self, other: &Literal) -> (r: bool) {
        self.same_as(other)
    }
}

impl vstd::std_specs::cmp::PartialEqSpecImpl for Literal {
    open spec fn obeys_eq_spec() -> bool {
        true
    }

    open spec fn eq_spec(&self, other: &Literal) -> bool {
        self@ == other@
    }
}

} // verus!
