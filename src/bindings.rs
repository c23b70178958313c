use crate::literal::{Literal, Val};
use vstd::prelude::*;

verus! {

/// The variables bound during one match attempt: each name at most once.
#[derive(Debug)]
pub struct Bindings {
    entries: Vec<(String, Literal)>,
}

/// The map that the first `n` entries of `s` spell out.
pub open spec fn map_upto(s: Seq<(String, Literal)>, n: nat) -> Map<Seq<char>, Val>
    decreases n,
{
    if n == 0 || n > s.len() {
        Map::empty()
    } else {
        map_upto(s, (n - 1) as nat).insert(s[n - 1].0@, s[n - 1].1@)
    }
}

/// No name occurs twice in `s`.
pub open spec fn names_unique(s: Seq<(String, Literal)>) -> bool {
    forall|i: int, j: int| 0 <= i < j < s.len() ==> s[i].0@ != s[j].0@
}

proof fn lemma_map_upto(s: Seq<(String, Literal)>, n: nat)
    requires
        n <= s.len(),
        names_unique(s),
    ensures
        forall|k: Seq<char>| #[trigger]
            map_upto(s, n).contains_key(k) <==> exists|i: int| 0 <= i < n && s[i].0@ == k,
        forall|i: int| 0 <= i < n ==> #[trigger] map_upto(s, n)[s[i].0@] == s[i].1@,
    decreases n,
{
    if n > 0 {
        lemma_map_upto(s, (n - 1) as nat);
        let m = map_upto(s, (n - 1) as nat);
        assert forall|k: Seq<char>| #[trigger]
            map_upto(s, n).contains_key(k) <==> exists|i: int| 0 <= i < n && s[i].0@ == k by {
            if map_upto(s, n).contains_key(k) && k != s[n - 1].0@ {
                assert(m.contains_key(k));
                let i = choose|i: int| 0 <= i < n - 1 && s[i].0@ == k;
                assert(0 <= i < n && s[i].0@ == k);
            }
            if exists|i: int| 0 <= i < n && s[i].0@ == k {
                let i = choose|i: int| 0 <= i < n && s[i].0@ == k;
                if i < n - 1 {
                    assert(m.contains_key(k));
                }
            }
        }
    }
}

impl View for Bindings {
    type V = Map<Seq<char>, Val>;

    closed spec fn view(&self) -> Map<Seq<char>, Val> {
        map_upto(self.entries@, self.entries@.len())
    }
}

impl Bindings {
    /// Each name is bound at most once.
    pub closed spec fn wf(&self) -> bool {
        names_unique(self.entries@)
    }

    /// No variable bound.
    pub fn new() -> (r: Bindings)
        ensures
            r.wf(),
            r@ == Map::<Seq<char>, Val>::empty(),
    {
        Bindings { entries: Vec::new() }
    }

    /// The value bound to `name`, if any.
    pub fn get(&self, name: &String) -> (r: Option<&Literal>)
        requires
            self.wf(),
        ensures
            r.is_some() == self@.contains_key(name@),
            r.is_some() ==> r.unwrap()@ == self@[name@],
    {
        let mut i: usize = 0;
        while i < self.entries.len()
            invariant
                i <= self.entries@.len(),
                forall|j: int| 0 <= j < i ==> self.entries@[j].0@ != name@,
                names_unique(self.entries@),
            decreases self.entries@.len() - i,
        {
            if self.entries[i].0 == *name {
                proof {
                    lemma_map_upto(self.entries@, self.entries@.len());
                }
                return Some(&self.entries[i].1);
            }
            i += 1;
        }
        proof {
            lemma_map_upto(self.entries@, self.entries@.len());
        }
        None
    }

    /// Binds `name`, which is not bound yet, to `value`.
    pub fn insert(&mut self, name: String, value: Literal)
        requires
            old(self).wf(),
            !old(self)@.contains_key(name@),
        ensures
            final(self).wf(),
            final(self)@ == old(self)@.insert(name@, value@),
    {
        proof {
            lemma_map_upto(self.entries@, self.entries@.len());
        }
        let ghost before = self.entries@;
        self.entries.push((name, value));
        proof {
            assert(self.entries@.len() - 1 == before.len());
            assert(self.entries@.subrange(0, before.len() as int) =~= before);
            assert forall|i: int, j: int| 0 <= i < j < self.entries@.len() implies
                self.entries@[i].0@ != self.entries@[j].0@ by {
                if j == before.len() {
                    assert(before[i] == self.entries@[i]);
                    assert(map_upto(before, before.len()).contains_key(before[i].0@));
                }
            }
            assert(map_upto(self.entries@, before.len()) == map_upto(before, before.len())) by {
                lemma_map_upto_prefix(before, self.entries@, before.len());
            }
        }
    }

    /// A copy that binds the same names to the same values.
    pub fn duplicate(&self) -> (r: Bindings)
        requires
            self.wf(),
        ensures
            r.wf(),
            r@ == self@,
    {
        let mut out: Vec<(String, Literal)> = Vec::new();
        let mut i: usize = 0;
        while i < self.entries.len()
            invariant
                i <= self.entries@.len(),
                out@.len() == i,
                forall|j: int| #![trigger out@[j]] 0 <= j < i ==> out@[j].0@ == self.entries@[j].0@ && out@[j].1@ == self.entries@[j].1@,
            decreases self.entries@.len() - i,
        {
            let name = self.entries[i].0.clone();
            let value = self.entries[i].1.duplicate();
            out.push((name, value));
            i += 1;
        }
        proof {
            lemma_map_upto_same(out@, self.entries@, out@.len());
        }
        Bindings { entries: out }
    }
}

proof fn lemma_map_upto_prefix(s: Seq<(String, Literal)>, t: Seq<(String, Literal)>, n: nat)
    requires
        n <= s.len(),
        n <= t.len(),
        forall|i: int| 0 <= i < n ==> s[i] == t[i],
    ensures
        map_upto(s, n) == map_upto(t, n),
    decreases n,
{
    if n > 0 {
        lemma_map_upto_prefix(s, t, (n - 1) as nat);
    }
}

proof fn lemma_map_upto_same(s: Seq<(String, Literal)>, t: Seq<(String, Literal)>, n: nat)
    requires
        n <= s.len(),
        n <= t.len(),
        forall|i: int| #![trigger s[i]] 0 <= i < n ==> s[i].0@ == t[i].0@ && s[i].1@ == t[i].1@,
    ensures
        map_upto(s, n) == map_upto(t, n),
    decreases n,
{
    if n > 0 {
        lemma_map_upto_same(s, t, (n - 1) as nat);
    }
}

} // verus!
