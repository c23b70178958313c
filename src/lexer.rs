use crate::errors::{CellTailError, CellTailResult, SourceCodePosition};
use crate::tokenizer::{Token, TokenKind, TokenView};
use vstd::prelude::*;

verus! {

/// Tokens grouped by the brackets around them, or by the `;` that ends a
/// statement.
#[derive(Debug)]
pub struct TokenGroup {
    pub delimiter: Option<char>,
    pub contents: Vec<LexerToken>,
}

#[derive(Debug)]
pub enum LexerToken {
    Group(TokenGroup),
    BasicToken(Token),
}

/// The value of a lexer token: a group with its delimiter and contents, or a
/// token.
pub enum LexView {
    Group(Option<char>, Seq<LexView>),
    Basic(TokenView),
}

/// The value of a group: its delimiter and its contents.
pub type GroupView = (Option<char>, Seq<LexView>);

/// The values of the first `n` lexer tokens of `s`.
pub open spec fn lex_views_upto(s: Seq<LexerToken>, n: nat) -> Seq<LexView>
    decreases s, n,
{
    if n == 0 || n > s.len() {
        Seq::empty()
    } else {
        lex_views_upto(s, (n - 1) as nat).push(s[n - 1].view_at())
    }
}

/// The values of the lexer tokens of `s`.
pub open spec fn lex_views(s: Seq<LexerToken>) -> Seq<LexView> {
    lex_views_upto(s, s.len())
}

impl LexerToken {
    pub open spec fn view_at(self) -> LexView
        decreases self, 0nat,
    {
        match self {
            LexerToken::Group(g) => LexView::Group(
                g.delimiter,
                lex_views_upto(g.contents@, g.contents@.len()),
            ),
            LexerToken::BasicToken(t) => LexView::Basic(t@),
        }
    }
}

impl View for LexerToken {
    type V = LexView;

    open spec fn view(&self) -> LexView {
        self.view_at()
    }
}

impl View for TokenGroup {
    type V = GroupView;

    open spec fn view(&self) -> GroupView {
        (self.delimiter, lex_views(self.contents@))
    }
}

pub proof fn lemma_lex_views_upto(s: Seq<LexerToken>, n: nat)
    requires
        n <= s.len(),
    ensures
        lex_views_upto(s, n).len() == n,
        forall|i: int| 0 <= i < n ==> #[trigger] lex_views_upto(s, n)[i] == s[i]@,
    decreases n,
{
    if n > 0 {
        lemma_lex_views_upto(s, (n - 1) as nat);
    }
}

pub proof fn lemma_lex_views(s: Seq<LexerToken>)
    ensures
        lex_views(s).len() == s.len(),
        forall|i: int| 0 <= i < s.len() ==> #[trigger] lex_views(s)[i] == s[i]@,
{
    lemma_lex_views_upto(s, s.len());
}

/// `t` is a token of the kind `kind`.
pub open spec fn is_kind(t: LexView, kind: TokenKind) -> bool {
    match t {
        LexView::Basic(k) => k.0 == kind,
        _ => false,
    }
}

/// The position of the first token of the kind `kind` in `s`, from `i` on.
pub open spec fn first_of_kind(s: Seq<LexView>, kind: TokenKind, i: nat) -> Option<nat>
    decreases s.len() - i,
{
    if i >= s.len() {
        None
    } else if is_kind(s[i as int], kind) {
        Some(i)
    } else {
        first_of_kind(s, kind, i + 1)
    }
}

/// The pieces of the first `n` elements of `s` between the tokens of the kind
/// `kind`, which are dropped: one more piece than there are such tokens, some
/// of them maybe empty.
pub open spec fn pieces_upto(s: Seq<LexView>, kind: TokenKind, n: nat) -> Seq<Seq<LexView>>
    decreases n,
{
    if n == 0 || n > s.len() {
        seq![Seq::empty()]
    } else {
        let p = pieces_upto(s, kind, (n - 1) as nat);
        if is_kind(s[n - 1], kind) {
            p.push(Seq::empty())
        } else {
            p.update(p.len() - 1, p.last().push(s[n - 1]))
        }
    }
}

proof fn lemma_pieces_nonempty(s: Seq<LexView>, kind: TokenKind, n: nat)
    ensures
        pieces_upto(s, kind, n).len() >= 1,
    decreases n,
{
    if n > 0 && n <= s.len() {
        lemma_pieces_nonempty(s, kind, (n - 1) as nat);
    }
}

/// Where a lexer token starts: a token's start, or that of a group's first
/// element.
pub open spec fn lex_start(t: LexerToken) -> Option<usize>
    decreases t,
{
    match t {
        LexerToken::Group(g) => if g.contents@.len() == 0 {
            None
        } else {
            lex_start(g.contents@[0])
        },
        LexerToken::BasicToken(k) => Some(k.start),
    }
}

/// Where a lexer token ends: a token's end, or that of a group's last element.
pub open spec fn lex_end(t: LexerToken) -> Option<usize>
    decreases t,
{
    match t {
        LexerToken::Group(g) => if g.contents@.len() == 0 {
            None
        } else {
            lex_end(g.contents@[g.contents@.len() - 1])
        },
        LexerToken::BasicToken(k) => Some(k.end),
    }
}

fn token_start(t: &LexerToken) -> (r: Option<usize>)
    ensures
        r == lex_start(*t),
    decreases t,
{
    match t {
        LexerToken::Group(g) => {
            if g.contents.len() == 0 {
                None
            } else {
                proof {
                    assert(decreases_to!(*t => (*t)->Group_0));
                    assert(decreases_to!((*t)->Group_0 => (*t)->Group_0.contents));
                    assert(decreases_to!((*t)->Group_0.contents => (*t)->Group_0.contents[0]));
                }
                token_start(&g.contents[0])
            }
        },
        LexerToken::BasicToken(k) => Some(k.start),
    }
}

fn token_end(t: &LexerToken) -> (r: Option<usize>)
    ensures
        r == lex_end(*t),
    decreases t,
{
    match t {
        LexerToken::Group(g) => {
            let n = g.contents.len();
            if n == 0 {
                None
            } else {
                proof {
                    assert(decreases_to!(*t => (*t)->Group_0));
                    assert(decreases_to!((*t)->Group_0 => (*t)->Group_0.contents));
                    assert(decreases_to!((*t)->Group_0.contents => (*t)->Group_0.contents[n - 1]));
                }
                token_end(&g.contents[n - 1])
            }
        },
        LexerToken::BasicToken(k) => Some(k.end),
    }
}

impl SourceCodePosition for LexerToken {
    open spec fn spec_start(&self) -> Option<usize> {
        lex_start(*self)
    }

    open spec fn spec_end(&self) -> Option<usize> {
        lex_end(*self)
    }

    fn get_start(&self) -> (r: Option<usize>) {
        token_start(self)
    }

    fn get_end(&self) -> (r: Option<usize>) {
        token_end(self)
    }
}

impl SourceCodePosition for TokenGroup {
    open spec fn spec_start(&self) -> Option<usize> {
        if self.contents@.len() == 0 {
            None
        } else {
            lex_start(self.contents@[0])
        }
    }

    open spec fn spec_end(&self) -> Option<usize> {
        if self.contents@.len() == 0 {
            None
        } else {
            lex_end(self.contents@[self.contents@.len() - 1])
        }
    }

    fn get_start(&self) -> (r: Option<usize>) {
        if self.contents.len() == 0 {
            None
        } else {
            token_start(&self.contents[0])
        }
    }

    fn get_end(&self) -> (r: Option<usize>) {
        let n = self.contents.len();
        if n == 0 {
            None
        } else {
            token_end(&self.contents[n - 1])
        }
    }
}

impl LexerToken {
    /// A copy of this lexer token.
    pub fn duplicate(&self) -> (r: LexerToken)
        ensures
            r@ == self@,
        decreases self, 1nat,
    {
        match self {
            LexerToken::Group(g) => {
                proof {
                    assert(decreases_to!(*self => (*self)->Group_0));
                }
                LexerToken::Group(g.duplicate())
            },
            LexerToken::BasicToken(k) => LexerToken::BasicToken(
                Token { kind: k.kind, start: k.start, end: k.end, value: k.value.clone() },
            ),
        }
    }

    /// This is a token of the kind `kind`.
    pub fn is_token_of(&self, kind: TokenKind) -> (r: bool)
        ensures
            r == is_kind(self@, kind),
    {
        match self {
            LexerToken::BasicToken(k) => k.kind == kind,
            _ => false,
        }
    }
}

/// Copies of the elements of `v` from `from` up to `to`.
pub fn copy_range(v: &Vec<LexerToken>, from: usize, to: usize) -> (r: Vec<LexerToken>)
    requires
        from <= to <= v@.len(),
    ensures
        lex_views(r@) == lex_views(v@).subrange(from as int, to as int),
{
    let mut out: Vec<LexerToken> = Vec::new();
    let mut i: usize = from;
    while i < to
        invariant
            from <= i <= to,
            to <= v@.len(),
            out@.len() == i - from,
            forall|j: int| 0 <= j < out@.len() ==> #[trigger] out@[j]@ == v@[from + j]@,
        decreases to - i,
    {
        out.push(v[i].duplicate());
        i += 1;
    }
    proof {
        lemma_lex_views(out@);
        lemma_lex_views(v@);
        assert(lex_views(out@) =~= lex_views(v@).subrange(from as int, to as int));
    }
    out
}

impl TokenGroup {
    /// A copy of this group.
    pub fn duplicate(&self) -> (r: TokenGroup)
        ensures
            r@ == self@,
        decreases self, 0nat,
    {
        let mut out: Vec<LexerToken> = Vec::new();
        let mut i: usize = 0;
        while i < self.contents.len()
            invariant
                i <= self.contents@.len(),
                out@.len() == i,
                forall|j: int| 0 <= j < i ==> #[trigger] out@[j]@ == self.contents@[j]@,
            decreases self.contents@.len() - i,
        {
            proof {
                assert(decreases_to!(*self => (*self).contents));
                assert(decreases_to!((*self).contents => (*self).contents[i as int]));
            }
            out.push(self.contents[i].duplicate());
            i += 1;
        }
        proof {
            lemma_lex_views(out@);
            lemma_lex_views(self.contents@);
            assert(lex_views(out@) =~= lex_views(self.contents@));
        }
        TokenGroup { delimiter: self.delimiter, contents: out }
    }

    /// The first token of the kind `kind`, with what comes before it and what
    /// comes after it, each under this group's delimiter; `None` when there is
    /// no such token.
    pub fn split_first(&self, kind: TokenKind) -> (r: Option<(TokenGroup, Token, TokenGroup)>)
        ensures
            first_of_kind(self@.1, kind, 0) is None ==> r is None,
            first_of_kind(self@.1, kind, 0) is Some ==> {
                let i = first_of_kind(self@.1, kind, 0)->Some_0 as int;
                &&& r is Some
                &&& r.unwrap().0@ == (self.delimiter, self@.1.subrange(0, i))
                &&& LexView::Basic(r.unwrap().1@) == self@.1[i]
                &&& r.unwrap().2@ == (self.delimiter, self@.1.subrange(i + 1, self@.1.len() as int))
            },
    {
        proof {
            lemma_lex_views(self.contents@);
        }
        let mut index: usize = 0;
        while index < self.contents.len()
            invariant
                index <= self.contents@.len(),
                lex_views(self.contents@).len() == self.contents@.len(),
                forall|j: int|
                    0 <= j < self.contents@.len() ==> #[trigger] lex_views(self.contents@)[j]
                        == self.contents@[j]@,
                first_of_kind(self@.1, kind, 0) == first_of_kind(self@.1, kind, index as nat),
            decreases self.contents@.len() - index,
        {
            if self.contents[index].is_token_of(kind) {
                let middle = match &self.contents[index] {
                    LexerToken::BasicToken(k) => Token {
                        kind: k.kind,
                        start: k.start,
                        end: k.end,
                        value: k.value.clone(),
                    },
                    LexerToken::Group(_) => {
                        return None;
                    },
                };
                let left = TokenGroup {
                    delimiter: self.delimiter,
                    contents: copy_range(&self.contents, 0, index),
                };
                let right = TokenGroup {
                    delimiter: self.delimiter,
                    contents: copy_range(&self.contents, index + 1, self.contents.len()),
                };
                return Some((left, middle, right));
            }
            index += 1;
        }
        None
    }

    /// The pieces of this group between the tokens of the kind `kind`, which
    /// are dropped, each a group without a delimiter (see `pieces_upto`).
    pub fn split_all(&self, kind: TokenKind) -> (r: Vec<TokenGroup>)
        ensures
            r@.len() == pieces_upto(self@.1, kind, self@.1.len()).len(),
            forall|i: int|
                0 <= i < r@.len() ==> #[trigger] r@[i]@ == (
                    None::<char>,
                    pieces_upto(self@.1, kind, self@.1.len())[i],
                ),
    {
        proof {
            lemma_lex_views(self.contents@);
        }
        let ghost s = self@.1;
        let mut out: Vec<TokenGroup> = Vec::new();
        let mut current: Vec<LexerToken> = Vec::new();
        let mut i: usize = 0;
        while i < self.contents.len()
            invariant
                i <= self.contents@.len(),
                s == self@.1,
                s.len() == self.contents@.len(),
                forall|j: int| 0 <= j < self.contents@.len() ==> #[trigger] s[j] == self.contents@[j]@,
                out@.len() + 1 == pieces_upto(s, kind, i as nat).len(),
                forall|j: int|
                    0 <= j < out@.len() ==> #[trigger] out@[j]@ == (
                        None::<char>,
                        pieces_upto(s, kind, i as nat)[j],
                    ),
                lex_views(current@) == pieces_upto(s, kind, i as nat).last(),
            decreases self.contents@.len() - i,
        {
            proof {
                lemma_pieces_nonempty(s, kind, i as nat);
                lemma_lex_views(current@);
            }
            if self.contents[i].is_token_of(kind) {
                let piece = TokenGroup { delimiter: None, contents: current };
                out.push(piece);
                current = Vec::new();
                proof {
                    assert(lex_views(current@) =~= Seq::<LexView>::empty());
                }
            } else {
                let ghost before = current@;
                current.push(self.contents[i].duplicate());
                proof {
                    lemma_lex_views(current@);
                    lemma_lex_views(before);
                    assert(lex_views(current@) =~= lex_views(before).push(s[i as int]));
                }
            }
            i += 1;
        }
        proof {
            lemma_pieces_nonempty(s, kind, i as nat);
        }
        out.push(TokenGroup { delimiter: None, contents: current });
        out
    }

    /// Some element of this group is a token of the kind `kind`.
    pub fn contains(&self, kind: TokenKind) -> (r: bool)
        ensures
            r == exists|i: int| 0 <= i < self@.1.len() && is_kind(#[trigger] self@.1[i], kind),
    {
        proof {
            lemma_lex_views(self.contents@);
        }
        let mut i: usize = 0;
        while i < self.contents.len()
            invariant
                i <= self.contents@.len(),
                self@.1.len() == self.contents@.len(),
                forall|j: int| 0 <= j < self.contents@.len() ==> #[trigger] self@.1[j] == self.contents@[j]@,
                forall|j: int| 0 <= j < i ==> !is_kind(#[trigger] self@.1[j], kind),
            decreases self.contents@.len() - i,
        {
            if self.contents[i].is_token_of(kind) {
                assert(is_kind(self@.1[i as int], kind));
                return true;
            }
            i += 1;
        }
        false
    }
}

/// `x` added after the contents of the group on top of `stack`.
pub open spec fn add_to_top(stack: Seq<GroupView>, x: LexView) -> Seq<GroupView> {
    stack.update(stack.len() - 1, (stack.last().0, stack.last().1.push(x)))
}

/// The stack of open groups after the token `t`, or `None` when `t` is out of
/// place. An opening bracket opens a group; a closing bracket closes the
/// bracket group on top; `;` closes the statement group on top and opens the
/// next; a comment is dropped; any other token joins the group on top.
pub open spec fn lex_step(stack: Seq<GroupView>, t: TokenView) -> Option<Seq<GroupView>> {
    match t.0 {
        TokenKind::OpeningBracket(c) => Some(stack.push((Some(c), Seq::empty()))),
        TokenKind::Semicolon => if stack.len() < 2 || stack.last().0 != Some(';') {
            None
        } else {
            Some(
                add_to_top(
                    stack.drop_last(),
                    LexView::Group(stack.last().0, stack.last().1),
                ).push((Some(';'), Seq::empty())),
            )
        },
        TokenKind::Comment => Some(stack),
        TokenKind::ClosingBracket(_) => if stack.len() < 2 || stack.last().0 is None
            || stack.last().0 == Some(';') {
            None
        } else {
            Some(add_to_top(stack.drop_last(), LexView::Group(stack.last().0, stack.last().1)))
        },
        _ => if stack.len() == 0 {
            None
        } else {
            Some(add_to_top(stack, LexView::Basic(t)))
        },
    }
}

/// The stack at the start: the whole program, and its first statement.
pub open spec fn initial_stack() -> Seq<GroupView> {
    seq![(None, Seq::empty()), (Some(';'), Seq::empty())]
}

/// The stack after the first `n` tokens of `tokens`, or `None` when one of
/// them is out of place.
pub open spec fn lex_upto(tokens: Seq<TokenView>, n: nat) -> Option<Seq<GroupView>>
    decreases n,
{
    if n == 0 || n > tokens.len() {
        Some(initial_stack())
    } else {
        match lex_upto(tokens, (n - 1) as nat) {
            None => None,
            Some(st) => lex_step(st, tokens[n - 1]),
        }
    }
}

/// The grouping of `tokens`: a group of statements, each a group that a `;`
/// ended, with brackets as nested groups; `None` when a token is out of
/// place, a bracket is left open, or the last statement lacks its `;`.
pub open spec fn lex_spec(tokens: Seq<TokenView>) -> Option<GroupView> {
    match lex_upto(tokens, tokens.len()) {
        None => None,
        Some(st) => if st.len() != 2 || st[1].1.len() > 0 {
            None
        } else {
            Some(st[0])
        },
    }
}

/// The values of the groups of `s`, in order.
pub open spec fn stack_view(s: Seq<TokenGroup>) -> Seq<GroupView> {
    s.map_values(|g: TokenGroup| g@)
}

/// Adds `x` after the contents of the group on top of `stack`.
fn push_to_top(stack: &mut Vec<TokenGroup>, x: LexerToken)
    requires
        old(stack)@.len() > 0,
    ensures
        stack_view(final(stack)@) == add_to_top(stack_view(old(stack)@), x@),
{
    let ghost before = stack_view(stack@);
    let mut top = stack.pop().unwrap();
    let ghost top_before = top.contents@;
    top.contents.push(x);
    proof {
        lemma_lex_views(top.contents@);
        lemma_lex_views(top_before);
        assert(lex_views(top.contents@) =~= lex_views(top_before).push(x@));
    }
    stack.push(top);
    assert(stack_view(stack@) =~= add_to_top(before, x@));
}

/// The tokens grouped (see `lex_spec`); an error when a token is out of
/// place, a bracket is left open, or the last statement lacks its `;`.
pub fn lex(input: Vec<Token>) -> (r: CellTailResult<TokenGroup>)
    ensures
        r is Ok <==> lex_spec(token_views_of(input@)) is Some,
        r is Ok ==> r->Ok_0@ == lex_spec(token_views_of(input@))->Some_0,
{
    let ghost toks = token_views_of(input@);
    let mut stack: Vec<TokenGroup> = vec![
        TokenGroup { delimiter: None, contents: vec![] },
        TokenGroup { delimiter: Some(';'), contents: vec![] },
    ];
    proof {
        lemma_lex_views(Seq::<LexerToken>::empty());
        assert(stack_view(stack@) =~= initial_stack());
    }
    let ghost n = toks.len();
    let mut source = input;
    let mut rest: Vec<Token> = Vec::new();
    while source.len() > 0
        invariant
            toks.len() == n,
            source@.len() + rest@.len() == n,
            forall|j: int| 0 <= j < source@.len() ==> #[trigger] source@[j]@ == toks[j],
            forall|j: int| 0 <= j < rest@.len() ==> #[trigger] rest@[j]@ == toks[n - 1 - j],
        decreases source@.len(),
    {
        let t = source.pop().unwrap();
        rest.push(t);
    }
    while rest.len() > 0
        invariant
            toks.len() == n,
            rest@.len() <= n,
            forall|j: int| 0 <= j < rest@.len() ==> #[trigger] rest@[j]@ == toks[n - 1 - j],
            lex_upto(toks, (n - rest@.len()) as nat) == Some(stack_view(stack@)),
            toks == token_views_of(input@),
        decreases rest@.len(),
    {
        let ghost k = (n - rest@.len()) as nat;
        let token = rest.pop().unwrap();
        assert(token@ == toks[k as int]);
        match token.kind {
            TokenKind::OpeningBracket(character) => {
                stack.push(TokenGroup { delimiter: Some(character), contents: vec![] });
                proof {
                    lemma_lex_views(Seq::<LexerToken>::empty());
                    assert(stack_view(stack@) =~= lex_step(
                        lex_upto(toks, k)->Some_0,
                        toks[k as int],
                    )->Some_0);
                }
            },
            TokenKind::Semicolon => {
                if stack.len() < 2 || stack[stack.len() - 1].delimiter != Some(';') {
                    let message = "Unexpected ;, you may be missing a closing bracket".to_owned();
                    if stack.len() == 0 {
                        proof {
                            lemma_lex_stays_none(toks, k + 1, n);
                        }
                        return Err(CellTailError::new(&token, message));
                    }
                    let last = stack.pop().unwrap();
                    proof {
                        lemma_lex_stays_none(toks, k + 1, n);
                    }
                    return Err(CellTailError::new(&last, message));
                }
                let ghost st = stack_view(stack@);
                let last = stack.pop().unwrap();
                proof {
                    assert(stack_view(stack@) =~= st.drop_last());
                }
                push_to_top(&mut stack, LexerToken::Group(last));
                stack.push(TokenGroup { delimiter: Some(';'), contents: vec![] });
                proof {
                    lemma_lex_views(Seq::<LexerToken>::empty());
                    assert(stack_view(stack@) =~= lex_step(st, toks[k as int])->Some_0);
                }
            },
            TokenKind::Comment => {},
            TokenKind::ClosingBracket(_) => {
                if stack.len() < 2 || stack[stack.len() - 1].delimiter.is_none()
                    || stack[stack.len() - 1].delimiter == Some(';') {
                    let message = "Unmatched closing bracket".to_owned();
                    proof {
                        lemma_lex_stays_none(toks, k + 1, n);
                    }
                    return Err(CellTailError::new(&token, message));
                }
                let ghost st = stack_view(stack@);
                let last = stack.pop().unwrap();
                proof {
                    assert(stack_view(stack@) =~= st.drop_last());
                }
                push_to_top(&mut stack, LexerToken::Group(last));
            },
            _ => {
                if stack.len() == 0 {
                    proof {
                        lemma_lex_stays_none(toks, k + 1, n);
                    }
                    return Err(CellTailError::new(&token, "Unmatched closing bracket".to_owned()));
                }
                push_to_top(&mut stack, LexerToken::BasicToken(token));
            },
        }
    }
    if stack.len() != 2 {
        let message = "Missing a closing bracket".to_owned();
        return match stack.pop() {
            Some(last) => Err(CellTailError::new(&last, message)),
            None => Err(CellTailError::new(&crate::errors::UnkownLocationError, message)),
        };
    }
    if stack[1].contents.len() > 0 {
        proof {
            lemma_lex_views(stack@[1].contents@);
        }
        let last = stack.pop().unwrap();
        return Err(CellTailError::new(&last, "Expected a semicolon at the end".to_owned()));
    }
    proof {
        lemma_lex_views(stack@[1].contents@);
    }
    let ghost st = stack_view(stack@);
    stack.pop();
    let program = stack.pop().unwrap();
    assert(program@ == st[0]);
    Ok(program)
}

proof fn lemma_lex_stays_none(tokens: Seq<TokenView>, k: nat, n: nat)
    requires
        k <= n <= tokens.len(),
        lex_upto(tokens, k) is None,
    ensures
        lex_upto(tokens, n) is None,
        lex_spec(tokens) is None || n < tokens.len(),
    decreases n - k,
{
    if k < n {
        lemma_lex_stays_none(tokens, k, (n - 1) as nat);
    }
}

/// The views of the tokens of `s`, in order.
pub open spec fn token_views_of(s: Seq<Token>) -> Seq<TokenView> {
    s.map_values(|t: Token| t@)
}

} // verus!
