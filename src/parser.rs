use crate::attributes::Attributes;
use crate::errors::{fallback_position, CellTailError, CellTailResult};
use crate::expression::Expression;
use crate::expression::ExprView;
use crate::lexer::{copy_range, first_of_kind, lemma_lex_views, LexView, LexerToken, TokenGroup};
use crate::attributes::IOFormat;
use crate::parse_attribute::{
    attr_apply, attr_valid, attribute_parts, attrs_view, parse_attribute, AttrsView, InputView,
};
use crate::parse_expression::{
    expr_of, lemma_next_of_kind, next_of_kind, parse_as_expression, token_at,
};
use crate::parse_pattern::{parse_as_pattern, pat_of};
use crate::pattern::{PatView, Pattern};
use crate::pattern_list::{lookup, PatternList, PatternPosition};
use crate::text::is_text;
use crate::tokenizer::TokenKind;
use vstd::prelude::*;

verus! {

/// A program: its named functions, its global rules (each over the triple
/// left, top, right of a cell) and how it runs.
#[derive(Debug)]
pub struct Program {
    pub functions: Vec<(String, PatternList)>,
    pub rules: PatternList,
    pub attributes: Attributes,
}

/// No name occurs twice among the functions `fns`.
pub open spec fn function_names_unique(fns: Seq<(String, PatternList)>) -> bool {
    forall|i: int, j: int| 0 <= i < j < fns.len() ==> fns[i].0@ != fns[j].0@
}

impl Program {
    /// No functions, no rules, the default attributes.
    pub fn new() -> (r: Program)
        ensures
            r.functions@.len() == 0,
            r.rules.0@.len() == 0,
            attrs_view(r.attributes) == default_attrs(),
    {
        Program { functions: Vec::new(), rules: PatternList(Vec::new()), attributes: Attributes::new() }
    }

    /// Adds `rule` after the rules of the function `function_name`, which is
    /// created when it does not exist yet.
    pub fn add_function_rule(
        &mut self,
        function_name: String,
        rule: (Pattern, Expression, PatternPosition),
    )
        requires
            function_names_unique(old(self).functions@),
        ensures
            function_names_unique(final(self).functions@),
            final(self).rules == old(self).rules,
            final(self).attributes == old(self).attributes,
            lookup(final(self).functions@, function_name@, 0) is Some,
            lookup(final(self).functions@, function_name@, 0)->Some_0.0@ == (match lookup(
                old(self).functions@,
                function_name@,
                0,
            ) {
                Some(pl) => pl.0@,
                None => Seq::empty(),
            }).push(rule),
            forall|n: Seq<char>|
                n != function_name@ ==> #[trigger] lookup(final(self).functions@, n, 0) == lookup(
                    old(self).functions@,
                    n,
                    0,
                ),
    {
        let ghost old_fns = self.functions@;
        let mut i: usize = 0;
        let mut found = false;
        while i < self.functions.len() && !found
            invariant
                i <= self.functions@.len(),
                self.functions@ == old_fns,
                found ==> i < self.functions@.len() && self.functions@[i as int].0@ == function_name@,
                forall|j: int| 0 <= j < i ==> #[trigger] self.functions@[j].0@ != function_name@,
            decreases self.functions@.len() - i, if found { 0int } else { 1int },
        {
            if self.functions[i].0 == function_name {
                found = true;
            } else {
                i += 1;
            }
        }
        proof {
            lemma_lookup_skip(old_fns, function_name@, i as nat);
        }
        if found {
            let mut entry = self.functions.remove(i);
            entry.1.0.push(rule);
            self.functions.insert(i, entry);
            proof {
                let gns = self.functions@;
                assert(gns.len() == old_fns.len());
                assert forall|j: int| 0 <= j < old_fns.len() && j != i implies #[trigger] old_fns[j]
                    == gns[j] by {
                    if j < i {
                        assert(gns[j] == old_fns.remove(i as int)[j]);
                    } else {
                        assert(gns[j] == old_fns.remove(i as int)[j - 1]);
                    }
                }
                lemma_lookup_replace(old_fns, gns, i as nat);
                lemma_lookup_skip(gns, function_name@, i as nat);
                assert(lookup(old_fns, function_name@, i as nat) == Some(old_fns[i as int].1));
            }
        } else {
            let ghost name = function_name@;
            self.functions.push((function_name, PatternList(vec![rule])));
            proof {
                let gns = self.functions@;
                lemma_lookup_append(old_fns, gns);
                assert(lookup(old_fns, name, i as nat) == None::<PatternList>);
                assert forall|j: int| 0 <= j < old_fns.len() implies #[trigger] gns[j].0@ != name by {
                    assert(gns[j] == old_fns[j]);
                }
                lemma_lookup_skip(gns, name, i as nat);
                assert(gns[i as int].1.0@ =~= Seq::<(Pattern, Expression, PatternPosition)>::empty().push(rule));
            }
        }
    }

    /// Adds `rule` after the global rules.
    pub fn add_rule(&mut self, rule: (Pattern, Expression, PatternPosition))
        ensures
            final(self).rules.0@ == old(self).rules.0@.push(rule),
            final(self).functions == old(self).functions,
            final(self).attributes == old(self).attributes,
    {
        self.rules.0.push(rule);
    }
}

/// The shapes of the pattern and the expression of each rule of `s`, in order.
pub open spec fn rule_views(s: Seq<(Pattern, Expression, PatternPosition)>) -> Seq<
    (PatView, ExprView),
> {
    s.map_values(|r: (Pattern, Expression, PatternPosition)| (r.0@, r.1@))
}

/// `p` starts with the word `fn`: the statement adds a rule to a function.
pub open spec fn fn_head(p: Seq<LexView>) -> bool {
    p.len() > 0 && token_at(p, 0) is Some && token_at(p, 0)->Some_0.0 == TokenKind::Identifier
        && token_at(p, 0)->Some_0.3 == seq!['f', 'n']
}

/// The rule that the statement `t` states, as (function name or `None` for a
/// global rule, pattern, expression); `None` when `t` states no rule (it sets
/// an attribute, or it is not a statement with a `:`), or a part of the rule
/// does not parse.
pub open spec fn statement_rule(t: LexView) -> Option<(Option<Seq<char>>, PatView, ExprView)> {
    match t {
        LexView::Group(d, g) => if next_of_kind(g, TokenKind::Equals, 0) < g.len() {
            None
        } else {
            match first_of_kind(g, TokenKind::Colon, 0) {
                None => None,
                Some(i) => {
                    let p = g.subrange(0, i as int);
                    let e = g.subrange((i + 1) as int, g.len() as int);
                    if fn_head(p) {
                        if p.len() > 1 && token_at(p, 1) is Some && token_at(p, 1)->Some_0.0
                            == TokenKind::Identifier {
                            match (pat_of(p.subrange(2, p.len() as int), None), expr_of(e, d)) {
                                (Some(pv), Some(ev)) => Some(
                                    (Some(token_at(p, 1)->Some_0.3), pv, ev),
                                ),
                                _ => None,
                            }
                        } else {
                            None
                        }
                    } else {
                        match (pat_of(p, d), expr_of(e, d)) {
                            (Some(pv), Some(ev)) => Some((None, pv, ev)),
                            _ => None,
                        }
                    }
                },
            }
        },
        _ => None,
    }
}

/// The rules that the first `n` statements of `stmts` add to the function
/// `name`, or to the global rules when `name` is `None`, in order.
pub open spec fn rules_of(stmts: Seq<LexView>, n: nat, name: Option<Seq<char>>) -> Seq<
    (PatView, ExprView),
>
    decreases n,
{
    if n == 0 || n > stmts.len() {
        Seq::empty()
    } else {
        let prev = rules_of(stmts, (n - 1) as nat, name);
        match statement_rule(stmts[n - 1]) {
            Some((f, pv, ev)) => if f == name {
                prev.push((pv, ev))
            } else {
                prev
            },
            None => prev,
        }
    }
}

/// The statement `t` is well formed: a group that either sets an attribute
/// (`attribute_parts`, `attr_valid`) or states a rule (`statement_rule`).
pub open spec fn statement_valid(t: LexView) -> bool {
    match t {
        LexView::Group(d, g) => if next_of_kind(g, TokenKind::Equals, 0) < g.len() {
            attribute_parts(g) is Some && attr_valid(
                attribute_parts(g)->Some_0.0,
                attribute_parts(g)->Some_0.1,
            )
        } else {
            statement_rule(t) is Some
        },
        _ => false,
    }
}

/// The attributes at the start: characters from the command line in,
/// characters out, no tracing, no cap.
pub open spec fn default_attrs() -> AttrsView {
    (InputView::Arg(IOFormat::Characters), IOFormat::Characters, false, None)
}

/// The attributes after the first `n` statements of `stmts`, each attribute
/// statement applied in order (see `attr_apply`).
pub open spec fn attrs_of(stmts: Seq<LexView>, n: nat) -> AttrsView
    decreases n,
{
    if n == 0 || n > stmts.len() {
        default_attrs()
    } else {
        let prev = attrs_of(stmts, (n - 1) as nat);
        match stmts[n - 1] {
            LexView::Group(_, g) => if next_of_kind(g, TokenKind::Equals, 0) < g.len() {
                match attribute_parts(g) {
                    Some((name, value)) => match attr_apply(name, value, prev) {
                        Some(a) => a,
                        None => prev,
                    },
                    None => prev,
                }
            } else {
                prev
            },
            _ => prev,
        }
    }
}

/// The rules of the function `name` in `fns`, none when there is no such
/// function.
pub open spec fn function_rules(fns: Seq<(String, PatternList)>, name: Seq<char>) -> Seq<
    (PatView, ExprView),
> {
    match lookup(fns, name, 0) {
        Some(pl) => rule_views(pl.0@),
        None => Seq::empty(),
    }
}

/// The program that the statements of `input` spell. A statement with `=`
/// sets an attribute; `fn name pattern : expression` adds a rule to the
/// function `name`; `pattern : expression` adds a global rule (see
/// `statement_rule`). Errors in a rule that have no place of their own get the
/// place of their statement.
pub fn parse(input: TokenGroup) -> (r: CellTailResult<Program>)
    ensures
        r is Ok ==> function_names_unique(r->Ok_0.functions@),
        r is Ok ==> rule_views(r->Ok_0.rules.0@) == rules_of(input@.1, input@.1.len(), None),
        r is Ok ==> forall|name: Seq<char>|
            #[trigger] function_rules(r->Ok_0.functions@, name) == rules_of(
                input@.1,
                input@.1.len(),
                Some(name),
            ),
        r is Ok <==> forall|i: int| 0 <= i < input@.1.len() ==> statement_valid(#[trigger] input@.1[i]),
        r is Ok ==> attrs_view(r->Ok_0.attributes) == attrs_of(input@.1, input@.1.len()),
{
    proof {
        lemma_lex_views(input.contents@);
        reveal_strlit("fn");
        assert("fn"@ =~= seq!['f', 'n']);
    }
    let ghost stmts = input@.1;
    let ghost total = input.contents@.len();
    let mut out = Program::new();
    proof {
        assert(rule_views(out.rules.0@) =~= Seq::<(PatView, ExprView)>::empty());
        assert forall|name: Seq<char>| #[trigger] function_rules(out.functions@, name) == rules_of(
            stmts,
            0,
            Some(name),
        ) by {
            assert(lookup(out.functions@, name, 0) is None);
        }
    }
    let mut source = input.contents;
    let mut rest: Vec<LexerToken> = Vec::new();
    while source.len() > 0
        invariant
            source@.len() + rest@.len() == total,
            forall|j: int| 0 <= j < source@.len() ==> #[trigger] source@[j]@ == stmts[j],
            forall|j: int| 0 <= j < source@.len() ==> #[trigger] source@[j] == input.contents@[j],
            forall|j: int|
                0 <= j < rest@.len() ==> #[trigger] rest@[j] == input.contents@[total - 1 - j],
            forall|j: int| 0 <= j < rest@.len() ==> #[trigger] rest@[j]@ == stmts[total - 1 - j],
        decreases source@.len(),
    {
        let t = source.pop().unwrap();
        rest.push(t);
    }
    while rest.len() > 0
        invariant
            function_names_unique(out.functions@),
            rest@.len() <= total,
            total == input.contents@.len(),
            stmts.len() == total,
            stmts == input@.1,
            forall|j: int| 0 <= j < rest@.len() ==> #[trigger] rest@[j] == input.contents@[total - 1 - j],
            forall|j: int| 0 <= j < rest@.len() ==> #[trigger] rest@[j]@ == stmts[total - 1 - j],
            forall|j: int| 0 <= j < total - rest@.len() ==> statement_valid(#[trigger] stmts[j]),
            attrs_view(out.attributes) == attrs_of(stmts, (total - rest@.len()) as nat),
            rule_views(out.rules.0@) == rules_of(stmts, (total - rest@.len()) as nat, None),
            forall|name: Seq<char>|
                #[trigger] function_rules(out.functions@, name) == rules_of(
                    stmts,
                    (total - rest@.len()) as nat,
                    Some(name),
                ),
        decreases rest@.len(),
    {
        let ghost k = (total - rest@.len()) as nat;
        let statement = rest.pop().unwrap();
        let ghost sv = statement@;
        assert(sv == stmts[k as int]);
        let statement_position = PatternPosition::new(&statement);
        match statement {
            LexerToken::Group(group) => {
                proof {
                    lemma_lex_views(group.contents@);
                    lemma_next_of_kind(group@.1, TokenKind::Equals, 0);
                    assert(sv == LexView::Group(group.delimiter, group@.1));
                }
                if group.contains(TokenKind::Equals) {
                    let ghost g = group@.1;
                    let ghost before = out.attributes;
                    let set = parse_attribute(group, &mut out.attributes);
                    if set.is_err() {
                        proof {
                            assert(!statement_valid(stmts[k as int]));
                        }
                        return Err(set.unwrap_err());
                    }
                    proof {
                        assert(statement_rule(sv) is None);
                        lemma_rules_skip(stmts, k);
                        assert(statement_valid(stmts[k as int]));
                        assert(attrs_of(stmts, k + 1) == attrs_view(out.attributes));
                    }
                } else if let Some((pattern, _operator, expression)) = group.split_first(
                    TokenKind::Colon,
                ) {
                    proof {
                        lemma_lex_views(pattern.contents@);
                        reveal_strlit("fn");
                        assert("fn"@ =~= seq!['f', 'n']);
                        assert(attrs_of(stmts, k + 1) == attrs_of(stmts, k));
                    }
                    let ghost g = group@.1;
                    let ghost d = group.delimiter;
                    let ghost i = first_of_kind(g, TokenKind::Colon, 0)->Some_0;
                    let ghost pv = g.subrange(0, i as int);
                    let ghost ev = g.subrange((i + 1) as int, g.len() as int);
                    let is_function = pattern.contents.len() > 0 && match &pattern.contents[0] {
                        LexerToken::BasicToken(t) => t.kind == TokenKind::Identifier && is_text(
                            &t.value,
                            "fn",
                        ),
                        _ => false,
                    };
                    if is_function {
                        proof {
                            assert(pattern@.1 == pv);
                            assert(fn_head(pv));
                        }
                        let mut named = false;
                        if pattern.contents.len() > 1 {
                            if let LexerToken::BasicToken(t) = &pattern.contents[1] {
                                named = t.kind == TokenKind::Identifier;
                            }
                        }
                        if !named {
                            proof {
                                assert(statement_rule(sv) is None);
                                assert(!statement_valid(stmts[k as int]));
                            }
                            return Err(
                                CellTailError::new(&pattern, "Expected a function name".to_owned()),
                            );
                        }
                        let function_name = match &pattern.contents[1] {
                            LexerToken::BasicToken(t) => t.value.clone(),
                            LexerToken::Group(_) => String::new(),
                        };
                        let arguments = TokenGroup {
                            delimiter: None,
                            contents: copy_range(&pattern.contents, 2, pattern.contents.len()),
                        };
                        proof {
                            assert(arguments@.1 == pv.subrange(2, pv.len() as int));
                            assert(expression@ == (d, ev));
                        }
                        let pat = match fallback_position(parse_as_pattern(arguments), &statement_position) {
                            Ok(p) => p,
                            Err(e) => {
                                proof {
                                    assert(!statement_valid(stmts[k as int]));
                                }
                                return Err(e);
                            },
                        };
                        let expr = match fallback_position(
                            parse_as_expression(expression),
                            &statement_position,
                        ) {
                            Ok(x) => x,
                            Err(e) => {
                                proof {
                                    assert(!statement_valid(stmts[k as int]));
                                }
                                return Err(e);
                            },
                        };
                        let ghost fname = function_name@;
                        let ghost old_fns = out.functions@;
                        let ghost views = (pat@, expr@);
                        let rule = (pat, expr, PatternPosition::new(&statement_position));
                        let ghost rule_g = rule;
                        out.add_function_rule(function_name, rule);
                        proof {
                            assert(token_at(pv, 1)->Some_0.3 == fname);
                            assert(statement_rule(sv) == Some((Some(fname), views.0, views.1)));
                            assert(statement_valid(stmts[k as int]));
                            lemma_rules_step(stmts, k);
                            assert forall|name: Seq<char>| #[trigger] function_rules(
                                out.functions@,
                                name,
                            ) == rules_of(stmts, k + 1, Some(name)) by {
                                assert(function_rules(old_fns, name) == rules_of(stmts, k, Some(name)));
                                assert(rules_of(stmts, k + 1, Some(name)) == if Some(name) == Some(
                                    fname,
                                ) {
                                    rules_of(stmts, k, Some(name)).push(views)
                                } else {
                                    rules_of(stmts, k, Some(name))
                                });
                                if name == fname {
                                    let before = function_rules(old_fns, name);
                                    let pl = lookup(out.functions@, name, 0)->Some_0;
                                    assert(pl.0@ == (match lookup(old_fns, name, 0) {
                                        Some(q) => q.0@,
                                        None => Seq::empty(),
                                    }).push(rule_g));
                                    assert(rule_views(pl.0@) =~= before.push(views));
                                } else {
                                    assert(lookup(out.functions@, name, 0) == lookup(old_fns, name, 0));
                                }
                            }
                        }
                    } else {
                        proof {
                            assert(pattern@ == (d, pv));
                            assert(expression@ == (d, ev));
                            assert(!fn_head(pv));
                        }
                        let pat = match fallback_position(parse_as_pattern(pattern), &statement_position) {
                            Ok(p) => p,
                            Err(e) => {
                                proof {
                                    assert(!statement_valid(stmts[k as int]));
                                }
                                return Err(e);
                            },
                        };
                        let expr = match fallback_position(
                            parse_as_expression(expression),
                            &statement_position,
                        ) {
                            Ok(x) => x,
                            Err(e) => {
                                proof {
                                    assert(!statement_valid(stmts[k as int]));
                                }
                                return Err(e);
                            },
                        };
                        let ghost old_rules = out.rules.0@;
                        let ghost views = (pat@, expr@);
                        out.add_rule((pat, expr, PatternPosition::new(&statement_position)));
                        proof {
                            assert(statement_rule(sv) == Some((None::<Seq<char>>, views.0, views.1)));
                            assert(statement_valid(stmts[k as int]));
                            lemma_rules_step(stmts, k);
                            assert(rule_views(out.rules.0@) =~= rule_views(old_rules).push(views));
                        }
                    }
                } else {
                    proof {
                        assert(statement_rule(sv) is None);
                        assert(!statement_valid(stmts[k as int]));
                    }
                    return Err(
                        CellTailError::new(
                            &group,
                            "Missing : seperating pattern from expression".to_owned(),
                        ),
                    );
                }
            },
            LexerToken::BasicToken(t) => {
                proof {
                    assert(!statement_valid(stmts[k as int]));
                }
                return Err(CellTailError::new(&t, "Invalid top-level statement".to_owned()));
            },
        }
    }
    Ok(out)
}

/// A statement that states no rule leaves every list of rules as it was.
proof fn lemma_rules_skip(stmts: Seq<LexView>, k: nat)
    requires
        k < stmts.len(),
        statement_rule(stmts[k as int]) is None,
    ensures
        forall|name: Option<Seq<char>>| #[trigger] rules_of(stmts, k + 1, name) == rules_of(
            stmts,
            k,
            name,
        ),
{
}

/// A statement adds its rule to its own list and to no other.
proof fn lemma_rules_step(stmts: Seq<LexView>, k: nat)
    requires
        k < stmts.len(),
        statement_rule(stmts[k as int]) is Some,
    ensures
        forall|name: Option<Seq<char>>| #[trigger] rules_of(stmts, k + 1, name) == if name
            == statement_rule(stmts[k as int])->Some_0.0 {
            rules_of(stmts, k, name).push(
                (statement_rule(stmts[k as int])->Some_0.1, statement_rule(stmts[k as int])->Some_0.2),
            )
        } else {
            rules_of(stmts, k, name)
        },
{
}

proof fn lemma_lookup_skip(fns: Seq<(String, PatternList)>, name: Seq<char>, i: nat)
    requires
        i <= fns.len(),
        forall|j: int| 0 <= j < i ==> #[trigger] fns[j].0@ != name,
    ensures
        lookup(fns, name, 0) == lookup(fns, name, i),
    decreases i,
{
    if i > 0 {
        lemma_lookup_skip(fns, name, (i - 1) as nat);
        lemma_lookup_step(fns, name, (i - 1) as nat);
    }
}

proof fn lemma_lookup_step(fns: Seq<(String, PatternList)>, name: Seq<char>, i: nat)
    requires
        i < fns.len(),
        fns[i as int].0@ != name,
    ensures
        lookup(fns, name, i) == lookup(fns, name, i + 1),
{
}

/// Where the entries at positions other than `i` are the same, a name not at
/// `i` is looked up the same way, from any position on.
proof fn lemma_lookup_same_but(
    fns: Seq<(String, PatternList)>,
    gns: Seq<(String, PatternList)>,
    i: nat,
    name: Seq<char>,
    from: nat,
)
    requires
        fns.len() == gns.len(),
        i < fns.len(),
        fns[i as int].0@ == gns[i as int].0@,
        fns[i as int].0@ != name,
        forall|j: int| 0 <= j < fns.len() && j != i ==> #[trigger] fns[j] == gns[j],
    ensures
        lookup(fns, name, from) == lookup(gns, name, from),
    decreases fns.len() - from,
{
    if from < fns.len() {
        lemma_lookup_same_but(fns, gns, i, name, from + 1);
    }
}

proof fn lemma_lookup_replace(fns: Seq<(String, PatternList)>, gns: Seq<(String, PatternList)>, i: nat)
    requires
        i < fns.len(),
        gns.len() == fns.len(),
        gns[i as int].0 == fns[i as int].0,
        forall|j: int| 0 <= j < fns.len() && j != i ==> #[trigger] fns[j] == gns[j],
        function_names_unique(fns),
    ensures
        function_names_unique(gns),
        lookup(gns, fns[i as int].0@, i) == Some(gns[i as int].1),
        forall|n: Seq<char>|
            n != fns[i as int].0@ ==> #[trigger] lookup(gns, n, 0) == lookup(fns, n, 0),
{
    assert forall|n: Seq<char>| n != fns[i as int].0@ implies #[trigger] lookup(gns, n, 0) == lookup(
        fns,
        n,
        0,
    ) by {
        lemma_lookup_same_but(fns, gns, i, n, 0);
    }
    assert forall|a: int, b: int| 0 <= a < b < gns.len() implies gns[a].0@ != gns[b].0@ by {
        assert(fns[a].0@ != fns[b].0@);
    }
}

proof fn lemma_lookup_append_from(
    fns: Seq<(String, PatternList)>,
    gns: Seq<(String, PatternList)>,
    name: Seq<char>,
    from: nat,
)
    requires
        gns.len() == fns.len() + 1,
        forall|j: int| 0 <= j < fns.len() ==> #[trigger] fns[j] == gns[j],
        gns[fns.len() as int].0@ != name,
        from <= fns.len(),
    ensures
        lookup(gns, name, from) == lookup(fns, name, from),
    decreases fns.len() - from,
{
    if from < fns.len() {
        lemma_lookup_append_from(fns, gns, name, from + 1);
    } else {
        assert(lookup(gns, name, from + 1) == None::<PatternList>);
    }
}

proof fn lemma_lookup_append(fns: Seq<(String, PatternList)>, gns: Seq<(String, PatternList)>)
    requires
        gns.len() == fns.len() + 1,
        forall|j: int| 0 <= j < fns.len() ==> #[trigger] fns[j] == gns[j],
    ensures
        forall|n: Seq<char>|
            n != gns[fns.len() as int].0@ ==> #[trigger] lookup(gns, n, 0) == lookup(fns, n, 0),
{
    assert forall|n: Seq<char>| n != gns[fns.len() as int].0@ implies #[trigger] lookup(
        gns,
        n,
        0,
    ) == lookup(fns, n, 0) by {
        lemma_lookup_append_from(fns, gns, n, 0);
    }
}

} // verus!
