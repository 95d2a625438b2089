use vstd::prelude::*;
use crate::error::{DupError, Fault};
use crate::token::{
    append_copies, append_token, copy_token, copy_tokens, first_match, lemma_first_match, lemma_first_match_found,
    string_views, trees_of, Delimiter, Token, Tree,
};

verus! {

/// One part of a compiled substitution.
#[derive(Debug)]
pub enum SubType {
    /// A verbatim run of tokens.
    Token(Vec<Token>),
    /// The call-site argument at this index.
    Argument(usize),
    /// A group whose contents are themselves compiled.
    Group(Delimiter, Substitution),
}

/// A compiled substitution: parts to emit, taking `arg_count` arguments.
#[derive(Debug)]
pub struct Substitution {
    pub arg_count: usize,
    pub sub: Vec<SubType>,
}

/// What a part emits for the given arguments.
pub open spec fn part_output(p: SubType, args: Seq<Seq<Tree>>) -> Seq<Tree>
    decreases p,
{
    match p {
        SubType::Token(ts) => trees_of(ts@),
        SubType::Argument(i) => args[i as int],
        SubType::Group(d, s) => seq![Tree::Group(d, parts_output(s.sub@, args))],
    }
}

/// What a sequence of parts emits for the given arguments.
pub open spec fn parts_output(ps: Seq<SubType>, args: Seq<Seq<Tree>>) -> Seq<Tree>
    decreases ps,
{
    if ps.len() == 0 {
        seq![]
    } else {
        parts_output(ps.subrange(0, ps.len() - 1), args) + part_output(ps[ps.len() - 1], args)
    }
}

/// Every argument reference of the part is below `n`, and every nested
/// substitution takes `n` arguments.
pub open spec fn part_wf(p: SubType, n: nat) -> bool
    decreases p,
{
    match p {
        SubType::Token(_) => true,
        SubType::Argument(i) => i < n,
        SubType::Group(_, s) => s.arg_count == n && parts_wf(s.sub@, n),
    }
}

pub open spec fn parts_wf(ps: Seq<SubType>, n: nat) -> bool
    decreases ps,
{
    if ps.len() == 0 {
        true
    } else {
        parts_wf(ps.subrange(0, ps.len() - 1), n) && part_wf(ps[ps.len() - 1], n)
    }
}

/// The arguments of a call as trees.
pub open spec fn args_view(args: Seq<Vec<Token>>) -> Seq<Seq<Tree>> {
    Seq::new(args.len(), |i: int| trees_of(args[i]@))
}

/// Parameter names as character sequences.
pub open spec fn param_names(params: Seq<String>) -> Seq<Seq<char>> {
    string_views(params)
}

/// The meaning of a parameterized substitute: `raw` with each identifier that
/// names a parameter replaced by the matching argument, at every depth.
pub open spec fn instantiate(raw: Seq<Tree>, params: Seq<Seq<char>>, args: Seq<Seq<Tree>>) -> Seq<Tree>
    decreases raw,
{
    if raw.len() == 0 {
        seq![]
    } else {
        instantiate(raw.subrange(0, raw.len() - 1), params, args)
            + instantiate_one(raw[raw.len() - 1], params, args)
    }
}

pub open spec fn instantiate_one(t: Tree, params: Seq<Seq<char>>, args: Seq<Seq<Tree>>) -> Seq<Tree>
    decreases t,
{
    match t {
        Tree::Ident(n) => if first_match(params, n) >= 0 {
            args[first_match(params, n)]
        } else {
            seq![t]
        },
        Tree::Group(d, ch) => seq![Tree::Group(d, instantiate(ch, params, args))],
        _ => seq![t],
    }
}

pub proof fn lemma_parts_push(ps: Seq<SubType>, p: SubType, args: Seq<Seq<Tree>>, n: nat)
    ensures
        parts_output(ps.push(p), args) == parts_output(ps, args) + part_output(p, args),
        parts_wf(ps.push(p), n) == (parts_wf(ps, n) && part_wf(p, n)),
{
    assert(ps.push(p).subrange(0, ps.len() as int) =~= ps);
}

/// Moves the pending literal run, if any, into the parts.
fn flush(substitutions: &mut Vec<SubType>, pending: &mut Vec<Token>, n: Ghost<nat>)
    requires
        parts_wf(old(substitutions)@, n@),
    ensures
        parts_wf(final(substitutions)@, n@),
        final(pending)@.len() == 0,
        forall|args: Seq<Seq<Tree>>|
            #[trigger] parts_output(final(substitutions)@, args) == parts_output(
                old(substitutions)@,
                args,
            ) + trees_of(old(pending)@),
{
    if pending.len() > 0 {
        let ghost before = substitutions@;
        let mut lit: Vec<Token> = Vec::new();
        std::mem::swap(&mut lit, pending);
        substitutions.push(SubType::Token(lit));
        assert forall|args: Seq<Seq<Tree>>|
            #[trigger] parts_output(substitutions@, args) == parts_output(before, args)
                + trees_of(old(pending)@) by {
            lemma_parts_push(before, SubType::Token(lit), args, n@);
        }
        proof {
            lemma_parts_push(before, SubType::Token(lit), seq![], n@);
        }
    } else {
        assert forall|args: Seq<Seq<Tree>>|
            #[trigger] parts_output(substitutions@, args) == parts_output(substitutions@, args)
                + trees_of(old(pending)@) by {
            assert(parts_output(substitutions@, args) + trees_of(old(pending)@)
                =~= parts_output(substitutions@, args));
        }
    }
}

pub proof fn lemma_parts_wf_index(ps: Seq<SubType>, n: nat, i: int)
    requires
        parts_wf(ps, n),
        0 <= i < ps.len(),
    ensures
        part_wf(ps[i], n),
    decreases ps.len(),
{
    if i < ps.len() - 1 {
        lemma_parts_wf_index(ps.subrange(0, ps.len() - 1), n, i);
    }
}

/// Emits the parts for the given arguments.
fn apply_parts(parts: &Vec<SubType>, arguments: &Vec<Vec<Token>>) -> (r: Vec<Token>)
    requires
        parts_wf(parts@, arguments.len() as nat),
    ensures
        trees_of(r@) == parts_output(parts@, args_view(arguments@)),
    decreases parts,
{
    let ghost av = args_view(arguments@);
    let ghost n = arguments.len() as nat;
    let mut r: Vec<Token> = Vec::new();
    let mut i: usize = 0;
    while i < parts.len()
        invariant
            i <= parts.len(),
            av == args_view(arguments@),
            n == arguments.len(),
            parts_wf(parts@, n),
            trees_of(r@) == parts_output(parts@.subrange(0, i as int), av),
        decreases parts.len() - i,
    {
        proof {
            lemma_parts_wf_index(parts@, n, i as int);
            lemma_parts_push(parts@.subrange(0, i as int), parts@[i as int], av, n);
            assert(parts@.subrange(0, i as int).push(parts@[i as int]) =~= parts@.subrange(0, i + 1));
        }
        match &parts[i] {
            SubType::Token(ts) => {
                append_copies(&mut r, ts);
            },
            SubType::Argument(k) => {
                append_copies(&mut r, &arguments[*k]);
            },
            SubType::Group(d, s) => {
                proof {
                    assert(decreases_to!(parts => parts@[i as int]));
                }
                let inner = apply_parts(&s.sub, arguments);
                append_token(&mut r, Token::Group(*d, inner));
            },
        }
        i += 1;
    }
    assert(parts@.subrange(0, parts.len() as int) =~= parts@);
    r
}

impl Substitution {
    pub open spec fn wf(&self) -> bool {
        parts_wf(self.sub@, self.arg_count as nat)
    }

    /// What the substitution emits for the given arguments.
    pub open spec fn output(&self, args: Seq<Seq<Tree>>) -> Seq<Tree> {
        parts_output(self.sub@, args)
    }

    /// Emits the substitution for exactly `arg_count` arguments; fails on
    /// any other number.
    pub fn apply(&self, arguments: &Vec<Vec<Token>>) -> (r: Result<Vec<Token>, ()>)
        requires
            self.wf(),
        ensures
            r is Ok <==> arguments.len() == self.arg_count,
            r matches Ok(v) ==> trees_of(v@) == self.output(args_view(arguments@)),
    {
        if arguments.len() == self.arg_count {
            Ok(apply_parts(&self.sub, arguments))
        } else {
            Err(())
        }
    }

    /// Emits a substitution that takes no arguments.
    pub fn apply_simple(&self) -> (r: Result<Vec<Token>, ()>)
        requires
            self.wf(),
        ensures
            r is Ok <==> self.arg_count == 0,
            r matches Ok(v) ==> trees_of(v@) == self.output(seq![]),
    {
        let none: Vec<Vec<Token>> = Vec::new();
        let r = self.apply(&none);
        assert(args_view(none@) =~= seq![]);
        r
    }

    /// A substitution without parameters that emits `substitution` verbatim.
    pub fn new_simple(substitution: Vec<Token>) -> (r: Self)
        ensures
            r.arg_count == 0,
            r.wf(),
            r.output(seq![]) == trees_of(substitution@),
    {
        let ghost t = trees_of(substitution@);
        let r = Substitution { arg_count: 0, sub: vec![SubType::Token(substitution)] };
        proof {
            lemma_parts_push(Seq::empty(), r.sub@[0], seq![], 0);
            assert(r.sub@ =~= Seq::<SubType>::empty().push(r.sub@[0]));
            assert(seq![] + t =~= t);
        }
        r
    }

    /// Compiles `stream` against the parameter names `arguments`: an
    /// identifier that names a parameter becomes a reference to the argument
    /// at the first position of that name, at every depth of nesting.
    pub fn new(arguments: &Vec<String>, stream: &Vec<Token>) -> (r: Result<Self, ()>)
        ensures
            r is Ok,
            r matches Ok(s) ==> {
                &&& s.arg_count == arguments.len()
                &&& s.wf()
                &&& forall|args: Seq<Seq<Tree>>|
                    args.len() == arguments.len() ==> #[trigger] s.output(args) == instantiate(
                        trees_of(stream@),
                        param_names(arguments@),
                        args,
                    )
            },
        decreases stream,
    {
        let ghost params = param_names(arguments@);
        let ghost raw = trees_of(stream@);
        let ghost n = arguments.len() as nat;
        let mut substitutions: Vec<SubType> = Vec::new();
        let mut pending: Vec<Token> = Vec::new();
        let mut i: usize = 0;
        while i < stream.len()
            invariant
                i <= stream.len(),
                params == param_names(arguments@),
                raw == trees_of(stream@),
                n == arguments.len(),
                parts_wf(substitutions@, n),
                forall|args: Seq<Seq<Tree>>|
                    args.len() == n ==> #[trigger] parts_output(substitutions@, args) + trees_of(
                        pending@,
                    ) == instantiate(raw.subrange(0, i as int), params, args),
            decreases stream.len() - i,
        {
            let ghost before = substitutions@;
            let ghost pend = trees_of(pending@);
            assert(raw.subrange(0, i + 1).subrange(0, i as int) =~= raw.subrange(0, i as int));
            assert(raw[i as int] == stream@[i as int]@);
            assert forall|args: Seq<Seq<Tree>>| #[trigger] instantiate(raw.subrange(0, i + 1), params, args)
                == instantiate(raw.subrange(0, i as int), params, args) + instantiate_one(
                raw[i as int],
                params,
                args,
            ) by {
                assert(raw.subrange(0, i + 1)[i as int] == raw[i as int]);
            }
            match &stream[i] {
                Token::Group(d, ch) => {
                    flush(&mut substitutions, &mut pending, Ghost(n));
                    let ghost mid = substitutions@;
                    let inner = Substitution::new(arguments, ch);
                    if let Ok(inner) = inner {
                        let part = SubType::Group(*d, inner);
                        substitutions.push(part);
                        assert forall|args: Seq<Seq<Tree>>|
                            args.len() == n implies #[trigger] parts_output(substitutions@, args)
                            + trees_of(pending@) == instantiate(
                            raw.subrange(0, i + 1),
                            params,
                            args,
                        ) by {
                            lemma_parts_push(mid, part, args, n);
                            assert(inner.output(args) == instantiate(trees_of(ch@), params, args));
                            assert(raw[i as int] == Tree::Group(*d, trees_of(ch@)));
                            assert(part_output(part, args) == instantiate_one(raw[i as int], params, args));
                            assert(trees_of(pending@) =~= Seq::<Tree>::empty());
                            assert(parts_output(before, args) + pend == parts_output(mid, args));
                        }
                        proof {
                            lemma_parts_push(mid, part, seq![], n);
                        }
                    }
                },
                Token::Ident(name) => {
                    let mut j: usize = 0;
                    while j < arguments.len() && arguments[j] != *name
                        invariant
                            j <= arguments.len(),
                            params == param_names(arguments@),
                            forall|k: int| 0 <= k < j ==> params[k] != name@,
                        decreases arguments.len() - j,
                    {
                        j += 1;
                    }
                    proof {
                        lemma_first_match(params, name@, j as int);
                    }
                    if j < arguments.len() {
                        flush(&mut substitutions, &mut pending, Ghost(n));
                        let ghost mid = substitutions@;
                        let part = SubType::Argument(j);
                        substitutions.push(part);
                        assert forall|args: Seq<Seq<Tree>>|
                            args.len() == n implies #[trigger] parts_output(substitutions@, args)
                            + trees_of(pending@) == instantiate(
                            raw.subrange(0, i + 1),
                            params,
                            args,
                        ) by {
                            lemma_parts_push(mid, part, args, n);
                            assert(trees_of(pending@) =~= Seq::<Tree>::empty());
                            assert(parts_output(before, args) + pend == parts_output(mid, args));
                        }
                        proof {
                            lemma_parts_push(mid, part, seq![], n);
                        }
                    } else {
                        let t = Token::Ident(name.clone());
                        append_token(&mut pending, t);
                        assert forall|args: Seq<Seq<Tree>>|
                            args.len() == n implies #[trigger] parts_output(substitutions@, args)
                            + trees_of(pending@) == instantiate(
                            raw.subrange(0, i + 1),
                            params,
                            args,
                        ) by {
                            assert(parts_output(substitutions@, args) + trees_of(pending@)
                                =~= parts_output(before, args) + pend + seq![raw[i as int]]);
                        }
                    }
                },
                Token::Punct(c, jn) => {
                    append_token(&mut pending, Token::Punct(*c, *jn));
                    assert forall|args: Seq<Seq<Tree>>|
                        args.len() == n implies #[trigger] parts_output(substitutions@, args)
                        + trees_of(pending@) == instantiate(raw.subrange(0, i + 1), params, args)
                        by {
                        assert(parts_output(substitutions@, args) + trees_of(pending@)
                            =~= parts_output(before, args) + pend + seq![raw[i as int]]);
                    }
                },
                Token::Literal(l) => {
                    append_token(&mut pending, Token::Literal(l.clone()));
                    assert forall|args: Seq<Seq<Tree>>|
                        args.len() == n implies #[trigger] parts_output(substitutions@, args)
                        + trees_of(pending@) == instantiate(raw.subrange(0, i + 1), params, args)
                        by {
                        assert(parts_output(substitutions@, args) + trees_of(pending@)
                            =~= parts_output(before, args) + pend + seq![raw[i as int]]);
                    }
                },
            }
            i += 1;
        }
        flush(&mut substitutions, &mut pending, Ghost(n));
        assert(raw.subrange(0, stream.len() as int) =~= raw);
        let s = Substitution { arg_count: arguments.len(), sub: substitutions };
        Ok(s)
    }
}

/// Whether the tree is a comma.
pub open spec fn is_comma(t: Tree) -> bool {
    match t {
        Tree::Punct(c, _) => c == ',',
        _ => false,
    }
}

/// The contents of a call-site argument list split at its top-level commas:
/// `k` commas give `k + 1` arguments, any of which may be empty.
pub open spec fn split_args(s: Seq<Tree>) -> Seq<Seq<Tree>>
    decreases s.len(),
{
    if s.len() == 0 {
        seq![seq![]]
    } else {
        let r = split_args(s.subrange(0, s.len() - 1));
        let t = s[s.len() - 1];
        if is_comma(t) {
            r.push(seq![])
        } else {
            r.update(r.len() - 1, r[r.len() - 1].push(t))
        }
    }
}

/// Splits the contents of an argument list at its top-level commas.
pub fn split_arguments(list: &Vec<Token>) -> (r: Vec<Vec<Token>>)
    ensures
        args_view(r@) == split_args(trees_of(list@)),
{
    let ghost t = trees_of(list@);
    let mut args: Vec<Vec<Token>> = Vec::new();
    let mut cur: Vec<Token> = Vec::new();
    let mut i: usize = 0;
    assert(trees_of(cur@) =~= Seq::<Tree>::empty());
    assert(args_view(args@).push(trees_of(cur@)) =~~= split_args(t.subrange(0, 0)));
    while i < list.len()
        invariant
            i <= list.len(),
            t == trees_of(list@),
            split_args(t.subrange(0, i as int)) == args_view(args@).push(trees_of(cur@)),
        decreases list.len() - i,
    {
        let ghost prev = split_args(t.subrange(0, i as int));
        assert(t.subrange(0, i + 1).subrange(0, i as int) =~= t.subrange(0, i as int));
        assert(t[i as int] == list@[i as int]@);
        let is_sep = match &list[i] {
            Token::Punct(c, _) => *c == ',',
            _ => false,
        };
        if is_sep {
            let ghost old_args = args_view(args@);
            let mut done: Vec<Token> = Vec::new();
            std::mem::swap(&mut done, &mut cur);
            args.push(done);
            assert(is_comma(t[i as int]));
            assert(trees_of(cur@) =~= Seq::<Tree>::empty());
            assert(args_view(args@) =~= old_args.push(trees_of(done@)));
            assert(args_view(args@).push(trees_of(cur@)) =~~= prev.push(seq![]));
        } else {
            assert(!is_comma(t[i as int]));
            let tok = copy_token(&list[i]);
            append_token(&mut cur, tok);
            assert(args_view(args@).push(trees_of(cur@)) =~= prev.update(
                prev.len() - 1,
                prev[prev.len() - 1].push(t[i as int]),
            ));
        }
        i += 1;
    }
    args.push(cur);
    assert(t.subrange(0, list.len() as int) =~= t);
    assert(args_view(args@) =~= split_args(t));
    args
}

/// The identifiers that a substitution group binds.
pub open spec fn group_names(g: Seq<(String, Substitution)>) -> Seq<Seq<char>> {
    Seq::new(g.len(), |i: int| g[i].0@)
}

/// Every substitution of the group is well formed.
pub open spec fn group_wf(g: Seq<(String, Substitution)>) -> bool {
    forall|i: int| 0 <= i < g.len() ==> (#[trigger] g[i]).1.wf()
}

/// `p` in front of a successful result; an error stays.
pub open spec fn prefixed(p: Seq<Tree>, r: Result<Seq<Tree>, Fault>) -> Result<Seq<Tree>, Fault> {
    match r {
        Ok(x) => Ok(p + x),
        Err(e) => Err(e),
    }
}

/// The model of a rewriting outcome.
pub open spec fn outcome(r: Result<Vec<Token>, DupError>) -> Result<Seq<Tree>, Fault> {
    match r {
        Ok(v) => Ok(trees_of(v@)),
        Err(e) => Err(e@),
    }
}

/// One rewrite pass of the template `s` under group `g`, depth first: the
/// first identifier bound by `g` is replaced by its substitution (with the
/// arguments of the group that follows it, when it takes any), and the first
/// failing call site in reading order decides the error.
pub open spec fn rewrite(s: Seq<Tree>, g: Seq<(String, Substitution)>) -> Result<Seq<Tree>, Fault>
    decreases s,
{
    if s.len() == 0 {
        Ok(seq![])
    } else {
        let rest = s.subrange(1, s.len() as int);
        match s[0] {
            Tree::Group(d, ch) => match rewrite(ch, g) {
                Ok(c) => prefixed(seq![Tree::Group(d, c)], rewrite(rest, g)),
                Err(e) => Err(e),
            },
            Tree::Ident(n) => {
                let k = first_match(group_names(g), n);
                if k < 0 {
                    prefixed(seq![s[0]], rewrite(rest, g))
                } else {
                    let sub = g[k].1;
                    if sub.arg_count == 0 {
                        prefixed(sub.output(seq![]), rewrite(rest, g))
                    } else if s.len() >= 2 && s[1] is Group {
                        let args = split_args(s[1]->Group_1);
                        if args.len() != sub.arg_count {
                            Err(
                                Fault::ArgumentCountMismatch {
                                    name: n,
                                    expected: sub.arg_count as nat,
                                    actual: args.len(),
                                },
                            )
                        } else {
                            prefixed(sub.output(args), rewrite(s.subrange(2, s.len() as int), g))
                        }
                    } else {
                        Err(Fault::MissingArgumentList { name: n })
                    }
                }
            },
            _ => prefixed(seq![s[0]], rewrite(rest, g)),
        }
    }
}

pub proof fn lemma_prefixed_assoc(a: Seq<Tree>, b: Seq<Tree>, r: Result<Seq<Tree>, Fault>)
    ensures
        prefixed(a, prefixed(b, r)) == prefixed(a + b, r),
{
    if let Ok(x) = r {
        assert(a + (b + x) =~= (a + b) + x);
    }
}

/// Rewrites the token sequence `s` once under the group `g`.
fn substitute_tokens(s: &Vec<Token>, g: &Vec<(String, Substitution)>) -> (r: Result<
    Vec<Token>,
    DupError,
>)
    requires
        group_wf(g@),
    ensures
        outcome(r) == rewrite(trees_of(s@), g@),
    decreases s,
{
    let ghost t = trees_of(s@);
    let ghost names = group_names(g@);
    let mut out: Vec<Token> = Vec::new();
    let mut i: usize = 0;
    assert(Seq::<Tree>::empty() + rewrite(t, g@)->Ok_0 =~= rewrite(t, g@)->Ok_0);
    assert(t.subrange(0, t.len() as int) =~= t);
    while i < s.len()
        invariant
            i <= s.len(),
            t == trees_of(s@),
            names == group_names(g@),
            group_wf(g@),
            rewrite(t, g@) == prefixed(trees_of(out@), rewrite(t.subrange(i as int, t.len() as int), g@)),
        decreases s.len() - i,
    {
        let ghost suffix = t.subrange(i as int, t.len() as int);
        let ghost acc = trees_of(out@);
        assert(suffix[0] == s@[i as int]@);
        assert(suffix.subrange(1, suffix.len() as int) =~= t.subrange(i + 1, t.len() as int));
        match &s[i] {
            Token::Group(d, ch) => {
                let inner = substitute_tokens(ch, g);
                match inner {
                    Ok(c) => {
                        let ghost cv = trees_of(c@);
                        append_token(&mut out, Token::Group(*d, c));
                        assert(trees_of(out@) =~= acc + seq![Tree::Group(*d, cv)]);
                        proof {
                            lemma_prefixed_assoc(acc, seq![Tree::Group(*d, cv)], rewrite(t.subrange(i + 1, t.len() as int), g@));
                        }

                    },
                    Err(e) => {
                        return Err(e);
                    },
                }
                i += 1;
            },
            Token::Ident(name) => {
                let mut j: usize = 0;
                while j < g.len() && g[j].0 != *name
                    invariant
                        j <= g.len(),
                        names == group_names(g@),
                        forall|k: int| 0 <= k < j ==> names[k] != name@,
                    decreases g.len() - j,
                {
                    j += 1;
                }
                proof {
                    lemma_first_match(names, name@, j as int);
                }
                if j == g.len() {
                    append_token(&mut out, Token::Ident(name.clone()));
                    assert(trees_of(out@) =~= acc + seq![suffix[0]]);
                    proof {
                        lemma_prefixed_assoc(acc, seq![suffix[0]], rewrite(t.subrange(i + 1, t.len() as int), g@));
                    }

                    i += 1;
                } else {
                    let sub = &g[j].1;
                    assert(g@[j as int].1.wf());
                    if sub.arg_count == 0 {
                        match sub.apply_simple() {
                            Ok(v) => {
                                append_copies(&mut out, &v);
                                proof {
                                    lemma_prefixed_assoc(acc, trees_of(v@), rewrite(t.subrange(i + 1, t.len() as int), g@));
                                }

                            },
                            Err(_) => {},
                        }
                        i += 1;
                    } else {
                        let list = if i + 1 < s.len() {
                            match &s[i + 1] {
                                Token::Group(_, ch) => Some(ch),
                                _ => None,
                            }
                        } else {
                            None
                        };
                        assert(i + 1 < s.len() ==> suffix[1] == s@[i + 1]@);
                        match list {
                            Some(ch) => {
                                let args = split_arguments(ch);
                                if args.len() != sub.arg_count {
                                    return Err(
                                        DupError::ArgumentCountMismatch {
                                            name: name.clone(),
                                            expected: sub.arg_count,
                                            actual: args.len(),
                                        },
                                    );
                                }
                                match sub.apply(&args) {
                                    Ok(v) => {
                                        append_copies(&mut out, &v);
                                        assert(suffix.subrange(2, suffix.len() as int) =~= t.subrange(i + 2, t.len() as int));
                                        proof {
                                            lemma_prefixed_assoc(acc, trees_of(v@), rewrite(t.subrange(i + 2, t.len() as int), g@));
                                        }

                                    },
                                    Err(_) => {},
                                }
                                i += 2;
                            },
                            None => {
                                return Err(DupError::MissingArgumentList { name: name.clone() });
                            },
                        }
                    }
                }
            },
            Token::Punct(c, jn) => {
                append_token(&mut out, Token::Punct(*c, *jn));
                assert(trees_of(out@) =~= acc + seq![suffix[0]]);
                proof {
                    lemma_prefixed_assoc(acc, seq![suffix[0]], rewrite(t.subrange(i + 1, t.len() as int), g@));
                }
                i += 1;
            },
            Token::Literal(l) => {
                append_token(&mut out, Token::Literal(l.clone()));
                assert(trees_of(out@) =~= acc + seq![suffix[0]]);
                proof {
                    lemma_prefixed_assoc(acc, seq![suffix[0]], rewrite(t.subrange(i + 1, t.len() as int), g@));
                }
                i += 1;
            },
        }
    }
    assert(t.subrange(s.len() as int, t.len() as int) =~= Seq::<Tree>::empty());
    assert(trees_of(out@) + Seq::<Tree>::empty() =~= trees_of(out@));
    Ok(out)
}

/// The concatenation, in group order, of one rewrite pass per group; the
/// first failing pass decides the error.
pub open spec fn substitute_all(item: Seq<Tree>, groups: Seq<Seq<(String, Substitution)>>) -> Result<
    Seq<Tree>,
    Fault,
>
    decreases groups.len(),
{
    if groups.len() == 0 {
        Ok(seq![])
    } else {
        match substitute_all(item, groups.subrange(0, groups.len() - 1)) {
            Err(e) => Err(e),
            Ok(a) => prefixed(a, rewrite(item, groups[groups.len() - 1])),
        }
    }
}

/// Duplicates `item` once per group, rewriting each copy under its group.
pub fn substitute(item: Vec<Token>, groups: Vec<Vec<(String, Substitution)>>) -> (r: Result<
    Vec<Token>,
    DupError,
>)
    requires
        forall|i: int| 0 <= i < groups.len() ==> group_wf(#[trigger] groups[i]@),
    ensures
        outcome(r) == substitute_all(trees_of(item@), groups@.map_values(|g: Vec<(String, Substitution)>| g@)),
{
    let ghost gs = groups@.map_values(|g: Vec<(String, Substitution)>| g@);
    let ghost t = trees_of(item@);
    let mut result: Vec<Token> = Vec::new();
    let mut i: usize = 0;
    assert(gs.subrange(0, 0) =~= Seq::<Seq<(String, Substitution)>>::empty());
    assert(trees_of(result@) =~= Seq::<Tree>::empty());
    while i < groups.len()
        invariant
            i <= groups.len(),
            gs == groups@.map_values(|g: Vec<(String, Substitution)>| g@),
            t == trees_of(item@),
            forall|k: int| 0 <= k < groups.len() ==> group_wf(#[trigger] groups[k]@),
            substitute_all(t, gs.subrange(0, i as int)) == Ok::<Seq<Tree>, Fault>(trees_of(result@)),
        decreases groups.len() - i,
    {
        assert(gs.subrange(0, i + 1).subrange(0, i as int) =~= gs.subrange(0, i as int));
        assert(gs[i as int] == groups@[i as int]@);
        let pass = substitute_tokens(&item, &groups[i]);
        match pass {
            Ok(v) => {
                append_copies(&mut result, &v);
            },
            Err(e) => {
                proof {
                    lemma_substitute_all_err(t, gs, i as int + 1);
                }
                return Err(e);
            },
        }
        i += 1;
    }
    assert(gs.subrange(0, groups.len() as int) =~= gs);
    Ok(result)
}

/// Once a prefix of the groups fails, every longer prefix fails the same way.
pub proof fn lemma_substitute_all_err(item: Seq<Tree>, gs: Seq<Seq<(String, Substitution)>>, i: int)
    requires
        0 < i <= gs.len(),
        substitute_all(item, gs.subrange(0, i)) is Err,
    ensures
        substitute_all(item, gs) == substitute_all(item, gs.subrange(0, i)),
    decreases gs.len() - i,
{
    if i < gs.len() {
        assert(gs.subrange(0, i + 1).subrange(0, i) =~= gs.subrange(0, i));
        lemma_substitute_all_err(item, gs, i + 1);
    } else {
        assert(gs.subrange(0, i) =~= gs);
    }
}

} // verus!
