use vstd::prelude::*;
use crate::attr::{
    bodies, lemma_run_end, lemma_scan_verbose_err, missing_names, pair_names, parse_short, run_end, scan_pairs, scan_verbose,
    short_from, syntax_of, verbose_group, visible_group,
};
use crate::error::Fault;
use crate::expand::{expand, replace_all, transpose};
use crate::substitute::{group_names, is_comma, prefixed, rewrite, split_args, Substitution};
use crate::token::{first_match, lemma_first_match_found, Delimiter, Tree};
use crate::{declared_groups, duplicated};

verus! {

/// Whether an identifier in `names` occurs in `s`, at any depth.
pub open spec fn mentions(s: Seq<Tree>, names: Seq<Seq<char>>) -> bool
    decreases s,
{
    if s.len() == 0 {
        false
    } else {
        (match s[0] {
            Tree::Ident(n) => names.contains(n),
            Tree::Group(_, ch) => mentions(ch, names),
            _ => false,
        }) || mentions(s.subrange(1, s.len() as int), names)
    }
}

/// `n` copies of `s`, one after another.
pub open spec fn repeat(s: Seq<Tree>, n: nat) -> Seq<Tree>
    decreases n,
{
    if n == 0 {
        seq![]
    } else {
        repeat(s, (n - 1) as nat) + s
    }
}

/// A template that mentions none of a group's identifiers is rewritten to
/// itself, whatever the arity of the group's substitutions.
pub proof fn law_rewrite_untouched(s: Seq<Tree>, g: Seq<(String, Substitution)>)
    requires
        !mentions(s, group_names(g)),
    ensures
        rewrite(s, g) == Ok::<Seq<Tree>, Fault>(s),
    decreases s,
{
    if s.len() > 0 {
        let rest = s.subrange(1, s.len() as int);
        law_rewrite_untouched(rest, g);
        match s[0] {
            Tree::Group(d, ch) => {
                law_rewrite_untouched(ch, g);
            },
            Tree::Ident(n) => {
                lemma_first_match_found(group_names(g), n);
                if first_match(group_names(g), n) >= 0 {
                    assert(group_names(g)[first_match(group_names(g), n)] == n);
                }
            },
            _ => {},
        }
        assert(seq![s[0]] + rest =~= s);
    } else {
        assert(s =~= seq![]);
    }
}

/// A token that mentions none of a group's identifiers, at the front of a
/// template, comes out unchanged (same delimiter, same contents, same text)
/// in front of the rewritten rest.
pub proof fn law_structure_kept(t: Tree, rest: Seq<Tree>, g: Seq<(String, Substitution)>)
    requires
        !mentions(seq![t], group_names(g)),
    ensures
        rewrite(seq![t] + rest, g) == prefixed(seq![t], rewrite(rest, g)),
{
    let s = seq![t] + rest;
    assert(s[0] == t);
    assert(s.subrange(1, s.len() as int) =~= rest);
    match t {
        Tree::Group(d, ch) => {
            law_rewrite_untouched(ch, g);
        },
        Tree::Ident(n) => {
            lemma_first_match_found(group_names(g), n);
        },
        _ => {},
    }
}

pub proof fn lemma_replace_untouched(s: Seq<Tree>, g: Seq<(Seq<char>, Seq<Tree>)>)
    requires
        !mentions(s, pair_names(g)),
    ensures
        replace_all(s, g) == s,
    decreases s,
{
    if s.len() > 0 {
        let rest = s.subrange(1, s.len() as int);
        lemma_replace_untouched(rest, g);
        match s[0] {
            Tree::Group(d, ch) => {
                lemma_replace_untouched(ch, g);
            },
            Tree::Ident(n) => {
                lemma_first_match_found(pair_names(g), n);
                if first_match(pair_names(g), n) >= 0 {
                    assert(pair_names(g)[first_match(pair_names(g), n)] == n);
                }
            },
            _ => {},
        }
        assert(seq![s[0]] + rest =~= s);
    } else {
        assert(s =~= seq![]);
    }
}

pub proof fn lemma_expand_untouched(item: Seq<Tree>, gs: Seq<Seq<(Seq<char>, Seq<Tree>)>>)
    requires
        forall|i: int| 0 <= i < gs.len() ==> !mentions(item, pair_names(#[trigger] gs[i])),
    ensures
        expand(item, gs) == repeat(item, gs.len()),
    decreases gs.len(),
{
    if gs.len() > 0 {
        lemma_expand_untouched(item, gs.subrange(0, gs.len() - 1));
        lemma_replace_untouched(item, gs[gs.len() - 1]);
    }
}

/// A template that mentions no declared identifier comes out as one verbatim
/// copy per declared group.
pub proof fn law_identity(attr: Seq<Tree>, item: Seq<Tree>)
    requires
        declared_groups(attr) is Ok,
        forall|i: int|
            0 <= i < declared_groups(attr)->Ok_0.len() ==> !mentions(
                item,
                pair_names(#[trigger] declared_groups(attr)->Ok_0[i]),
            ),
    ensures
        duplicated(attr, item) == Ok::<Seq<Tree>, Fault>(
            repeat(item, declared_groups(attr)->Ok_0.len()),
        ),
{
    lemma_expand_untouched(item, declared_groups(attr)->Ok_0);
}

pub proof fn lemma_expand_flatten(item: Seq<Tree>, gs: Seq<Seq<(Seq<char>, Seq<Tree>)>>)
    ensures
        expand(item, gs) == Seq::new(gs.len(), |i: int| replace_all(item, gs[i])).flatten(),
    decreases gs.len(),
{
    if gs.len() > 0 {
        let n = gs.len() - 1;
        let front = gs.subrange(0, n);
        lemma_expand_flatten(item, front);
        let blocks = Seq::new(gs.len(), |i: int| replace_all(item, gs[i]));
        let fblocks = Seq::new(front.len(), |i: int| replace_all(item, front[i]));
        assert(blocks =~= fblocks.push(replace_all(item, gs[n])));
        fblocks.lemma_flatten_push(replace_all(item, gs[n]));
    }
}

/// For a short declaration, whose identifiers each give `n` substitutes, the
/// output is the concatenation, in order, of `n` rewrites of the template:
/// the `i`-th binds every identifier to its `i`-th substitute.
pub proof fn law_group_count(attr: Seq<Tree>, item: Seq<Tree>)
    requires
        syntax_of(attr) == Ok::<bool, Fault>(false),
        parse_short(attr) is Ok,
    ensures
        ({
            let r = parse_short(attr)->Ok_0;
            duplicated(attr, item) == Ok::<Seq<Tree>, Fault>(
                Seq::new(
                    r[0].1.len(),
                    |i: int| replace_all(item, Seq::new(r.len(), |k: int| (r[k].0, r[k].1[i]))),
                ).flatten(),
            )
        }),
{
    let r = parse_short(attr)->Ok_0;
    let gs = transpose(r);
    lemma_expand_flatten(item, gs);
    crate::expand::lemma_short_counts(attr, 0, None);
    if r.len() == 0 {
        assert(false) by {
            crate::attr::lemma_run_end_bounds(attr, 1);
        }
    }
    assert(Seq::new(gs.len(), |i: int| replace_all(item, gs[i])) =~= Seq::new(
        r[0].1.len(),
        |i: int| replace_all(item, Seq::new(r.len(), |k: int| (r[k].0, r[k].1[i]))),
    ));
}

/// The number of top-level commas in `s`.
pub open spec fn comma_count(s: Seq<Tree>) -> nat
    decreases s.len(),
{
    if s.len() == 0 {
        0
    } else {
        comma_count(s.subrange(0, s.len() - 1)) + if is_comma(s[s.len() - 1]) {
            1nat
        } else {
            0nat
        }
    }
}

pub proof fn lemma_split_args_count(s: Seq<Tree>)
    ensures
        split_args(s).len() == comma_count(s) + 1,
    decreases s.len(),
{
    if s.len() > 0 {
        lemma_split_args_count(s.subrange(0, s.len() - 1));
    }
}

pub proof fn lemma_comma_count_concat(a: Seq<Tree>, b: Seq<Tree>)
    ensures
        comma_count(a + b) == comma_count(a) + comma_count(b),
    decreases b.len(),
{
    if b.len() == 0 {
        assert(a + b =~= a);
    } else {
        let front = b.subrange(0, b.len() - 1);
        lemma_comma_count_concat(a, front);
        assert((a + b).subrange(0, (a + b).len() - 1) =~= a + front);
        assert((a + b)[(a + b).len() - 1] == b[b.len() - 1]);
    }
}

/// A call site that gives two comma-separated arguments to a substitution
/// of one parameter fails with an argument count mismatch.
pub proof fn law_arity_mismatch(
    f: Seq<char>,
    d: Delimiter,
    x: Seq<Tree>,
    comma: Tree,
    y: Seq<Tree>,
    rest: Seq<Tree>,
    g: Seq<(String, Substitution)>,
)
    requires
        first_match(group_names(g), f) >= 0,
        g[first_match(group_names(g), f)].1.arg_count == 1,
        is_comma(comma),
        comma_count(x) == 0,
        comma_count(y) == 0,
    ensures
        rewrite(seq![Tree::Ident(f), Tree::Group(d, x.push(comma) + y)] + rest, g) == Err::<
            Seq<Tree>,
            Fault,
        >(Fault::ArgumentCountMismatch { name: f, expected: 1, actual: 2 }),
{
    let list = x.push(comma) + y;
    lemma_comma_count_concat(x.push(comma), y);
    assert(x.push(comma).subrange(0, x.len() as int) =~= x);
    lemma_split_args_count(list);
    let s = seq![Tree::Ident(f), Tree::Group(d, list)] + rest;
    assert(s[0] == Tree::Ident(f));
    assert(s[1] == Tree::Group(d, list));
}

pub proof fn lemma_split_args_single(s: Seq<Tree>)
    requires
        comma_count(s) == 0,
    ensures
        split_args(s) == seq![s],
    decreases s.len(),
{
    if s.len() == 0 {
        assert(s =~= Seq::<Tree>::empty());
        assert(split_args(s) =~~= seq![s]);
    } else {
        let front = s.subrange(0, s.len() - 1);
        lemma_split_args_single(front);
        assert(front.push(s[s.len() - 1]) =~= s);
        assert(!is_comma(s[s.len() - 1]));
        assert(split_args(s) =~~= seq![s]);
    }
}

/// A call of a one-parameter substitution with a comma-free argument list
/// emits the substitution for that list taken verbatim: identifiers inside
/// the argument, bound or not, are not rewritten.
pub proof fn law_argument_verbatim(
    f: Seq<char>,
    d: Delimiter,
    arg: Seq<Tree>,
    rest: Seq<Tree>,
    g: Seq<(String, Substitution)>,
)
    requires
        first_match(group_names(g), f) >= 0,
        g[first_match(group_names(g), f)].1.arg_count == 1,
        comma_count(arg) == 0,
    ensures
        rewrite(seq![Tree::Ident(f), Tree::Group(d, arg)] + rest, g) == prefixed(
            g[first_match(group_names(g), f)].1.output(seq![arg]),
            rewrite(rest, g),
        ),
{
    lemma_split_args_single(arg);
    let s = seq![Tree::Ident(f), Tree::Group(d, arg)] + rest;
    assert(s[0] == Tree::Ident(f));
    assert(s[1] == Tree::Group(d, arg));
    assert(s.subrange(2, s.len() as int) =~= rest);
}

pub proof fn lemma_missing_names_has(canon: Seq<Seq<char>>, present: Seq<Seq<char>>, name: Seq<char>)
    requires
        canon.contains(name),
        !present.contains(name),
    ensures
        missing_names(canon, present).contains(name),
    decreases canon.len(),
{
    let n = canon.len() - 1;
    let front = canon.subrange(0, n);
    let r = missing_names(front, present);
    if canon[n] == name {
        assert(r.push(name)[r.len() as int] == name);
    } else {
        let i = choose|i: int| 0 <= i < canon.len() && canon[i] == name;
        assert(front[i] == name);
        lemma_missing_names_has(front, present, name);
        let j = choose|j: int| 0 <= j < r.len() && r[j] == name;
        if !present.contains(canon[n]) {
            assert(r.push(canon[n])[j] == name);
        }
    }
}

/// When the second group of a verbose declaration is otherwise well formed
/// but omits an identifier of the first, the declaration fails, whatever the
/// template, with the list of omitted identifiers, which names that one.
pub proof fn law_missing_identifier(v: Seq<Tree>, item: Seq<Tree>, name: Seq<char>)
    requires
        v.len() >= 2,
        verbose_group(0, v[0], None) is Ok,
        visible_group(v[1]),
        v[1]->Group_1.len() > 0,
        ({
            let canon = pair_names(verbose_group(0, v[0], None)->Ok_0);
            let ch = v[1]->Group_1;
            &&& scan_pairs(1, ch, Some(canon), ((ch.len() + 1) / 2) as nat) is Ok
            &&& canon.contains(name)
            &&& !pair_names(scan_pairs(1, ch, Some(canon), ((ch.len() + 1) / 2) as nat)->Ok_0).contains(name)
        }),
    ensures
        ({
            let canon = pair_names(verbose_group(0, v[0], None)->Ok_0);
            let ch = v[1]->Group_1;
            let present = pair_names(scan_pairs(1, ch, Some(canon), ((ch.len() + 1) / 2) as nat)->Ok_0);
            &&& duplicated(v, item) == Err::<Seq<Tree>, Fault>(
                Fault::MissingIdentifiers { group: 1, names: missing_names(canon, present) },
            )
            &&& missing_names(canon, present).contains(name)
        }),
{
    let g0 = verbose_group(0, v[0], None)->Ok_0;
    let canon = pair_names(g0);
    let ch = v[1]->Group_1;
    let present = pair_names(scan_pairs(1, ch, Some(canon), ((ch.len() + 1) / 2) as nat)->Ok_0);
    lemma_missing_names_has(canon, present, name);
    assert(missing_names(canon, present).len() > 0);
    assert(v[0] is Group);
    assert(scan_verbose(v, 0) == Ok::<Seq<Seq<(Seq<char>, Seq<Tree>)>>, Fault>(seq![]));
    assert(scan_verbose(v, 1) == Ok::<Seq<Seq<(Seq<char>, Seq<Tree>)>>, Fault>(seq![g0])) by {
        assert(Seq::<Seq<(Seq<char>, Seq<Tree>)>>::empty().push(g0) =~= seq![g0]);
    }
    assert(seq![g0][0] == g0);
    assert(scan_verbose(v, 2) is Err);
    lemma_scan_verbose_err(v, 2, v.len());
}

/// Pair `j / 2` of the verbose group for copy `i`: `ns[k] [ vs[k][i] ]`.
pub open spec fn verbose_body(ns: Seq<Seq<char>>, vs: Seq<Seq<Seq<Tree>>>, i: int) -> Seq<Tree> {
    Seq::new(
        2 * ns.len(),
        |j: int|
            if j % 2 == 0 {
                Tree::Ident(ns[j / 2])
            } else {
                Tree::Group(Delimiter::Bracket, vs[j / 2][i])
            },
    )
}

/// `[ ns[0] [vs[0][0]] ns[1] [vs[1][0]] .. ] [ ns[0] [vs[0][1]] .. ] ..`
pub open spec fn verbose_decl(ns: Seq<Seq<char>>, vs: Seq<Seq<Seq<Tree>>>, n: nat) -> Seq<Tree> {
    Seq::new(n, |i: int| Tree::Group(Delimiter::Bracket, verbose_body(ns, vs, i)))
}

/// `ns[0] [vs[0][0]] [vs[0][1]] .. ns[1] [vs[1][0]] ..`
pub open spec fn short_decl(ns: Seq<Seq<char>>, vs: Seq<Seq<Seq<Tree>>>) -> Seq<Tree>
    decreases ns.len(),
{
    if ns.len() == 0 || vs.len() == 0 {
        seq![]
    } else {
        seq![Tree::Ident(ns[0])] + Seq::new(vs[0].len(), |i: int| Tree::Group(Delimiter::Bracket, vs[0][i]))
            + short_decl(ns.subrange(1, ns.len() as int), vs.subrange(1, vs.len() as int))
    }
}

/// The groups that both declarations are meant to declare.
pub open spec fn declared_by(ns: Seq<Seq<char>>, vs: Seq<Seq<Seq<Tree>>>, n: nat) -> Seq<Seq<(Seq<char>, Seq<Tree>)>> {
    Seq::new(n, |i: int| Seq::new(ns.len(), |k: int| (ns[k], vs[k][i])))
}

pub proof fn lemma_run_end_shift(pre: Seq<Tree>, rest: Seq<Tree>, i: int)
    requires
        0 <= i <= rest.len(),
    ensures
        run_end(pre + rest, pre.len() + i) == pre.len() + run_end(rest, i),
    decreases rest.len() - i,
{
    let s = pre + rest;
    if i < rest.len() {
        assert(s[pre.len() + i] == rest[i]);
        if visible_group(rest[i]) {
            lemma_run_end_shift(pre, rest, i + 1);
        }
    }
}

pub proof fn lemma_short_from_shift(pre: Seq<Tree>, rest: Seq<Tree>, p: int, e: Option<nat>)
    requires
        0 <= p <= rest.len(),
        short_from(rest, p, e) is Ok,
    ensures
        short_from(pre + rest, pre.len() + p, e) == short_from(rest, p, e),
    decreases rest.len() - p,
{
    let s = pre + rest;
    let l = pre.len() as int;
    if p < rest.len() {
        assert(s[l + p] == rest[p]);
        if rest[p] is Ident {
            lemma_run_end_shift(pre, rest, p + 1);
            crate::attr::lemma_run_end_bounds(rest, p + 1);
            let q = run_end(rest, p + 1);
            if q < rest.len() {
                assert(s[l + q] == rest[q]);
            }
            let c = (q - (p + 1)) as nat;
            if q > p && !(q < rest.len() && rest[q] is Group) && c > 0 && !(e is Some && c != e->Some_0) {
                lemma_short_from_shift(pre, rest, q, Some(c));
                assert(bodies(s, l + p + 1, l + q) =~= bodies(rest, p + 1, q));
            }
        }
    }
}

pub proof fn lemma_short_decl(ns: Seq<Seq<char>>, vs: Seq<Seq<Seq<Tree>>>, n: nat)
    requires
        n > 0,
        ns.len() == vs.len(),
        forall|k: int| 0 <= k < vs.len() ==> (#[trigger] vs[k]).len() == n,
    ensures
        short_from(short_decl(ns, vs), 0, Some(n)) == Ok::<Seq<(Seq<char>, Seq<Seq<Tree>>)>, Fault>(
            Seq::new(ns.len(), |k: int| (ns[k], vs[k])),
        ),
        ns.len() > 0 ==> short_from(short_decl(ns, vs), 0, None) == Ok::<Seq<(Seq<char>, Seq<Seq<Tree>>)>, Fault>(
            Seq::new(ns.len(), |k: int| (ns[k], vs[k])),
        ),
    decreases ns.len(),
{
    let s = short_decl(ns, vs);
    if ns.len() == 0 {
        assert(Seq::new(ns.len(), |k: int| (ns[k], vs[k])) =~= Seq::<(Seq<char>, Seq<Seq<Tree>>)>::empty());
    } else {
        let ns1 = ns.subrange(1, ns.len() as int);
        let vs1 = vs.subrange(1, vs.len() as int);
        assert forall|k: int| 0 <= k < vs1.len() implies (#[trigger] vs1[k]).len() == n by {
            assert(vs1[k] == vs[k + 1]);
        }
        lemma_short_decl(ns1, vs1, n);
        let tail = short_decl(ns1, vs1);
        let m1: int = n as int + 1;
        let head = seq![Tree::Ident(ns[0])] + Seq::new(vs[0].len(), |i: int| Tree::Group(Delimiter::Bracket, vs[0][i]));
        assert(s == head + tail);
        assert(head.len() == n + 1);
        assert(s[0] == Tree::Ident(ns[0]));
        assert forall|x: int| 1 <= x < n + 1 implies #[trigger] visible_group(s[x]) by {
            assert(s[x] == head[x]);
        }
        lemma_run_end(s, 1, m1);
        assert(tail.len() == 0 ==> run_end(s, m1) == n + 1);
        if tail.len() > 0 {
            assert(tail[0] == Tree::Ident(ns1[0]));
            assert(s[m1] == tail[0]);
        }
        assert(run_end(s, m1) == n + 1);
        lemma_short_from_shift(head, tail, 0, Some(n));
        assert(bodies(s, 1, m1) =~= vs[0]) by {
            assert forall|x: int| 0 <= x < n implies bodies(s, 1, m1)[x] == vs[0][x] by {
                assert(s[1 + x] == head[1 + x]);
            }
        }
        let r1 = Seq::new(ns1.len(), |k: int| (ns1[k], vs1[k]));
        assert(seq![(ns[0], vs[0])] + r1 =~= Seq::new(ns.len(), |k: int| (ns[k], vs[k])));
    }
}

pub open spec fn distinct_names(ns: Seq<Seq<char>>) -> bool {
    forall|a: int, b: int| 0 <= a < b < ns.len() ==> ns[a] != ns[b]
}

pub proof fn lemma_verbose_pairs(
    ns: Seq<Seq<char>>,
    vs: Seq<Seq<Seq<Tree>>>,
    g: nat,
    i: int,
    canon: Option<Seq<Seq<char>>>,
    mp: nat,
)
    requires
        mp <= ns.len(),
        ns.len() == vs.len(),
        distinct_names(ns),
        canon is None || canon == Some(ns),
    ensures
        scan_pairs(g, verbose_body(ns, vs, i), canon, mp) == Ok::<Seq<(Seq<char>, Seq<Tree>)>, Fault>(
            Seq::new(mp, |k: int| (ns[k], vs[k][i])),
        ),
    decreases mp,
{
    let body = verbose_body(ns, vs, i);
    if mp == 0 {
        assert(Seq::new(mp, |k: int| (ns[k], vs[k][i])) =~= Seq::<(Seq<char>, Seq<Tree>)>::empty());
    } else {
        let k = mp - 1;
        lemma_verbose_pairs(ns, vs, g, i, canon, k as nat);
        let ps = Seq::new(k as nat, |x: int| (ns[x], vs[x][i]));
        let j = 2 * k;
        assert(j % 2 == 0 && j / 2 == k);
        assert((j + 1) % 2 == 1 && (j + 1) / 2 == k);
        assert(body[j] == Tree::Ident(ns[k]));
        assert(body[j + 1] == Tree::Group(Delimiter::Bracket, vs[k][i]));
        if canon is Some {
            assert(ns[k] == ns[k]);
            assert(canon->Some_0.contains(ns[k])) by {
                assert(canon->Some_0[k] == ns[k]);
            }
        }
        assert(!pair_names(ps).contains(ns[k])) by {
            if pair_names(ps).contains(ns[k]) {
                let x = choose|x: int| 0 <= x < pair_names(ps).len() && pair_names(ps)[x] == ns[k];
                assert(ns[x] == ns[k]);
            }
        }
        assert(ps.push((ns[k], vs[k][i])) =~= Seq::new(mp, |x: int| (ns[x], vs[x][i])));
    }
}

pub proof fn lemma_missing_none(canon: Seq<Seq<char>>, present: Seq<Seq<char>>)
    requires
        forall|k: int| 0 <= k < canon.len() ==> present.contains(#[trigger] canon[k]),
    ensures
        missing_names(canon, present) == Seq::<Seq<char>>::empty(),
    decreases canon.len(),
{
    if canon.len() > 0 {
        let front = canon.subrange(0, canon.len() - 1);
        assert forall|k: int| 0 <= k < front.len() implies present.contains(#[trigger] front[k]) by {
            assert(front[k] == canon[k]);
        }
        lemma_missing_none(front, present);
        assert(present.contains(canon[canon.len() - 1]));
    } else {
        assert(missing_names(canon, present) =~= Seq::<Seq<char>>::empty());
    }
}

pub proof fn lemma_verbose_decl(ns: Seq<Seq<char>>, vs: Seq<Seq<Seq<Tree>>>, n: nat, m: nat)
    requires
        m <= n,
        ns.len() > 0,
        ns.len() == vs.len(),
        distinct_names(ns),
    ensures
        scan_verbose(verbose_decl(ns, vs, n), m) == Ok::<Seq<Seq<(Seq<char>, Seq<Tree>)>>, Fault>(
            declared_by(ns, vs, m),
        ),
    decreases m,
{
    let v = verbose_decl(ns, vs, n);
    if m == 0 {
        assert(declared_by(ns, vs, m) =~= Seq::<Seq<(Seq<char>, Seq<Tree>)>>::empty());
    } else {
        let i = m - 1;
        lemma_verbose_decl(ns, vs, n, i as nat);
        let gs = declared_by(ns, vs, i as nat);
        let body = verbose_body(ns, vs, i);
        let gi = Seq::new(ns.len(), |k: int| (ns[k], vs[k][i]));
        assert(v[i] == Tree::Group(Delimiter::Bracket, body));
        assert((body.len() + 1) / 2 == ns.len());
        let canon: Option<Seq<Seq<char>>> = if m == 1 {
            None
        } else {
            Some(pair_names(gs[0]))
        };
        if m > 1 {
            assert(pair_names(gs[0]) =~= ns);
        }
        lemma_verbose_pairs(ns, vs, i as nat, i, canon, ns.len());
        if m > 1 {
            assert(pair_names(gi) =~= ns);
            assert forall|k: int| 0 <= k < ns.len() implies pair_names(gi).contains(#[trigger] ns[k]) by {
                assert(pair_names(gi)[k] == ns[k]);
            }
            lemma_missing_none(ns, pair_names(gi));
        }
        assert(verbose_group(i as nat, v[i], canon) == Ok::<Seq<(Seq<char>, Seq<Tree>)>, Fault>(gi));
        assert(gs.push(gi) =~= declared_by(ns, vs, m));
    }
}

/// A verbose declaration and a short one that give the same identifiers
/// (all distinct) the same `n` substitutes each declare the same groups, so
/// they duplicate every template alike.
pub proof fn law_verbose_short_equivalent(ns: Seq<Seq<char>>, vs: Seq<Seq<Seq<Tree>>>, n: nat, item: Seq<Tree>)
    requires
        n > 0,
        ns.len() > 0,
        ns.len() == vs.len(),
        distinct_names(ns),
        forall|k: int| 0 <= k < vs.len() ==> (#[trigger] vs[k]).len() == n,
    ensures
        declared_groups(verbose_decl(ns, vs, n)) == Ok::<Seq<Seq<(Seq<char>, Seq<Tree>)>>, Fault>(
            declared_by(ns, vs, n),
        ),
        declared_groups(short_decl(ns, vs)) == declared_groups(verbose_decl(ns, vs, n)),
        duplicated(short_decl(ns, vs), item) == duplicated(verbose_decl(ns, vs, n), item),
{
    let v = verbose_decl(ns, vs, n);
    let s = short_decl(ns, vs);
    lemma_verbose_decl(ns, vs, n, n);
    assert(v[0] == Tree::Group(Delimiter::Bracket, verbose_body(ns, vs, 0)));
    lemma_short_decl(ns, vs, n);
    assert(s[0] == Tree::Ident(ns[0]));
    let r = Seq::new(ns.len(), |k: int| (ns[k], vs[k]));
    assert(transpose(r) =~~= declared_by(ns, vs, n));
}

} // verus!
