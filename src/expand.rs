use vstd::prelude::*;
use crate::attr::{pair_names, raw_group_view, raw_groups_view, short_from, short_view};
use crate::error::Fault;
use crate::substitute::{group_names, group_wf, rewrite, substitute_all, Substitution};
use crate::token::{copy_tokens, first_match, trees_of, Token, Tree};

verus! {

/// The groups of a short declaration: group `i` binds every identifier to
/// its `i`-th substitute.
pub open spec fn transpose(r: Seq<(Seq<char>, Seq<Seq<Tree>>)>) -> Seq<Seq<(Seq<char>, Seq<Tree>)>> {
    if r.len() == 0 {
        seq![]
    } else {
        Seq::new(r[0].1.len(), |i: int| Seq::new(r.len(), |k: int| (r[k].0, r[k].1[i])))
    }
}

/// Plain replacement of every identifier bound by `g`, at every depth.
pub open spec fn replace_all(s: Seq<Tree>, g: Seq<(Seq<char>, Seq<Tree>)>) -> Seq<Tree>
    decreases s,
{
    if s.len() == 0 {
        seq![]
    } else {
        let rest = replace_all(s.subrange(1, s.len() as int), g);
        match s[0] {
            Tree::Group(d, ch) => seq![Tree::Group(d, replace_all(ch, g))] + rest,
            Tree::Ident(n) => if first_match(pair_names(g), n) >= 0 {
                g[first_match(pair_names(g), n)].1 + rest
            } else {
                seq![s[0]] + rest
            },
            _ => seq![s[0]] + rest,
        }
    }
}

/// One copy of `item` per group, each with the group's replacements.
pub open spec fn expand(item: Seq<Tree>, gs: Seq<Seq<(Seq<char>, Seq<Tree>)>>) -> Seq<Tree>
    decreases gs.len(),
{
    if gs.len() == 0 {
        seq![]
    } else {
        expand(item, gs.subrange(0, gs.len() - 1)) + replace_all(item, gs[gs.len() - 1])
    }
}

/// `cg` holds, for each binding of `rg`, a substitution without parameters
/// that emits the bound substitute.
pub open spec fn simple_group(cg: Seq<(String, Substitution)>, rg: Seq<(Seq<char>, Seq<Tree>)>) -> bool {
    &&& cg.len() == rg.len()
    &&& forall|i: int|
        0 <= i < cg.len() ==> {
            &&& (#[trigger] cg[i]).0@ == rg[i].0
            &&& cg[i].1.arg_count == 0
            &&& cg[i].1.wf()
            &&& cg[i].1.output(seq![]) == rg[i].1
        }
}

pub proof fn lemma_rewrite_simple(
    s: Seq<Tree>,
    cg: Seq<(String, Substitution)>,
    rg: Seq<(Seq<char>, Seq<Tree>)>,
)
    requires
        simple_group(cg, rg),
    ensures
        rewrite(s, cg) == Ok::<Seq<Tree>, Fault>(replace_all(s, rg)),
    decreases s,
{
    if s.len() > 0 {
        let rest = s.subrange(1, s.len() as int);
        lemma_rewrite_simple(rest, cg, rg);
        assert(group_names(cg) =~= pair_names(rg));
        match s[0] {
            Tree::Group(d, ch) => {
                lemma_rewrite_simple(ch, cg, rg);
            },
            Tree::Ident(n) => {
                let k = first_match(pair_names(rg), n);
                if k >= 0 {
                    crate::token::lemma_first_match_found(pair_names(rg), n);
                    assert(cg[k].0@ == rg[k].0);
                }
            },
            _ => {},
        }
    }
}

pub proof fn lemma_substitute_simple(
    item: Seq<Tree>,
    cgs: Seq<Seq<(String, Substitution)>>,
    rgs: Seq<Seq<(Seq<char>, Seq<Tree>)>>,
)
    requires
        cgs.len() == rgs.len(),
        forall|i: int| 0 <= i < cgs.len() ==> simple_group(#[trigger] cgs[i], rgs[i]),
    ensures
        substitute_all(item, cgs) == Ok::<Seq<Tree>, Fault>(expand(item, rgs)),
    decreases cgs.len(),
{
    if cgs.len() > 0 {
        let n = cgs.len() - 1;
        lemma_substitute_simple(item, cgs.subrange(0, n), rgs.subrange(0, n));
        lemma_rewrite_simple(item, cgs[n], rgs[n]);
    }
}

/// Every entry of a short declaration has as many substitutes as the first
/// (or as `expected`, once known), and at least one.
pub proof fn lemma_short_counts(attr: Seq<Tree>, p: int, expected: Option<nat>)
    requires
        short_from(attr, p, expected) is Ok,
    ensures
        ({
            let r = short_from(attr, p, expected)->Ok_0;
            forall|k: int|
                0 <= k < r.len() ==> (#[trigger] r[k]).1.len() > 0 && r[k].1.len() == (
                if expected is Some {
                    expected->Some_0 as int
                } else {
                    r[0].1.len() as int
                })
        }),
    decreases attr.len() - p,
{
    let r = short_from(attr, p, expected)->Ok_0;
    if 0 <= p < attr.len() {
        let q = crate::attr::run_end(attr, p + 1);
        if p < q <= attr.len() {
            let c = (q - (p + 1)) as nat;
            if !(q < attr.len() && attr[q] is Group) && c > 0 {
                lemma_short_counts(attr, q, Some(c));
                let rest = short_from(attr, q, Some(c))->Ok_0;
                assert forall|k: int| 0 <= k < r.len() implies (#[trigger] r[k]).1.len() > 0 && r[k].1.len() == (
                if expected is Some {
                    expected->Some_0 as int
                } else {
                    r[0].1.len() as int
                }) by {
                    if k > 0 {
                        assert(r[k] == rest[k - 1]);
                    }
                }
            }
        }
    }
}

/// Builds the groups of a short declaration.
pub(crate) fn reorder(subs: &Vec<(String, Vec<Vec<Token>>)>) -> (r: Vec<Vec<(String, Vec<Token>)>>)
    requires
        forall|k: int|
            0 <= k < subs.len() ==> (#[trigger] subs@[k]).1.len() == subs@[0].1.len(),
    ensures
        raw_groups_view(r@) == transpose(short_view(subs@)),
{
    let ghost sv = short_view(subs@);
    let mut groups: Vec<Vec<(String, Vec<Token>)>> = Vec::new();
    if subs.len() == 0 {
        assert(raw_groups_view(groups@) =~= transpose(sv));
        return groups;
    }
    let n = subs[0].1.len();
    let mut i: usize = 0;
    while i < n
        invariant
            i <= n,
            n == subs@[0].1.len(),
            subs.len() > 0,
            sv == short_view(subs@),
            forall|k: int|
                0 <= k < subs.len() ==> (#[trigger] subs@[k]).1.len() == subs@[0].1.len(),
            raw_groups_view(groups@) == transpose(sv).subrange(0, i as int),
        decreases n - i,
    {
        let mut g: Vec<(String, Vec<Token>)> = Vec::new();
        let mut k: usize = 0;
        while k < subs.len()
            invariant
                i < n,
                k <= subs.len(),
                n == subs@[0].1.len(),
                subs.len() > 0,
                sv == short_view(subs@),
                forall|k: int|
                    0 <= k < subs.len() ==> (#[trigger] subs@[k]).1.len() == subs@[0].1.len(),
                raw_group_view(g@) == transpose(sv)[i as int].subrange(0, k as int),
            decreases subs.len() - k,
        {
            let ghost before = raw_group_view(g@);
            assert(subs@[k as int].1.len() == n);
            let body = copy_tokens(&subs[k].1[i]);
            g.push((subs[k].0.clone(), body));
            assert(raw_group_view(g@) =~= before.push(transpose(sv)[i as int][k as int]));
            k += 1;
            assert(transpose(sv)[i as int].subrange(0, k as int) =~= transpose(sv)[i as int].subrange(0, k - 1).push(transpose(sv)[i as int][k - 1]));
        }
        assert(transpose(sv)[i as int].subrange(0, subs.len() as int) =~= transpose(sv)[i as int]);
        let ghost before = raw_groups_view(groups@);
        let ghost gv = raw_group_view(g@);
        groups.push(g);
        assert(raw_groups_view(groups@) =~= before.push(gv));
        i += 1;
        assert(transpose(sv).subrange(0, i as int) =~= transpose(sv).subrange(0, i - 1).push(transpose(sv)[i - 1]));
    }
    assert(transpose(sv).subrange(0, n as int) =~= transpose(sv));
    groups
}

/// Compiles each group's substitutes as substitutions without parameters.
pub(crate) fn compile_groups(raw: Vec<Vec<(String, Vec<Token>)>>) -> (r: Vec<Vec<(String, Substitution)>>)
    ensures
        r.len() == raw.len(),
        forall|i: int| 0 <= i < r.len() ==> simple_group(#[trigger] r@[i]@, raw_groups_view(raw@)[i]),
        forall|i: int| 0 <= i < r.len() ==> group_wf(#[trigger] r@[i]@),
{
    let mut out: Vec<Vec<(String, Substitution)>> = Vec::new();
    let mut i: usize = 0;
    while i < raw.len()
        invariant
            i <= raw.len(),
            out.len() == i,
            forall|j: int| 0 <= j < i ==> simple_group(#[trigger] out@[j]@, raw_groups_view(raw@)[j]),
            forall|j: int| 0 <= j < i ==> group_wf(#[trigger] out@[j]@),
        decreases raw.len() - i,
    {
        let group = &raw[i];
        let mut cg: Vec<(String, Substitution)> = Vec::new();
        let mut k: usize = 0;
        while k < group.len()
            invariant
                k <= group.len(),
                group == raw@[i as int],
                cg.len() == k,
                forall|j: int|
                    0 <= j < k ==> {
                        &&& (#[trigger] cg@[j]).0@ == raw_group_view(group@)[j].0
                        &&& cg@[j].1.arg_count == 0
                        &&& cg@[j].1.wf()
                        &&& cg@[j].1.output(seq![]) == raw_group_view(group@)[j].1
                    },
            decreases group.len() - k,
        {
            let body = copy_tokens(&group[k].1);
            let sub = Substitution::new_simple(body);
            cg.push((group[k].0.clone(), sub));
            k += 1;
        }
        assert(simple_group(cg@, raw_groups_view(raw@)[i as int]));
        out.push(cg);
        i += 1;
    }
    out
}

} // verus!
