use vstd::prelude::*;
use crate::error::{DupError, Fault};
use crate::token::{copy_tokens, string_views, trees_of, Delimiter, Token, Tree};

verus! {

/// A group as written: identifiers with their substitutes, in order.
pub open spec fn raw_group_view(g: Seq<(String, Vec<Token>)>) -> Seq<(Seq<char>, Seq<Tree>)> {
    Seq::new(g.len(), |i: int| (g[i].0@, trees_of(g[i].1@)))
}

pub open spec fn raw_groups_view(gs: Seq<Vec<(String, Vec<Token>)>>) -> Seq<
    Seq<(Seq<char>, Seq<Tree>)>,
> {
    Seq::new(gs.len(), |i: int| raw_group_view(gs[i]@))
}

pub open spec fn pair_names(ps: Seq<(Seq<char>, Seq<Tree>)>) -> Seq<Seq<char>> {
    Seq::new(ps.len(), |i: int| ps[i].0)
}

/// A group with a real delimiter.
pub open spec fn visible_group(t: Tree) -> bool {
    match t {
        Tree::Group(d, _) => d != Delimiter::Invisible,
        _ => false,
    }
}

/// Which form a declaration uses: `Ok(true)` verbose, `Ok(false)` short.
pub open spec fn syntax_of(attr: Seq<Tree>) -> Result<bool, Fault> {
    if attr.len() == 0 {
        Err(Fault::InvalidSyntax { token: 0 })
    } else if visible_group(attr[0]) {
        Ok(true)
    } else if attr[0] is Ident {
        Ok(false)
    } else {
        Err(Fault::InvalidSyntax { token: 0 })
    }
}

/// The first `m` pairs of verbose group `k`, whose contents are `ch`; `canon`
/// is the identifier list of the first group, if this is not it.
pub open spec fn scan_pairs(k: nat, ch: Seq<Tree>, canon: Option<Seq<Seq<char>>>, m: nat) -> Result<
    Seq<(Seq<char>, Seq<Tree>)>,
    Fault,
>
    decreases m,
{
    if m == 0 {
        Ok(seq![])
    } else {
        match scan_pairs(k, ch, canon, (m - 1) as nat) {
            Err(e) => Err(e),
            Ok(ps) => {
                let j = 2 * (m - 1);
                if !(ch[j] is Ident) {
                    Err(Fault::MalformedPair { group: k, token: j as nat })
                } else if j + 1 >= ch.len() || !visible_group(ch[j + 1]) {
                    Err(Fault::MalformedPair { group: k, token: (j + 1) as nat })
                } else {
                    let name = ch[j]->Ident_0;
                    if canon is Some && !canon->Some_0.contains(name) {
                        Err(Fault::UnknownIdentifier { group: k, name })
                    } else if pair_names(ps).contains(name) {
                        Err(Fault::DuplicateIdentifier { group: k, name })
                    } else {
                        Ok(ps.push((name, ch[j + 1]->Group_1)))
                    }
                }
            },
        }
    }
}

pub proof fn lemma_scan_pairs_err(k: nat, ch: Seq<Tree>, canon: Option<Seq<Seq<char>>>, m: nat, n: nat)
    requires
        m <= n,
        scan_pairs(k, ch, canon, m) is Err,
    ensures
        scan_pairs(k, ch, canon, n) == scan_pairs(k, ch, canon, m),
    decreases n - m,
{
    if m < n {
        lemma_scan_pairs_err(k, ch, canon, m, (n - 1) as nat);
    }
}

pub proof fn lemma_scan_verbose_err(attr: Seq<Tree>, m: nat, n: nat)
    requires
        m <= n,
        scan_verbose(attr, m) is Err,
    ensures
        scan_verbose(attr, n) == scan_verbose(attr, m),
    decreases n - m,
{
    if m < n {
        lemma_scan_verbose_err(attr, m, (n - 1) as nat);
    }
}

/// The names of `canon` that `present` lacks, in the order of `canon`.
pub open spec fn missing_names(canon: Seq<Seq<char>>, present: Seq<Seq<char>>) -> Seq<Seq<char>>
    decreases canon.len(),
{
    if canon.len() == 0 {
        seq![]
    } else {
        let r = missing_names(canon.subrange(0, canon.len() - 1), present);
        if present.contains(canon[canon.len() - 1]) {
            r
        } else {
            r.push(canon[canon.len() - 1])
        }
    }
}

/// Verbose group `k` read from the top-level token `t`.
pub open spec fn verbose_group(k: nat, t: Tree, canon: Option<Seq<Seq<char>>>) -> Result<
    Seq<(Seq<char>, Seq<Tree>)>,
    Fault,
> {
    match t {
        Tree::Group(d, ch) => if d == Delimiter::Invisible {
            Err(Fault::InvalidSyntax { token: k })
        } else if ch.len() == 0 {
            Err(Fault::EmptyGroup { group: k })
        } else {
            match scan_pairs(k, ch, canon, ((ch.len() + 1) / 2) as nat) {
                Err(e) => Err(e),
                Ok(ps) => match canon {
                    Some(c) => if missing_names(c, pair_names(ps)).len() > 0 {
                        Err(
                            Fault::MissingIdentifiers {
                                group: k,
                                names: missing_names(c, pair_names(ps)),
                            },
                        )
                    } else {
                        Ok(ps)
                    },
                    None => Ok(ps),
                },
            }
        },
        _ => Err(Fault::InvalidSyntax { token: k }),
    }
}

/// The first `m` groups of a verbose declaration.
pub open spec fn scan_verbose(attr: Seq<Tree>, m: nat) -> Result<
    Seq<Seq<(Seq<char>, Seq<Tree>)>>,
    Fault,
>
    decreases m,
{
    if m == 0 {
        Ok(seq![])
    } else {
        match scan_verbose(attr, (m - 1) as nat) {
            Err(e) => Err(e),
            Ok(gs) => {
                let canon = if m == 1 {
                    None
                } else {
                    Some(pair_names(gs[0]))
                };
                match verbose_group((m - 1) as nat, attr[m - 1], canon) {
                    Err(e) => Err(e),
                    Ok(g) => Ok(gs.push(g)),
                }
            },
        }
    }
}

/// The groups of a verbose declaration, in order.
pub open spec fn parse_verbose(attr: Seq<Tree>) -> Result<Seq<Seq<(Seq<char>, Seq<Tree>)>>, Fault> {
    if attr.len() == 0 {
        Err(Fault::InvalidSyntax { token: 0 })
    } else {
        scan_verbose(attr, attr.len())
    }
}

/// Tells the verbose form (`true`) from the short form (`false`) by the
/// first token.
pub fn identify_syntax(attr: &Vec<Token>) -> (r: Result<bool, DupError>)
    ensures
        (match r {
            Ok(b) => Ok(b),
            Err(e) => Err(e@),
        }) == syntax_of(trees_of(attr@)),
{
    if attr.len() == 0 {
        return Err(DupError::InvalidSyntax { token: 0 });
    }
    assert(trees_of(attr@)[0] == attr@[0]@);
    match &attr[0] {
        Token::Group(d, _) => {
            if *d == Delimiter::Invisible {
                Err(DupError::InvalidSyntax { token: 0 })
            } else {
                Ok(true)
            }
        },
        Token::Ident(_) => Ok(false),
        _ => Err(DupError::InvalidSyntax { token: 0 }),
    }
}

fn contains_name(names: &Vec<String>, n: &String) -> (r: bool)
    ensures
        r == string_views(names@).contains(n@),
{
    let mut i: usize = 0;
    while i < names.len()
        invariant
            i <= names.len(),
            forall|k: int| 0 <= k < i ==> names@[k]@ != n@,
        decreases names.len() - i,
    {
        if names[i] == *n {
            assert(string_views(names@)[i as int] == n@);
            return true;
        }
        i += 1;
    }
    assert forall|k: int| 0 <= k < names.len() implies string_views(names@)[k] != n@ by {}
    false
}

fn pairs_contain(ps: &Vec<(String, Vec<Token>)>, n: &String) -> (r: bool)
    ensures
        r == pair_names(raw_group_view(ps@)).contains(n@),
{
    let mut i: usize = 0;
    while i < ps.len()
        invariant
            i <= ps.len(),
            forall|k: int| 0 <= k < i ==> ps@[k].0@ != n@,
        decreases ps.len() - i,
    {
        if ps[i].0 == *n {
            assert(pair_names(raw_group_view(ps@))[i as int] == n@);
            return true;
        }
        i += 1;
    }
    assert forall|k: int| 0 <= k < ps.len() implies pair_names(raw_group_view(ps@))[k] != n@ by {}
    false
}

pub open spec fn raw_outcome(r: Result<Vec<(String, Vec<Token>)>, DupError>) -> Result<
    Seq<(Seq<char>, Seq<Tree>)>,
    Fault,
> {
    match r {
        Ok(g) => Ok(raw_group_view(g@)),
        Err(e) => Err(e@),
    }
}

pub open spec fn canon_view(c: Option<Vec<String>>) -> Option<Seq<Seq<char>>> {
    match c {
        Some(v) => Some(string_views(v@)),
        None => None,
    }
}

/// The names of `canon` that `ps` lacks, in the order of `canon`.
fn find_missing(canon: &Vec<String>, ps: &Vec<(String, Vec<Token>)>) -> (r: Vec<String>)
    ensures
        string_views(r@) == missing_names(string_views(canon@), pair_names(raw_group_view(ps@))),
{
    let ghost c = string_views(canon@);
    let ghost present = pair_names(raw_group_view(ps@));
    let mut r: Vec<String> = Vec::new();
    let mut i: usize = 0;
    assert(string_views(r@) =~= missing_names(c.subrange(0, 0), present));
    while i < canon.len()
        invariant
            i <= canon.len(),
            c == string_views(canon@),
            present == pair_names(raw_group_view(ps@)),
            string_views(r@) == missing_names(c.subrange(0, i as int), present),
        decreases canon.len() - i,
    {
        assert(c.subrange(0, i + 1).subrange(0, i as int) =~= c.subrange(0, i as int));
        assert(c.subrange(0, i + 1)[i as int] == canon@[i as int]@);
        if !pairs_contain(ps, &canon[i]) {
            let ghost before = r@;
            r.push(canon[i].clone());
            assert(string_views(r@) =~= string_views(before).push(canon@[i as int]@));
        }
        i += 1;
    }
    assert(c.subrange(0, canon.len() as int) =~= c);
    r
}

/// Reads verbose group `k` from the top-level token `tree`; `existing` holds
/// the identifiers of the first group, unless this is it.
fn extract_verbose_substitutions(k: usize, tree: &Token, existing: &Option<Vec<String>>) -> (r:
    Result<Vec<(String, Vec<Token>)>, DupError>)
    ensures
        raw_outcome(r) == verbose_group(k as nat, tree@, canon_view(*existing)),
{
    let ghost canon = canon_view(*existing);
    match tree {
        Token::Group(d, ch) => {
            if *d == Delimiter::Invisible {
                return Err(DupError::InvalidSyntax { token: k });
            }
            if ch.len() == 0 {
                return Err(DupError::EmptyGroup { group: k });
            }
            let ghost t = trees_of(ch@);
            assert(tree@ == Tree::Group(*d, t));
            let mut ps: Vec<(String, Vec<Token>)> = Vec::new();
            let mut m: usize = 0;
            assert(raw_group_view(ps@) =~= Seq::<(Seq<char>, Seq<Tree>)>::empty());
            while 2 * m < ch.len()
                invariant
                    2 * m <= ch.len() + 1,
                    ch.len() > 0,
                    t == trees_of(ch@),
                    tree@ == Tree::Group(*d, t),
                    *d != Delimiter::Invisible,
                    canon == canon_view(*existing),
                    scan_pairs(k as nat, t, canon, m as nat) == Ok::<
                        Seq<(Seq<char>, Seq<Tree>)>,
                        Fault,
                    >(raw_group_view(ps@)),
                decreases ch.len() - 2 * m,
            {
                let j = 2 * m;
                let ghost total = ((ch.len() + 1) / 2) as nat;
                assert(m + 1 <= total);
                assert(scan_pairs(k as nat, t, canon, m as nat) is Ok);
                assert(t[j as int] == ch@[j as int]@);
                assert(scan_pairs(k as nat, t, canon, (m + 1) as nat) is Err ==> scan_pairs(k as nat, t, canon, total) == scan_pairs(k as nat, t, canon, (m + 1) as nat)) by {
                    if scan_pairs(k as nat, t, canon, (m + 1) as nat) is Err {
                        lemma_scan_pairs_err(k as nat, t, canon, (m + 1) as nat, total);
                    }
                }
                let name = match &ch[j] {
                    Token::Ident(name) => name,
                    _ => {
                        assert(!(t[j as int] is Ident));
                        assert(scan_pairs(k as nat, t, canon, (m + 1) as nat) == Err::<Seq<(Seq<char>, Seq<Tree>)>, Fault>(Fault::MalformedPair { group: k as nat, token: j as nat }));
                        return Err(DupError::MalformedPair { group: k, token: j });
                    },
                };
                assert(t[j as int] is Ident);
                if j + 1 >= ch.len() {
                    return Err(DupError::MalformedPair { group: k, token: j + 1 });
                }
                assert(t[j + 1] == ch@[j + 1]@);
                let body = match &ch[j + 1] {
                    Token::Group(bd, body) => {
                        if *bd == Delimiter::Invisible {
                            return Err(DupError::MalformedPair { group: k, token: j + 1 });
                        }
                        body
                    },
                    _ => {
                        return Err(DupError::MalformedPair { group: k, token: j + 1 });
                    },
                };
                match existing {
                    Some(idents) => {
                        if !contains_name(idents, name) {
                            return Err(DupError::UnknownIdentifier { group: k, name: name.clone() });
                        }
                    },
                    None => {},
                }
                if pairs_contain(&ps, name) {
                    return Err(DupError::DuplicateIdentifier { group: k, name: name.clone() });
                }
                let ghost before = raw_group_view(ps@);
                let copied = copy_tokens(body);
                ps.push((name.clone(), copied));
                assert(raw_group_view(ps@) =~= before.push((name@, trees_of(body@))));
                m += 1;
            }
            assert(m == (ch.len() + 1) / 2);
            match existing {
                Some(idents) => {
                    let missing = find_missing(idents, &ps);
                    if missing.len() > 0 {
                        return Err(DupError::MissingIdentifiers { group: k, names: missing });
                    }
                },
                None => {},
            }
            Ok(ps)
        },
        _ => Err(DupError::InvalidSyntax { token: k }),
    }
}

pub open spec fn raw_groups_outcome(r: Result<Vec<Vec<(String, Vec<Token>)>>, DupError>) -> Result<
    Seq<Seq<(Seq<char>, Seq<Tree>)>>,
    Fault,
> {
    match r {
        Ok(gs) => Ok(raw_groups_view(gs@)),
        Err(e) => Err(e@),
    }
}

/// Reads a verbose declaration: one group per top-level token.
pub(crate) fn validate_verbose_attr(attr: &Vec<Token>) -> (r: Result<Vec<Vec<(String, Vec<Token>)>>, DupError>)
    ensures
        raw_groups_outcome(r) == parse_verbose(trees_of(attr@)),
{
    if attr.len() == 0 {
        return Err(DupError::InvalidSyntax { token: 0 });
    }
    let ghost t = trees_of(attr@);
    let mut groups: Vec<Vec<(String, Vec<Token>)>> = Vec::new();
    let mut ids: Option<Vec<String>> = None;
    let mut i: usize = 0;
    assert(raw_groups_view(groups@) =~= Seq::<Seq<(Seq<char>, Seq<Tree>)>>::empty());
    while i < attr.len()
        invariant
            i <= attr.len(),
            t == trees_of(attr@),
            scan_verbose(t, i as nat) == Ok::<Seq<Seq<(Seq<char>, Seq<Tree>)>>, Fault>(
                raw_groups_view(groups@),
            ),
            groups.len() == i,
            i == 0 <==> ids is None,
            i > 0 ==> canon_view(ids) == Some(pair_names(raw_groups_view(groups@)[0])),
        decreases attr.len() - i,
    {
        assert(t[i as int] == attr@[i as int]@);
        let g = extract_verbose_substitutions(i, &attr[i], &ids);
        match g {
            Ok(g) => {
                assert(scan_verbose(t, (i + 1) as nat) == Ok::<Seq<Seq<(Seq<char>, Seq<Tree>)>>, Fault>(raw_groups_view(groups@).push(raw_group_view(g@))));
                if i == 0 {
                    let mut names: Vec<String> = Vec::new();
                    let mut j: usize = 0;
                    while j < g.len()
                        invariant
                            j <= g.len(),
                            string_views(names@) == pair_names(raw_group_view(g@)).subrange(0, j as int),
                        decreases g.len() - j,
                    {
                        let ghost before = names@;
                        names.push(g[j].0.clone());
                        assert(string_views(names@) =~= string_views(before).push(g@[j as int].0@));
                        assert(pair_names(raw_group_view(g@)).subrange(0, j + 1) =~= pair_names(raw_group_view(g@)).subrange(0, j as int).push(g@[j as int].0@));
                        j += 1;
                        assert(string_views(names@) =~= pair_names(raw_group_view(g@)).subrange(0, j as int));
                    }
                    assert(pair_names(raw_group_view(g@)).subrange(0, g.len() as int) =~= pair_names(raw_group_view(g@)));
                    ids = Some(names);
                }
                let ghost before = raw_groups_view(groups@);
                let ghost gv = raw_group_view(g@);
                groups.push(g);
                assert(raw_groups_view(groups@) =~= before.push(gv));
            },
            Err(e) => {
                proof {
                    lemma_scan_verbose_err(t, (i + 1) as nat, attr.len() as nat);
                }
                return Err(e);
            },
        }
        i += 1;
    }
    Ok(groups)
}

/// The end of the run of delimited groups that starts at `i`.
pub open spec fn run_end(attr: Seq<Tree>, i: int) -> int
    decreases attr.len() - i,
{
    if 0 <= i < attr.len() && visible_group(attr[i]) {
        run_end(attr, i + 1)
    } else {
        i
    }
}

pub proof fn lemma_run_end(attr: Seq<Tree>, i: int, q: int)
    requires
        0 <= i <= q <= attr.len(),
        forall|x: int| i <= x < q ==> #[trigger] visible_group(attr[x]),
    ensures
        run_end(attr, i) == run_end(attr, q),
    decreases q - i,
{
    if i < q {
        assert(visible_group(attr[i]));
        lemma_run_end(attr, i + 1, q);
    }
}

pub proof fn lemma_run_end_bounds(attr: Seq<Tree>, i: int)
    requires
        0 <= i <= attr.len(),
    ensures
        i <= run_end(attr, i) <= attr.len(),
    decreases attr.len() - i,
{
    if i < attr.len() && visible_group(attr[i]) {
        lemma_run_end_bounds(attr, i + 1);
    }
}

/// The contents of the groups `attr[from..to]`.
pub open spec fn bodies(attr: Seq<Tree>, from: int, to: int) -> Seq<Seq<Tree>> {
    Seq::new((to - from) as nat, |x: int| attr[from + x]->Group_1)
}

/// A short declaration read from token `p` on; `expected` is the number of
/// substitutes of the first identifier, once it is known.
pub open spec fn short_from(attr: Seq<Tree>, p: int, expected: Option<nat>) -> Result<
    Seq<(Seq<char>, Seq<Seq<Tree>>)>,
    Fault,
>
    decreases attr.len() - p,
{
    if p < 0 || p >= attr.len() {
        Ok(seq![])
    } else if !(attr[p] is Ident) {
        Err(Fault::InvalidSyntax { token: p as nat })
    } else {
        let q = run_end(attr, p + 1);
        if q <= p || q > attr.len() {
            Ok(seq![])
        } else if q < attr.len() && attr[q] is Group {
            Err(Fault::InvalidSyntax { token: q as nat })
        } else {
            let c = (q - (p + 1)) as nat;
            if c == 0 {
                Err(Fault::MissingSubstitutes { token: p as nat })
            } else if expected is Some && c != expected->Some_0 {
                Err(
                    Fault::SubstitutionCountMismatch {
                        token: p as nat,
                        expected: expected->Some_0,
                        actual: c,
                    },
                )
            } else {
                match short_from(attr, q, Some(c)) {
                    Err(e) => Err(e),
                    Ok(r) => Ok(seq![(attr[p]->Ident_0, bodies(attr, p + 1, q))] + r),
                }
            }
        }
    }
}

/// The identifiers of a short declaration, each with its substitutes.
pub open spec fn parse_short(attr: Seq<Tree>) -> Result<Seq<(Seq<char>, Seq<Seq<Tree>>)>, Fault> {
    if attr.len() == 0 {
        Err(Fault::InvalidSyntax { token: 0 })
    } else {
        short_from(attr, 0, None)
    }
}

pub open spec fn short_view(r: Seq<(String, Vec<Vec<Token>>)>) -> Seq<(Seq<char>, Seq<Seq<Tree>>)> {
    Seq::new(r.len(), |i: int| (r[i].0@, Seq::new(r[i].1.len() as nat, |x: int| trees_of(r[i].1@[x]@))))
}

pub open spec fn short_prefixed(
    a: Seq<(Seq<char>, Seq<Seq<Tree>>)>,
    r: Result<Seq<(Seq<char>, Seq<Seq<Tree>>)>, Fault>,
) -> Result<Seq<(Seq<char>, Seq<Seq<Tree>>)>, Fault> {
    match r {
        Ok(x) => Ok(a + x),
        Err(e) => Err(e),
    }
}

/// Reads a short declaration: each identifier followed by its substitutes,
/// one per copy. An identifier given twice is kept twice; the rewriter then
/// uses its first entry.
pub(crate) fn validate_short_attr(attr: &Vec<Token>) -> (r: Result<Vec<(String, Vec<Vec<Token>>)>, DupError>)
    ensures
        (match r {
            Ok(v) => Ok(short_view(v@)),
            Err(e) => Err(e@),
        }) == parse_short(trees_of(attr@)),
{
    if attr.len() == 0 {
        return Err(DupError::InvalidSyntax { token: 0 });
    }
    let ghost t = trees_of(attr@);
    let mut result: Vec<(String, Vec<Vec<Token>>)> = Vec::new();
    let mut p: usize = 0;
    assert(short_view(result@) + short_from(t, 0, None)->Ok_0 =~= short_from(t, 0, None)->Ok_0);
    while p < attr.len()
        invariant
            p <= attr.len(),
            t == trees_of(attr@),
            parse_short(t) == short_prefixed(
                short_view(result@),
                short_from(
                    t,
                    p as int,
                    if result.len() == 0 {
                        None
                    } else {
                        Some(result@[0].1.len() as nat)
                    },
                ),
            ),
        decreases attr.len() - p,
    {
        let ghost expected = if result.len() == 0 {
            None
        } else {
            Some(result@[0].1.len() as nat)
        };
        assert(t[p as int] == attr@[p as int]@);
        let name = match &attr[p] {
            Token::Ident(name) => name,
            _ => {
                return Err(DupError::InvalidSyntax { token: p });
            },
        };
        let mut subs: Vec<Vec<Token>> = Vec::new();
        let mut q: usize = p + 1;
        loop
            invariant
                p < q <= attr.len(),
                t == trees_of(attr@),
                forall|x: int| p + 1 <= x < q ==> #[trigger] visible_group(t[x]),
                subs.len() == q - (p + 1),
                forall|x: int| 0 <= x < subs.len() ==> trees_of(#[trigger] subs@[x]@) == t[p + 1 + x]->Group_1,
            ensures
                p < q <= attr.len(),
                forall|x: int| p + 1 <= x < q ==> #[trigger] visible_group(t[x]),
                subs.len() == q - (p + 1),
                forall|x: int| 0 <= x < subs.len() ==> trees_of(#[trigger] subs@[x]@) == t[p + 1 + x]->Group_1,
                q < attr.len() ==> !visible_group(t[q as int]),
            decreases attr.len() - q,
        {
            if q >= attr.len() {
                break;
            }
            assert(t[q as int] == attr@[q as int]@);
            match &attr[q] {
                Token::Group(d, body) => {
                    if *d == Delimiter::Invisible {
                        break;
                    }
                    let copied = copy_tokens(body);
                    subs.push(copied);
                    q += 1;
                },
                _ => {
                    break;
                },
            }
        }
        proof {
            lemma_run_end(t, p + 1, q as int);
        }
        if q < attr.len() {
            assert(t[q as int] == attr@[q as int]@);
            if let Token::Group(_, _) = &attr[q] {
                return Err(DupError::InvalidSyntax { token: q });
            }
        }
        let count = subs.len();
        if count == 0 {
            return Err(DupError::MissingSubstitutes { token: p });
        }
        if result.len() > 0 && result[0].1.len() != count {
            return Err(
                DupError::SubstitutionCountMismatch {
                    token: p,
                    expected: result[0].1.len(),
                    actual: count,
                },
            );
        }
        let ghost before = short_view(result@);
        let ghost entry = (name@, bodies(t, p + 1, q as int));
        let ghost tail = short_from(t, q as int, Some(count as nat));
        result.push((name.clone(), subs));
        assert(short_view(result@) =~= before.push(entry)) by {
            assert forall|x: int| 0 <= x < count implies trees_of(subs@[x]@) == bodies(t, p + 1, q as int)[x] by {}
            assert(short_view(result@)[before.len() as int].1 =~= entry.1);
        }
        proof {
            if let Ok(x) = tail {
                assert(before + (seq![entry] + x) =~= before.push(entry) + x);
            }
        }
        p = q;
    }
    assert(short_view(result@) + Seq::<(Seq<char>, Seq<Seq<Tree>>)>::empty() =~= short_view(result@));
    Ok(result)
}

} // verus!
