use vstd::prelude::*;

verus! {

/// The delimiter kind of a token group.
#[derive(Clone, Copy, Debug, PartialEq, Eq, Structural)]
pub enum Delimiter {
    Parenthesis,
    Bracket,
    Brace,
    Invisible,
}

/// A token tree: an identifier, a punctuation character, a literal, or a
/// delimited group of tokens.
#[derive(Debug, PartialEq, Eq)]
pub enum Token {
    Ident(String),
    /// A punctuation character, and whether it is joined to the next one.
    Punct(char, bool),
    Literal(String),
    Group(Delimiter, Vec<Token>),
}

/// The mathematical model of a token tree.
pub enum Tree {
    Ident(Seq<char>),
    Punct(char, bool),
    Literal(Seq<char>),
    Group(Delimiter, Seq<Tree>),
}

pub open spec fn tree_of(t: Token) -> Tree
    decreases t,
{
    match t {
        Token::Ident(s) => Tree::Ident(s@),
        Token::Punct(c, j) => Tree::Punct(c, j),
        Token::Literal(s) => Tree::Literal(s@),
        Token::Group(d, ch) => Tree::Group(d, trees_of(ch@)),
    }
}

pub open spec fn trees_of(s: Seq<Token>) -> Seq<Tree>
    decreases s,
{
    Seq::new(s.len(), |i: int| if 0 <= i < s.len() { tree_of(s[i]) } else { Tree::Punct(' ', false) })
}

impl View for Token {
    type V = Tree;

    open spec fn view(&self) -> Tree {
        tree_of(*self)
    }
}

/// Index of the first name in `names` equal to `n`, or -1 when there is none.
pub open spec fn first_match(names: Seq<Seq<char>>, n: Seq<char>) -> int
    decreases names.len(),
{
    if names.len() == 0 {
        -1
    } else if names[0] == n {
        0
    } else {
        let r = first_match(names.subrange(1, names.len() as int), n);
        if r < 0 {
            -1
        } else {
            r + 1
        }
    }
}

pub proof fn lemma_first_match(names: Seq<Seq<char>>, n: Seq<char>, j: int)
    requires
        0 <= j <= names.len(),
        forall|k: int| 0 <= k < j ==> names[k] != n,
    ensures
        j == names.len() ==> first_match(names, n) == -1,
        j < names.len() && names[j] == n ==> first_match(names, n) == j,
    decreases j,
{
    if names.len() > 0 && j > 0 {
        let tail = names.subrange(1, names.len() as int);
        assert forall|k: int| 0 <= k < j - 1 implies tail[k] != n by {
            assert(tail[k] == names[k + 1]);
        }
        lemma_first_match(tail, n, j - 1);
    }
}

/// A first match, when there is one, names an index that holds `n`.
pub proof fn lemma_first_match_found(names: Seq<Seq<char>>, n: Seq<char>)
    ensures
        -1 <= first_match(names, n) < names.len(),
        first_match(names, n) >= 0 ==> names[first_match(names, n)] == n,
        first_match(names, n) < 0 ==> !names.contains(n),
    decreases names.len(),
{
    if names.len() > 0 {
        let tail = names.subrange(1, names.len() as int);
        lemma_first_match_found(tail, n);
        if first_match(names, n) < 0 {
            assert forall|k: int| 0 <= k < names.len() implies names[k] != n by {
                if k > 0 {
                    assert(tail[k - 1] == names[k]);
                }
            }
        }
    }
}

/// The names of a list of named values.
pub open spec fn string_views(v: Seq<String>) -> Seq<Seq<char>> {
    Seq::new(v.len(), |i: int| v[i]@)
}

/// An exact copy of a token tree.
pub fn copy_token(t: &Token) -> (r: Token)
    ensures
        r@ == t@,
    decreases t,
{
    match t {
        Token::Ident(s) => Token::Ident(s.clone()),
        Token::Punct(c, j) => Token::Punct(*c, *j),
        Token::Literal(s) => Token::Literal(s.clone()),
        Token::Group(d, ch) => {
            let c = copy_tokens(ch);
            Token::Group(*d, c)
        },
    }
}

/// An exact copy of a token sequence.
pub fn copy_tokens(v: &Vec<Token>) -> (r: Vec<Token>)
    ensures
        trees_of(r@) == trees_of(v@),
    decreases v,
{
    let mut r: Vec<Token> = Vec::new();
    let mut i: usize = 0;
    while i < v.len()
        invariant
            i <= v.len(),
            trees_of(r@) == trees_of(v@.subrange(0, i as int)),
        decreases v.len() - i,
    {
        let t = copy_token(&v[i]);
        append_token(&mut r, t);
        i += 1;
        assert(v@.subrange(0, i as int) == v@.subrange(0, i - 1).push(v@[i - 1]));
    }
    assert(v@.subrange(0, v.len() as int) == v@);
    r
}

/// Pushes a token, extending the model by its tree.
pub fn append_token(r: &mut Vec<Token>, t: Token)
    ensures
        trees_of(final(r)@) == trees_of(old(r)@).push(t@),
{
    r.push(t);
    assert(trees_of(final(r)@) =~= trees_of(old(r)@).push(t@));
}

/// Appends a copy of every token of `v` to `r`.
pub fn append_copies(r: &mut Vec<Token>, v: &Vec<Token>)
    ensures
        trees_of(final(r)@) == trees_of(old(r)@) + trees_of(v@),
{
    let ghost start = trees_of(r@);
    let mut i: usize = 0;
    while i < v.len()
        invariant
            i <= v.len(),
            trees_of(r@) == start + trees_of(v@.subrange(0, i as int)),
        decreases v.len() - i,
    {
        let t = copy_token(&v[i]);
        append_token(r, t);
        i += 1;
        assert(trees_of(v@.subrange(0, i as int)) =~= trees_of(v@.subrange(0, i - 1)).push(v@[i - 1]@));
    }
    assert(v@.subrange(0, v.len() as int) == v@);
}

} // verus!
