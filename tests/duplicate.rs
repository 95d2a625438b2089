use duplicate::duplicate;
use duplicate::error::DupError;
use duplicate::substitute::{split_arguments, substitute, Substitution};
use duplicate::token::{Delimiter, Token};

fn id(s: &str) -> Token {
    Token::Ident(s.to_string())
}

fn punct(c: char) -> Token {
    Token::Punct(c, false)
}

fn lit(s: &str) -> Token {
    Token::Literal(s.to_string())
}

fn paren(v: Vec<Token>) -> Token {
    Token::Group(Delimiter::Parenthesis, v)
}

fn bracket(v: Vec<Token>) -> Token {
    Token::Group(Delimiter::Bracket, v)
}

fn brace(v: Vec<Token>) -> Token {
    Token::Group(Delimiter::Brace, v)
}

/// `f(n) => (n + n)`
fn doubling() -> Substitution {
    let body = vec![paren(vec![id("n"), punct('+'), id("n")])];
    Substitution::new(&vec!["n".to_string()], &body).unwrap()
}

#[test]
fn template_without_identifiers_is_copied_per_group() {
    let attr = vec![id("a"), bracket(vec![lit("1")]), bracket(vec![lit("2")]), bracket(vec![lit("3")])];
    let item = vec![id("x"), punct('+'), lit("1")];
    let out = duplicate(attr, item).unwrap();
    let mut expected = Vec::new();
    for _ in 0..3 {
        expected.push(id("x"));
        expected.push(punct('+'));
        expected.push(lit("1"));
    }
    assert_eq!(out, expected);
}

#[test]
fn short_form_gives_one_copy_per_substitute_in_order() {
    let attr = vec![id("a"), bracket(vec![id("X")]), bracket(vec![id("Y")]), bracket(vec![id("Z")])];
    let item = vec![id("let"), id("a"), punct(';')];
    let out = duplicate(attr, item).unwrap();
    let expected = vec![
        id("let"), id("X"), punct(';'),
        id("let"), id("Y"), punct(';'),
        id("let"), id("Z"), punct(';'),
    ];
    assert_eq!(out, expected);
}

#[test]
fn verbose_and_short_forms_agree() {
    let verbose = vec![
        bracket(vec![id("a"), bracket(vec![id("X")]), id("b"), bracket(vec![id("P")])]),
        bracket(vec![id("a"), bracket(vec![id("Y")]), id("b"), bracket(vec![id("Q")])]),
    ];
    let short = vec![
        id("a"), bracket(vec![id("X")]), bracket(vec![id("Y")]),
        id("b"), bracket(vec![id("P")]), bracket(vec![id("Q")]),
    ];
    let item = || vec![id("a"), brace(vec![id("b"), punct(',')])];
    let from_verbose = duplicate(verbose, item()).unwrap();
    let from_short = duplicate(short, item()).unwrap();
    assert_eq!(from_verbose, from_short);
    assert_eq!(
        from_short,
        vec![
            id("X"), brace(vec![id("P"), punct(',')]),
            id("Y"), brace(vec![id("Q"), punct(',')]),
        ]
    );
}

#[test]
fn argument_is_substituted() {
    let group = vec![("f".to_string(), doubling())];
    let item = vec![id("f"), paren(vec![lit("5")])];
    let out = substitute(item, vec![group]).unwrap();
    assert_eq!(out, vec![paren(vec![lit("5"), punct('+'), lit("5")])]);
}

#[test]
fn nested_call_in_argument_is_not_expanded() {
    let group = vec![("f".to_string(), doubling())];
    let item = vec![id("f"), paren(vec![id("f"), paren(vec![lit("1")])])];
    let out = substitute(item, vec![group]).unwrap();
    let inner = || vec![id("f"), paren(vec![lit("1")])];
    let mut expected_inner = inner();
    expected_inner.push(punct('+'));
    expected_inner.extend(inner());
    assert_eq!(out, vec![paren(expected_inner)]);
}

#[test]
fn arity_mismatch_fails() {
    let group = vec![("f".to_string(), doubling())];
    let item = vec![id("f"), paren(vec![lit("1"), punct(','), lit("2")])];
    let out = substitute(item, vec![group]);
    assert_eq!(
        out,
        Err(DupError::ArgumentCountMismatch { name: "f".to_string(), expected: 1, actual: 2 })
    );
}

#[test]
fn missing_argument_list_fails() {
    let group = vec![("f".to_string(), doubling())];
    let item = vec![id("f"), punct(';')];
    let out = substitute(item, vec![group]);
    assert_eq!(out, Err(DupError::MissingArgumentList { name: "f".to_string() }));
}

#[test]
fn missing_identifier_is_reported() {
    let attr = vec![
        bracket(vec![id("a"), bracket(vec![id("X")]), id("b"), bracket(vec![id("P")])]),
        bracket(vec![id("a"), bracket(vec![id("Y")])]),
    ];
    let out = duplicate(attr, vec![id("a")]);
    assert_eq!(
        out,
        Err(DupError::MissingIdentifiers { group: 1, names: vec!["b".to_string()] })
    );
}

#[test]
fn untouched_structure_is_kept() {
    let attr = vec![id("a"), bracket(vec![lit("7")])];
    let item = vec![
        brace(vec![id("x"), punct(';'), bracket(vec![lit("1")])]),
        paren(vec![id("a")]),
        lit("\"s\""),
    ];
    let out = duplicate(attr, item).unwrap();
    assert_eq!(
        out,
        vec![
            brace(vec![id("x"), punct(';'), bracket(vec![lit("1")])]),
            paren(vec![lit("7")]),
            lit("\"s\""),
        ]
    );
}

#[test]
fn invisible_group_keeps_its_delimiter() {
    let attr = vec![id("a"), bracket(vec![lit("7")])];
    let item = vec![Token::Group(Delimiter::Invisible, vec![id("a")])];
    let out = duplicate(attr, item).unwrap();
    assert_eq!(out, vec![Token::Group(Delimiter::Invisible, vec![lit("7")])]);
}

#[test]
fn empty_declaration_is_invalid() {
    assert_eq!(duplicate(vec![], vec![id("a")]), Err(DupError::InvalidSyntax { token: 0 }));
}

#[test]
fn literal_first_is_invalid() {
    let attr = vec![lit("1"), bracket(vec![])];
    assert_eq!(duplicate(attr, vec![]), Err(DupError::InvalidSyntax { token: 0 }));
}

#[test]
fn invisible_first_group_is_invalid() {
    let attr = vec![Token::Group(Delimiter::Invisible, vec![id("a"), bracket(vec![])])];
    assert_eq!(duplicate(attr, vec![]), Err(DupError::InvalidSyntax { token: 0 }));
}

#[test]
fn empty_verbose_group_fails() {
    let attr = vec![bracket(vec![id("a"), bracket(vec![lit("1")])]), bracket(vec![])];
    assert_eq!(duplicate(attr, vec![]), Err(DupError::EmptyGroup { group: 1 }));
}

#[test]
fn verbose_pair_without_identifier_fails() {
    let attr = vec![bracket(vec![lit("1"), bracket(vec![])])];
    assert_eq!(duplicate(attr, vec![]), Err(DupError::MalformedPair { group: 0, token: 0 }));
}

#[test]
fn verbose_pair_without_substitute_fails() {
    let attr = vec![bracket(vec![id("a")])];
    assert_eq!(duplicate(attr, vec![]), Err(DupError::MalformedPair { group: 0, token: 1 }));
    let attr = vec![bracket(vec![id("a"), id("b")])];
    assert_eq!(duplicate(attr, vec![]), Err(DupError::MalformedPair { group: 0, token: 1 }));
}

#[test]
fn verbose_unknown_identifier_fails() {
    let attr = vec![
        bracket(vec![id("a"), bracket(vec![lit("1")])]),
        bracket(vec![id("c"), bracket(vec![lit("2")])]),
    ];
    assert_eq!(
        duplicate(attr, vec![]),
        Err(DupError::UnknownIdentifier { group: 1, name: "c".to_string() })
    );
}

#[test]
fn verbose_duplicate_identifier_fails() {
    let attr = vec![bracket(vec![id("a"), bracket(vec![lit("1")]), id("a"), bracket(vec![lit("2")])])];
    assert_eq!(
        duplicate(attr, vec![]),
        Err(DupError::DuplicateIdentifier { group: 0, name: "a".to_string() })
    );
}

#[test]
fn short_identifier_without_substitute_fails() {
    let attr = vec![id("a"), id("b"), bracket(vec![lit("1")])];
    assert_eq!(duplicate(attr, vec![]), Err(DupError::MissingSubstitutes { token: 0 }));
}

#[test]
fn short_substitute_count_mismatch_fails() {
    let attr = vec![
        id("a"), bracket(vec![lit("1")]), bracket(vec![lit("2")]),
        id("b"), bracket(vec![lit("3")]),
    ];
    assert_eq!(
        duplicate(attr, vec![]),
        Err(DupError::SubstitutionCountMismatch { token: 3, expected: 2, actual: 1 })
    );
}

#[test]
fn short_invisible_substitute_fails() {
    let attr = vec![id("a"), bracket(vec![lit("1")]), Token::Group(Delimiter::Invisible, vec![])];
    assert_eq!(duplicate(attr, vec![]), Err(DupError::InvalidSyntax { token: 2 }));
}

#[test]
fn short_non_identifier_fails() {
    let attr = vec![id("a"), bracket(vec![lit("1")]), lit("2")];
    assert_eq!(duplicate(attr, vec![]), Err(DupError::InvalidSyntax { token: 2 }));
}

#[test]
fn arguments_split_at_commas() {
    let list = vec![lit("1"), punct(','), punct(','), lit("2"), paren(vec![lit("3"), punct(',')]), punct(',')];
    let args = split_arguments(&list);
    assert_eq!(
        args,
        vec![vec![lit("1")], vec![], vec![lit("2"), paren(vec![lit("3"), punct(',')])], vec![]]
    );
    assert_eq!(split_arguments(&vec![]), vec![Vec::<Token>::new()]);
}

#[test]
fn simple_substitution_applies_verbatim() {
    let sub = Substitution::new_simple(vec![id("x"), punct('*'), lit("2")]);
    assert_eq!(sub.apply_simple(), Ok(vec![id("x"), punct('*'), lit("2")]));
    assert_eq!(sub.apply(&vec![vec![lit("1")]]), Err(()));
}

#[test]
fn parameters_inside_nested_groups_are_replaced() {
    let body = vec![id("m"), bracket(vec![id("n"), punct(';'), brace(vec![id("m"), id("n")])])];
    let params = vec!["m".to_string(), "n".to_string()];
    let sub = Substitution::new(&params, &body).unwrap();
    assert_eq!(sub.arg_count, 2);
    let out = sub.apply(&vec![vec![lit("1")], vec![id("k"), lit("2")]]).unwrap();
    assert_eq!(
        out,
        vec![
            lit("1"),
            bracket(vec![id("k"), lit("2"), punct(';'), brace(vec![lit("1"), id("k"), lit("2")])]),
        ]
    );
    assert_eq!(sub.apply(&vec![vec![lit("1")]]), Err(()));
}

#[test]
fn literal_runs_around_groups_keep_order() {
    let body = vec![lit("a"), paren(vec![id("n")]), lit("b")];
    let sub = Substitution::new(&vec!["n".to_string()], &body).unwrap();
    let out = sub.apply(&vec![vec![lit("z")]]).unwrap();
    assert_eq!(out, vec![lit("a"), paren(vec![lit("z")]), lit("b")]);
}

#[test]
fn groups_are_rewritten_in_declaration_order() {
    let g1 = vec![("f".to_string(), doubling())];
    let g2 = vec![("f".to_string(), Substitution::new_simple(vec![lit("0")]))];
    let item = vec![id("f"), paren(vec![lit("4")])];
    let out = substitute(item, vec![g1, g2]).unwrap();
    assert_eq!(
        out,
        vec![paren(vec![lit("4"), punct('+'), lit("4")]), lit("0"), paren(vec![lit("4")])]
    );
}

#[test]
fn empty_argument_list_gives_one_empty_argument() {
    let group = vec![("f".to_string(), doubling())];
    let item = vec![id("f"), paren(vec![])];
    let out = substitute(item, vec![group]).unwrap();
    assert_eq!(out, vec![paren(vec![punct('+')])]);
}
