use vstd::prelude::*;

pub mod attr;
pub mod error;
pub mod expand;
pub mod laws;
pub mod substitute;
pub mod token;

use crate::attr::{
    identify_syntax, parse_short, parse_verbose, raw_groups_view, short_view, syntax_of,
    validate_short_attr, validate_verbose_attr,
};
use crate::error::{DupError, Fault};
use crate::expand::{
    compile_groups, expand, lemma_short_counts, lemma_substitute_simple, reorder, transpose,
};
use crate::substitute::{outcome, substitute};
use crate::token::{trees_of, Token, Tree};

verus! {

/// The groups that a declaration defines, in order, whichever form it uses.
pub open spec fn declared_groups(attr: Seq<Tree>) -> Result<Seq<Seq<(Seq<char>, Seq<Tree>)>>, Fault> {
    match syntax_of(attr) {
        Err(e) => Err(e),
        Ok(true) => parse_verbose(attr),
        Ok(false) => match parse_short(attr) {
            Err(e) => Err(e),
            Ok(r) => Ok(transpose(r)),
        },
    }
}

/// What a declaration makes of a template: one rewritten copy per group.
pub open spec fn duplicated(attr: Seq<Tree>, item: Seq<Tree>) -> Result<Seq<Tree>, Fault> {
    match declared_groups(attr) {
        Err(e) => Err(e),
        Ok(gs) => Ok(expand(item, gs)),
    }
}

/// Reads the declaration `attr` and duplicates `item` once per group it
/// declares, replacing the group's identifiers in each copy.
pub fn duplicate(attr: Vec<Token>, item: Vec<Token>) -> (r: Result<Vec<Token>, DupError>)
    ensures
        outcome(r) == duplicated(trees_of(attr@), trees_of(item@)),
{
    let ghost a = trees_of(attr@);
    let verbose = match identify_syntax(&attr) {
        Ok(v) => v,
        Err(e) => {
            return Err(e);
        },
    };
    let raw = if verbose {
        match validate_verbose_attr(&attr) {
            Ok(groups) => groups,
            Err(e) => {
                return Err(e);
            },
        }
    } else {
        match validate_short_attr(&attr) {
            Ok(subs) => {
                proof {
                    lemma_short_counts(a, 0, None);
                    assert forall|k: int| 0 <= k < subs.len() implies (#[trigger] subs@[k]).1.len()
                        == subs@[0].1.len() by {
                        assert(short_view(subs@)[k].1.len() == subs@[k].1.len());
                        assert(short_view(subs@)[0].1.len() == subs@[0].1.len());
                    }
                }
                reorder(&subs)
            },
            Err(e) => {
                return Err(e);
            },
        }
    };
    let ghost rgs = raw_groups_view(raw@);
    let groups = compile_groups(raw);
    proof {
        let cgs = groups@.map_values(|g: Vec<(String, crate::substitute::Substitution)>| g@);
        lemma_substitute_simple(trees_of(item@), cgs, rgs);
    }
    substitute(item, groups)
}

} // verus!
