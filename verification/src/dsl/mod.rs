//! Front end for `.cru` scenario files: lexer, parser, AST, source spans, and
//! diagnostics.

pub mod admission;
pub mod ast;
pub mod diagnostics;
pub mod grammar;
pub mod laws;
pub mod lexer;
pub mod lower;
pub mod meaning;
pub mod parser;
pub mod registry;
pub mod schemas;
pub mod span;
pub mod written;

use vstd::prelude::*;

use crate::plan::{Plan, PlanModel};
use diagnostics::{Diag, DiagModel};
use lexer::{lex, lexed, LexErrorModel};
use lower::{lower, lowered};
use parser::{parse, parsed};
use registry::{Registry, RegistryModel};

verus! {

/// The diagnostics that say what the lexer did.
pub open spec fn lex_diags(errors: Seq<LexErrorModel>) -> Seq<DiagModel> {
    Seq::new(errors.len(), |i: int| DiagModel::of(errors[i].span, errors[i].message))
}

/// The plan a source compiles to, or everything that the first stage to find
/// something wrong with it found.
pub open spec fn compiled(src: Seq<char>, registry: RegistryModel) -> Result<
    PlanModel,
    Seq<DiagModel>,
> {
    let errors = lexed(src).errors;
    if errors.len() > 0 {
        Err(lex_diags(errors))
    } else {
        match parsed(lexed(src).tokens) {
            Err(diags) => Err(diags),
            Ok(file) => lowered(file, registry),
        }
    }
}

/// Turn `.cru` source into the plan a campaign runs, checking it against the
/// plugins in `registry` on the way.
///
/// # Errors
/// Returns everything wrong with the source, from whichever stage first found
/// something wrong with it.
pub fn compile(src: &str, registry: &Registry) -> (r: Result<Plan, Vec<Diag>>)
    ensures
        match r {
            Ok(plan) => compiled(src@, registry.deep_view()) == Ok::<PlanModel, Seq<DiagModel>>(
                plan.deep_view(),
            ),
            Err(diags) => compiled(src@, registry.deep_view()) == Err::<PlanModel, Seq<DiagModel>>(
                diags.deep_view(),
            ),
        },
{
    let (tokens, errors) = lex(src);
    if errors.len() > 0 {
        let mut diags: Vec<Diag> = Vec::new();
        for i in 0..errors.len()
            invariant
                diags@.len() == i,
                forall|j: int|
                    0 <= j < i ==> (#[trigger] diags@[j]).deep_view() == DiagModel::of(
                        errors@[j].span,
                        errors@[j].message@,
                    ),
        {
            diags.push(Diag::new(errors[i].span, errors[i].message.as_str()));
        }
        assert(diags.deep_view() =~= lex_diags(errors.deep_view()));
        return Err(diags);
    }
    match parse(tokens) {
        Ok(file) => lower(&file, registry),
        Err(diags) => Err(diags),
    }
}

} // verus!
