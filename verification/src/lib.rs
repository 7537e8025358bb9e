//! A compiler for declarative finite-state-machine specifications.
//!
//! A specification names a state union, an action union, and a list of
//! state blocks, each declaring which actions are accepted in that state
//! and which target states a handler may legally produce.  The compiler
//! parses the specification text, rejects ambiguous declarations, collects
//! the closed state and action variant sets, and builds a dispatch table.
//! The table's `advance` routine routes an incoming action to the host's
//! handler and checks, at the moment of transition, that the handler's
//! result belongs to the declared allowed-target set.

use vstd::prelude::*;

pub mod ast;
pub mod idents;
pub mod machine;
pub mod parser;
pub mod table;
pub mod validate;

verus! {

/// Marker capability: a type declares itself usable as an action payload.
pub trait Action {}

/// Transition capability: a state payload consumes itself and an action
/// payload and produces the next full machine value.
pub trait State<W, A: Action> {
    fn next(self, action: A) -> W;
}

/// Why compilation of a specification text failed.
#[derive(Debug)]
pub enum CompileError {
    /// The text does not conform to the grammar.
    Syntax(parser::SyntaxError),
    /// One state declares the same action in two of its edges.
    DuplicateAction(validate::DuplicateActionError),
}

/// Compiles a specification text into its dispatch table: parse, validate,
/// collect the closed variant sets, and build the dispatch rows.
/// All-or-nothing: a syntax error or a duplicate action declaration aborts
/// the compilation and no partial artifact is produced.
pub fn state_machine(text: &[u8]) -> (r: Result<table::DispatchTable, CompileError>)
    ensures
        match r {
            Result::Ok(t) => match parser::spec_parse(text@) {
                Some(sp) => ast::all_consistent(sp.blocks) && t@ == table::table_of(sp),
                None => false,
            },
            Result::Err(CompileError::Syntax(e)) => parser::spec_parse(text@) is None && e.pos
                <= text.len(),
            Result::Err(CompileError::DuplicateAction(e)) => match parser::spec_parse(text@) {
                Some(sp) => !ast::all_consistent(sp.blocks) && match validate::find_inconsistent(
                    sp.blocks, sp.blocks.len() as int) {
                    Some(i) => e.state@ == sp.blocks[i].state,
                    None => false,
                },
                None => false,
            },
        },
{
    match parser::parse_specification(text) {
        Err(e) => Err(CompileError::Syntax(e)),
        Ok(sp) => match validate::validate_specification(&sp) {
            Err(e) => Err(CompileError::DuplicateAction(e)),
            Ok(_) => Ok(table::build_table(&sp)),
        },
    }
}

} // verus!
