//! The parser: each token classified, then the whole program resolved.

use vstd::prelude::*;
use crate::error::AsmError;
use crate::lexer::{Token, TokenView};
use crate::operand::{instruction_of, instructions_of, parse_line, Instruction, InstructionView};
use crate::resolver::{resolve, resolved};

verus! {

/// The program of a list of tokens: its instructions, resolved. It has none
/// where an argument of any token, whatever the token's mnemonic, is a bare
/// text that is no hexadecimal literal.
pub open spec fn parsed(tokens: Seq<TokenView>) -> Result<Seq<InstructionView>, AsmError> {
    match instructions_of(tokens) {
        Ok(program) => Ok(resolved(program)),
        Err(e) => Err(e),
    }
}

/// Classifies the arguments of every token, then resolves the names of the
/// whole program.
pub fn parse(input: Vec<Token>) -> (r: Result<Vec<Instruction>, AsmError>)
    ensures
        match r {
            Ok(program) => parsed(input.deep_view()) == Ok::<Seq<InstructionView>, AsmError>(
                program.deep_view(),
            ),
            Err(e) => parsed(input.deep_view()) == Err::<Seq<InstructionView>, AsmError>(e),
        },
{
    let ghost tokens = input.deep_view();
    let mut branches: Vec<Instruction> = Vec::new();
    for token in it: input
        invariant
            it.seq() == input@,
            tokens == input.deep_view(),
            branches.len() == it.index(),
            forall|k: int|
                0 <= k < it.index() ==> (#[trigger] instruction_of(tokens[k])) == Ok::<
                    InstructionView,
                    AsmError,
                >(branches[k]@),
    {
        assert(token@ == tokens[it.index()]);
        match parse_line(token) {
            Ok(instruction) => {
                branches.push(instruction);
            },
            Err(e) => {
                assert(instruction_of(tokens[it.index()]) is Err);
                return Err(e);
            },
        }
    }
    assert(branches.deep_view() == instructions_of(tokens).unwrap());
    resolve(&mut branches);
    Ok(branches)
}

} // verus!
