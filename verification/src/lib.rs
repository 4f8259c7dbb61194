//! A two-pass assembler for a small register/stack/heap virtual machine.
//!
//! A source text has one instruction on each line. The lexer cuts it into
//! tokens, the parser classifies each argument and replaces the names of
//! registers and labels by their indexes, and the encoder writes the opcodes
//! and operands as tagged values into a bytecode stream of the `cbvm` crate.

use cbvm::builder::bytes::ByteStream;
use vstd::prelude::*;

pub mod encoder;
pub mod error;
pub mod laws;
pub mod lexer;
pub mod number;
pub mod operand;
pub mod parser;
pub mod resolver;
pub mod text;
pub mod vm;

verus! {

/// What a source text was assembled to.
#[derive(Debug)]
pub struct Assembly {
    /// The stream of the emitted values.
    pub bytecode: ByteStream,
    /// The mnemonics that name no operation, in source order. Their lines
    /// added nothing to the stream.
    pub unrecognized: Vec<String>,
}

/// The values that a source text assembles to, or the reason why it has none.
/// A malformed literal anywhere in the text comes before an operand without a
/// value.
pub open spec fn assembled(source: Seq<char>) -> Result<Seq<vm::TaggedValue>, error::AsmError> {
    match parser::parsed(lexer::tokens_of(source)) {
        Ok(program) => encoder::encoded(program),
        Err(e) => Err(e),
    }
}

/// The mnemonics of a source text that name no operation, in source order.
pub open spec fn reported(source: Seq<char>) -> Seq<Seq<char>> {
    match parser::parsed(lexer::tokens_of(source)) {
        Ok(program) => encoder::unrecognized(program),
        Err(_) => seq![],
    }
}

/// Assembles a source text into a bytecode stream. A line with a mnemonic
/// that names no operation adds nothing to the stream; its mnemonic is
/// handed out beside the stream.
pub fn build(code: String) -> (r: Result<Assembly, error::AsmError>)
    ensures
        match r {
            Ok(assembly) => assembled(code@) matches Ok(values) && vm::stream_values(
                assembly.bytecode,
            ) == vm::wire(values) && assembly.unrecognized.deep_view() == reported(code@),
            Err(e) => assembled(code@) == Err::<Seq<vm::TaggedValue>, error::AsmError>(e),
        },
{
    let lexed = lexer::lex(code);
    let parsed = match parser::parse(lexed) {
        Ok(program) => program,
        Err(e) => {
            return Err(e);
        },
    };
    let mut compiler = encoder::Compiler::new();
    match compiler.compile(parsed) {
        Ok(unrecognized) => {
            assert(Seq::<(u8, u64)>::empty() + vm::wire(assembled(code@).unwrap()) == vm::wire(
                assembled(code@).unwrap(),
            ));
            Ok(Assembly { bytecode: compiler.bytecode, unrecognized })
        },
        Err(e) => Err(e),
    }
}

} // verus!
