//! Operands: the classification of each raw argument by its syntax.

use vstd::prelude::*;
use crate::error::AsmError;
use crate::lexer::{Token, TokenView};
use crate::number::{decimal_digits, hex_literal, read_numeral, to_decimal};
use crate::text::{chars_of, string_of};

verus! {

/// What an operand is.
#[derive(Debug, Clone, Copy, PartialEq, Eq, Structural)]
pub enum OperandKind {
    /// A number, written in hexadecimal.
    Literal,
    /// A register, written `[name]`.
    Register,
    /// A place relative to the stack, written `(expr)`.
    StackOffset,
    /// A place relative to the heap, written `{expr}`.
    HeapOffset,
    /// The definition of a label, written `:name`.
    LabelDef,
    /// A jump to a label, written `;name`.
    JumpRef,
}

/// One operand: its kind and its payload. The payload of a literal is the
/// decimal string of its value; any other payload is the argument's text
/// without its delimiters.
#[derive(Debug, Clone, PartialEq, Eq)]
pub struct Operand {
    pub payload: String,
    pub kind: OperandKind,
}

/// An operand as plain text.
pub struct OperandView {
    pub payload: Seq<char>,
    pub kind: OperandKind,
}

impl View for Operand {
    type V = OperandView;

    open spec fn view(&self) -> OperandView {
        OperandView { payload: self.payload@, kind: self.kind }
    }
}

impl DeepView for Operand {
    type V = OperandView;

    open spec fn deep_view(&self) -> OperandView {
        self@
    }
}

/// One instruction: its name and its operands.
#[derive(Debug, Clone, PartialEq, Eq)]
pub struct Instruction {
    pub mnemonic: String,
    pub operands: Vec<Operand>,
}

/// An instruction as plain text.
pub struct InstructionView {
    pub mnemonic: Seq<char>,
    pub operands: Seq<OperandView>,
}

impl View for Instruction {
    type V = InstructionView;

    open spec fn view(&self) -> InstructionView {
        InstructionView { mnemonic: self.mnemonic@, operands: self.operands.deep_view() }
    }
}

impl DeepView for Instruction {
    type V = InstructionView;

    open spec fn deep_view(&self) -> InstructionView {
        self@
    }
}

/// `arg` starts with `open` and ends with `close`, which are two characters
/// of it.
pub open spec fn enclosed(arg: Seq<char>, open: char, close: char) -> bool {
    arg.len() >= 2 && arg.first() == open && arg.last() == close
}

/// `arg` without its first and its last character.
pub open spec fn inside(arg: Seq<char>) -> Seq<char> {
    arg.subrange(1, arg.len() - 1)
}

/// The operand that a raw argument stands for. The first rule that fits
/// decides: brackets, parentheses, braces, a leading `:`, a leading `;`;
/// anything else has to be a hexadecimal literal.
pub open spec fn operand_of(arg: Seq<char>) -> Result<OperandView, AsmError> {
    if enclosed(arg, '[', ']') {
        Ok(OperandView { payload: inside(arg), kind: OperandKind::Register })
    } else if enclosed(arg, '(', ')') {
        Ok(OperandView { payload: inside(arg), kind: OperandKind::StackOffset })
    } else if enclosed(arg, '{', '}') {
        Ok(OperandView { payload: inside(arg), kind: OperandKind::HeapOffset })
    } else if arg.len() > 0 && arg[0] == ':' {
        Ok(OperandView { payload: arg.drop_first(), kind: OperandKind::LabelDef })
    } else if arg.len() > 0 && arg[0] == ';' {
        Ok(OperandView { payload: arg.drop_first(), kind: OperandKind::JumpRef })
    } else {
        match hex_literal(arg) {
            Some(value) => Ok(
                OperandView { payload: decimal_digits(value as nat), kind: OperandKind::Literal },
            ),
            None => Err(AsmError::MalformedLiteral),
        }
    }
}

/// The operands of a list of raw arguments, where each of them stands for one.
pub open spec fn operands_of(args: Seq<Seq<char>>) -> Result<Seq<OperandView>, AsmError> {
    if forall|i: int| 0 <= i < args.len() ==> (#[trigger] operand_of(args[i])) is Ok {
        Ok(Seq::new(args.len(), |i: int| operand_of(args[i]).unwrap()))
    } else {
        Err(AsmError::MalformedLiteral)
    }
}

/// The instruction of a token: the same name, each argument classified.
pub open spec fn instruction_of(token: TokenView) -> Result<InstructionView, AsmError> {
    match operands_of(token.raw_args) {
        Ok(operands) => Ok(InstructionView { mnemonic: token.mnemonic, operands }),
        Err(e) => Err(e),
    }
}

/// The instructions of a list of tokens, where each token has one.
pub open spec fn instructions_of(tokens: Seq<TokenView>) -> Result<Seq<InstructionView>, AsmError> {
    if forall|i: int| 0 <= i < tokens.len() ==> (#[trigger] instruction_of(tokens[i])) is Ok {
        Ok(Seq::new(tokens.len(), |i: int| instruction_of(tokens[i]).unwrap()))
    } else {
        Err(AsmError::MalformedLiteral)
    }
}

/// Classifies one raw argument.
pub fn classify(arg: &str) -> (r: Result<Operand, AsmError>)
    ensures
        match r {
            Ok(operand) => operand_of(arg@) == Ok::<OperandView, AsmError>(operand@),
            Err(e) => operand_of(arg@) == Err::<OperandView, AsmError>(e),
        },
{
    let chars = chars_of(arg);
    let n = chars.len();
    if n >= 2 && chars[0] == '[' && chars[n - 1] == ']' {
        Ok(Operand { payload: string_of(&chars, 1, n - 1), kind: OperandKind::Register })
    } else if n >= 2 && chars[0] == '(' && chars[n - 1] == ')' {
        Ok(Operand { payload: string_of(&chars, 1, n - 1), kind: OperandKind::StackOffset })
    } else if n >= 2 && chars[0] == '{' && chars[n - 1] == '}' {
        Ok(Operand { payload: string_of(&chars, 1, n - 1), kind: OperandKind::HeapOffset })
    } else if n > 0 && chars[0] == ':' {
        assert(chars@.subrange(1, n as int) == arg@.drop_first());
        Ok(Operand { payload: string_of(&chars, 1, n), kind: OperandKind::LabelDef })
    } else if n > 0 && chars[0] == ';' {
        assert(chars@.subrange(1, n as int) == arg@.drop_first());
        Ok(Operand { payload: string_of(&chars, 1, n), kind: OperandKind::JumpRef })
    } else {
        assert(chars@.skip(0) == chars@);
        match read_numeral(&chars, 0, 16) {
            Some(value) => Ok(Operand { payload: to_decimal(value), kind: OperandKind::Literal }),
            None => Err(AsmError::MalformedLiteral),
        }
    }
}

/// Classifies each argument of a token.
pub fn parse_line(input: Token) -> (r: Result<Instruction, AsmError>)
    ensures
        match r {
            Ok(instruction) => instruction_of(input@) == Ok::<InstructionView, AsmError>(
                instruction@,
            ),
            Err(e) => instruction_of(input@) == Err::<InstructionView, AsmError>(e),
        },
{
    let mut operands: Vec<Operand> = Vec::new();
    let mut i: usize = 0;
    while i < input.raw_args.len()
        invariant
            i <= input.raw_args.len(),
            operands.len() == i,
            forall|j: int|
                0 <= j < i ==> (#[trigger] operand_of(input@.raw_args[j])) == Ok::<
                    OperandView,
                    AsmError,
                >(operands[j]@),
        decreases input.raw_args.len() - i,
    {
        match classify(input.raw_args[i].as_str()) {
            Ok(operand) => {
                operands.push(operand);
            },
            Err(e) => {
                assert(operand_of(input@.raw_args[i as int]) is Err);
                return Err(e);
            },
        }
        i += 1;
    }
    assert(operands.deep_view() == operands_of(input@.raw_args).unwrap());
    Ok(Instruction { mnemonic: input.mnemonic, operands })
}

} // verus!
