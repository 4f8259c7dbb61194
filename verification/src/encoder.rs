//! The encoder: from resolved instructions to the tagged values of the
//! bytecode stream.

use cbvm::builder::bytes::ByteStream;
use vstd::prelude::*;
use crate::error::AsmError;
use crate::number::{decimal_number, parse_decimal};
use crate::operand::{Instruction, InstructionView, OperandKind, OperandView};
use crate::text::{chars_of, spells};
use crate::vm::{emit, new_stream, opcode_number, stream_values, wire, Opcode, TaggedValue, ValueKind};

verus! {

impl OperandKind {
    /// The kind of the value that an operand of this kind becomes.
    pub open spec fn value_kind(self) -> ValueKind {
        match self {
            OperandKind::Literal => ValueKind::Literal,
            OperandKind::Register => ValueKind::Register,
            OperandKind::StackOffset => ValueKind::StackOffset,
            OperandKind::HeapOffset => ValueKind::HeapOffset,
            OperandKind::LabelDef => ValueKind::LabelDef,
            OperandKind::JumpRef => ValueKind::JumpRef,
        }
    }

    /// The kind of the value that an operand of this kind becomes.
    pub fn to_value_kind(self) -> (kind: ValueKind)
        ensures
            kind == self.value_kind(),
    {
        match self {
            OperandKind::Literal => ValueKind::Literal,
            OperandKind::Register => ValueKind::Register,
            OperandKind::StackOffset => ValueKind::StackOffset,
            OperandKind::HeapOffset => ValueKind::HeapOffset,
            OperandKind::LabelDef => ValueKind::LabelDef,
            OperandKind::JumpRef => ValueKind::JumpRef,
        }
    }
}

/// The operation that a mnemonic names, in capitals; `None` for any other
/// text.
pub open spec fn opcode_of(mnemonic: Seq<char>) -> Option<Opcode> {
    if mnemonic == "ALLOC"@ {
        Some(Opcode::Alloc)
    } else if mnemonic == "STORE"@ {
        Some(Opcode::Store)
    } else if mnemonic == "WRITE"@ {
        Some(Opcode::Write)
    } else if mnemonic == "FLUSH"@ {
        Some(Opcode::Flush)
    } else if mnemonic == "FREE"@ {
        Some(Opcode::Free)
    } else if mnemonic == "ADD"@ {
        Some(Opcode::Add)
    } else if mnemonic == "SUB"@ {
        Some(Opcode::Sub)
    } else if mnemonic == "JMP"@ {
        Some(Opcode::Jmp)
    } else if mnemonic == "FUNC"@ {
        Some(Opcode::Func)
    } else {
        None
    }
}

/// The value of an opcode.
pub open spec fn opcode_value(op: Opcode) -> TaggedValue {
    TaggedValue { value: op.number(), kind: ValueKind::Opcode }
}

/// The value of an operand: its payload read as a decimal number, with the
/// operand's kind.
pub open spec fn operand_value(operand: OperandView) -> Result<TaggedValue, AsmError> {
    match decimal_number(operand.payload) {
        Some(value) => Ok(TaggedValue { value, kind: operand.kind.value_kind() }),
        None => Err(AsmError::InvalidOperandValue),
    }
}

/// The values of some operands, where each of them has one.
pub open spec fn operand_values(operands: Seq<OperandView>) -> Result<Seq<TaggedValue>, AsmError> {
    if forall|j: int| 0 <= j < operands.len() ==> (#[trigger] operand_value(operands[j])) is Ok {
        Ok(Seq::new(operands.len(), |j: int| operand_value(operands[j]).unwrap()))
    } else {
        Err(AsmError::InvalidOperandValue)
    }
}

/// What one instruction emits: its opcode and then the value of each operand,
/// however many there are and whatever the operation expects. An instruction
/// with an unknown mnemonic emits nothing, and its operands are not looked
/// at.
pub open spec fn encoded_instruction(instruction: InstructionView) -> Result<
    Seq<TaggedValue>,
    AsmError,
> {
    match opcode_of(instruction.mnemonic) {
        None => Ok(seq![]),
        Some(op) => match operand_values(instruction.operands) {
            Ok(values) => Ok(seq![opcode_value(op)] + values),
            Err(e) => Err(e),
        },
    }
}

/// What a program emits: what its instructions emit, one after the other.
pub open spec fn encoded(program: Seq<InstructionView>) -> Result<Seq<TaggedValue>, AsmError>
    decreases program.len(),
{
    if program.len() == 0 {
        Ok(seq![])
    } else {
        match (encoded(program.drop_last()), encoded_instruction(program.last())) {
            (Ok(before), Ok(last)) => Ok(before + last),
            _ => Err(AsmError::InvalidOperandValue),
        }
    }
}

/// The mnemonics of a program that name no operation, in order.
pub open spec fn unrecognized(program: Seq<InstructionView>) -> Seq<Seq<char>>
    decreases program.len(),
{
    if program.len() == 0 {
        seq![]
    } else if opcode_of(program.last().mnemonic) is None {
        unrecognized(program.drop_last()).push(program.last().mnemonic)
    } else {
        unrecognized(program.drop_last())
    }
}

/// Looks a mnemonic up in the table of operations.
pub fn lookup(mnemonic: &str) -> (r: Option<Opcode>)
    ensures
        r == opcode_of(mnemonic@),
{
    let chars = chars_of(mnemonic);
    if spells(&chars, "ALLOC") {
        Some(Opcode::Alloc)
    } else if spells(&chars, "STORE") {
        Some(Opcode::Store)
    } else if spells(&chars, "WRITE") {
        Some(Opcode::Write)
    } else if spells(&chars, "FLUSH") {
        Some(Opcode::Flush)
    } else if spells(&chars, "FREE") {
        Some(Opcode::Free)
    } else if spells(&chars, "ADD") {
        Some(Opcode::Add)
    } else if spells(&chars, "SUB") {
        Some(Opcode::Sub)
    } else if spells(&chars, "JMP") {
        Some(Opcode::Jmp)
    } else if spells(&chars, "FUNC") {
        Some(Opcode::Func)
    } else {
        None
    }
}

/// The values that one instruction emits, or `None` where its mnemonic names
/// no operation.
pub fn encode_instruction(instruction: &Instruction) -> (r: Result<Option<Vec<TaggedValue>>, AsmError>)
    ensures
        match r {
            Ok(Some(values)) => opcode_of(instruction@.mnemonic) is Some && encoded_instruction(
                instruction@,
            ) == Ok::<Seq<TaggedValue>, AsmError>(values@),
            Ok(None) => opcode_of(instruction@.mnemonic) is None,
            Err(e) => encoded_instruction(instruction@) == Err::<Seq<TaggedValue>, AsmError>(e),
        },
{
    let op = match lookup(instruction.mnemonic.as_str()) {
        Some(op) => op,
        None => {
            return Ok(None);
        },
    };
    let mut out: Vec<TaggedValue> = Vec::new();
    out.push(TaggedValue { value: opcode_number(op), kind: ValueKind::Opcode });
    let ghost operands = instruction@.operands;
    let mut j: usize = 0;
    while j < instruction.operands.len()
        invariant
            j <= instruction.operands.len(),
            operands == instruction@.operands,
            opcode_of(instruction@.mnemonic) == Some(op),
            out@.len() == 1 + j,
            out@[0] == opcode_value(op),
            forall|k: int|
                0 <= k < j ==> (#[trigger] operand_value(operands[k])) == Ok::<
                    TaggedValue,
                    AsmError,
                >(out@[1 + k]),
        decreases instruction.operands.len() - j,
    {
        let operand = &instruction.operands[j];
        assert(operand@ == operands[j as int]);
        match parse_decimal(operand.payload.as_str()) {
            Some(value) => {
                out.push(TaggedValue { value, kind: operand.kind.to_value_kind() });
            },
            None => {
                assert(operand_value(operands[j as int]) is Err);
                return Err(AsmError::InvalidOperandValue);
            },
        }
        j += 1;
    }
    assert(out@ == seq![opcode_value(op)] + operand_values(operands).unwrap());
    Ok(Some(out))
}

/// The values that a program emits, and the mnemonics in it that name no
/// operation.
pub fn encode(program: &Vec<Instruction>) -> (r: Result<(Vec<TaggedValue>, Vec<String>), AsmError>)
    ensures
        match r {
            Ok((values, unknown)) => encoded(program.deep_view()) == Ok::<
                Seq<TaggedValue>,
                AsmError,
            >(values@) && unknown.deep_view() == unrecognized(program.deep_view()),
            Err(e) => encoded(program.deep_view()) == Err::<Seq<TaggedValue>, AsmError>(e),
        },
{
    let ghost views = program.deep_view();
    let mut values: Vec<TaggedValue> = Vec::new();
    let mut unknown: Vec<String> = Vec::new();
    let mut i: usize = 0;
    assert(views.take(0) == Seq::<InstructionView>::empty());
    while i < program.len()
        invariant
            i <= program.len(),
            views == program.deep_view(),
            encoded(views.take(i as int)) == Ok::<Seq<TaggedValue>, AsmError>(values@),
            unknown.deep_view() == unrecognized(views.take(i as int)),
        decreases program.len() - i,
    {
        let instruction = &program[i];
        let ghost unknown_before = unknown.deep_view();
        assert(instruction@ == views[i as int]);
        assert(views.take(i + 1).drop_last() == views.take(i as int));
        assert(views.take(i + 1).last() == views[i as int]);
        match encode_instruction(instruction) {
            Ok(Some(mut emitted)) => {
                values.append(&mut emitted);
            },
            Ok(None) => {
                unknown.push(instruction.mnemonic.clone());
                assert(unknown.deep_view() == unknown_before.push(instruction@.mnemonic));
                assert(values@ + Seq::<TaggedValue>::empty() == values@);
            },
            Err(e) => {
                proof {
                    lemma_encoded_prefix(views, i + 1);
                }
                return Err(e);
            },
        }
        i += 1;
    }
    assert(views.take(i as int) == views);
    Ok((values, unknown))
}

/// A program fails where a first part of it fails.
proof fn lemma_encoded_prefix(program: Seq<InstructionView>, k: int)
    requires
        0 <= k <= program.len(),
        encoded(program.take(k)) is Err,
    ensures
        encoded(program) == Err::<Seq<TaggedValue>, AsmError>(AsmError::InvalidOperandValue),
    decreases program.len(),
{
    if k == program.len() {
        assert(program.take(k) == program);
    } else {
        assert(program.drop_last().take(k) == program.take(k));
        lemma_encoded_prefix(program.drop_last(), k);
    }
}

/// The builder of the bytecode: it owns the stream while a program is
/// compiled.
pub struct Compiler {
    pub bytecode: ByteStream,
}

impl Compiler {
    /// A compiler with an empty stream.
    pub fn new() -> (compiler: Compiler)
        ensures
            stream_values(compiler.bytecode) == Seq::<(u8, u64)>::empty(),
    {
        Compiler { bytecode: new_stream() }
    }

    /// Appends to the stream what the program emits, and gives the mnemonics
    /// that name no operation, in order: these are reported and not fatal.
    /// Where an operand of a known operation has no value the run fails, and
    /// the stream is left as it was.
    pub fn compile(&mut self, input: Vec<Instruction>) -> (r: Result<Vec<String>, AsmError>)
        ensures
            match r {
                Ok(unknown) => encoded(input.deep_view()) matches Ok(values) && stream_values(
                    final(self).bytecode,
                ) == stream_values(old(self).bytecode) + wire(values) && unknown.deep_view()
                    == unrecognized(input.deep_view()),
                Err(e) => encoded(input.deep_view()) == Err::<Seq<TaggedValue>, AsmError>(e)
                    && stream_values(final(self).bytecode) == stream_values(old(self).bytecode),
            },
    {
        let (values, unknown) = match encode(&input) {
            Ok(pair) => pair,
            Err(e) => {
                return Err(e);
            },
        };
        let ghost before = stream_values(self.bytecode);
        let mut i: usize = 0;
        assert(before + wire(values@.take(0)) == before);
        while i < values.len()
            invariant
                i <= values.len(),
                stream_values(self.bytecode) == before + wire(values@.take(i as int)),
            decreases values.len() - i,
        {
            let value = values[i];
            emit(&mut self.bytecode, value.kind, value.value);
            assert(wire(values@.take(i + 1)) == wire(values@.take(i as int)).push(
                (value.kind.tag(), value.value),
            ));
            i += 1;
        }
        assert(values@.take(i as int) == values@);
        Ok(unknown)
    }
}

} // verus!
