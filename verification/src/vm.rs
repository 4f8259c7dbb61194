//! The virtual machine's side of the assembler: its bytecode stream, the type
//! tags of the values in it, and the numbers of its operations.
//!
//! These belong to the `cbvm` crate. Verus does not look inside the stream:
//! what a stream holds is given a name, [`stream_values`], and the functions
//! at the end of this file say what each operation of `cbvm` does to it.
//! Their contracts are taken on trust from the sources of `cbvm`.

use cbvm::builder::bytes::{Byte, ByteStream};
use cbvm::bytecode::ops::Operations;
use cbvm::bytecode::types::Types;
use vstd::prelude::*;

verus! {

/// `cbvm::builder::bytes::ByteStream`: an ordered list of tagged 64-bit
/// values.
#[verifier::external_type_specification]
#[verifier::external_body]
pub struct ExByteStream(cbvm::builder::bytes::ByteStream);

/// What a stream holds: for each entry of its `bytes`, in order, the number of
/// the entry's type tag (`tp`) and the entry's `data`.
pub uninterp spec fn stream_values(stream: ByteStream) -> Seq<(u8, u64)>;

/// The kind of a value in the stream: an opcode, or one of the six kinds of
/// operand.
#[derive(Debug, Clone, Copy, PartialEq, Eq, Structural)]
pub enum ValueKind {
    Opcode,
    Literal,
    Register,
    StackOffset,
    HeapOffset,
    LabelDef,
    JumpRef,
}

impl ValueKind {
    /// The number of the type tag that stands for this kind in the stream.
    pub open spec fn tag(self) -> u8 {
        match self {
            ValueKind::Opcode => 0x0B,
            ValueKind::Literal => 0x01,
            ValueKind::Register => 0x09,
            ValueKind::StackOffset => 0x0C,
            ValueKind::HeapOffset => 0x0D,
            ValueKind::LabelDef => 0x0A,
            ValueKind::JumpRef => 0x0F,
        }
    }
}

/// The operations that the assembler knows.
#[derive(Debug, Clone, Copy, PartialEq, Eq, Structural)]
pub enum Opcode {
    Alloc,
    Store,
    Write,
    Flush,
    Free,
    Add,
    Sub,
    Jmp,
    Func,
}

impl Opcode {
    /// The number of the operation in the instruction set of the VM.
    pub open spec fn number(self) -> u64 {
        match self {
            Opcode::Alloc => 0x1C,
            Opcode::Store => 0x18,
            Opcode::Write => 0x19,
            Opcode::Flush => 0x1F,
            Opcode::Free => 0x1D,
            Opcode::Add => 0x01,
            Opcode::Sub => 0x02,
            Opcode::Jmp => 0x12,
            Opcode::Func => 0x64,
        }
    }
}

/// One value of the stream: a number and what it is.
#[derive(Debug, Clone, Copy, PartialEq, Eq, Structural)]
pub struct TaggedValue {
    pub value: u64,
    pub kind: ValueKind,
}

/// The values as a stream holds them: each kind as the number of its tag.
pub open spec fn wire(values: Seq<TaggedValue>) -> Seq<(u8, u64)> {
    Seq::new(values.len(), |i: int| (values[i].kind.tag(), values[i].value))
}

/// The character that stands for the data of an entry in the text of a
/// stream: the character whose number is in the low 32 bits of the data, or
/// the character zero where there is no such character.
pub open spec fn data_char(data: u64) -> char {
    let low = data as int % 0x1_0000_0000;
    if low < 0xD800 || 0xE000 <= low <= 0x10_FFFF {
        low as char
    } else {
        '\0'
    }
}

/// The text of a stream: for each entry, in order, the character whose number
/// is the entry's tag and then the character of its data.
pub open spec fn serialized(values: Seq<(u8, u64)>) -> Seq<char>
    decreases values.len(),
{
    if values.len() == 0 {
        seq![]
    } else {
        serialized(values.drop_last()).push(values.last().0 as char).push(
            data_char(values.last().1),
        )
    }
}

/// The text of a stream has two characters for each entry.
pub proof fn lemma_serialized_len(values: Seq<(u8, u64)>)
    ensures
        serialized(values).len() == 2 * values.len(),
    decreases values.len(),
{
    if values.len() > 0 {
        lemma_serialized_len(values.drop_last());
    }
}

/// `ByteStream::new` gives a stream that holds nothing.
#[verifier::external_body]
pub(crate) fn new_stream() -> (stream: ByteStream)
    ensures
        stream_values(stream) == Seq::<(u8, u64)>::empty(),
{
    ByteStream::new()
}

/// `ByteStream::emit` appends one entry to the stream. The entry's tag is the
/// variant of `Types` that stands for `kind` (`TypeOp`, `TypeU64`, `TypeReg`,
/// `DerefStack`, `DerefHeapReg`, `TypeFunc`, `TypeJmp`), whose number is
/// `kind.tag()`; its data is `value`. The copy of the stream that `emit`
/// returns is dropped.
#[verifier::external_body]
pub(crate) fn emit(stream: &mut ByteStream, kind: ValueKind, value: u64)
    ensures
        stream_values(*final(stream)) == stream_values(*old(stream)).push((kind.tag(), value)),
{
    let tp = match kind {
        ValueKind::Opcode => Types::TypeOp,
        ValueKind::Literal => Types::TypeU64,
        ValueKind::Register => Types::TypeReg,
        ValueKind::StackOffset => Types::DerefStack,
        ValueKind::HeapOffset => Types::DerefHeapReg,
        ValueKind::LabelDef => Types::TypeFunc,
        ValueKind::JumpRef => Types::TypeJmp,
    };
    stream.emit(Byte { data: Box::new(value), pos: 0, tp });
}

/// The number that `cbvm::bytecode::ops::Operations` gives to an operation.
#[verifier::external_body]
pub(crate) fn opcode_number(op: Opcode) -> (n: u64)
    ensures
        n == op.number(),
{
    match op {
        Opcode::Alloc => Operations::ALLOC as u64,
        Opcode::Store => Operations::STORE as u64,
        Opcode::Write => Operations::WRITE as u64,
        Opcode::Flush => Operations::FLUSH as u64,
        Opcode::Free => Operations::FREE as u64,
        Opcode::Add => Operations::ADD as u64,
        Opcode::Sub => Operations::SUB as u64,
        Opcode::Jmp => Operations::JMP as u64,
        Opcode::Func => Operations::FUNC as u64,
    }
}

/// `ByteStream::stringify` writes each entry as two characters: the tag's
/// number as a character, then the low 32 bits of the data as a character,
/// with the character zero in its place where they are the number of none.
#[verifier::external_body]
pub(crate) fn stringify(stream: &ByteStream) -> (text: String)
    ensures
        text@ == serialized(stream_values(*stream)),
{
    stream.stringify()
}

/// The text of a stream, as it is written to a file.
pub fn serialize(stream: &ByteStream) -> (text: String)
    ensures
        text@ == serialized(stream_values(*stream)),
        text@.len() == 2 * stream_values(*stream).len(),
{
    proof {
        lemma_serialized_len(stream_values(*stream));
    }
    stringify(stream)
}

} // verus!
