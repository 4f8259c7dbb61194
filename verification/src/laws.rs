//! What holds for every input: a literal keeps its value through its decimal
//! payload, the index of a name depends on the name alone, a resolved
//! program resolves to itself, a line with an unknown mnemonic changes
//! nothing, and the stream has one value for each opcode and each operand.

use vstd::prelude::*;
use crate::assembled;
use crate::encoder::{encoded, encoded_instruction, opcode_of};
use crate::error::AsmError;
use crate::lexer::{lines_of, token_of, tokens_of, tokens_of_lines, trim_each, TokenView};
use crate::number::{
    decimal_digits, decimal_number, hex_digits, hex_literal, is_digit, is_numeral,
    lemma_decimal_round_trip, lemma_digits_denote, lemma_hex_normal_form, normalized,
    numeral_value,
};
use crate::operand::{
    instruction_of, instructions_of, operand_of, operands_of, InstructionView, OperandKind,
    OperandView,
};
use crate::parser::parsed;
use crate::resolver::{
    first_seen, names_in, program_names, resolved, resolved_operand, resolved_with, symbols_of,
    Namespace, SymbolTablesView,
};
use crate::text::{
    first_separator, lemma_first_separator, lemma_first_separator_is, lemma_position,
    lemma_position_is, lemma_position_kept, position, split, trim, Separator,
};
use crate::vm::TaggedValue;

verus! {

/// The operand at place `j` of instruction `i` of a program.
pub open spec fn operand_at(program: Seq<InstructionView>, i: int, j: int) -> OperandView {
    program[i].operands[j]
}

/// `(i, j)` is the place of an operand of the program.
pub open spec fn is_place(program: Seq<InstructionView>, i: int, j: int) -> bool {
    0 <= i < program.len() && 0 <= j < program[i].operands.len()
}

/// A hexadecimal literal keeps its value through classification: it becomes a
/// literal operand whose payload reads back as the value of the literal, and
/// that value written in hexadecimal is the literal in its normal form, in
/// lower case and without leading zeros. This holds up to the largest value
/// of 64 bits.
pub proof fn lemma_literal_round_trip(s: Seq<char>)
    requires
        hex_literal(s) is Some,
    ensures
        operand_of(s) matches Ok(operand) && operand.kind == OperandKind::Literal
            && decimal_number(operand.payload) == hex_literal(s),
        hex_digits(hex_literal(s).unwrap() as nat) == normalized(s),
{
    assert(is_digit(s[0], 16));
    assert(is_digit(s[s.len() - 1], 16));
    lemma_decimal_round_trip(hex_literal(s).unwrap());
    lemma_hex_normal_form(s);
}

/// Two numbers with the same decimal string are the same number.
pub proof fn lemma_decimal_injective(a: nat, b: nat)
    requires
        decimal_digits(a) == decimal_digits(b),
    ensures
        a == b,
{
    lemma_digits_denote(a, 10);
    lemma_digits_denote(b, 10);
}

/// Every name is in the table of the names seen so far.
pub proof fn lemma_first_seen_holds(names: Seq<Seq<char>>, k: int)
    requires
        0 <= k < names.len(),
    ensures
        first_seen(names).contains(names[k]),
    decreases names.len(),
{
    let before = first_seen(names.drop_last());
    if k < names.len() - 1 {
        lemma_first_seen_holds(names.drop_last(), k);
        let w = choose|i: int| 0 <= i < before.len() && before[i] == names[k];
        if !before.contains(names.last()) {
            assert(before.push(names.last())[w] == names[k]);
        }
    } else {
        if !before.contains(names.last()) {
            assert(before.push(names.last())[before.len() as int] == names.last());
        }
    }
}

/// The table of some names holds nothing but those names.
pub proof fn lemma_first_seen_only(names: Seq<Seq<char>>, x: Seq<char>)
    requires
        first_seen(names).contains(x),
    ensures
        names.contains(x),
    decreases names.len(),
{
    if names.len() > 0 {
        let before = first_seen(names.drop_last());
        if before.contains(x) {
            lemma_first_seen_only(names.drop_last(), x);
            let w = choose|i: int| 0 <= i < names.drop_last().len() && names.drop_last()[i] == x;
            assert(names[w] == x);
        } else {
            let w = choose|i: int| 0 <= i < first_seen(names).len() && first_seen(names)[i] == x;
            if w < before.len() {
                assert(before[w] == x);
            }
            assert(names[names.len() - 1] == x);
        }
    }
}

/// The first occurrence of a name settles its index: the index is the number
/// of different names that occur before it, whatever follows.
pub proof fn lemma_index_by_first_occurrence(names: Seq<Seq<char>>, k: int)
    requires
        0 <= k < names.len(),
    ensures
        position(first_seen(names), names[k]) == first_seen(
            names.take(position(names, names[k])),
        ).len(),
{
    let x = names[k];
    let first = position(names, x);
    lemma_position(names, x);
    if first >= names.len() {
        assert(names[k] != x);
    }
    let earlier = first_seen(names.take(first));
    let with_x = first_seen(names.take(first + 1));
    assert(names.take(first + 1).drop_last() == names.take(first));
    assert(names.take(first + 1).last() == x);
    if earlier.contains(x) {
        lemma_first_seen_only(names.take(first), x);
        let w = choose|i: int| 0 <= i < names.take(first).len() && names.take(first)[i] == x;
        assert(names[w] == x);
    }
    assert(with_x == earlier.push(x));
    lemma_position_is(with_x, x, earlier.len() as int);
    assert(with_x[earlier.len() as int] == x);
    lemma_first_seen_grows(names, first + 1);
    lemma_position_kept(with_x, first_seen(names), x);
}

/// The name of an operand is among the names of its namespace.
pub proof fn lemma_name_listed(operands: Seq<OperandView>, ns: Namespace, j: int)
    requires
        0 <= j < operands.len(),
        operands[j].kind.namespace() == Some(ns),
    ensures
        names_in(operands, ns).contains(operands[j].payload),
    decreases operands.len(),
{
    let before = names_in(operands.drop_last(), ns);
    if j < operands.len() - 1 {
        lemma_name_listed(operands.drop_last(), ns, j);
        let w = choose|i: int| 0 <= i < before.len() && before[i] == operands[j].payload;
        if operands.last().kind.namespace() == Some(ns) {
            assert(before.push(operands.last().payload)[w] == operands[j].payload);
        }
    } else {
        assert(before.push(operands.last().payload)[before.len() as int]
            == operands.last().payload);
    }
}

/// The name of an operand of a program is among the program's names of its
/// namespace.
pub proof fn lemma_program_name_listed(
    program: Seq<InstructionView>,
    ns: Namespace,
    i: int,
    j: int,
)
    requires
        is_place(program, i, j),
        operand_at(program, i, j).kind.namespace() == Some(ns),
    ensures
        program_names(program, ns).contains(operand_at(program, i, j).payload),
    decreases program.len(),
{
    let before = program_names(program.drop_last(), ns);
    let last = names_in(program.last().operands, ns);
    let name = operand_at(program, i, j).payload;
    if i < program.len() - 1 {
        lemma_program_name_listed(program.drop_last(), ns, i, j);
        let w = choose|k: int| 0 <= k < before.len() && before[k] == name;
        assert((before + last)[w] == name);
    } else {
        lemma_name_listed(program.last().operands, ns, j);
        let w = choose|k: int| 0 <= k < last.len() && last[k] == name;
        assert((before + last)[before.len() + w] == name);
    }
}

/// The tables of a program hold the name of each of its operands.
pub proof fn lemma_name_in_table(program: Seq<InstructionView>, ns: Namespace, i: int, j: int)
    requires
        is_place(program, i, j),
        operand_at(program, i, j).kind.namespace() == Some(ns),
    ensures
        symbols_of(program).table(ns).contains(operand_at(program, i, j).payload),
        0 <= position(symbols_of(program).table(ns), operand_at(program, i, j).payload)
            < symbols_of(program).table(ns).len(),
{
    let names = program_names(program, ns);
    let name = operand_at(program, i, j).payload;
    lemma_program_name_listed(program, ns, i, j);
    let w = choose|k: int| 0 <= k < names.len() && names[k] == name;
    lemma_first_seen_holds(names, w);
    let table = symbols_of(program).table(ns);
    assert(table == first_seen(names));
    lemma_position(table, name);
    let v = choose|k: int| 0 <= k < table.len() && table[k] == name;
    if position(table, name) >= table.len() {
        assert(table[v] != name);
    }
}

/// Two operands of one namespace are rewritten to the same payload exactly
/// when they hold the same name, wherever they stand in the program.
pub proof fn lemma_index_by_name(
    program: Seq<InstructionView>,
    ns: Namespace,
    i1: int,
    j1: int,
    i2: int,
    j2: int,
)
    requires
        is_place(program, i1, j1),
        is_place(program, i2, j2),
        operand_at(program, i1, j1).kind.namespace() == Some(ns),
        operand_at(program, i2, j2).kind.namespace() == Some(ns),
    ensures
        operand_at(resolved(program), i1, j1).payload == operand_at(
            resolved(program),
            i2,
            j2,
        ).payload <==> operand_at(program, i1, j1).payload == operand_at(program, i2, j2).payload,
{
    let table = symbols_of(program).table(ns);
    let a = operand_at(program, i1, j1).payload;
    let b = operand_at(program, i2, j2).payload;
    lemma_name_in_table(program, ns, i1, j1);
    lemma_name_in_table(program, ns, i2, j2);
    lemma_position(table, a);
    lemma_position(table, b);
    if decimal_digits(position(table, a) as nat) == decimal_digits(position(table, b) as nat) {
        lemma_decimal_injective(position(table, a) as nat, position(table, b) as nat);
    }
}

/// The index of a register is settled by the first occurrence of its name:
/// every operand that names a register is rewritten to the decimal string of
/// the place that the name has in the table of registers, so that two of them
/// get the same payload exactly when they hold the same name, in whatever
/// instructions they stand.
pub proof fn lemma_register_index_stable(
    program: Seq<InstructionView>,
    i1: int,
    j1: int,
    i2: int,
    j2: int,
)
    requires
        is_place(program, i1, j1),
        is_place(program, i2, j2),
        operand_at(program, i1, j1).kind == OperandKind::Register,
        operand_at(program, i2, j2).kind == OperandKind::Register,
    ensures
        operand_at(resolved(program), i1, j1).payload == decimal_digits(
            position(symbols_of(program).registers, operand_at(program, i1, j1).payload) as nat,
        ),
        symbols_of(program).registers.contains(operand_at(program, i1, j1).payload),
        operand_at(resolved(program), i1, j1).payload == operand_at(
            resolved(program),
            i2,
            j2,
        ).payload <==> operand_at(program, i1, j1).payload == operand_at(program, i2, j2).payload,
{
    lemma_name_in_table(program, Namespace::Registers, i1, j1);
    lemma_index_by_name(program, Namespace::Registers, i1, j1, i2, j2);
}

/// Definitions of labels and jumps to them share their indexes: a jump and a
/// definition, or two jumps, get the same payload exactly when they hold the
/// same name, whichever of them comes first in the program. A jump before
/// the definition of its label is resolved like one behind it.
pub proof fn lemma_label_index_shared(
    program: Seq<InstructionView>,
    i1: int,
    j1: int,
    i2: int,
    j2: int,
)
    requires
        is_place(program, i1, j1),
        is_place(program, i2, j2),
        operand_at(program, i1, j1).kind == OperandKind::LabelDef || operand_at(
            program,
            i1,
            j1,
        ).kind == OperandKind::JumpRef,
        operand_at(program, i2, j2).kind == OperandKind::LabelDef || operand_at(
            program,
            i2,
            j2,
        ).kind == OperandKind::JumpRef,
    ensures
        operand_at(resolved(program), i1, j1).payload == operand_at(
            resolved(program),
            i2,
            j2,
        ).payload <==> operand_at(program, i1, j1).payload == operand_at(program, i2, j2).payload,
{
    lemma_index_by_name(program, Namespace::Labels, i1, j1, i2, j2);
}

/// The decimal strings of the numbers below `n`, in order: the table of a
/// program that holds `n` resolved names.
pub open spec fn indexes(n: nat) -> Seq<Seq<char>> {
    Seq::new(n, |k: int| decimal_digits(k as nat))
}

/// The names, each replaced by the decimal string of its position in a table.
pub open spec fn renamed(table: Seq<Seq<char>>, names: Seq<Seq<char>>) -> Seq<Seq<char>> {
    Seq::new(names.len(), |k: int| decimal_digits(position(table, names[k]) as nat))
}

/// The operands, each rewritten by the tables.
pub open spec fn resolved_operands(operands: Seq<OperandView>, tables: SymbolTablesView) -> Seq<
    OperandView,
> {
    Seq::new(operands.len(), |j: int| resolved_operand(operands[j], tables))
}

/// In the table of indexes each index stands at its own place.
pub proof fn lemma_position_of_index(n: nat, k: nat)
    requires
        k < n,
    ensures
        position(indexes(n), decimal_digits(k)) == k,
{
    assert forall|j: int| 0 <= j < k implies indexes(n)[j] != decimal_digits(k) by {
        if decimal_digits(j as nat) == decimal_digits(k) {
            lemma_decimal_injective(j as nat, k);
        }
    }
    lemma_position_is(indexes(n), decimal_digits(k), k as int);
}

/// The table of a first part of the names is a first part of the table of
/// all of them.
pub proof fn lemma_first_seen_grows(names: Seq<Seq<char>>, m: int)
    requires
        0 <= m <= names.len(),
    ensures
        first_seen(names.take(m)).is_prefix_of(first_seen(names)),
    decreases names.len(),
{
    if m == names.len() {
        assert(names.take(m) == names);
    } else {
        lemma_first_seen_grows(names.drop_last(), m);
        assert(names.drop_last().take(m) == names.take(m));
    }
}

/// The names of resolved operands are the names of the operands, renamed.
pub proof fn lemma_names_of_resolved_operands(
    operands: Seq<OperandView>,
    tables: SymbolTablesView,
    ns: Namespace,
)
    ensures
        names_in(resolved_operands(operands, tables), ns) == renamed(
            tables.table(ns),
            names_in(operands, ns),
        ),
    decreases operands.len(),
{
    let rewritten = resolved_operands(operands, tables);
    if operands.len() > 0 {
        lemma_names_of_resolved_operands(operands.drop_last(), tables, ns);
        assert(rewritten.drop_last() == resolved_operands(operands.drop_last(), tables));
        assert(rewritten.last().kind == operands.last().kind);
    }
    assert(names_in(rewritten, ns) =~= renamed(tables.table(ns), names_in(operands, ns)));
}

/// The names of a program rewritten by some tables are the names of the
/// program, renamed.
pub proof fn lemma_names_of_resolved(
    program: Seq<InstructionView>,
    tables: SymbolTablesView,
    ns: Namespace,
)
    ensures
        program_names(resolved_with(program, tables), ns) == renamed(
            tables.table(ns),
            program_names(program, ns),
        ),
    decreases program.len(),
{
    let rewritten = resolved_with(program, tables);
    if program.len() > 0 {
        lemma_names_of_resolved(program.drop_last(), tables, ns);
        assert(rewritten.drop_last() == resolved_with(program.drop_last(), tables));
        lemma_names_of_resolved_operands(program.last().operands, tables, ns);
        assert(rewritten.last().operands == resolved_operands(program.last().operands, tables));
    }
    assert(program_names(rewritten, ns) =~= renamed(
        tables.table(ns),
        program_names(program, ns),
    ));
}

/// The table of the renamed names holds the indexes, in order: as many as the
/// table of the names holds names.
pub proof fn lemma_renamed_first_seen(names: Seq<Seq<char>>, m: int)
    requires
        0 <= m <= names.len(),
    ensures
        first_seen(renamed(first_seen(names), names).take(m)) == indexes(
            first_seen(names.take(m)).len(),
        ),
    decreases m,
{
    let table = first_seen(names);
    let new_names = renamed(table, names);
    if m == 0 {
        assert(new_names.take(0) == Seq::<Seq<char>>::empty());
        assert(names.take(0) == Seq::<Seq<char>>::empty());
        assert(first_seen(new_names.take(m)) =~= indexes(0));
    } else {
        lemma_renamed_first_seen(names, m - 1);
        let x = names[m - 1];
        let small = first_seen(names.take(m - 1));
        let large = first_seen(names.take(m));
        let count = small.len();
        assert(names.take(m).drop_last() == names.take(m - 1));
        assert(names.take(m).last() == x);
        assert(new_names.take(m).drop_last() == new_names.take(m - 1));
        assert(new_names.take(m).last() == decimal_digits(position(table, x) as nat));
        lemma_first_seen_grows(names, m);
        if small.contains(x) {
            lemma_position_kept(small, table, x);
            lemma_position(small, x);
            let k = position(small, x);
            let w = choose|i: int| 0 <= i < small.len() && small[i] == x;
            if k >= small.len() {
                assert(small[w] != x);
            }
            assert(indexes(count)[k] == decimal_digits(k as nat));
        } else {
            assert(large == small.push(x));
            lemma_position_is(large, x, count as int);
            assert(large[count as int] == x);
            lemma_position_kept(large, table, x);
            if indexes(count).contains(decimal_digits(count)) {
                let w = choose|i: int|
                    0 <= i < indexes(count).len() && indexes(count)[i] == decimal_digits(count);
                lemma_decimal_injective(w as nat, count);
            }
            assert(indexes(count).push(decimal_digits(count)) =~= indexes(count + 1));
        }
    }
}

/// The tables of a resolved program hold the indexes, in order.
pub proof fn lemma_tables_of_resolved(program: Seq<InstructionView>, ns: Namespace)
    ensures
        symbols_of(resolved(program)).table(ns) == indexes(symbols_of(program).table(ns).len()),
{
    let names = program_names(program, ns);
    lemma_names_of_resolved(program, symbols_of(program), ns);
    lemma_renamed_first_seen(names, names.len() as int);
    assert(names.take(names.len() as int) == names);
    let new_names = renamed(first_seen(names), names);
    assert(new_names.take(names.len() as int) == new_names);
}

/// Resolving a resolved program changes nothing: each payload that is the
/// decimal string of an index is the name of that very index.
pub proof fn lemma_resolved_idempotent(program: Seq<InstructionView>)
    ensures
        resolved(resolved(program)) == resolved(program),
{
    let once = resolved(program);
    let twice = resolved(once);
    assert forall|i: int| 0 <= i < once.len() implies twice[i] == once[i] by {
        assert forall|j: int| 0 <= j < once[i].operands.len() implies twice[i].operands[j]
            == once[i].operands[j] by {
            let operand = operand_at(program, i, j);
            match operand.kind.namespace() {
                Some(ns) => {
                    let table = symbols_of(program).table(ns);
                    lemma_name_in_table(program, ns, i, j);
                    lemma_tables_of_resolved(program, ns);
                    lemma_position_of_index(table.len(), position(table, operand.payload) as nat);
                },
                None => {},
            }
        }
        assert(twice[i].operands =~= once[i].operands);
    }
    assert(twice =~= once);
}

/// What two programs emit one after the other is what they emit as one
/// program; as one program they fail where either of them fails.
pub proof fn lemma_encoded_in_sequence(first: Seq<InstructionView>, second: Seq<InstructionView>)
    ensures
        encoded(first + second) == match (encoded(first), encoded(second)) {
            (Ok(a), Ok(b)) => Ok::<Seq<TaggedValue>, AsmError>(a + b),
            _ => Err::<Seq<TaggedValue>, AsmError>(AsmError::InvalidOperandValue),
        },
    decreases second.len(),
{
    if second.len() == 0 {
        assert(first + second == first);
        if let Ok(a) = encoded(first) {
            assert(a + Seq::<TaggedValue>::empty() == a);
        }
    } else {
        lemma_encoded_in_sequence(first, second.drop_last());
        assert((first + second).drop_last() == first + second.drop_last());
        assert((first + second).last() == second.last());
        match (encoded(first), encoded(second.drop_last()), encoded_instruction(second.last())) {
            (Ok(a), Ok(b), Ok(c)) => {
                assert((a + b) + c == a + (b + c));
            },
            _ => {},
        }
    }
}

/// An instruction with an unknown mnemonic adds nothing to what a program
/// emits, wherever it stands and whatever its operands are: the program
/// emits what it emits without that instruction.
pub proof fn lemma_unrecognized_emits_nothing(
    before: Seq<InstructionView>,
    instruction: InstructionView,
    after: Seq<InstructionView>,
)
    requires
        opcode_of(instruction.mnemonic) is None,
    ensures
        encoded(before + seq![instruction] + after) == encoded(before + after),
{
    let one = seq![instruction];
    assert(one.drop_last() == Seq::<InstructionView>::empty());
    assert(encoded(one.drop_last()) == Ok::<Seq<TaggedValue>, AsmError>(seq![]));
    assert(encoded(one) == Ok::<Seq<TaggedValue>, AsmError>(seq![])) by {
        assert(Seq::<TaggedValue>::empty() + Seq::<TaggedValue>::empty() == Seq::<
            TaggedValue,
        >::empty());
    }
    lemma_encoded_in_sequence(before, one);
    lemma_encoded_in_sequence(before + one, after);
    lemma_encoded_in_sequence(before, after);
    if let Ok(a) = encoded(before) {
        assert(a + Seq::<TaggedValue>::empty() == a);
    }
}

/// The number of values that a line with this mnemonic and this many
/// arguments emits: one for the opcode and one for each argument, or none
/// where the mnemonic names no operation.
pub open spec fn values_of_line(mnemonic: Seq<char>, arguments: nat) -> nat {
    if opcode_of(mnemonic) is Some {
        1 + arguments
    } else {
        0
    }
}

/// The number of values that the lines of some tokens emit, all together.
pub open spec fn values_of_lines(tokens: Seq<TokenView>) -> nat
    decreases tokens.len(),
{
    if tokens.len() == 0 {
        0
    } else {
        values_of_lines(tokens.drop_last()) + values_of_line(
            tokens.last().mnemonic,
            tokens.last().raw_args.len(),
        )
    }
}

/// A program whose instructions have the mnemonics of some tokens, and as
/// many operands as these have arguments, emits as many values as the lines
/// of the tokens stand for.
proof fn lemma_encoded_length(program: Seq<InstructionView>, tokens: Seq<TokenView>, k: int)
    requires
        program.len() == tokens.len(),
        forall|i: int|
            0 <= i < program.len() ==> (#[trigger] program[i]).mnemonic == tokens[i].mnemonic
                && program[i].operands.len() == tokens[i].raw_args.len(),
        0 <= k <= program.len(),
        encoded(program.take(k)) is Ok,
    ensures
        encoded(program.take(k)).unwrap().len() == values_of_lines(tokens.take(k)),
    decreases k,
{
    if k > 0 {
        assert(program.take(k).drop_last() == program.take(k - 1));
        assert(tokens.take(k).drop_last() == tokens.take(k - 1));
        assert(program.take(k).last() == program[k - 1]);
        assert(tokens.take(k).last() == tokens[k - 1]);
        lemma_encoded_length(program, tokens, k - 1);
        assert(program[k - 1].mnemonic == tokens[k - 1].mnemonic);
    } else {
        assert(program.take(0) == Seq::<InstructionView>::empty());
        assert(tokens.take(0) == Seq::<TokenView>::empty());
    }
}

/// The stream of a source text holds, for each line with a known mnemonic,
/// one value for the opcode and one for each argument, and nothing for any
/// other line: its length is the sum of these over the lines.
pub proof fn lemma_stream_length(source: Seq<char>)
    requires
        assembled(source) is Ok,
    ensures
        assembled(source).unwrap().len() == values_of_lines(tokens_of(source)),
{
    let tokens = tokens_of(source);
    let classified = instructions_of(tokens).unwrap();
    let program = resolved(classified);
    assert(parsed(tokens) == Ok::<Seq<InstructionView>, AsmError>(program));
    assert forall|i: int| 0 <= i < program.len() implies (#[trigger] program[i]).mnemonic
        == tokens[i].mnemonic && program[i].operands.len() == tokens[i].raw_args.len() by {
        assert(instruction_of(tokens[i]) is Ok);
        assert(classified[i] == instruction_of(tokens[i]).unwrap());
    }
    assert(program.take(program.len() as int) == program);
    assert(tokens.take(tokens.len() as int) == tokens);
    lemma_encoded_length(program, tokens, program.len() as int);
}

/// The pieces of two texts with a separator between them are the pieces of
/// the first and then the pieces of the second.
pub proof fn lemma_split_joined(first: Seq<char>, second: Seq<char>, c: char)
    ensures
        split(first + seq![c] + second, Separator::Char(c)) == split(first, Separator::Char(c))
            + split(second, Separator::Char(c)),
    decreases first.len(),
{
    let sep = Separator::Char(c);
    let whole = first + seq![c] + second;
    let k = first_separator(first, sep);
    lemma_first_separator(first, sep);
    assert forall|j: int| 0 <= j < k implies !sep.matches(whole[j]) by {
        assert(whole[j] == first[j]);
    }
    if k < first.len() {
        assert(whole[k] == first[k]);
        lemma_first_separator_is(whole, sep, k);
        assert(whole.take(k) == first.take(k));
        assert(whole.skip(k + 1) == first.skip(k + 1) + seq![c] + second);
        lemma_split_joined(first.skip(k + 1), second, c);
    } else {
        assert(whole[k] == c);
        lemma_first_separator_is(whole, sep, k);
        assert(whole.take(k) == first);
        assert(whole.skip(k + 1) == second);
    }
}

/// The tokens of two lists of lines are the tokens of the first and then the
/// tokens of the second.
pub proof fn lemma_tokens_of_lines_joined(first: Seq<Seq<char>>, second: Seq<Seq<char>>)
    ensures
        tokens_of_lines(first + second) == tokens_of_lines(first) + tokens_of_lines(second),
    decreases second.len(),
{
    if second.len() == 0 {
        assert(first + second == first);
        assert(tokens_of_lines(first) + Seq::<TokenView>::empty() == tokens_of_lines(first));
    } else {
        lemma_tokens_of_lines_joined(first, second.drop_last());
        assert((first + second).drop_last() == first + second.drop_last());
        assert((first + second).last() == second.last());
        let a = tokens_of_lines(first);
        let b = tokens_of_lines(second.drop_last());
        if second.last().len() != 0 {
            let t = token_of(second.last());
            assert((a + b).push(t) == a + b.push(t));
        }
    }
}

/// Lexing goes line by line: the tokens of two texts with a line feed between
/// them are the tokens of the first and then the tokens of the second.
pub proof fn lemma_tokens_joined(first: Seq<char>, second: Seq<char>)
    ensures
        tokens_of(first + seq!['\n'] + second) == tokens_of(first) + tokens_of(second),
{
    let sep = Separator::Char('\n');
    lemma_split_joined(first, second, '\n');
    assert(trim_each(split(first, sep) + split(second, sep)) == trim_each(split(first, sep))
        + trim_each(split(second, sep)));
    lemma_tokens_of_lines_joined(lines_of(first), lines_of(second));
}

/// A token that stands for nothing in the stream and names nothing: its
/// mnemonic names no operation, and its arguments are literals or offsets.
pub open spec fn is_silent(token: TokenView) -> bool {
    &&& opcode_of(token.mnemonic) is None
    &&& operands_of(token.raw_args) matches Ok(operands) && forall|j: int|
        0 <= j < operands.len() ==> (#[trigger] operands[j]).kind.namespace() is None
}

/// Operands that name nothing add no names.
proof fn lemma_no_names(operands: Seq<OperandView>, ns: Namespace)
    requires
        forall|j: int| 0 <= j < operands.len() ==> (#[trigger] operands[j]).kind.namespace() is None,
    ensures
        names_in(operands, ns) == Seq::<Seq<char>>::empty(),
    decreases operands.len(),
{
    if operands.len() > 0 {
        assert(operands[operands.len() - 1].kind.namespace() is None);
        assert forall|j: int| 0 <= j < operands.drop_last().len() implies (
        #[trigger] operands.drop_last()[j]).kind.namespace() is None by {
            assert(operands.drop_last()[j] == operands[j]);
        }
        lemma_no_names(operands.drop_last(), ns);
    }
}

/// The names of two programs one after the other are the names of the first
/// and then the names of the second.
pub proof fn lemma_program_names_joined(
    first: Seq<InstructionView>,
    second: Seq<InstructionView>,
    ns: Namespace,
)
    ensures
        program_names(first + second, ns) == program_names(first, ns) + program_names(second, ns),
    decreases second.len(),
{
    if second.len() == 0 {
        assert(first + second == first);
        assert(program_names(first, ns) + Seq::<Seq<char>>::empty() == program_names(first, ns));
    } else {
        lemma_program_names_joined(first, second.drop_last(), ns);
        assert((first + second).drop_last() == first + second.drop_last());
        assert((first + second).last() == second.last());
        let a = program_names(first, ns);
        let b = program_names(second.drop_last(), ns);
        let c = names_in(second.last().operands, ns);
        assert((a + b) + c == a + (b + c));
    }
}

/// An instruction that names nothing, put anywhere into a program, changes no
/// index: the program is resolved as without it, and the instruction stays as
/// it is.
pub proof fn lemma_nameless_shifts_nothing(
    before: Seq<InstructionView>,
    instruction: InstructionView,
    after: Seq<InstructionView>,
)
    requires
        forall|j: int|
            0 <= j < instruction.operands.len() ==> (
            #[trigger] instruction.operands[j]).kind.namespace() is None,
    ensures
        symbols_of(before + seq![instruction] + after) == symbols_of(before + after),
        resolved(before + seq![instruction] + after) == resolved_with(
            before,
            symbols_of(before + after),
        ) + seq![instruction] + resolved_with(after, symbols_of(before + after)),
        resolved(before + after) == resolved_with(before, symbols_of(before + after))
            + resolved_with(after, symbols_of(before + after)),
{
    let one = seq![instruction];
    let with = before + one + after;
    let without = before + after;
    assert forall|ns: Namespace|
        program_names(with, ns) == #[trigger] program_names(without, ns) by {
        lemma_program_names_joined(before + one, after, ns);
        lemma_program_names_joined(before, one, ns);
        lemma_program_names_joined(before, after, ns);
        assert(one.drop_last() == Seq::<InstructionView>::empty());
        lemma_no_names(instruction.operands, ns);
        assert(one.last() == instruction);
        assert(program_names(one.drop_last(), ns) == Seq::<Seq<char>>::empty());
        assert(program_names(one, ns) =~= Seq::<Seq<char>>::empty());
        assert(program_names(before, ns) + Seq::<Seq<char>>::empty() == program_names(before, ns));
    }
    assert(program_names(with, Namespace::Registers) == program_names(
        without,
        Namespace::Registers,
    ));
    assert(program_names(with, Namespace::Labels) == program_names(without, Namespace::Labels));
    let tables = symbols_of(without);
    assert(symbols_of(with) == tables);
    let target = resolved_with(before, tables) + one + resolved_with(after, tables);
    assert(resolved(with).len() == target.len());
    assert forall|i: int| 0 <= i < with.len() implies resolved(with)[i] == target[i] by {
        if i == before.len() {
            assert(with[i] == instruction);
            assert(resolved(with)[i].operands =~= instruction.operands);
        } else if i < before.len() {
            assert(with[i] == before[i]);
        } else {
            assert(with[i] == after[i - before.len() - 1]);
        }
    }
    assert(resolved(with) =~= target);
    assert(resolved(without) =~= resolved_with(before, tables) + resolved_with(after, tables));
}

/// What a list of tokens assembles to.
pub open spec fn assembled_tokens(tokens: Seq<TokenView>) -> Result<Seq<TaggedValue>, AsmError> {
    match parsed(tokens) {
        Ok(program) => encoded(program),
        Err(e) => Err(e),
    }
}

/// A silent token, put anywhere among other tokens, changes nothing of what
/// they assemble to: not whether they assemble, not the error, and no value
/// of the stream.
pub proof fn lemma_silent_token(before: Seq<TokenView>, token: TokenView, after: Seq<TokenView>)
    requires
        is_silent(token),
    ensures
        assembled_tokens(before + seq![token] + after) == assembled_tokens(before + after),
{
    let with = before + seq![token] + after;
    let without = before + after;
    let instruction = instruction_of(token).unwrap();
    assert(instruction_of(token) is Ok);
    if instructions_of(without) is Ok {
        assert forall|i: int| 0 <= i < with.len() implies (#[trigger] instruction_of(
            with[i],
        )) is Ok by {
            if i < before.len() {
                assert(with[i] == without[i]);
                assert(instruction_of(without[i]) is Ok);
            } else if i > before.len() {
                assert(with[i] == without[i - 1]);
                assert(instruction_of(without[i - 1]) is Ok);
            }
        }
        let classified = instructions_of(without).unwrap();
        let first = classified.take(before.len() as int);
        let second = classified.skip(before.len() as int);
        assert(classified == first + second);
        assert(instructions_of(with).unwrap() =~= first + seq![instruction] + second) by {
            let target = first + seq![instruction] + second;
            assert forall|i: int| 0 <= i < with.len() implies instructions_of(with).unwrap()[i]
                == target[i] by {
                if i < before.len() {
                    assert(with[i] == without[i]);
                } else if i > before.len() {
                    assert(with[i] == without[i - 1]);
                }
            }
        }
        lemma_nameless_shifts_nothing(first, instruction, second);
        let tables = symbols_of(first + second);
        lemma_unrecognized_emits_nothing(
            resolved_with(first, tables),
            instruction,
            resolved_with(second, tables),
        );
    } else {
        let w = choose|i: int| 0 <= i < without.len() && !(#[trigger] instruction_of(
            without[i],
        ) is Ok);
        if w < before.len() {
            assert(with[w] == without[w]);
            assert(!(instruction_of(with[w]) is Ok));
        } else {
            assert(with[w + 1] == without[w]);
            assert(!(instruction_of(with[w + 1]) is Ok));
        }
    }
}

/// A line with an unknown mnemonic and with arguments that name nothing, put
/// anywhere into a source text, changes nothing of what the text assembles
/// to: it adds no value, it moves no index of a register or a label, and the
/// text assembles with it exactly when it assembles without it. This holds
/// between two texts, before a text, behind a text and for the line alone.
pub proof fn lemma_unknown_line_changes_nothing(
    before: Seq<char>,
    line: Seq<char>,
    after: Seq<char>,
)
    requires
        tokens_of(line).len() == 1,
        is_silent(tokens_of(line)[0]),
    ensures
        assembled(before + seq!['\n'] + line + seq!['\n'] + after) == assembled(
            before + seq!['\n'] + after,
        ),
        assembled(line + seq!['\n'] + after) == assembled(after),
        assembled(before + seq!['\n'] + line) == assembled(before),
        assembled(line) == Ok::<Seq<TaggedValue>, AsmError>(seq![]),
{
    let token = tokens_of(line)[0];
    let one = seq![token];
    assert(tokens_of(line) =~= one);
    let a = tokens_of(before);
    let b = tokens_of(after);
    let none = Seq::<TokenView>::empty();
    lemma_tokens_joined(before + seq!['\n'] + line, after);
    lemma_tokens_joined(before, line);
    lemma_tokens_joined(before, after);
    lemma_tokens_joined(line, after);
    lemma_silent_token(a, token, b);
    lemma_silent_token(none, token, b);
    lemma_silent_token(a, token, none);
    lemma_silent_token(none, token, none);
    assert(none + one + b == one + b);
    assert(none + b == b);
    assert(a + one + none == a + one);
    assert(a + none == a);
    assert(none + one + none == one);
    assert(none + none == none);
    assert(instructions_of(none) is Ok);
    assert(instructions_of(none).unwrap() =~= Seq::<InstructionView>::empty());
    assert(resolved(Seq::<InstructionView>::empty()) =~= Seq::<InstructionView>::empty());
    assert(assembled_tokens(none) == Ok::<Seq<TaggedValue>, AsmError>(seq![]));
}

/// The line `FOO 1 2` is such a line: wherever it is put into a source text,
/// the text assembles to what it assembles to without it.
pub proof fn lemma_line_foo_changes_nothing(before: Seq<char>, after: Seq<char>)
    ensures
        assembled(before + seq!['\n'] + "FOO 1 2"@ + seq!['\n'] + after) == assembled(
            before + seq!['\n'] + after,
        ),
        assembled("FOO 1 2"@ + seq!['\n'] + after) == assembled(after),
        assembled(before + seq!['\n'] + "FOO 1 2"@) == assembled(before),
        assembled("FOO 1 2"@) == Ok::<Seq<TaggedValue>, AsmError>(seq![]),
{
    reveal_strlit("FOO 1 2");
    reveal_strlit("ALLOC");
    reveal_strlit("STORE");
    reveal_strlit("WRITE");
    reveal_strlit("FLUSH");
    reveal_strlit("FREE");
    reveal_strlit("ADD");
    reveal_strlit("SUB");
    reveal_strlit("JMP");
    reveal_strlit("FUNC");
    let line = "FOO 1 2"@;
    let feed = Separator::Char('\n');
    let space = Separator::Whitespace;
    assert(line.len() == 7);
    lemma_first_separator_is(line, feed, 7);
    assert(trim(line) == line);
    assert(lines_of(line) =~= seq![line]);
    assert(seq![line].drop_last() == Seq::<Seq<char>>::empty());
    assert(tokens_of_lines(seq![line].drop_last()) == Seq::<TokenView>::empty());
    assert(tokens_of(line) =~= seq![token_of(line)]);
    lemma_first_separator_is(line, space, 3);
    let rest = line.skip(4);
    assert(rest.len() == 3 && rest[0] == '1' && rest[1] == ' ' && rest[2] == '2');
    lemma_first_separator_is(rest, space, 1);
    let two = rest.skip(2);
    assert(two.len() == 1 && two[0] == '2');
    lemma_first_separator_is(two, space, 1);
    assert(split(rest, space) == seq![rest.take(1)] + split(two, space));
    assert(split(line, space) == seq![line.take(3)] + split(rest, space));
    let token = token_of(line);
    assert(token.mnemonic.len() == 3 && token.mnemonic[0] == 'F');
    assert(opcode_of(token.mnemonic) is None);
    let one = rest.take(1);
    assert(token.raw_args =~= seq![one, two]);
    assert(one.len() == 1 && one[0] == '1');
    assert(one.drop_last() == Seq::<char>::empty());
    assert(two.drop_last() == Seq::<char>::empty());
    assert(numeral_value(Seq::<char>::empty(), 16) == 0);
    assert(numeral_value(one, 16) == 1 && is_numeral(one, 16));
    assert(numeral_value(two, 16) == 2 && is_numeral(two, 16));
    assert(operand_of(one) is Ok && operand_of(two) is Ok);
    assert(is_silent(token));
    lemma_unknown_line_changes_nothing(before, line, after);
}

} // verus!
