//! The resolver: every register and every label gets the index at which its
//! name first occurs among the names of its kind, and each operand that
//! names one is rewritten to the decimal string of that index.

use vstd::prelude::*;
use crate::number::{decimal_digits, to_decimal};
use crate::operand::{Instruction, InstructionView, Operand, OperandKind, OperandView};
use crate::text::{lemma_position, lemma_position_is, lemma_position_kept, position};

verus! {

/// The two kinds of names. Each has a table of its own.
#[derive(Debug, Clone, Copy, PartialEq, Eq, Structural)]
pub enum Namespace {
    Registers,
    Labels,
}

impl OperandKind {
    /// The namespace of the payload, where the payload is a name. Definitions
    /// of labels and jumps to them share one namespace.
    pub open spec fn namespace(self) -> Option<Namespace> {
        match self {
            OperandKind::Register => Some(Namespace::Registers),
            OperandKind::LabelDef => Some(Namespace::Labels),
            OperandKind::JumpRef => Some(Namespace::Labels),
            _ => None,
        }
    }

    /// The namespace of the payload, where the payload is a name.
    pub fn namespace_of(self) -> (r: Option<Namespace>)
        ensures
            r == self.namespace(),
    {
        match self {
            OperandKind::Register => Some(Namespace::Registers),
            OperandKind::LabelDef => Some(Namespace::Labels),
            OperandKind::JumpRef => Some(Namespace::Labels),
            _ => None,
        }
    }
}

/// The names of registers and of labels, each in the order of first
/// occurrence; a name's index is its place in its table.
#[derive(Debug, Clone, PartialEq, Eq)]
pub struct SymbolTables {
    pub registers: Vec<String>,
    pub labels: Vec<String>,
}

/// The symbol tables as plain text.
pub struct SymbolTablesView {
    pub registers: Seq<Seq<char>>,
    pub labels: Seq<Seq<char>>,
}

impl SymbolTablesView {
    /// The table of one namespace.
    pub open spec fn table(self, ns: Namespace) -> Seq<Seq<char>> {
        match ns {
            Namespace::Registers => self.registers,
            Namespace::Labels => self.labels,
        }
    }

    /// No table holds a name twice.
    pub open spec fn well_formed(self) -> bool {
        self.registers.no_duplicates() && self.labels.no_duplicates()
    }
}

impl View for SymbolTables {
    type V = SymbolTablesView;

    open spec fn view(&self) -> SymbolTablesView {
        SymbolTablesView {
            registers: self.registers.deep_view(),
            labels: self.labels.deep_view(),
        }
    }
}

/// The names of one namespace among some operands, in order.
pub open spec fn names_in(operands: Seq<OperandView>, ns: Namespace) -> Seq<Seq<char>>
    decreases operands.len(),
{
    if operands.len() == 0 {
        seq![]
    } else if operands.last().kind.namespace() == Some(ns) {
        names_in(operands.drop_last(), ns).push(operands.last().payload)
    } else {
        names_in(operands.drop_last(), ns)
    }
}

/// The names of one namespace in a program, in source order.
pub open spec fn program_names(program: Seq<InstructionView>, ns: Namespace) -> Seq<Seq<char>>
    decreases program.len(),
{
    if program.len() == 0 {
        seq![]
    } else {
        program_names(program.drop_last(), ns) + names_in(program.last().operands, ns)
    }
}

/// A table after more names were seen: each name that it does not hold yet is
/// appended where it first occurs.
pub open spec fn first_seen_after(table: Seq<Seq<char>>, names: Seq<Seq<char>>) -> Seq<Seq<char>>
    decreases names.len(),
{
    if names.len() == 0 {
        table
    } else {
        let before = first_seen_after(table, names.drop_last());
        if before.contains(names.last()) {
            before
        } else {
            before.push(names.last())
        }
    }
}

/// The names without repetition: each stays where it first occurs.
pub open spec fn first_seen(names: Seq<Seq<char>>) -> Seq<Seq<char>> {
    first_seen_after(seq![], names)
}

/// The symbol tables of a program.
pub open spec fn symbols_of(program: Seq<InstructionView>) -> SymbolTablesView {
    SymbolTablesView {
        registers: first_seen(program_names(program, Namespace::Registers)),
        labels: first_seen(program_names(program, Namespace::Labels)),
    }
}

/// An operand rewritten by the tables: a name gives way to the decimal string
/// of its index; any other payload stays.
pub open spec fn resolved_operand(operand: OperandView, tables: SymbolTablesView) -> OperandView {
    match operand.kind.namespace() {
        Some(ns) => OperandView {
            payload: decimal_digits(position(tables.table(ns), operand.payload) as nat),
            kind: operand.kind,
        },
        None => operand,
    }
}

/// A program with each operand rewritten by the tables.
pub open spec fn resolved_with(program: Seq<InstructionView>, tables: SymbolTablesView) -> Seq<
    InstructionView,
> {
    Seq::new(
        program.len(),
        |i: int|
            InstructionView {
                mnemonic: program[i].mnemonic,
                operands: Seq::new(
                    program[i].operands.len(),
                    |j: int| resolved_operand(program[i].operands[j], tables),
                ),
            },
    )
}

/// A program with each operand rewritten by the program's own tables.
pub open spec fn resolved(program: Seq<InstructionView>) -> Seq<InstructionView> {
    resolved_with(program, symbols_of(program))
}

/// The tables `small` are the first entries of the tables `large`.
spec fn extends(large: SymbolTablesView, small: SymbolTablesView) -> bool {
    small.registers.is_prefix_of(large.registers) && small.labels.is_prefix_of(large.labels)
}

/// The tables hold the operand's name, if it has one.
spec fn covers(tables: SymbolTablesView, operand: OperandView) -> bool {
    operand.kind.namespace() matches Some(ns) ==> tables.table(ns).contains(operand.payload)
}

/// `rewritten` holds the operands of `unresolved`, each covered and rewritten
/// by the tables.
spec fn rewrites(
    unresolved: Seq<OperandView>,
    rewritten: Seq<OperandView>,
    tables: SymbolTablesView,
) -> bool {
    &&& rewritten.len() == unresolved.len()
    &&& forall|j: int|
        0 <= j < unresolved.len() ==> covers(tables, #[trigger] unresolved[j]) && rewritten[j]
            == resolved_operand(unresolved[j], tables)
}

/// `rewritten` holds the instructions of `unresolved`, each with its operands
/// covered and rewritten by the tables.
spec fn rewrites_program(
    unresolved: Seq<InstructionView>,
    rewritten: Seq<InstructionView>,
    tables: SymbolTablesView,
) -> bool {
    &&& rewritten.len() == unresolved.len()
    &&& forall|i: int|
        0 <= i < unresolved.len() ==> (#[trigger] rewritten[i]).mnemonic == unresolved[i].mnemonic
            && rewrites(unresolved[i].operands, rewritten[i].operands, tables)
}

/// Seeing two lists of names one after the other is seeing them as one list.
pub proof fn lemma_first_seen_after(first: Seq<Seq<char>>, second: Seq<Seq<char>>)
    ensures
        first_seen_after(first_seen(first), second) == first_seen(first + second),
    decreases second.len(),
{
    if second.len() == 0 {
        assert(first + second == first);
    } else {
        lemma_first_seen_after(first, second.drop_last());
        assert((first + second).drop_last() == first + second.drop_last());
    }
}

/// A table without repetition stays so when more names are seen.
pub proof fn lemma_first_seen_distinct(table: Seq<Seq<char>>, names: Seq<Seq<char>>)
    requires
        table.no_duplicates(),
    ensures
        first_seen_after(table, names).no_duplicates(),
    decreases names.len(),
{
    if names.len() > 0 {
        lemma_first_seen_distinct(table, names.drop_last());
    }
}

/// What was rewritten by some tables is rewritten alike by larger ones.
proof fn lemma_rewrites_kept(
    unresolved: Seq<OperandView>,
    rewritten: Seq<OperandView>,
    small: SymbolTablesView,
    large: SymbolTablesView,
)
    requires
        rewrites(unresolved, rewritten, small),
        extends(large, small),
    ensures
        rewrites(unresolved, rewritten, large),
{
    assert forall|j: int| 0 <= j < unresolved.len() implies covers(
        large,
        #[trigger] unresolved[j],
    ) && rewritten[j] == resolved_operand(unresolved[j], large) by {
        assert(covers(small, unresolved[j]));
        match unresolved[j].kind.namespace() {
            Some(ns) => {
                lemma_position_kept(small.table(ns), large.table(ns), unresolved[j].payload);
            },
            None => {},
        }
    }
}

/// A program that was rewritten by some tables is rewritten alike by larger
/// ones.
proof fn lemma_rewrites_program_kept(
    unresolved: Seq<InstructionView>,
    rewritten: Seq<InstructionView>,
    small: SymbolTablesView,
    large: SymbolTablesView,
)
    requires
        rewrites_program(unresolved, rewritten, small),
        extends(large, small),
    ensures
        rewrites_program(unresolved, rewritten, large),
{
    assert forall|i: int| 0 <= i < unresolved.len() implies (#[trigger] rewritten[i]).mnemonic
        == unresolved[i].mnemonic && rewrites(
        unresolved[i].operands,
        rewritten[i].operands,
        large,
    ) by {
        lemma_rewrites_kept(unresolved[i].operands, rewritten[i].operands, small, large);
    }
}

/// The index of `name` in `table`, where it is appended if the table does not
/// hold it yet.
pub fn intern(table: &mut Vec<String>, name: &String) -> (index: usize)
    ensures
        final(table).deep_view() == if old(table).deep_view().contains(name@) {
            old(table).deep_view()
        } else {
            old(table).deep_view().push(name@)
        },
        index == position(final(table).deep_view(), name@),
        index < final(table).len(),
        old(table).deep_view().no_duplicates() ==> final(table).deep_view().no_duplicates(),
{
    let ghost before = table.deep_view();
    let mut i: usize = 0;
    while i < table.len()
        invariant
            i <= table.len(),
            table.deep_view() == before,
            forall|j: int| 0 <= j < i ==> before[j] != name@,
        decreases table.len() - i,
    {
        assert(before[i as int] == table[i as int]@);
        if table[i] == *name {
            proof {
                lemma_position_is(before, name@, i as int);
            }
            return i;
        }
        i += 1;
    }
    table.push(name.clone());
    assert(table.deep_view() == before.push(name@));
    proof {
        lemma_position_is(table.deep_view(), name@, i as int);
    }
    i
}

/// Rewrites the operands of one instruction, and enters their names in the
/// tables.
fn resolve_operands(operands: &Vec<Operand>, tables: &mut SymbolTables) -> (out: Vec<Operand>)
    ensures
        extends(final(tables)@, old(tables)@),
        rewrites(operands.deep_view(), out.deep_view(), final(tables)@),
        final(tables)@.registers == first_seen_after(
            old(tables)@.registers,
            names_in(operands.deep_view(), Namespace::Registers),
        ),
        final(tables)@.labels == first_seen_after(
            old(tables)@.labels,
            names_in(operands.deep_view(), Namespace::Labels),
        ),
{
    let ghost unresolved = operands.deep_view();
    let mut out: Vec<Operand> = Vec::new();
    let mut j: usize = 0;
    assert(unresolved.take(0) == Seq::<OperandView>::empty());
    while j < operands.len()
        invariant
            j <= operands.len(),
            unresolved == operands.deep_view(),
            extends(tables@, old(tables)@),
            rewrites(unresolved.take(j as int), out.deep_view(), tables@),
            tables@.registers == first_seen_after(
                old(tables)@.registers,
                names_in(unresolved.take(j as int), Namespace::Registers),
            ),
            tables@.labels == first_seen_after(
                old(tables)@.labels,
                names_in(unresolved.take(j as int), Namespace::Labels),
            ),
        decreases operands.len() - j,
    {
        let ghost tables_before = tables@;
        let ghost out_before = out.deep_view();
        let operand = &operands[j];
        assert(operand@ == unresolved[j as int]);
        assert(unresolved.take(j + 1).drop_last() == unresolved.take(j as int));
        assert(unresolved.take(j + 1).last() == unresolved[j as int]);
        let payload = match operand.kind.namespace_of() {
            Some(Namespace::Registers) => {
                let index = intern(&mut tables.registers, &operand.payload);
                to_decimal(index as u64)
            },
            Some(Namespace::Labels) => {
                let index = intern(&mut tables.labels, &operand.payload);
                to_decimal(index as u64)
            },
            None => operand.payload.clone(),
        };
        proof {
            assert(extends(tables@, tables_before));
            lemma_rewrites_kept(unresolved.take(j as int), out_before, tables_before, tables@);
            match operand.kind.namespace() {
                Some(ns) => {
                    let t = tables@.table(ns);
                    lemma_position(t, operand.payload@);
                    assert(t[position(t, operand.payload@)] == operand.payload@);
                    let names = names_in(unresolved.take(j as int), ns);
                    assert(names.push(operand.payload@).drop_last() == names);
                },
                None => {},
            }
        }
        out.push(Operand { payload, kind: operand.kind });
        assert(out.deep_view() == out_before.push(
            resolved_operand(unresolved[j as int], tables@),
        ));
        j += 1;
    }
    assert(unresolved.take(j as int) == unresolved);
    out
}

/// Rewrites every operand that names a register or a label to the decimal
/// string of the name's index, and gives the tables of the names. The index
/// of a name is the number of other names of its namespace that occur before
/// its first occurrence in the program. A jump to a label that is defined
/// nowhere gets an index like any other name; it is not reported.
pub fn resolve(instructions: &mut Vec<Instruction>) -> (tables: SymbolTables)
    ensures
        tables@ == symbols_of(old(instructions).deep_view()),
        tables@.well_formed(),
        final(instructions).deep_view() == resolved(old(instructions).deep_view()),
{
    let ghost unresolved = instructions.deep_view();
    let mut tables = SymbolTables { registers: Vec::new(), labels: Vec::new() };
    let mut out: Vec<Instruction> = Vec::new();
    let mut i: usize = 0;
    assert(unresolved.take(0) == Seq::<InstructionView>::empty());
    assert(tables@.registers == Seq::<Seq<char>>::empty());
    assert(tables@.labels == Seq::<Seq<char>>::empty());
    while i < instructions.len()
        invariant
            i <= instructions.len(),
            unresolved == instructions.deep_view(),
            rewrites_program(unresolved.take(i as int), out.deep_view(), tables@),
            tables@ == symbols_of(unresolved.take(i as int)),
        decreases instructions.len() - i,
    {
        let ghost tables_before = tables@;
        let ghost out_before = out.deep_view();
        let instruction = &instructions[i];
        assert(instruction@ == unresolved[i as int]);
        assert(unresolved.take(i + 1).drop_last() == unresolved.take(i as int));
        assert(unresolved.take(i + 1).last() == unresolved[i as int]);
        let operands = resolve_operands(&instruction.operands, &mut tables);
        let rewritten = Instruction { mnemonic: instruction.mnemonic.clone(), operands };
        proof {
            lemma_rewrites_program_kept(
                unresolved.take(i as int),
                out_before,
                tables_before,
                tables@,
            );
            lemma_first_seen_after(
                program_names(unresolved.take(i as int), Namespace::Registers),
                names_in(unresolved[i as int].operands, Namespace::Registers),
            );
            lemma_first_seen_after(
                program_names(unresolved.take(i as int), Namespace::Labels),
                names_in(unresolved[i as int].operands, Namespace::Labels),
            );
        }
        out.push(rewritten);
        assert(out.deep_view() == out_before.push(rewritten@));
        i += 1;
    }
    assert(unresolved.take(i as int) == unresolved);
    assert(out.deep_view() =~= resolved(unresolved)) by {
        let target = resolved(unresolved);
        assert forall|a: int| 0 <= a < unresolved.len() implies out.deep_view()[a]
            == target[a] by {
            assert(out.deep_view()[a].mnemonic == unresolved[a].mnemonic);
            assert(rewrites(unresolved[a].operands, out.deep_view()[a].operands, tables@));
            assert(out.deep_view()[a].operands =~= target[a].operands);
        }
    }
    proof {
        lemma_first_seen_distinct(seq![], program_names(unresolved, Namespace::Registers));
        lemma_first_seen_distinct(seq![], program_names(unresolved, Namespace::Labels));
    }
    *instructions = out;
    tables
}

} // verus!
