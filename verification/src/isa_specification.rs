//! Descriptions of instruction sets: registers, instructions, their forms and fields.
use vstd::prelude::*;

use crate::bit::{is_pattern_char, pattern_of, variable_pattern, Bit, BitPattern};
use crate::collections::{
    duplicate_all, duplicate_option, lemma_viewed_push, same_all, same_option, viewed,
    viewed_option, Value,
};
use crate::instruction_semantics::{
    effect_views, Effect, EffectV, Expr, ExprV, FieldName, ValueName,
};

pub use crate::field_uses::FieldUses;
pub use crate::isa_candidate::instruction_valid_under_field_uses;

verus! {

#[derive(Debug)]
pub struct ISA {
    pub registers: Vec<ArchitecturalRegister>,
    pub instructions: Vec<Instruction>,
    /// Register used as stack pointer
    pub sp: StackPointer,
    /// Register used as program counter (even if the ISA
    /// does not literally use a GPR as the PC, it should be
    /// defined as an ArchitecturalRegister)
    pub pc: ArchitecturalRegister,
}

#[derive(Debug, Clone, Copy, PartialEq, Eq, Structural)]
pub struct StackPointer {
    /// Which register is used as the stack pointer
    /// This is assumed to point to the most recent item pushed to the stack
    /// Even if it points to the next item on the stack for some reason, this assumption does not
    /// lead to any errors but is merely slightly conservative.
    pub register: ArchitecturalRegister,
    /// How many bytes the symbolic solver can assume will be free above/below the current stack pointer
    /// Set to a conservative value to avoid accidental overwrites of real data.
    /// Either way, writing to the stack will be avoided, so it is unlikely a large value is needed.
    pub stack_size: u32,
    /// Direction the stack grows
    pub direction: StackDirection,
}

#[derive(Debug, Clone, Copy, PartialEq, Eq, Structural)]
pub enum StackDirection {
    Upwards,
    Downwards,
}

/// Definition of a register in the architecture.
/// You can set the identifier, the identifier width,
/// and the width of the register.
/// Identifiers should never overlap regardless of width.
///
/// Thus, for some architectures (eg those with floating point registers)
/// you may need to have identifiers differ slightly (eg adding an extra bit to denote
/// the type of register).
///
/// Importantly, however, you need to make sure that if a certain `width` and
/// `identifier_width` does not have 2^identifier_width registers (ie the identifiers are sparse)
/// with that identifier width, it is not possible for any instruction to
/// ever request any register which is undefined using a given selector width.
///     Notice the nuance that the register `width` also matters.
///     If R0-R14 are all 32 bits but R15 is 16 bits, and you create something
///     which indexes from a field to get a 16 bit register, and that field takes any
///     value other than 15, there will be issues which will manifest
///     in the form of bugs, rather than the form of a program panic.
///
/// Eg if you define R18 as the only 5 bit identifier_width,
/// you should only select other registers (eg R0-R15) using
/// a 4 bit identifier_width.
///
/// As such, you likely shouldn't mess with identifier width and sparsely
/// defining register identifiers unless you're using fixed register identifiers.
/// Register identifiers should never be sparse at an accessible level from the ISA.
#[derive(Debug, Clone, Copy, PartialEq, Eq, Hash, Structural)]
pub struct ArchitecturalRegister {
    pub identifier: u8,
    pub identifier_width: u8,
    pub width: u8,
}

impl View for ArchitecturalRegister {
    type V = ArchitecturalRegister;

    open spec fn view(&self) -> ArchitecturalRegister {
        *self
    }
}

impl Value for ArchitecturalRegister {
    fn same(&self, other: &Self) -> (r: bool) {
        *self == *other
    }

    fn duplicate(&self) -> (r: Self) {
        *self
    }
}

/// Enum which describes the two supported methods of PC modifications. If your program uses any
/// other methods, the superoptimization of the program won't work very well, as live-out registers
/// won't be properly identified.
/// Importantly, in the genetic algorithm, the instructions which support these must be unrestricted
/// - ie able to take any values.
#[derive(Debug, PartialEq, Eq)]
pub enum BranchOffset {
    /// Adds the value in the Expr to the decoded instruction's memory address (the add(mem_addr,
    /// ...) need not be included, it is implied). It is assumed that the address should be the same
    /// width as the Expr. As such, if there is a negative offset, Expr merely needs to be correctly
    /// sign extended.
    /// The Expr must evaluate to a Const when collapsed with a decoded instruction
    PCRelative(Expr),
    /// Indicates a register branch. It is assumed that all registers are live-out if there is a
    /// register branch. It is also assumed that a Register branch is to a location which is either
    /// itself immediately after a branch instruction and thus already inferred to be the start of a
    /// basic block (eg bx lr always branches to the instruction right after a `bl` instruction), or is
    /// branched to by some other piece of code. If this isn't the case, basic block analysis will not
    /// work properly, and there may be bugs in the final program.
    Register,
}

#[derive(Debug, PartialEq, Eq)]
pub struct Instruction {
    pub name: String,
    pub width: usize,
    /// An instruction can have multiple forms (eg immediate-shifted-registers vs register-shifted-register)
    pub forms: Vec<InstructionForm>,
    /// Each instruction has a set of effects which occur. An instruction should never
    /// have two effects which could possibly write to the same location.
    pub effects: Vec<Effect>,
    /// Branch instruction. Some if this instruction modifies the PC
    /// Note that this means branch instructions and any PC-modifying instructions necessarily must
    /// be fully separate from other instructions.
    /// This is used for basic block analysis.
    pub branch_instruction: Option<BranchOffset>,
}

#[derive(Debug, PartialEq, Eq)]
pub struct DecodedInstruction {
    pub name: String,
    pub form: InstructionForm,
    pub bits: Vec<Bit>,
    pub fields: Vec<DecodedField>,
    pub branch_instruction: Option<BranchOffset>,
    pub mem_addr: usize,
    /// Instruction must not be included in any rewrites. Usually because it includes some symbolic
    /// element (eg b label, eg ldr r0, label). We also consider a basic block boundary to occur at
    /// these instructions.
    pub static_instruction: bool,
    /// The line number in the assembly file which corresponds with this instruction. If the
    /// instruction is not set as `static_instruction`, this should be a valid input to greenthumb
    /// (ie without references to labels, etc)
    pub assembly_line: usize,
}

#[derive(Debug, PartialEq, Eq)]
pub struct DecodedField {
    pub name: Option<String>,
    pub value: BitPattern,
    pub merge_mode: MergeMode,
    pub is_immediate: bool,
    pub is_register_read: bool,
    pub is_register_write: bool,
}

#[derive(Debug, PartialEq, Eq)]
pub struct DerivedValue {
    pub name: ValueName,
    pub value: Expr,
}

#[derive(Debug, PartialEq, Eq)]
pub struct InstructionForm {
    pub name: String,
    pub fields: Vec<InstructionField>,
    /// Condition (on the instruction) for when the field is applicable (eg requiring a certain bit to be set to 1)
    /// For these predicates, use conjunctions of positive constraints. `fields_to_encodings`
    /// supports `And`, `FieldEq`, `FieldIn`, and `BitEq`.
    pub when: Predicate,
    /// Derived values for this instruction form for semantics (eg defining a certain "operand2 = Rm << Rs")
    pub derived_values: Vec<DerivedValue>,
}

#[derive(Debug, Clone, Copy, PartialEq, Eq, Hash, Structural)]
pub enum MergeMode {
    /// Merge by bit positions. If observed values differ in a bit, that bit becomes variable.
    ///
    /// Good for immediates, offsets, literal bitfields, etc.
    VariableBits,
    /// Merge by distinct used values.
    ///
    /// Good for register addresses, small selectors, opcodes, condition codes, etc.
    Uses,
}

#[derive(Debug, PartialEq, Eq)]
pub struct InstructionField {
    pub name: Option<FieldName>,
    pub pattern: BitPattern,
    pub merge_mode: MergeMode,
    pub is_immediate: bool,
    pub is_register_read: bool,
    pub is_register_write: bool,
}

#[allow(inconsistent_fields)]
/// A condition on a decoded instruction.
#[derive(Debug, PartialEq, Eq)]
pub enum Predicate {
    Always,
    Never,
    And(Vec<Predicate>),
    BitEq { index: usize, value: Bit },
    FieldEq { field_name: String, value: BitPattern },
    FieldIn { field_name: String, values: Vec<BitPattern> },
}

#[allow(inconsistent_fields)]
/// The shape of a predicate.
pub enum PredicateV {
    Always,
    Never,
    And(Seq<PredicateV>),
    BitEq { index: usize, value: Bit },
    FieldEq { field_name: Seq<char>, value: Seq<Bit> },
    FieldIn { field_name: Seq<char>, values: Seq<Seq<Bit>> },
}

/// The shape of a field, in a form or decoded.
pub struct FieldV {
    pub name: Option<Seq<char>>,
    pub bits: Seq<Bit>,
    pub merge_mode: MergeMode,
    pub is_immediate: bool,
    pub is_register_read: bool,
    pub is_register_write: bool,
}

/// The shape of a derived value.
pub struct DerivedV {
    pub name: Seq<char>,
    pub value: ExprV,
}

/// The shape of a form.
pub struct FormV {
    pub name: Seq<char>,
    pub fields: Seq<FieldV>,
    pub when: PredicateV,
    pub derived_values: Seq<DerivedV>,
}

/// The shape of a branch.
pub enum BranchV {
    PCRelative(ExprV),
    Register,
}

/// The shape of an instruction.
pub struct InstructionV {
    pub name: Seq<char>,
    pub width: usize,
    pub forms: Seq<FormV>,
    pub effects: Seq<EffectV>,
    pub branch_instruction: Option<BranchV>,
}

/// The shape of a decoded instruction.
pub struct DecodedV {
    pub name: Seq<char>,
    pub form: FormV,
    pub bits: Seq<Bit>,
    pub fields: Seq<FieldV>,
    pub branch_instruction: Option<BranchV>,
    pub mem_addr: usize,
    pub static_instruction: bool,
    pub assembly_line: usize,
}

impl View for BranchOffset {
    type V = BranchV;

    open spec fn view(&self) -> BranchV {
        match *self {
            BranchOffset::PCRelative(expr) => BranchV::PCRelative(expr@),
            BranchOffset::Register => BranchV::Register,
        }
    }
}

impl Value for BranchOffset {
    fn same(&self, other: &Self) -> (r: bool) {
        match (self, other) {
            (BranchOffset::PCRelative(a), BranchOffset::PCRelative(b)) => a.same(b),
            (BranchOffset::Register, BranchOffset::Register) => true,
            _ => false,
        }
    }

    fn duplicate(&self) -> (r: Self) {
        match self {
            BranchOffset::PCRelative(expr) => BranchOffset::PCRelative(expr.clone()),
            BranchOffset::Register => BranchOffset::Register,
        }
    }
}

impl View for DerivedValue {
    type V = DerivedV;

    open spec fn view(&self) -> DerivedV {
        DerivedV { name: self.name@, value: self.value@ }
    }
}

impl Value for DerivedValue {
    fn same(&self, other: &Self) -> (r: bool) {
        self.name.0 == other.name.0 && self.value.same(&other.value)
    }

    fn duplicate(&self) -> (r: Self) {
        DerivedValue { name: self.name.clone(), value: self.value.clone() }
    }
}

impl View for InstructionField {
    type V = FieldV;

    open spec fn view(&self) -> FieldV {
        FieldV {
            name: viewed_option(self.name),
            bits: self.pattern@,
            merge_mode: self.merge_mode,
            is_immediate: self.is_immediate,
            is_register_read: self.is_register_read,
            is_register_write: self.is_register_write,
        }
    }
}

impl Value for InstructionField {
    fn same(&self, other: &Self) -> (r: bool) {
        same_option(&self.name, &other.name) && self.pattern.same(&other.pattern)
            && self.merge_mode == other.merge_mode && self.is_immediate == other.is_immediate
            && self.is_register_read == other.is_register_read && self.is_register_write
            == other.is_register_write
    }

    fn duplicate(&self) -> (r: Self) {
        InstructionField {
            name: duplicate_option(&self.name),
            pattern: self.pattern.clone(),
            merge_mode: self.merge_mode,
            is_immediate: self.is_immediate,
            is_register_read: self.is_register_read,
            is_register_write: self.is_register_write,
        }
    }
}

impl View for DecodedField {
    type V = FieldV;

    open spec fn view(&self) -> FieldV {
        FieldV {
            name: viewed_option(self.name),
            bits: self.value@,
            merge_mode: self.merge_mode,
            is_immediate: self.is_immediate,
            is_register_read: self.is_register_read,
            is_register_write: self.is_register_write,
        }
    }
}

impl Value for DecodedField {
    fn same(&self, other: &Self) -> (r: bool) {
        same_option(&self.name, &other.name) && self.value.same(&other.value) && self.merge_mode
            == other.merge_mode && self.is_immediate == other.is_immediate && self.is_register_read
            == other.is_register_read && self.is_register_write == other.is_register_write
    }

    fn duplicate(&self) -> (r: Self) {
        DecodedField {
            name: duplicate_option(&self.name),
            value: self.value.clone(),
            merge_mode: self.merge_mode,
            is_immediate: self.is_immediate,
            is_register_read: self.is_register_read,
            is_register_write: self.is_register_write,
        }
    }
}

/// The shapes of a row of predicates.
pub open spec fn predicate_views(predicates: Seq<Predicate>) -> Seq<PredicateV>
    decreases predicates, 0nat,
{
    Seq::new(
        predicates.len(),
        |i: int|
            if 0 <= i < predicates.len() {
                predicate_view(predicates[i])
            } else {
                arbitrary()
            },
    )
}

/// The shape of a predicate.
pub open spec fn predicate_view(predicate: Predicate) -> PredicateV
    decreases predicate, 1nat,
{
    match predicate {
        Predicate::Always => PredicateV::Always,
        Predicate::Never => PredicateV::Never,
        Predicate::And(inner) => PredicateV::And(predicate_views(inner@)),
        Predicate::BitEq { index, value } => PredicateV::BitEq { index, value },
        Predicate::FieldEq { field_name, value } => PredicateV::FieldEq {
            field_name: field_name@,
            value: value@,
        },
        Predicate::FieldIn { field_name, values } => PredicateV::FieldIn {
            field_name: field_name@,
            values: viewed(values@),
        },
    }
}

impl View for Predicate {
    type V = PredicateV;

    open spec fn view(&self) -> PredicateV {
        predicate_view(*self)
    }
}

fn duplicate_predicates(predicates: &Vec<Predicate>) -> (r: Vec<Predicate>)
    ensures
        predicate_views(r@) == predicate_views(predicates@),
    decreases predicates, 0nat,
{
    let mut r: Vec<Predicate> = Vec::new();
    let mut i: usize = 0;
    while i < predicates.len()
        invariant
            i <= predicates@.len(),
            r@.len() == i,
            forall|j: int| 0 <= j < i ==> (#[trigger] r@[j])@ == predicates@[j]@,
        decreases predicates@.len() - i,
    {
        let copy = duplicate_predicate(&predicates[i]);
        r.push(copy);
        i += 1;
    }
    assert(predicate_views(r@) =~= predicate_views(predicates@));
    r
}

fn duplicate_predicate(predicate: &Predicate) -> (r: Predicate)
    ensures
        r@ == predicate@,
    decreases predicate, 1nat,
{
    match predicate {
        Predicate::Always => Predicate::Always,
        Predicate::Never => Predicate::Never,
        Predicate::And(inner) => Predicate::And(duplicate_predicates(inner)),
        Predicate::BitEq { index, value } => Predicate::BitEq { index: *index, value: *value },
        Predicate::FieldEq { field_name, value } => Predicate::FieldEq {
            field_name: field_name.clone(),
            value: value.clone(),
        },
        Predicate::FieldIn { field_name, values } => Predicate::FieldIn {
            field_name: field_name.clone(),
            values: duplicate_all(values),
        },
    }
}

fn same_predicates(a: &Vec<Predicate>, b: &Vec<Predicate>) -> (r: bool)
    ensures
        r == (predicate_views(a@) == predicate_views(b@)),
    decreases a, 0nat,
{
    if a.len() != b.len() {
        assert(predicate_views(a@).len() != predicate_views(b@).len());
        return false;
    }
    let mut i: usize = 0;
    while i < a.len()
        invariant
            i <= a@.len(),
            a@.len() == b@.len(),
            forall|j: int| 0 <= j < i ==> (#[trigger] a@[j])@ == b@[j]@,
        decreases a@.len() - i,
    {
        if !same_predicate(&a[i], &b[i]) {
            assert(predicate_views(a@)[i as int] != predicate_views(b@)[i as int]);
            return false;
        }
        i += 1;
    }
    assert(predicate_views(a@) =~= predicate_views(b@));
    true
}

fn same_predicate(a: &Predicate, b: &Predicate) -> (r: bool)
    ensures
        r == (a@ == b@),
    decreases a, 1nat,
{
    match (a, b) {
        (Predicate::Always, Predicate::Always) => true,
        (Predicate::Never, Predicate::Never) => true,
        (Predicate::And(x), Predicate::And(y)) => same_predicates(x, y),
        (
            Predicate::BitEq { index, value },
            Predicate::BitEq { index: index2, value: value2 },
        ) => *index == *index2 && *value == *value2,
        (
            Predicate::FieldEq { field_name, value },
            Predicate::FieldEq { field_name: name2, value: value2 },
        ) => *field_name == *name2 && value.same(value2),
        (
            Predicate::FieldIn { field_name, values },
            Predicate::FieldIn { field_name: name2, values: values2 },
        ) => *field_name == *name2 && same_all(values, values2),
        _ => false,
    }
}

impl Value for Predicate {
    fn same(&self, other: &Self) -> (r: bool) {
        same_predicate(self, other)
    }

    fn duplicate(&self) -> (r: Self) {
        duplicate_predicate(self)
    }
}

impl View for InstructionForm {
    type V = FormV;

    open spec fn view(&self) -> FormV {
        FormV {
            name: self.name@,
            fields: viewed(self.fields@),
            when: self.when@,
            derived_values: viewed(self.derived_values@),
        }
    }
}

impl Value for InstructionForm {
    fn same(&self, other: &Self) -> (r: bool) {
        self.name == other.name && same_all(&self.fields, &other.fields) && self.when.same(
            &other.when,
        ) && same_all(&self.derived_values, &other.derived_values)
    }

    fn duplicate(&self) -> (r: Self) {
        InstructionForm {
            name: self.name.clone(),
            fields: duplicate_all(&self.fields),
            when: self.when.duplicate(),
            derived_values: duplicate_all(&self.derived_values),
        }
    }
}

impl View for Instruction {
    type V = InstructionV;

    open spec fn view(&self) -> InstructionV {
        InstructionV {
            name: self.name@,
            width: self.width,
            forms: viewed(self.forms@),
            effects: effect_views(self.effects@),
            branch_instruction: viewed_option(self.branch_instruction),
        }
    }
}

impl View for DecodedInstruction {
    type V = DecodedV;

    open spec fn view(&self) -> DecodedV {
        DecodedV {
            name: self.name@,
            form: self.form@,
            bits: self.bits@,
            fields: viewed(self.fields@),
            branch_instruction: viewed_option(self.branch_instruction),
            mem_addr: self.mem_addr,
            static_instruction: self.static_instruction,
            assembly_line: self.assembly_line,
        }
    }
}

impl Value for DecodedInstruction {
    fn same(&self, other: &Self) -> (r: bool) {
        let bits_same = BitPattern { bits: crate::bit::copy_bits(&self.bits) }.same(
            &BitPattern { bits: crate::bit::copy_bits(&other.bits) },
        );
        self.name == other.name && self.form.same(&other.form) && bits_same && same_all(
            &self.fields,
            &other.fields,
        ) && same_option(&self.branch_instruction, &other.branch_instruction) && self.mem_addr
            == other.mem_addr && self.static_instruction == other.static_instruction
            && self.assembly_line == other.assembly_line
    }

    fn duplicate(&self) -> (r: Self) {
        DecodedInstruction {
            name: self.name.clone(),
            form: self.form.duplicate(),
            bits: crate::bit::copy_bits(&self.bits),
            fields: duplicate_all(&self.fields),
            branch_instruction: duplicate_option(&self.branch_instruction),
            mem_addr: self.mem_addr,
            static_instruction: self.static_instruction,
            assembly_line: self.assembly_line,
        }
    }
}

impl Value for Instruction {
    fn same(&self, other: &Self) -> (r: bool) {
        self.name == other.name && self.width == other.width && same_all(
            &self.forms,
            &other.forms,
        ) && crate::instruction_semantics::same_effects(&self.effects, &other.effects)
            && same_option(&self.branch_instruction, &other.branch_instruction)
    }

    fn duplicate(&self) -> (r: Self) {
        Instruction {
            name: self.name.clone(),
            width: self.width,
            forms: duplicate_all(&self.forms),
            effects: crate::instruction_semantics::clone_effects(&self.effects),
            branch_instruction: duplicate_option(&self.branch_instruction),
        }
    }
}

impl Clone for BranchOffset {
    fn clone(&self) -> (r: Self)
        ensures
            r@ == self@,
    {
        self.duplicate()
    }
}

impl Clone for DerivedValue {
    fn clone(&self) -> (r: Self)
        ensures
            r@ == self@,
    {
        self.duplicate()
    }
}

impl Clone for InstructionField {
    fn clone(&self) -> (r: Self)
        ensures
            r@ == self@,
    {
        self.duplicate()
    }
}

impl Clone for DecodedField {
    fn clone(&self) -> (r: Self)
        ensures
            r@ == self@,
    {
        self.duplicate()
    }
}

impl Clone for Predicate {
    fn clone(&self) -> (r: Self)
        ensures
            r@ == self@,
    {
        self.duplicate()
    }
}

impl Clone for InstructionForm {
    fn clone(&self) -> (r: Self)
        ensures
            r@ == self@,
    {
        self.duplicate()
    }
}

impl Clone for DecodedInstruction {
    fn clone(&self) -> (r: Self)
        ensures
            r@ == self@,
    {
        self.duplicate()
    }
}

impl Clone for Instruction {
    fn clone(&self) -> (r: Self)
        ensures
            r@ == self@,
    {
        self.duplicate()
    }
}

impl Clone for ISA {
    fn clone(&self) -> (r: Self)
        ensures
            viewed(r.registers@) == viewed(self.registers@),
            viewed(r.instructions@) == viewed(self.instructions@),
            r.sp == self.sp,
            r.pc == self.pc,
    {
        ISA {
            registers: duplicate_all(&self.registers),
            instructions: duplicate_all(&self.instructions),
            sp: self.sp,
            pc: self.pc,
        }
    }
}

impl Instruction {
    pub fn new(name: &str, width: usize) -> (r: Self)
        ensures
            r@ == (InstructionV {
                name: name@,
                width,
                forms: seq![],
                effects: seq![],
                branch_instruction: None,
            }),
    {
        let r = Self {
            name: name.to_owned(),
            width,
            forms: Vec::new(),
            effects: Vec::new(),
            branch_instruction: None,
        };
        assert(r@.forms =~= seq![]);
        assert(r@.effects =~= seq![]);
        r
    }

    pub fn branch_instruction(self, branch_instruction: BranchOffset) -> (r: Self)
        ensures
            r@ == (InstructionV { branch_instruction: Some(branch_instruction@), ..self@ }),
    {
        Instruction {
            name: self.name,
            width: self.width,
            forms: self.forms,
            effects: self.effects,
            branch_instruction: Some(branch_instruction),
        }
    }

    /// Adds a form, which has the width of the instruction.
    pub fn form(self, form: InstructionForm) -> (r: Self)
        requires
            fields_width(form@.fields) == self.width,
        ensures
            r@ == (InstructionV { forms: self@.forms.push(form@), ..self@ }),
    {
        let mut r = self;
        proof {
            lemma_viewed_push(r.forms@, form);
        }
        r.forms.push(form);
        r
    }

    pub fn effect(self, effect: Effect) -> (r: Self)
        ensures
            r@ == (InstructionV { effects: self@.effects.push(effect@), ..self@ }),
    {
        let mut r = self;
        let ghost before = r.effects@;
        r.effects.push(effect);
        assert(effect_views(r.effects@) =~= effect_views(before).push(effect@));
        r
    }
}

/// The number of bits of a row of fields.
pub open spec fn fields_width(fields: Seq<FieldV>) -> nat
    decreases fields.len(),
{
    if fields.len() == 0 {
        0
    } else {
        fields_width(fields.drop_last()) + fields.last().bits.len()
    }
}

impl InstructionForm {
    pub fn new(name: &str) -> (r: Self)
        ensures
            r@ == (FormV {
                name: name@,
                fields: seq![],
                when: PredicateV::Always,
                derived_values: seq![],
            }),
    {
        let r = Self {
            name: name.to_owned(),
            fields: Vec::new(),
            when: Predicate::Always,
            derived_values: Vec::new(),
        };
        assert(r@.fields =~= seq![]);
        assert(r@.derived_values =~= seq![]);
        r
    }

    pub fn field(self, field: InstructionField) -> (r: Self)
        ensures
            r@ == (FormV { fields: self@.fields.push(field@), ..self@ }),
    {
        let mut r = self;
        proof {
            lemma_viewed_push(r.fields@, field);
        }
        r.fields.push(field);
        r
    }

    pub fn fields(self, fields: Vec<InstructionField>) -> (r: Self)
        ensures
            r@ == (FormV { fields: self@.fields + viewed(fields@), ..self@ }),
    {
        let mut r = self;
        let mut fields = fields;
        let ghost before = r.fields@;
        let ghost added = fields@;
        r.fields.append(&mut fields);
        assert(viewed(r.fields@) =~= viewed(before) + viewed(added));
        r
    }

    pub fn when(self, predicate: Predicate) -> (r: Self)
        ensures
            r@ == (FormV { when: predicate@, ..self@ }),
    {
        let mut r = self;
        r.when = predicate;
        r
    }

    pub fn derived_value(self, derived_value: DerivedValue) -> (r: Self)
        ensures
            r@ == (FormV { derived_values: self@.derived_values.push(derived_value@), ..self@ }),
    {
        let mut r = self;
        proof {
            lemma_viewed_push(r.derived_values@, derived_value);
        }
        r.derived_values.push(derived_value);
        r
    }

    /// The number of bits of the form.
    pub fn width(&self) -> (r: usize)
        requires
            fields_width(self@.fields) <= usize::MAX,
        ensures
            r == fields_width(self@.fields),
    {
        let ghost all = viewed(self.fields@);
        let mut total: usize = 0;
        let mut i: usize = 0;
        assert(all.take(0) =~= Seq::empty());
        while i < self.fields.len()
            invariant
                i <= self.fields@.len(),
                all == viewed(self.fields@),
                fields_width(all) <= usize::MAX,
                total == fields_width(all.take(i as int)),
            decreases self.fields@.len() - i,
        {
            proof {
                assert(all.take(i + 1).drop_last() =~= all.take(i as int));
                assert(all.take(i + 1).last() == self.fields@[i as int]@);
                lemma_width_prefix(all, i + 1);
            }
            total = total + self.fields[i].width();
            i += 1;
        }
        assert(all.take(i as int) =~= all);
        total
    }
}

/// A form without fields has no bits, and each field adds its own.
pub proof fn lemma_fields_width(fields: Seq<FieldV>, field: FieldV)
    ensures
        fields_width(Seq::empty()) == 0,
        fields_width(fields.push(field)) == fields_width(fields) + field.bits.len(),
{
    assert(fields.push(field).drop_last() =~= fields);
}

/// A prefix of a row of fields is not wider than the row.
pub proof fn lemma_width_prefix(fields: Seq<FieldV>, k: int)
    requires
        0 <= k <= fields.len(),
    ensures
        fields_width(fields.take(k)) <= fields_width(fields),
    decreases fields.len(),
{
    if k == fields.len() {
        assert(fields.take(k) =~= fields);
    } else {
        lemma_width_prefix(fields.drop_last(), k);
        assert(fields.drop_last().take(k) =~= fields.take(k));
    }
}

/// A plain field: merged by bits, no operand.
pub open spec fn plain_field(name: Option<Seq<char>>, bits: Seq<Bit>) -> FieldV {
    FieldV {
        name,
        bits,
        merge_mode: MergeMode::VariableBits,
        is_immediate: false,
        is_register_read: false,
        is_register_write: false,
    }
}

impl InstructionField {
    pub fn named(name: &str, pattern: BitPattern) -> (r: Self)
        ensures
            r@ == plain_field(Some(name@), pattern@),
    {
        Self {
            name: Some(name.to_owned()),
            pattern,
            merge_mode: MergeMode::VariableBits,
            is_immediate: false,
            is_register_read: false,
            is_register_write: false,
        }
    }

    pub fn constant(bits: &str) -> (r: Self)
        requires
            forall|i: int| 0 <= i < bits@.len() ==> is_pattern_char(#[trigger] bits@[i]),
        ensures
            r@ == plain_field(None, pattern_of(bits@)),
    {
        Self {
            name: None,
            pattern: BitPattern::parse(bits),
            merge_mode: MergeMode::VariableBits,
            is_immediate: false,
            is_register_read: false,
            is_register_write: false,
        }
    }

    pub fn variable(name: &str, width: usize) -> (r: Self)
        ensures
            r@ == plain_field(Some(name@), variable_pattern(width as nat)),
    {
        Self {
            name: Some(name.to_owned()),
            pattern: BitPattern::variable(width),
            merge_mode: MergeMode::VariableBits,
            is_immediate: false,
            is_register_read: false,
            is_register_write: false,
        }
    }

    pub fn merge_mode_uses(self) -> (r: Self)
        ensures
            r@ == (FieldV { merge_mode: MergeMode::Uses, ..self@ }),
    {
        let mut r = self;
        r.merge_mode = MergeMode::Uses;
        r
    }

    pub fn merge_mode_variable_bits(self) -> (r: Self)
        ensures
            r@ == (FieldV { merge_mode: MergeMode::VariableBits, ..self@ }),
    {
        let mut r = self;
        r.merge_mode = MergeMode::VariableBits;
        r
    }

    pub fn immediate(self) -> (r: Self)
        ensures
            r@ == (FieldV { is_immediate: true, ..self@ }),
    {
        let mut r = self;
        r.is_immediate = true;
        r
    }

    pub fn register_read(self) -> (r: Self)
        ensures
            r@ == (FieldV { is_register_read: true, ..self@ }),
    {
        let mut r = self;
        r.is_register_read = true;
        r
    }

    pub fn register_write(self) -> (r: Self)
        ensures
            r@ == (FieldV { is_register_write: true, ..self@ }),
    {
        let mut r = self;
        r.is_register_write = true;
        r
    }

    pub fn register_read_write(self) -> (r: Self)
        ensures
            r@ == (FieldV { is_register_read: true, is_register_write: true, ..self@ }),
    {
        let mut r = self;
        r.is_register_read = true;
        r.is_register_write = true;
        r
    }

    pub fn width(&self) -> (r: usize)
        ensures
            r == self@.bits.len(),
    {
        self.pattern.len()
    }
}

/// Helper function to create a constant instruction field
pub fn c(bits: &'static str) -> (r: InstructionField)
    requires
        forall|i: int| 0 <= i < bits@.len() ==> is_pattern_char(#[trigger] bits@[i]),
    ensures
        r@ == plain_field(None, pattern_of(bits@)),
{
    InstructionField::constant(bits)
}

/// Requires a bit of the encoding to have a value that is not variable.
pub fn bit_eq(index: usize, value: Bit) -> (r: Predicate)
    requires
        value != Bit::Var,
    ensures
        r@ == (PredicateV::BitEq { index, value }),
{
    Predicate::BitEq { index, value }
}

/// Requires a field to have a value.
pub fn field_eq(name: &str, value: &str) -> (r: Predicate)
    requires
        forall|i: int| 0 <= i < value@.len() ==> is_pattern_char(#[trigger] value@[i]),
    ensures
        r@ == (PredicateV::FieldEq { field_name: name@, value: pattern_of(value@) }),
{
    Predicate::FieldEq { field_name: name.to_owned(), value: BitPattern::parse(value) }
}

/// Requires a field to match one of several patterns.
pub fn field_in(name: &str, values: Vec<&str>) -> (r: Predicate)
    requires
        forall|k: int, i: int|
            0 <= k < values@.len() && 0 <= i < values@[k]@.len() ==> is_pattern_char(
                #[trigger] values@[k]@[i],
            ),
    ensures
        r@ == (PredicateV::FieldIn {
            field_name: name@,
            values: Seq::new(values@.len(), |k: int| pattern_of(values@[k]@)),
        }),
{
    let mut patterns: Vec<BitPattern> = Vec::new();
    let mut k: usize = 0;
    while k < values.len()
        invariant
            k <= values@.len(),
            patterns@.len() == k,
            forall|k: int, i: int|
                0 <= k < values@.len() && 0 <= i < values@[k]@.len() ==> is_pattern_char(
                    #[trigger] values@[k]@[i],
                ),
            forall|j: int| 0 <= j < k ==> (#[trigger] patterns@[j])@ == pattern_of(values@[j]@),
        decreases values@.len() - k,
    {
        patterns.push(BitPattern::parse(values[k]));
        k += 1;
    }
    assert(viewed(patterns@) =~= Seq::new(values@.len(), |k: int| pattern_of(values@[k]@)));
    Predicate::FieldIn { field_name: name.to_owned(), values: patterns }
}

/// Requires all of several predicates.
pub fn and(predicates: Vec<Predicate>) -> (r: Predicate)
    ensures
        r@ == PredicateV::And(predicate_views(predicates@)),
{
    Predicate::And(predicates)
}

} // verus!
