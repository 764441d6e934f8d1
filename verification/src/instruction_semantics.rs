//! Symbolic expressions that describe what instructions compute, and the effects that
//! instructions have on registers and memory.
use vstd::prelude::*;

verus! {

#[allow(inconsistent_fields)]
/// Symbolic expression used to describe instruction semantics.
///
/// An `Expr` is not evaluated when an instruction is decoded. Instead, it is an
/// architecture-neutral expression tree that names the values an instruction
/// would read, compute, compare, and write. Instruction forms can bind
/// `DerivedValue`s such as `operand2` or `address`, and instruction effects can
/// refer to those derived values when describing register and memory updates.
///
/// Widths are intentionally carried by the leaves and by operations that change
/// width. Most operators are expected to be used on compatible bit-vector
/// widths. Boolean conditions are represented as 1-bit expressions where `1`
/// means true and `0` means false.
///
/// Fixed-width arithmetic, logical, comparison, and shift operators require
/// equal operand widths. Exceptions are explicitly modeled: concatenation
/// combines different widths, `Select` has a 1-bit condition plus equal-width
/// result arms, and carry/borrow helpers have a separate 1-bit flag input.
/// Some width errors are detected only after fields have been collapsed.
#[derive(Debug, PartialEq, Eq)]
pub enum Expr {
    /// Literal bit-vector value with an explicit width.
    ///
    /// `value` is interpreted modulo `2^width`; callers should pass values that
    /// fit in the requested width to keep semantics readable. This is used for
    /// immediate constants, fixed offsets, boolean literals, and masks.
    Const { value: u128, width: u16 },

    /// Value taken directly from the decoded instruction.
    ///
    /// Register operands represent register numbers, not register contents.
    /// Immediate operands represent the bit-vector stored in an instruction
    /// field. Use `ReadRegister` to turn a register-number operand into the
    /// current register value.
    Operand(OperandRef),

    /// Reference to a value computed by the matching instruction form.
    ///
    /// This lets several forms share one instruction-level effect. For example,
    /// ARM data-processing effects can use `operand2` while each form defines
    /// whether `operand2` came from an immediate, an immediate-shifted register,
    /// or a register-shifted register.
    DerivedValue(ValueName),

    /// Read the current value of a register.
    ///
    /// `register` evaluates to a register identifier, commonly an
    /// `Operand(RegisterField(_))` or a fixed virtual register. `width` is the
    /// width of the value read from that register, not the width of the register
    /// identifier expression. Register reads are part of the pre-instruction
    /// state; effects describe writes separately.
    ReadRegister { register: Box<Expr>, width: u16 },

    /// Read a bit-vector from memory.
    ///
    /// `address` is the byte address expression. `width` is the number of bits
    /// loaded from memory, such as 8, 16, 32, or 64. Endianness/alignment
    /// policies are intentionally left to the ISA specification that builds the
    /// expression.
    ReadMemory { address: Box<Expr>, width: u16 },

    /// Wrapping bit-vector addition.
    Add(Box<Expr>, Box<Expr>),

    /// Wrapping bit-vector subtraction.
    Sub(Box<Expr>, Box<Expr>),

    /// Bit-vector multiplication, producing the generic product of two numbers of width w,
    /// where the product also has width w. Importantly, that means if you want to
    /// multiply two 16 bit numbers to get a signed 32 bit number, you must sign extend
    /// both 16 bit numbers to 32 bits, or else the result of Expr::Mul will be assumed to be
    /// 16 bits. This is to avoid needing a separate signed and unsigned multiplication.
    ///
    /// ISA specs should explicitly `Extract`, `ZeroExtend`, or `SignExtend`
    /// around multiplication when a fixed architectural width matters.
    Mul(Box<Expr>, Box<Expr>),

    /// Bitwise AND. Also used for boolean conjunction on 1-bit expressions.
    And(Box<Expr>, Box<Expr>),

    /// Bitwise OR. Also used for boolean disjunction on 1-bit expressions.
    Or(Box<Expr>, Box<Expr>),

    /// Bitwise XOR. Also used for boolean inequality on 1-bit expressions.
    Xor(Box<Expr>, Box<Expr>),

    /// Bitwise NOT. On a 1-bit expression, this is boolean negation.
    Not(Box<Expr>),

    /// Logical left shift of a bit-vector by an unsigned shift amount.
    ShiftLeft(Box<Expr>, Box<Expr>),

    /// Logical right shift of a bit-vector by an unsigned shift amount.
    LogicalShiftRight(Box<Expr>, Box<Expr>),

    /// Arithmetic right shift of a signed bit-vector by an unsigned shift
    /// amount, preserving the input sign bit.
    ArithmeticShiftRight(Box<Expr>, Box<Expr>),

    /// Rotate a bit-vector right by an unsigned amount.
    ///
    /// The intended semantics are the usual bit-vector rotate: the amount is
    /// effectively taken modulo the width of the value being rotated.
    RotateRight(Box<Expr>, Box<Expr>),

    /// Equality comparison, returning a 1-bit boolean expression.
    Equal(Box<Expr>, Box<Expr>),

    /// Unsigned less-than comparison, returning a 1-bit boolean expression.
    UnsignedLessThan(Box<Expr>, Box<Expr>),

    /// Signed less-than comparison, returning a 1-bit boolean expression.
    SignedLessThan(Box<Expr>, Box<Expr>),

    /// Extract a contiguous bit range from a bit-vector.
    ///
    /// `high` and `low` are inclusive bit indices, with bit 0 as the least
    /// significant bit. The result width is `high - low + 1`.
    ///
    Extract {
        value: Box<Expr>,
        high: u16,
        low: u16,
    },

    /// Concatenate bit-vectors from most-significant chunk to least-significant
    /// chunk.
    ///
    /// For example, `Concat([a, b])` places `a` above `b`; if both are 16 bits,
    /// the result is a 32-bit value with `a` in bits 31:16.
    ///
    /// Concat is the exception to the rule that all operand expressions must have the same bit width
    /// You can eg concatenate a 4 bit and 12 bit vector to make 16 bits.
    Concat(Vec<Expr>),

    /// Zero-extend a bit-vector to `to_width` bits.
    ///
    /// The input width must be less than or equal to `to_width`.
    ZeroExtend { value: Box<Expr>, to_width: u16 },

    /// Sign-extend a bit-vector to `to_width` bits.
    ///
    /// The input's most significant bit is replicated into the new high bits.
    /// The input width must be less than or equal to `to_width`.
    SignExtend { value: Box<Expr>, to_width: u16 },

    /// Count the number of set bits in a bit-vector.
    ///
    /// This is useful for instruction forms such as register-list transfers.
    /// Consumers should choose an output width large enough for the source width.
    CountOnes(Box<Expr>),

    /// Carry-out bit from `lhs + rhs + carry_in` at `width` bits.
    ///
    /// Returns a 1-bit boolean expression. `carry_in` is expected to be 1 bit.
    /// This models unsigned carry for flag updates without requiring the full
    /// widened sum to be materialized elsewhere in the expression tree.
    AddCarryOut {
        lhs: Box<Expr>,
        rhs: Box<Expr>,
        carry_in: Box<Expr>,
        width: u16,
    },

    /// Signed overflow bit from `lhs + rhs + carry_in` at `width` bits.
    ///
    /// Returns a 1-bit boolean expression. `carry_in` is expected to be 1 bit.
    /// This models two's-complement overflow for flag updates.
    AddOverflow {
        lhs: Box<Expr>,
        rhs: Box<Expr>,
        carry_in: Box<Expr>,
        width: u16,
    },

    /// Carry-out bit from `lhs - rhs - borrow_in` at `width` bits.
    ///
    /// Returns a 1-bit boolean expression. `borrow_in` is expected to be 1 bit.
    /// Architectures such as ARM define the subtraction carry flag as "not
    /// borrow", so this expression returns the architectural carry-out, not the
    /// raw borrow bit.
    SubCarryOut {
        lhs: Box<Expr>,
        rhs: Box<Expr>,
        borrow_in: Box<Expr>,
        width: u16,
    },

    /// Signed overflow bit from `lhs - rhs - borrow_in` at `width` bits.
    ///
    /// Returns a 1-bit boolean expression. `borrow_in` is expected to be 1 bit.
    /// This models two's-complement overflow for subtraction-style flag updates.
    SubOverflow {
        lhs: Box<Expr>,
        rhs: Box<Expr>,
        borrow_in: Box<Expr>,
        width: u16,
    },

    /// Conditional expression.
    ///
    /// `condition` is a 1-bit boolean expression. The two value arms should have
    /// the same width; the result has that shared width. This is the main way to
    /// encode opcode tables, conditional execution, addressing mode choices, and
    /// ISA-specific special cases while keeping the AST purely functional.
    Select {
        condition: Box<Expr>,
        when_true: Box<Expr>,
        when_false: Box<Expr>,
    },
}

/// Name of a form-local derived semantic value.
#[derive(Debug, PartialEq, Eq, Hash)]
pub struct ValueName(
    /// Owned identifier used to match a form's derived-value definition.
    pub String,
);

/// Name of a decoded instruction field.
pub type FieldName = String;

/// A decoded instruction operand that can appear inside an expression.
///
/// Operand references name bits from the instruction encoding. They are not
/// mutable state and do not themselves read architectural registers.
#[derive(Debug, PartialEq, Eq)]
pub enum OperandRef {
    /// Register-number operand.
    ///
    /// This evaluates to the architectural register identifier encoded by the
    /// instruction field, or to a fixed virtual/architectural register. Wrap it
    /// in `ReadRegister` to get the register's current value.
    RegisterField(RegisterRef),

    /// Immediate field operand.
    ///
    /// This evaluates to the raw decoded field bits, with width implied by the
    /// field definition in the matching instruction form.
    ImmediateField(FieldName),
}

/// Source for a register identifier used by `OperandRef::RegisterField`.
#[derive(Debug, PartialEq, Eq)]
pub enum RegisterRef {
    /// A fixed architectural or virtual register identifier.
    ///
    /// `identifier_width` is the width of the register identifier expression, not
    /// the width of the register's stored value.
    /// `identifier_width` must be consistent the ISA's ArchitecturalRegisters
    /// If it is not, the boolean equivalence for the Expr will fail to find
    /// the register.
    Fixed {
        register: Register,
        identifier_width: u16,
    },

    /// A register identifier decoded from an instruction field.
    FromField(FieldName),
}

/// Register struct which defines enumerated fixed registers
/// This does not necessarily need to match with the exact ISA definition of registers
/// For example, for an ISA with only 16 general purpose registers, you may still choose to define Register(20)
/// if there is some value stored in state that needs to be stored.
/// This should be used for ALL state that isn't memory (including eg flags).
#[derive(Clone, Copy, Debug, PartialEq, Eq, Hash, Structural)]
pub struct Register(
    /// Numeric architectural or virtual register identifier.
    pub u8,
);

/// Effect of an instruction
/// Every effect is either on a register or memory
/// This is sufficient to encapsulate the whole system because you can effectively create
/// "virtual" register addresses
/// For example, while ARM, in reality, only has r0-r15, it also has the NZCV flags.
/// The behavior of these can be modeled by saying that the register with FieldId = 16 is eg the negative flag
#[derive(Debug, PartialEq, Eq)]
pub enum Effect {
    /// Conditionally write an architectural or virtual register.
    ///
    /// `guard` is a 1-bit boolean expression; if false, the write does not
    /// happen. `register` evaluates to the register identifier to update.
    /// `value` is the bit-vector written to that register.
    WriteRegister {
        guard: Expr,
        register: Expr,
        value: Expr,
    },

    /// Conditionally write memory.
    ///
    /// `guard` is a 1-bit boolean expression; if false, the write does not
    /// happen. `address` is a byte address. `value` supplies the data bits, and
    /// `width` is the number of memory bits written.
    WriteMemory {
        guard: Expr,
        address: Expr,
        value: Expr,
        width: u16,
    },
}

/// The mathematical shape of an operand reference.
pub enum OperandV {
    RegisterField(RegisterV),
    ImmediateField(Seq<char>),
}

/// The mathematical shape of a register reference.
pub enum RegisterV {
    Fixed { register: u8, identifier_width: u16 },
    FromField(Seq<char>),
}

#[allow(inconsistent_fields)]
/// The mathematical shape of an expression: names are character sequences and the
/// chunks of a concatenation are a sequence.
pub enum ExprV {
    Const { value: u128, width: u16 },
    Operand(OperandV),
    DerivedValue(Seq<char>),
    ReadRegister { register: Box<ExprV>, width: u16 },
    ReadMemory { address: Box<ExprV>, width: u16 },
    Add(Box<ExprV>, Box<ExprV>),
    Sub(Box<ExprV>, Box<ExprV>),
    Mul(Box<ExprV>, Box<ExprV>),
    And(Box<ExprV>, Box<ExprV>),
    Or(Box<ExprV>, Box<ExprV>),
    Xor(Box<ExprV>, Box<ExprV>),
    Not(Box<ExprV>),
    ShiftLeft(Box<ExprV>, Box<ExprV>),
    LogicalShiftRight(Box<ExprV>, Box<ExprV>),
    ArithmeticShiftRight(Box<ExprV>, Box<ExprV>),
    RotateRight(Box<ExprV>, Box<ExprV>),
    Equal(Box<ExprV>, Box<ExprV>),
    UnsignedLessThan(Box<ExprV>, Box<ExprV>),
    SignedLessThan(Box<ExprV>, Box<ExprV>),
    Extract { value: Box<ExprV>, high: u16, low: u16 },
    Concat(Seq<ExprV>),
    ZeroExtend { value: Box<ExprV>, to_width: u16 },
    SignExtend { value: Box<ExprV>, to_width: u16 },
    CountOnes(Box<ExprV>),
    AddCarryOut { lhs: Box<ExprV>, rhs: Box<ExprV>, carry_in: Box<ExprV>, width: u16 },
    AddOverflow { lhs: Box<ExprV>, rhs: Box<ExprV>, carry_in: Box<ExprV>, width: u16 },
    SubCarryOut { lhs: Box<ExprV>, rhs: Box<ExprV>, borrow_in: Box<ExprV>, width: u16 },
    SubOverflow { lhs: Box<ExprV>, rhs: Box<ExprV>, borrow_in: Box<ExprV>, width: u16 },
    Select { condition: Box<ExprV>, when_true: Box<ExprV>, when_false: Box<ExprV> },
}

/// The mathematical shape of an effect.
pub enum EffectV {
    WriteRegister { guard: ExprV, register: ExprV, value: ExprV },
    WriteMemory { guard: ExprV, address: ExprV, value: ExprV, width: u16 },
}

impl View for ValueName {
    type V = Seq<char>;

    open spec fn view(&self) -> Seq<char> {
        self.0@
    }
}

impl View for RegisterRef {
    type V = RegisterV;

    open spec fn view(&self) -> RegisterV {
        match *self {
            RegisterRef::Fixed { register, identifier_width } => RegisterV::Fixed {
                register: register.0,
                identifier_width,
            },
            RegisterRef::FromField(name) => RegisterV::FromField(name@),
        }
    }
}

impl View for OperandRef {
    type V = OperandV;

    open spec fn view(&self) -> OperandV {
        match *self {
            OperandRef::RegisterField(register) => OperandV::RegisterField(register@),
            OperandRef::ImmediateField(name) => OperandV::ImmediateField(name@),
        }
    }
}

/// The shape of each expression of a row.
pub open spec fn views(exprs: Seq<Expr>) -> Seq<ExprV>
    decreases exprs, 0nat,
{
    Seq::new(
        exprs.len(),
        |i: int|
            if 0 <= i < exprs.len() {
                expr_view(exprs[i])
            } else {
                arbitrary()
            },
    )
}

/// The shape of an expression.
pub open spec fn expr_view(expr: Expr) -> ExprV
    decreases expr, 1nat,
{
    match expr {
        Expr::Const { value, width } => ExprV::Const { value, width },
        Expr::Operand(operand) => ExprV::Operand(operand@),
        Expr::DerivedValue(name) => ExprV::DerivedValue(name@),
        Expr::ReadRegister { register, width } => ExprV::ReadRegister { register: Box::new(expr_view(*register)), width },
        Expr::ReadMemory { address, width } => ExprV::ReadMemory { address: Box::new(expr_view(*address)), width },
        Expr::Add(lhs, rhs) => ExprV::Add(Box::new(expr_view(*lhs)), Box::new(expr_view(*rhs))),
        Expr::Sub(lhs, rhs) => ExprV::Sub(Box::new(expr_view(*lhs)), Box::new(expr_view(*rhs))),
        Expr::Mul(lhs, rhs) => ExprV::Mul(Box::new(expr_view(*lhs)), Box::new(expr_view(*rhs))),
        Expr::And(lhs, rhs) => ExprV::And(Box::new(expr_view(*lhs)), Box::new(expr_view(*rhs))),
        Expr::Or(lhs, rhs) => ExprV::Or(Box::new(expr_view(*lhs)), Box::new(expr_view(*rhs))),
        Expr::Xor(lhs, rhs) => ExprV::Xor(Box::new(expr_view(*lhs)), Box::new(expr_view(*rhs))),
        Expr::Not(value) => ExprV::Not(Box::new(expr_view(*value))),
        Expr::ShiftLeft(value, amount) => ExprV::ShiftLeft(Box::new(expr_view(*value)), Box::new(expr_view(*amount))),
        Expr::LogicalShiftRight(value, amount) => ExprV::LogicalShiftRight(Box::new(expr_view(*value)), Box::new(expr_view(*amount))),
        Expr::ArithmeticShiftRight(value, amount) => ExprV::ArithmeticShiftRight(Box::new(expr_view(*value)), Box::new(expr_view(*amount))),
        Expr::RotateRight(value, amount) => ExprV::RotateRight(Box::new(expr_view(*value)), Box::new(expr_view(*amount))),
        Expr::Equal(lhs, rhs) => ExprV::Equal(Box::new(expr_view(*lhs)), Box::new(expr_view(*rhs))),
        Expr::UnsignedLessThan(lhs, rhs) => ExprV::UnsignedLessThan(Box::new(expr_view(*lhs)), Box::new(expr_view(*rhs))),
        Expr::SignedLessThan(lhs, rhs) => ExprV::SignedLessThan(Box::new(expr_view(*lhs)), Box::new(expr_view(*rhs))),
        Expr::Extract { value, high, low } => ExprV::Extract { value: Box::new(expr_view(*value)), high, low },
        Expr::Concat(values) => ExprV::Concat(views(values@)),
        Expr::ZeroExtend { value, to_width } => ExprV::ZeroExtend { value: Box::new(expr_view(*value)), to_width },
        Expr::SignExtend { value, to_width } => ExprV::SignExtend { value: Box::new(expr_view(*value)), to_width },
        Expr::CountOnes(value) => ExprV::CountOnes(Box::new(expr_view(*value))),
        Expr::AddCarryOut { lhs, rhs, carry_in, width } => ExprV::AddCarryOut { lhs: Box::new(expr_view(*lhs)), rhs: Box::new(expr_view(*rhs)), carry_in: Box::new(expr_view(*carry_in)), width },
        Expr::AddOverflow { lhs, rhs, carry_in, width } => ExprV::AddOverflow { lhs: Box::new(expr_view(*lhs)), rhs: Box::new(expr_view(*rhs)), carry_in: Box::new(expr_view(*carry_in)), width },
        Expr::SubCarryOut { lhs, rhs, borrow_in, width } => ExprV::SubCarryOut { lhs: Box::new(expr_view(*lhs)), rhs: Box::new(expr_view(*rhs)), borrow_in: Box::new(expr_view(*borrow_in)), width },
        Expr::SubOverflow { lhs, rhs, borrow_in, width } => ExprV::SubOverflow { lhs: Box::new(expr_view(*lhs)), rhs: Box::new(expr_view(*rhs)), borrow_in: Box::new(expr_view(*borrow_in)), width },
        Expr::Select { condition, when_true, when_false } => ExprV::Select { condition: Box::new(expr_view(*condition)), when_true: Box::new(expr_view(*when_true)), when_false: Box::new(expr_view(*when_false)) },
    }
}

impl View for Expr {
    type V = ExprV;

    open spec fn view(&self) -> ExprV {
        expr_view(*self)
    }
}

impl View for Effect {
    type V = EffectV;

    open spec fn view(&self) -> EffectV {
        match *self {
            Effect::WriteRegister { guard, register, value } => EffectV::WriteRegister {
                guard: guard@,
                register: register@,
                value: value@,
            },
            Effect::WriteMemory { guard, address, value, width } => EffectV::WriteMemory {
                guard: guard@,
                address: address@,
                value: value@,
                width,
            },
        }
    }
}

/// The shape of each effect of a row.
pub open spec fn effect_views(effects: Seq<Effect>) -> Seq<EffectV> {
    Seq::new(effects.len(), |i: int| effects[i]@)
}

/// The immediate subexpressions, in order.
pub open spec fn children(expr: ExprV) -> Seq<ExprV> {
    match expr {
        ExprV::Const { value, width } => seq![],
        ExprV::Operand(operand) => seq![],
        ExprV::DerivedValue(name) => seq![],
        ExprV::ReadRegister { register, width } => seq![*register],
        ExprV::ReadMemory { address, width } => seq![*address],
        ExprV::Add(lhs, rhs) => seq![*lhs, *rhs],
        ExprV::Sub(lhs, rhs) => seq![*lhs, *rhs],
        ExprV::Mul(lhs, rhs) => seq![*lhs, *rhs],
        ExprV::And(lhs, rhs) => seq![*lhs, *rhs],
        ExprV::Or(lhs, rhs) => seq![*lhs, *rhs],
        ExprV::Xor(lhs, rhs) => seq![*lhs, *rhs],
        ExprV::Not(value) => seq![*value],
        ExprV::ShiftLeft(value, amount) => seq![*value, *amount],
        ExprV::LogicalShiftRight(value, amount) => seq![*value, *amount],
        ExprV::ArithmeticShiftRight(value, amount) => seq![*value, *amount],
        ExprV::RotateRight(value, amount) => seq![*value, *amount],
        ExprV::Equal(lhs, rhs) => seq![*lhs, *rhs],
        ExprV::UnsignedLessThan(lhs, rhs) => seq![*lhs, *rhs],
        ExprV::SignedLessThan(lhs, rhs) => seq![*lhs, *rhs],
        ExprV::Extract { value, high, low } => seq![*value],
        ExprV::Concat(values) => values,
        ExprV::ZeroExtend { value, to_width } => seq![*value],
        ExprV::SignExtend { value, to_width } => seq![*value],
        ExprV::CountOnes(value) => seq![*value],
        ExprV::AddCarryOut { lhs, rhs, carry_in, width } => seq![*lhs, *rhs, *carry_in],
        ExprV::AddOverflow { lhs, rhs, carry_in, width } => seq![*lhs, *rhs, *carry_in],
        ExprV::SubCarryOut { lhs, rhs, borrow_in, width } => seq![*lhs, *rhs, *borrow_in],
        ExprV::SubOverflow { lhs, rhs, borrow_in, width } => seq![*lhs, *rhs, *borrow_in],
        ExprV::Select { condition, when_true, when_false } => seq![*condition, *when_true, *when_false],
    }
}

impl Clone for ValueName {
    fn clone(&self) -> (r: Self)
        ensures
            r@ == self@,
    {
        ValueName(self.0.clone())
    }
}

impl Clone for RegisterRef {
    fn clone(&self) -> (r: Self)
        ensures
            r@ == self@,
    {
        match self {
            RegisterRef::Fixed { register, identifier_width } => RegisterRef::Fixed {
                register: *register,
                identifier_width: *identifier_width,
            },
            RegisterRef::FromField(name) => RegisterRef::FromField(name.clone()),
        }
    }
}

impl Clone for OperandRef {
    fn clone(&self) -> (r: Self)
        ensures
            r@ == self@,
    {
        match self {
            OperandRef::RegisterField(register) => OperandRef::RegisterField(register.clone()),
            OperandRef::ImmediateField(name) => OperandRef::ImmediateField(name.clone()),
        }
    }
}

impl RegisterRef {
    /// Structural equality.
    pub fn same(&self, other: &RegisterRef) -> (r: bool)
        ensures
            r == (self@ == other@),
    {
        match (self, other) {
            (
                RegisterRef::Fixed { register, identifier_width },
                RegisterRef::Fixed { register: register2, identifier_width: width2 },
            ) => register.0 == register2.0 && *identifier_width == *width2,
            (RegisterRef::FromField(a), RegisterRef::FromField(b)) => *a == *b,
            _ => false,
        }
    }
}

impl OperandRef {
    /// Structural equality.
    pub fn same(&self, other: &OperandRef) -> (r: bool)
        ensures
            r == (self@ == other@),
    {
        match (self, other) {
            (OperandRef::RegisterField(a), OperandRef::RegisterField(b)) => a.same(b),
            (OperandRef::ImmediateField(a), OperandRef::ImmediateField(b)) => *a == *b,
            _ => false,
        }
    }
}

/// Copies a row of expressions.
pub(crate) fn clone_exprs(exprs: &Vec<Expr>) -> (r: Vec<Expr>)
    ensures
        views(r@) == views(exprs@),
    decreases exprs, 0nat,
{
    let mut r: Vec<Expr> = Vec::new();
    let mut i: usize = 0;
    while i < exprs.len()
        invariant
            i <= exprs@.len(),
            r@.len() == i,
            forall|j: int| 0 <= j < i ==> (#[trigger] r@[j])@ == exprs@[j]@,
        decreases exprs@.len() - i,
    {
        let e = clone_expr(&exprs[i]);
        r.push(e);
        i += 1;
    }
    assert(views(r@) =~= views(exprs@));
    r
}

/// Copies an expression.
fn clone_expr(expr: &Expr) -> (r: Expr)
    ensures
        r@ == expr@,
    decreases expr, 1nat,
{
    match expr {
        Expr::Const { value, width } => Expr::Const { value: *value, width: *width },
        Expr::Operand(operand) => Expr::Operand(operand.clone()),
        Expr::DerivedValue(name) => Expr::DerivedValue(name.clone()),
        Expr::ReadRegister { register, width } => Expr::ReadRegister { register: Box::new(clone_expr(register)), width: *width },
        Expr::ReadMemory { address, width } => Expr::ReadMemory { address: Box::new(clone_expr(address)), width: *width },
        Expr::Add(lhs, rhs) => Expr::Add(Box::new(clone_expr(lhs)), Box::new(clone_expr(rhs))),
        Expr::Sub(lhs, rhs) => Expr::Sub(Box::new(clone_expr(lhs)), Box::new(clone_expr(rhs))),
        Expr::Mul(lhs, rhs) => Expr::Mul(Box::new(clone_expr(lhs)), Box::new(clone_expr(rhs))),
        Expr::And(lhs, rhs) => Expr::And(Box::new(clone_expr(lhs)), Box::new(clone_expr(rhs))),
        Expr::Or(lhs, rhs) => Expr::Or(Box::new(clone_expr(lhs)), Box::new(clone_expr(rhs))),
        Expr::Xor(lhs, rhs) => Expr::Xor(Box::new(clone_expr(lhs)), Box::new(clone_expr(rhs))),
        Expr::Not(value) => Expr::Not(Box::new(clone_expr(value))),
        Expr::ShiftLeft(value, amount) => Expr::ShiftLeft(Box::new(clone_expr(value)), Box::new(clone_expr(amount))),
        Expr::LogicalShiftRight(value, amount) => Expr::LogicalShiftRight(Box::new(clone_expr(value)), Box::new(clone_expr(amount))),
        Expr::ArithmeticShiftRight(value, amount) => Expr::ArithmeticShiftRight(Box::new(clone_expr(value)), Box::new(clone_expr(amount))),
        Expr::RotateRight(value, amount) => Expr::RotateRight(Box::new(clone_expr(value)), Box::new(clone_expr(amount))),
        Expr::Equal(lhs, rhs) => Expr::Equal(Box::new(clone_expr(lhs)), Box::new(clone_expr(rhs))),
        Expr::UnsignedLessThan(lhs, rhs) => Expr::UnsignedLessThan(Box::new(clone_expr(lhs)), Box::new(clone_expr(rhs))),
        Expr::SignedLessThan(lhs, rhs) => Expr::SignedLessThan(Box::new(clone_expr(lhs)), Box::new(clone_expr(rhs))),
        Expr::Extract { value, high, low } => Expr::Extract { value: Box::new(clone_expr(value)), high: *high, low: *low },
        Expr::Concat(values) => Expr::Concat(clone_exprs(values)),
        Expr::ZeroExtend { value, to_width } => Expr::ZeroExtend { value: Box::new(clone_expr(value)), to_width: *to_width },
        Expr::SignExtend { value, to_width } => Expr::SignExtend { value: Box::new(clone_expr(value)), to_width: *to_width },
        Expr::CountOnes(value) => Expr::CountOnes(Box::new(clone_expr(value))),
        Expr::AddCarryOut { lhs, rhs, carry_in, width } => Expr::AddCarryOut { lhs: Box::new(clone_expr(lhs)), rhs: Box::new(clone_expr(rhs)), carry_in: Box::new(clone_expr(carry_in)), width: *width },
        Expr::AddOverflow { lhs, rhs, carry_in, width } => Expr::AddOverflow { lhs: Box::new(clone_expr(lhs)), rhs: Box::new(clone_expr(rhs)), carry_in: Box::new(clone_expr(carry_in)), width: *width },
        Expr::SubCarryOut { lhs, rhs, borrow_in, width } => Expr::SubCarryOut { lhs: Box::new(clone_expr(lhs)), rhs: Box::new(clone_expr(rhs)), borrow_in: Box::new(clone_expr(borrow_in)), width: *width },
        Expr::SubOverflow { lhs, rhs, borrow_in, width } => Expr::SubOverflow { lhs: Box::new(clone_expr(lhs)), rhs: Box::new(clone_expr(rhs)), borrow_in: Box::new(clone_expr(borrow_in)), width: *width },
        Expr::Select { condition, when_true, when_false } => Expr::Select { condition: Box::new(clone_expr(condition)), when_true: Box::new(clone_expr(when_true)), when_false: Box::new(clone_expr(when_false)) },
    }
}

impl Clone for Expr {
    fn clone(&self) -> (r: Self)
        ensures
            r@ == self@,
    {
        clone_expr(self)
    }
}

impl Clone for Effect {
    fn clone(&self) -> (r: Self)
        ensures
            r@ == self@,
    {
        match self {
            Effect::WriteRegister { guard, register, value } => Effect::WriteRegister {
                guard: guard.clone(),
                register: register.clone(),
                value: value.clone(),
            },
            Effect::WriteMemory { guard, address, value, width } => Effect::WriteMemory {
                guard: guard.clone(),
                address: address.clone(),
                value: value.clone(),
                width: *width,
            },
        }
    }
}

/// Structural equality of two rows of expressions.
fn same_exprs(a: &Vec<Expr>, b: &Vec<Expr>) -> (r: bool)
    ensures
        r == (views(a@) == views(b@)),
    decreases a, 0nat,
{
    if a.len() != b.len() {
        assert(views(a@).len() != views(b@).len());
        return false;
    }
    let mut i: usize = 0;
    while i < a.len()
        invariant
            i <= a@.len(),
            a@.len() == b@.len(),
            forall|j: int| 0 <= j < i ==> (#[trigger] a@[j])@ == b@[j]@,
        decreases a@.len() - i,
    {
        if !same_expr(&a[i], &b[i]) {
            assert(views(a@)[i as int] != views(b@)[i as int]);
            return false;
        }
        i += 1;
    }
    assert(views(a@) =~= views(b@));
    true
}

/// Structural equality of two expressions.
fn same_expr(a: &Expr, b: &Expr) -> (r: bool)
    ensures
        r == (a@ == b@),
    decreases a, 1nat,
{
    match (a, b) {
        (Expr::Const { value, width }, Expr::Const { value: value2, width: width2 }) => *value == *value2 && *width == *width2,
        (Expr::Operand(operand), Expr::Operand(operand2)) => operand.same(operand2),
        (Expr::DerivedValue(name), Expr::DerivedValue(name2)) => name.0 == name2.0,
        (Expr::ReadRegister { register, width }, Expr::ReadRegister { register: register2, width: width2 }) => same_expr(register, register2) && *width == *width2,
        (Expr::ReadMemory { address, width }, Expr::ReadMemory { address: address2, width: width2 }) => same_expr(address, address2) && *width == *width2,
        (Expr::Add(lhs, rhs), Expr::Add(lhs2, rhs2)) => same_expr(lhs, lhs2) && same_expr(rhs, rhs2),
        (Expr::Sub(lhs, rhs), Expr::Sub(lhs2, rhs2)) => same_expr(lhs, lhs2) && same_expr(rhs, rhs2),
        (Expr::Mul(lhs, rhs), Expr::Mul(lhs2, rhs2)) => same_expr(lhs, lhs2) && same_expr(rhs, rhs2),
        (Expr::And(lhs, rhs), Expr::And(lhs2, rhs2)) => same_expr(lhs, lhs2) && same_expr(rhs, rhs2),
        (Expr::Or(lhs, rhs), Expr::Or(lhs2, rhs2)) => same_expr(lhs, lhs2) && same_expr(rhs, rhs2),
        (Expr::Xor(lhs, rhs), Expr::Xor(lhs2, rhs2)) => same_expr(lhs, lhs2) && same_expr(rhs, rhs2),
        (Expr::Not(value), Expr::Not(value2)) => same_expr(value, value2),
        (Expr::ShiftLeft(value, amount), Expr::ShiftLeft(value2, amount2)) => same_expr(value, value2) && same_expr(amount, amount2),
        (Expr::LogicalShiftRight(value, amount), Expr::LogicalShiftRight(value2, amount2)) => same_expr(value, value2) && same_expr(amount, amount2),
        (Expr::ArithmeticShiftRight(value, amount), Expr::ArithmeticShiftRight(value2, amount2)) => same_expr(value, value2) && same_expr(amount, amount2),
        (Expr::RotateRight(value, amount), Expr::RotateRight(value2, amount2)) => same_expr(value, value2) && same_expr(amount, amount2),
        (Expr::Equal(lhs, rhs), Expr::Equal(lhs2, rhs2)) => same_expr(lhs, lhs2) && same_expr(rhs, rhs2),
        (Expr::UnsignedLessThan(lhs, rhs), Expr::UnsignedLessThan(lhs2, rhs2)) => same_expr(lhs, lhs2) && same_expr(rhs, rhs2),
        (Expr::SignedLessThan(lhs, rhs), Expr::SignedLessThan(lhs2, rhs2)) => same_expr(lhs, lhs2) && same_expr(rhs, rhs2),
        (Expr::Extract { value, high, low }, Expr::Extract { value: value2, high: high2, low: low2 }) => same_expr(value, value2) && *high == *high2 && *low == *low2,
        (Expr::Concat(values), Expr::Concat(values2)) => same_exprs(values, values2),
        (Expr::ZeroExtend { value, to_width }, Expr::ZeroExtend { value: value2, to_width: to_width2 }) => same_expr(value, value2) && *to_width == *to_width2,
        (Expr::SignExtend { value, to_width }, Expr::SignExtend { value: value2, to_width: to_width2 }) => same_expr(value, value2) && *to_width == *to_width2,
        (Expr::CountOnes(value), Expr::CountOnes(value2)) => same_expr(value, value2),
        (Expr::AddCarryOut { lhs, rhs, carry_in, width }, Expr::AddCarryOut { lhs: lhs2, rhs: rhs2, carry_in: carry_in2, width: width2 }) => same_expr(lhs, lhs2) && same_expr(rhs, rhs2) && same_expr(carry_in, carry_in2) && *width == *width2,
        (Expr::AddOverflow { lhs, rhs, carry_in, width }, Expr::AddOverflow { lhs: lhs2, rhs: rhs2, carry_in: carry_in2, width: width2 }) => same_expr(lhs, lhs2) && same_expr(rhs, rhs2) && same_expr(carry_in, carry_in2) && *width == *width2,
        (Expr::SubCarryOut { lhs, rhs, borrow_in, width }, Expr::SubCarryOut { lhs: lhs2, rhs: rhs2, borrow_in: borrow_in2, width: width2 }) => same_expr(lhs, lhs2) && same_expr(rhs, rhs2) && same_expr(borrow_in, borrow_in2) && *width == *width2,
        (Expr::SubOverflow { lhs, rhs, borrow_in, width }, Expr::SubOverflow { lhs: lhs2, rhs: rhs2, borrow_in: borrow_in2, width: width2 }) => same_expr(lhs, lhs2) && same_expr(rhs, rhs2) && same_expr(borrow_in, borrow_in2) && *width == *width2,
        (Expr::Select { condition, when_true, when_false }, Expr::Select { condition: condition2, when_true: when_true2, when_false: when_false2 }) => same_expr(condition, condition2) && same_expr(when_true, when_true2) && same_expr(when_false, when_false2),
        _ => false,
    }
}

impl Expr {
    /// Structural equality.
    pub fn same(&self, other: &Expr) -> (r: bool)
        ensures
            r == (self@ == other@),
    {
        same_expr(self, other)
    }

    /// The immediate subexpressions, in order.
    pub(crate) fn children(&self) -> (r: Vec<&Expr>)
        ensures
            r@.len() == children(self@).len(),
            forall|i: int| 0 <= i < r@.len() ==> (#[trigger] r@[i])@ == children(self@)[i],
    {
        let mut r: Vec<&Expr> = Vec::new();
        match self {
            Expr::Const { .. } | Expr::Operand(_) | Expr::DerivedValue(_) => {
            },
            Expr::ReadRegister { register, .. } => {
                r.push(register);
            },
            Expr::ReadMemory { address, .. } => {
                r.push(address);
            },
            Expr::Add(lhs, rhs) | Expr::Sub(lhs, rhs) | Expr::Mul(lhs, rhs) | Expr::And(lhs, rhs) | Expr::Or(lhs, rhs) | Expr::Xor(lhs, rhs) | Expr::Equal(lhs, rhs) | Expr::UnsignedLessThan(lhs, rhs) | Expr::SignedLessThan(lhs, rhs) => {
                r.push(lhs);
                r.push(rhs);
            },
            Expr::Not(value) | Expr::Extract { value, .. } | Expr::ZeroExtend { value, .. } | Expr::SignExtend { value, .. } | Expr::CountOnes(value) => {
                r.push(value);
            },
            Expr::ShiftLeft(value, amount) | Expr::LogicalShiftRight(value, amount) | Expr::ArithmeticShiftRight(value, amount) | Expr::RotateRight(value, amount) => {
                r.push(value);
                r.push(amount);
            },
            Expr::Concat(values) => {
                let mut i: usize = 0;
                while i < values.len()
                    invariant
                        i <= values@.len(),
                        r@.len() == i,
                        forall|j: int| 0 <= j < i ==> (#[trigger] r@[j])@ == values@[j]@,
                    decreases values@.len() - i,
                {
                    r.push(&values[i]);
                    i += 1;
                }
                assert(children(self@) == views(values@));
            },
            Expr::AddCarryOut { lhs, rhs, carry_in, .. } | Expr::AddOverflow { lhs, rhs, carry_in, .. } => {
                r.push(lhs);
                r.push(rhs);
                r.push(carry_in);
            },
            Expr::SubCarryOut { lhs, rhs, borrow_in, .. } | Expr::SubOverflow { lhs, rhs, borrow_in, .. } => {
                r.push(lhs);
                r.push(rhs);
                r.push(borrow_in);
            },
            Expr::Select { condition, when_true, when_false } => {
                r.push(condition);
                r.push(when_true);
                r.push(when_false);
            },
        }
        r
    }
}

impl Effect {
    /// Structural equality.
    pub fn same(&self, other: &Effect) -> (r: bool)
        ensures
            r == (self@ == other@),
    {
        match (self, other) {
            (
                Effect::WriteRegister { guard, register, value },
                Effect::WriteRegister { guard: guard2, register: register2, value: value2 },
            ) => guard.same(guard2) && register.same(register2) && value.same(value2),
            (
                Effect::WriteMemory { guard, address, value, width },
                Effect::WriteMemory {
                    guard: guard2,
                    address: address2,
                    value: value2,
                    width: width2,
                },
            ) => guard.same(guard2) && address.same(address2) && value.same(value2) && *width
                == *width2,
            _ => false,
        }
    }
}

/// Copies a row of effects.
pub fn clone_effects(effects: &Vec<Effect>) -> (r: Vec<Effect>)
    ensures
        effect_views(r@) == effect_views(effects@),
{
    let mut r: Vec<Effect> = Vec::new();
    let mut i: usize = 0;
    while i < effects.len()
        invariant
            i <= effects@.len(),
            r@.len() == i,
            forall|j: int| 0 <= j < i ==> (#[trigger] r@[j])@ == effects@[j]@,
        decreases effects@.len() - i,
    {
        r.push(effects[i].clone());
        i += 1;
    }
    assert(effect_views(r@) =~= effect_views(effects@));
    r
}

/// Structural equality of two rows of effects.
pub fn same_effects(a: &Vec<Effect>, b: &Vec<Effect>) -> (r: bool)
    ensures
        r == (effect_views(a@) == effect_views(b@)),
{
    if a.len() != b.len() {
        assert(effect_views(a@).len() != effect_views(b@).len());
        return false;
    }
    let mut i: usize = 0;
    while i < a.len()
        invariant
            i <= a@.len(),
            a@.len() == b@.len(),
            forall|j: int| 0 <= j < i ==> (#[trigger] a@[j])@ == b@[j]@,
        decreases a@.len() - i,
    {
        if !a[i].same(&b[i]) {
            assert(effect_views(a@)[i as int] != effect_views(b@)[i as int]);
            return false;
        }
        i += 1;
    }
    assert(effect_views(a@) =~= effect_views(b@));
    true
}

/// Allocates an owned instruction-field name.
pub fn field_name(name: &str) -> (r: FieldName)
    ensures
        r@ == name@,
{
    name.to_owned()
}

/// The number of a truth value.
pub open spec fn truth(value: bool) -> u128 {
    if value {
        1
    } else {
        0
    }
}

/// The shape of a 1-bit boolean literal.
pub open spec fn bool_view(value: bool) -> ExprV {
    ExprV::Const { value: truth(value), width: 1 }
}

/// Constructs a literal bit-vector.
///
/// The value is truncated when evaluated or canonicalized, not by this
/// lightweight constructor.
pub fn constant(value: u128, width: u16) -> (r: Expr)
    ensures
        r@ == (ExprV::Const { value, width }),
{
    Expr::Const { value, width }
}

/// Constructs a canonical 1-bit boolean literal.
pub fn bool_const(value: bool) -> (r: Expr)
    ensures
        r@ == bool_view(value),
{
    if value {
        constant(1, 1)
    } else {
        constant(0, 1)
    }
}

/// References the raw value of an immediate instruction field.
pub fn immediate_field(name: &str) -> (r: Expr)
    ensures
        r@ == (ExprV::Operand(OperandV::ImmediateField(name@))),
{
    Expr::Operand(OperandRef::ImmediateField(field_name(name)))
}

/// References a value defined by the matched instruction form.
pub fn derived_value(name: &str) -> (r: Expr)
    ensures
        r@ == (ExprV::DerivedValue(name@)),
{
    Expr::DerivedValue(ValueName(name.to_owned()))
}

/// Produces an expression representing the register number contained in
/// an instruction field. It does not read that register.
pub fn register_field(name: &str) -> (r: Expr)
    ensures
        r@ == (ExprV::Operand(OperandV::RegisterField(RegisterV::FromField(name@)))),
{
    Expr::Operand(OperandRef::RegisterField(RegisterRef::FromField(field_name(name))))
}

/// Produces an expression representing a fixed architectural or virtual register.
///
/// `identifier_width` is the bit width of the register identifier expression,
/// not the width of the data stored in that register.
pub fn fixed_register(register: Register, identifier_width: u16) -> (r: Expr)
    ensures
        r@ == (ExprV::Operand(OperandV::RegisterField(RegisterV::Fixed { register: register.0, identifier_width }))),
{
    Expr::Operand(OperandRef::RegisterField(RegisterRef::Fixed { register, identifier_width }))
}

/// Constructs a state read from a register-identifier expression.
///
/// `width` is the width of the stored value, not the register identifier.
pub fn read_register(register: Expr, width: u16) -> (r: Expr)
    ensures
        r@ == (ExprV::ReadRegister { register: Box::new(register@), width }),
{
    Expr::ReadRegister { register: Box::new(register), width }
}

/// Constructs a memory read of `width` bits from a byte-address expression.
pub fn read_memory(address: Expr, width: u16) -> (r: Expr)
    ensures
        r@ == (ExprV::ReadMemory { address: Box::new(address@), width }),
{
    Expr::ReadMemory { address: Box::new(address), width }
}

/// Reads the register whose identifier is encoded by instruction field `name`.
pub fn read_register_field(name: &str, width: u16) -> (r: Expr)
    ensures
        r@ == (ExprV::ReadRegister { register: Box::new(ExprV::Operand(OperandV::RegisterField(RegisterV::FromField(name@)))), width }),
{
    read_register(register_field(name), width)
}

/// Reads a fixed register with separate identifier and stored-value widths.
pub fn read_fixed_register(register: Register, identifier_width: u16, data_width: u16) -> (r: Expr)
    ensures
        r@ == (ExprV::ReadRegister { register: Box::new(ExprV::Operand(OperandV::RegisterField(RegisterV::Fixed { register: register.0, identifier_width }))), width: data_width }),
{
    read_register(fixed_register(register, identifier_width), data_width)
}

/// Constructs an equality comparison returning one bit.
pub fn equal(lhs: Expr, rhs: Expr) -> (r: Expr)
    ensures
        r@ == (ExprV::Equal(Box::new(lhs@), Box::new(rhs@))),
{
    Expr::Equal(Box::new(lhs), Box::new(rhs))
}

/// Constructs an unsigned less-than comparison returning one bit.
pub fn unsigned_less_than(lhs: Expr, rhs: Expr) -> (r: Expr)
    ensures
        r@ == (ExprV::UnsignedLessThan(Box::new(lhs@), Box::new(rhs@))),
{
    Expr::UnsignedLessThan(Box::new(lhs), Box::new(rhs))
}

/// Constructs a signed two's-complement less-than comparison returning one bit.
pub fn signed_less_than(lhs: Expr, rhs: Expr) -> (r: Expr)
    ensures
        r@ == (ExprV::SignedLessThan(Box::new(lhs@), Box::new(rhs@))),
{
    Expr::SignedLessThan(Box::new(lhs), Box::new(rhs))
}

/// Constructs wrapping bit-vector addition.
pub fn add(lhs: Expr, rhs: Expr) -> (r: Expr)
    ensures
        r@ == (ExprV::Add(Box::new(lhs@), Box::new(rhs@))),
{
    Expr::Add(Box::new(lhs), Box::new(rhs))
}

/// Constructs wrapping bit-vector subtraction.
pub fn sub(lhs: Expr, rhs: Expr) -> (r: Expr)
    ensures
        r@ == (ExprV::Sub(Box::new(lhs@), Box::new(rhs@))),
{
    Expr::Sub(Box::new(lhs), Box::new(rhs))
}

/// Constructs width-preserving wrapping multiplication.
pub fn mul(lhs: Expr, rhs: Expr) -> (r: Expr)
    ensures
        r@ == (ExprV::Mul(Box::new(lhs@), Box::new(rhs@))),
{
    Expr::Mul(Box::new(lhs), Box::new(rhs))
}

/// Constructs bitwise AND, or Boolean conjunction for 1-bit operands.
pub fn and_expr(lhs: Expr, rhs: Expr) -> (r: Expr)
    ensures
        r@ == (ExprV::And(Box::new(lhs@), Box::new(rhs@))),
{
    Expr::And(Box::new(lhs), Box::new(rhs))
}

/// Constructs bitwise OR, or Boolean disjunction for 1-bit operands.
pub fn or_expr(lhs: Expr, rhs: Expr) -> (r: Expr)
    ensures
        r@ == (ExprV::Or(Box::new(lhs@), Box::new(rhs@))),
{
    Expr::Or(Box::new(lhs), Box::new(rhs))
}

/// Constructs bitwise XOR, or Boolean inequality for 1-bit operands.
pub fn xor_expr(lhs: Expr, rhs: Expr) -> (r: Expr)
    ensures
        r@ == (ExprV::Xor(Box::new(lhs@), Box::new(rhs@))),
{
    Expr::Xor(Box::new(lhs), Box::new(rhs))
}

/// Constructs bitwise NOT, or Boolean negation for a 1-bit operand.
pub fn not_expr(value: Expr) -> (r: Expr)
    ensures
        r@ == (ExprV::Not(Box::new(value@))),
{
    Expr::Not(Box::new(value))
}

/// Constructs a logical left shift by an unsigned amount.
pub fn shift_left(value: Expr, amount: Expr) -> (r: Expr)
    ensures
        r@ == (ExprV::ShiftLeft(Box::new(value@), Box::new(amount@))),
{
    Expr::ShiftLeft(Box::new(value), Box::new(amount))
}

/// Constructs a zero-filling logical right shift.
pub fn logical_shift_right(value: Expr, amount: Expr) -> (r: Expr)
    ensures
        r@ == (ExprV::LogicalShiftRight(Box::new(value@), Box::new(amount@))),
{
    Expr::LogicalShiftRight(Box::new(value), Box::new(amount))
}

/// Constructs a sign-filling arithmetic right shift.
pub fn arithmetic_shift_right(value: Expr, amount: Expr) -> (r: Expr)
    ensures
        r@ == (ExprV::ArithmeticShiftRight(Box::new(value@), Box::new(amount@))),
{
    Expr::ArithmeticShiftRight(Box::new(value), Box::new(amount))
}

/// Constructs rotate-right; evaluated amounts are reduced modulo value width.
pub fn rotate_right(value: Expr, amount: Expr) -> (r: Expr)
    ensures
        r@ == (ExprV::RotateRight(Box::new(value@), Box::new(amount@))),
{
    Expr::RotateRight(Box::new(value), Box::new(amount))
}

/// Extracts inclusive bit range `high..=low`.
///
/// Range validation occurs during `collapse` or `canonicalize`.
pub fn extract(value: Expr, high: u16, low: u16) -> (r: Expr)
    ensures
        r@ == (ExprV::Extract { value: Box::new(value@), high, low }),
{
    Expr::Extract { value: Box::new(value), high, low }
}

/// Concatenates values from most-significant chunk to least-significant chunk.
pub fn concat(values: Vec<Expr>) -> (r: Expr)
    ensures
        r@ == (ExprV::Concat(views(values@))),
{
    Expr::Concat(values)
}

/// Constructs zero extension to `to_width`.
pub fn zero_extend(value: Expr, to_width: u16) -> (r: Expr)
    ensures
        r@ == (ExprV::ZeroExtend { value: Box::new(value@), to_width }),
{
    Expr::ZeroExtend { value: Box::new(value), to_width }
}

/// Constructs sign extension to `to_width`.
pub fn sign_extend(value: Expr, to_width: u16) -> (r: Expr)
    ensures
        r@ == (ExprV::SignExtend { value: Box::new(value@), to_width }),
{
    Expr::SignExtend { value: Box::new(value), to_width }
}

/// Counts set bits; the expression result retains the input's declared width.
pub fn count_ones(value: Expr) -> (r: Expr)
    ensures
        r@ == (ExprV::CountOnes(Box::new(value@))),
{
    Expr::CountOnes(Box::new(value))
}

/// Constructs unsigned carry-out from `lhs + rhs + carry_in`.
pub fn add_carry_out(lhs: Expr, rhs: Expr, carry_in: Expr, width: u16) -> (r: Expr)
    ensures
        r@ == (ExprV::AddCarryOut { lhs: Box::new(lhs@), rhs: Box::new(rhs@), carry_in: Box::new(carry_in@), width }),
{
    Expr::AddCarryOut { lhs: Box::new(lhs), rhs: Box::new(rhs), carry_in: Box::new(carry_in), width }
}

/// Constructs signed overflow from `lhs + rhs + carry_in`.
pub fn add_overflow(lhs: Expr, rhs: Expr, carry_in: Expr, width: u16) -> (r: Expr)
    ensures
        r@ == (ExprV::AddOverflow { lhs: Box::new(lhs@), rhs: Box::new(rhs@), carry_in: Box::new(carry_in@), width }),
{
    Expr::AddOverflow { lhs: Box::new(lhs), rhs: Box::new(rhs), carry_in: Box::new(carry_in), width }
}

/// Constructs subtraction carry (“no borrow”) from `lhs - rhs - borrow_in`.
pub fn sub_carry_out(lhs: Expr, rhs: Expr, borrow_in: Expr, width: u16) -> (r: Expr)
    ensures
        r@ == (ExprV::SubCarryOut { lhs: Box::new(lhs@), rhs: Box::new(rhs@), borrow_in: Box::new(borrow_in@), width }),
{
    Expr::SubCarryOut { lhs: Box::new(lhs), rhs: Box::new(rhs), borrow_in: Box::new(borrow_in), width }
}

/// Constructs signed overflow from `lhs - rhs - borrow_in`.
pub fn sub_overflow(lhs: Expr, rhs: Expr, borrow_in: Expr, width: u16) -> (r: Expr)
    ensures
        r@ == (ExprV::SubOverflow { lhs: Box::new(lhs@), rhs: Box::new(rhs@), borrow_in: Box::new(borrow_in@), width }),
{
    Expr::SubOverflow { lhs: Box::new(lhs), rhs: Box::new(rhs), borrow_in: Box::new(borrow_in), width }
}

/// Constructs a conditional expression.
///
/// `condition` must be one bit and both result branches must have equal width.
pub fn select(condition: Expr, when_true: Expr, when_false: Expr) -> (r: Expr)
    ensures
        r@ == (ExprV::Select { condition: Box::new(condition@), when_true: Box::new(when_true@), when_false: Box::new(when_false@) }),
{
    Expr::Select { condition: Box::new(condition), when_true: Box::new(when_true), when_false: Box::new(when_false) }
}

/// Compares an immediate field with a literal of the supplied width.
pub fn field_is(name: &str, value: u128, width: u16) -> (r: Expr)
    ensures
        r@ == (ExprV::Equal(Box::new(ExprV::Operand(OperandV::ImmediateField(name@))), Box::new(ExprV::Const { value, width }))),
{
    equal(immediate_field(name), constant(value, width))
}

impl Effect {
    /// Creates an unconditional register write.
    pub fn write_register(register: Expr, value: Expr) -> (r: Self)
        ensures
            r@ == (EffectV::WriteRegister {
                guard: bool_view(true),
                register: register@,
                value: value@,
            }),
    {
        Self::WriteRegister { guard: bool_const(true), register, value }
    }

    /// Creates a register write guarded by a 1-bit condition.
    pub fn write_register_if(guard: Expr, register: Expr, value: Expr) -> (r: Self)
        ensures
            r@ == (EffectV::WriteRegister { guard: guard@, register: register@, value: value@ }),
    {
        Self::WriteRegister { guard, register, value }
    }

    /// Creates an unconditional memory write of `width` bits.
    pub fn write_memory(address: Expr, value: Expr, width: u16) -> (r: Self)
        ensures
            r@ == (EffectV::WriteMemory {
                guard: bool_view(true),
                address: address@,
                value: value@,
                width,
            }),
    {
        Self::WriteMemory { guard: bool_const(true), address, value, width }
    }

    /// Creates a memory write guarded by a 1-bit condition.
    pub fn write_memory_if(guard: Expr, address: Expr, value: Expr, width: u16) -> (r: Self)
        ensures
            r@ == (EffectV::WriteMemory {
                guard: guard@,
                address: address@,
                value: value@,
                width,
            }),
    {
        Self::WriteMemory { guard, address, value, width }
    }
}

} // verus!
