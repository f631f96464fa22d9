use vstd::prelude::*;

verus! {

/// Bits that every NaN is stored as: the quiet NaN with an empty payload.
pub const CANONICAL_NAN_BITS: u64 = 0x7ff8_0000_0000_0000;

/// The exponent field of a 64-bit float.
pub const EXPONENT_MASK: u64 = 0x7ff0_0000_0000_0000;

/// The mantissa field of a 64-bit float.
pub const MANTISSA_MASK: u64 = 0x000f_ffff_ffff_ffff;

/// Everything but the sign bit.
pub const MAGNITUDE_MASK: u64 = 0x7fff_ffff_ffff_ffff;

/// A bit pattern encodes NaN: all exponent bits set and a nonzero mantissa.
pub open spec fn is_nan_bits(b: u64) -> bool {
    (b & EXPONENT_MASK) == EXPONENT_MASK && (b & MANTISSA_MASK) != 0
}

/// A bit pattern encodes positive or negative zero.
pub open spec fn is_zero_bits(b: u64) -> bool {
    (b & MAGNITUDE_MASK) == 0
}

/// The stored form of a float given by its bits: NaNs collapse to one pattern.
pub open spec fn canonical_bits(b: u64) -> u64 {
    if is_nan_bits(b) {
        CANONICAL_NAN_BITS
    } else {
        b
    }
}

/// Float equality on stored forms: identical bits (so the canonical NaN equals
/// itself), or both zero whatever their signs.
pub open spec fn number_eq(a: u64, b: u64) -> bool {
    a == b || (is_zero_bits(a) && is_zero_bits(b))
}

/// A stored number is falsy when it is the canonical NaN or a zero.
pub open spec fn number_truthy(b: u64) -> bool {
    b != CANONICAL_NAN_BITS && !is_zero_bits(b)
}

/// A JavaScript number, kept as the bit pattern of its 64-bit float with every
/// NaN replaced by one canonical pattern, so that numbers can be compared and
/// hashed by their bits.
#[derive(Clone, Copy, PartialEq, Eq, Structural, PartialOrd, Ord, Debug, Hash)]
pub struct Number(u64);

impl Number {
    /// The stored bit pattern.
    pub closed spec fn bits(self) -> u64 {
        self.0
    }

    /// Builds a number from the bit pattern of a 64-bit float.
    pub fn from_bits(bits: u64) -> (r: Number)
        ensures
            r.bits() == canonical_bits(bits),
    {
        if (bits & EXPONENT_MASK) == EXPONENT_MASK && (bits & MANTISSA_MASK) != 0 {
            Number(CANONICAL_NAN_BITS)
        } else {
            Number(bits)
        }
    }

    /// The stored bit pattern, which is that of the number as a 64-bit float.
    pub fn to_bits(self) -> (r: u64)
        ensures
            r == self.bits(),
    {
        self.0
    }

    /// Float equality: NaN equals NaN (they share one pattern) and `-0 == 0`.
    pub fn equals(self, other: Self) -> (r: bool)
        ensures
            r == number_eq(self.bits(), other.bits()),
    {
        self.0 == other.0 || ((self.0 & MAGNITUDE_MASK) == 0 && (other.0 & MAGNITUDE_MASK) == 0)
    }

    pub fn not_equals(self, other: Self) -> (r: bool)
        ensures
            r == !number_eq(self.bits(), other.bits()),
    {
        !self.equals(other)
    }

    /// False exactly for NaN, `0` and `-0`.
    pub fn is_truthy(self) -> (r: bool)
        ensures
            r == number_truthy(self.bits()),
    {
        !(self.0 == CANONICAL_NAN_BITS || (self.0 & MAGNITUDE_MASK) == 0)
    }
}

/// Any two NaN bit patterns give numbers with one and the same stored form,
/// which equal each other and are falsy.
pub proof fn lemma_nan_is_canonical(a: u64, b: u64)
    requires
        is_nan_bits(a),
        is_nan_bits(b),
    ensures
        canonical_bits(a) == canonical_bits(b),
        number_eq(canonical_bits(a), canonical_bits(b)),
        !number_truthy(canonical_bits(a)),
{
}

/// Construction leaves every non-NaN pattern as it is, and yields a pattern
/// that is either not a NaN or the canonical one.
pub proof fn lemma_canonical_bits_stable(b: u64)
    ensures
        !is_nan_bits(b) ==> canonical_bits(b) == b,
        !is_nan_bits(canonical_bits(b)) || canonical_bits(b) == CANONICAL_NAN_BITS,
        canonical_bits(canonical_bits(b)) == canonical_bits(b),
{
    assert(is_nan_bits(CANONICAL_NAN_BITS)) by (bit_vector);
}

/// Zero and negative zero are equal numbers, and both are falsy.
pub proof fn lemma_signed_zeros(a: u64, b: u64)
    requires
        is_zero_bits(a),
        is_zero_bits(b),
    ensures
        !is_nan_bits(a),
        canonical_bits(a) == a,
        number_eq(canonical_bits(a), canonical_bits(b)),
        !number_truthy(canonical_bits(a)),
{
    assert(is_zero_bits(a) ==> !is_nan_bits(a)) by (bit_vector);
    assert(is_zero_bits(b) ==> !is_nan_bits(b)) by (bit_vector);
}


/// A literal value of the language.
#[derive(Debug)]
pub enum PrimitiveValue {
    Boolean(bool),
    Null,
    Number(Number),
    String(String),
    Undefined,
}

/// Truthiness of a primitive: booleans are themselves, numbers are falsy for
/// NaN and zeros, strings for the empty string, null and undefined always.
pub open spec fn primitive_truthy(v: PrimitiveValue) -> bool {
    match v {
        PrimitiveValue::Boolean(b) => b,
        PrimitiveValue::Number(n) => number_truthy(n.bits()),
        PrimitiveValue::String(s) => s@.len() != 0,
        PrimitiveValue::Null => false,
        PrimitiveValue::Undefined => false,
    }
}

/// Equality of two primitives of one kind; `None` for differing kinds.
pub open spec fn same_kind_eq(a: PrimitiveValue, b: PrimitiveValue) -> Option<bool> {
    match (a, b) {
        (PrimitiveValue::Number(l), PrimitiveValue::Number(r)) => Some(number_eq(l.bits(), r.bits())),
        (PrimitiveValue::Null, PrimitiveValue::Null) => Some(true),
        (PrimitiveValue::Undefined, PrimitiveValue::Undefined) => Some(true),
        (PrimitiveValue::Boolean(l), PrimitiveValue::Boolean(r)) => Some(l == r),
        (PrimitiveValue::String(l), PrimitiveValue::String(r)) => Some(l@ == r@),
        _ => None,
    }
}

/// Loose equality where it can be decided statically: same-kind comparison,
/// and null equal to undefined in either order. `None` means undecided.
pub open spec fn loose_eq(a: PrimitiveValue, b: PrimitiveValue) -> Option<bool> {
    match (a, b) {
        (PrimitiveValue::Null, PrimitiveValue::Undefined) => Some(true),
        (PrimitiveValue::Undefined, PrimitiveValue::Null) => Some(true),
        _ => same_kind_eq(a, b),
    }
}

/// Strict equality: values of differing kinds are never equal.
pub open spec fn strict_eq(a: PrimitiveValue, b: PrimitiveValue) -> bool {
    same_kind_eq(a, b) == Some(true)
}

impl PrimitiveValue {
    pub fn is_truthy(&self) -> (r: bool)
        ensures
            r == primitive_truthy(*self),
    {
        match self {
            PrimitiveValue::Boolean(value) => *value,
            PrimitiveValue::Number(value) => value.is_truthy(),
            PrimitiveValue::String(value) => !value.as_str().is_empty(),
            PrimitiveValue::Null => false,
            PrimitiveValue::Undefined => false,
        }
    }

    fn same_kind_equals(&self, other: &Self) -> (r: Option<bool>)
        ensures
            r == same_kind_eq(*self, *other),
    {
        match (self, other) {
            (PrimitiveValue::Number(left), PrimitiveValue::Number(right)) => Some(left.equals(*right)),
            (PrimitiveValue::Null, PrimitiveValue::Null) => Some(true),
            (PrimitiveValue::Undefined, PrimitiveValue::Undefined) => Some(true),
            (PrimitiveValue::Boolean(left), PrimitiveValue::Boolean(right)) => Some(*left == *right),
            (PrimitiveValue::String(left), PrimitiveValue::String(right)) => Some(left.eq(right)),
            _ => None,
        }
    }

    /// Loose equality (`==`) where it is statically known; `None` where it is
    /// not, which callers read as "cannot be determined", not as false.
    pub fn loosely_equals(&self, other: &Self) -> (r: Option<bool>)
        ensures
            r == loose_eq(*self, *other),
    {
        match (self, other) {
            (PrimitiveValue::Null, PrimitiveValue::Undefined) => Some(true),
            (PrimitiveValue::Undefined, PrimitiveValue::Null) => Some(true),
            _ => self.same_kind_equals(other),
        }
    }

    pub fn not_loosely_equals(&self, other: &Self) -> (r: Option<bool>)
        ensures
            r == match loose_eq(*self, *other) {
                Some(b) => Some(!b),
                None => None,
            },
    {
        match self.loosely_equals(other) {
            Some(value) => Some(!value),
            None => None,
        }
    }

    /// Strict equality (`===`).
    pub fn strictly_equals(&self, other: &Self) -> (r: bool)
        ensures
            r == strict_eq(*self, *other),
    {
        match self.same_kind_equals(other) {
            Some(value) => value,
            None => false,
        }
    }

    pub fn not_strictly_equals(&self, other: &Self) -> (r: bool)
        ensures
            r == !strict_eq(*self, *other),
    {
        !self.strictly_equals(other)
    }
}

/// Loose equality holds between null and undefined in both orders, strict
/// equality in neither; any other pair of differing kinds is undecided by
/// loose equality and unequal under strict equality.
pub proof fn lemma_null_undefined(a: PrimitiveValue, b: PrimitiveValue)
    ensures
        loose_eq(PrimitiveValue::Null, PrimitiveValue::Undefined) == Some(true),
        loose_eq(PrimitiveValue::Undefined, PrimitiveValue::Null) == Some(true),
        !strict_eq(PrimitiveValue::Null, PrimitiveValue::Undefined),
        !strict_eq(PrimitiveValue::Undefined, PrimitiveValue::Null),
        !same_kind(a, b) && !is_null_undefined_pair(a, b) ==> loose_eq(a, b) is None,
        !same_kind(a, b) ==> !strict_eq(a, b),
{
}

/// Two primitives are of one kind.
pub open spec fn same_kind(a: PrimitiveValue, b: PrimitiveValue) -> bool {
    match (a, b) {
        (PrimitiveValue::Boolean(_), PrimitiveValue::Boolean(_)) => true,
        (PrimitiveValue::Null, PrimitiveValue::Null) => true,
        (PrimitiveValue::Number(_), PrimitiveValue::Number(_)) => true,
        (PrimitiveValue::String(_), PrimitiveValue::String(_)) => true,
        (PrimitiveValue::Undefined, PrimitiveValue::Undefined) => true,
        _ => false,
    }
}

/// The pair is null and undefined, in either order.
pub open spec fn is_null_undefined_pair(a: PrimitiveValue, b: PrimitiveValue) -> bool {
    (a is Null && b is Undefined) || (a is Undefined && b is Null)
}

/// A primitive literal.
#[derive(Debug)]
pub struct Primitive {
    pub value: PrimitiveValue,
}

/// How a declaration or assignment binds its identifier.
#[derive(Clone, Copy, PartialEq, Eq, Structural, PartialOrd, Ord, Hash, Debug)]
pub enum InstructionKind {
    /// `const` declaration
    Const,
    /// `let` declaration
    Let,
    /// Reassignment from `=` or assignment-update (`+=` etc)
    Reassign,
}

impl InstructionKind {
    /// The kind's name as printed.
    pub fn name(&self) -> (r: &'static str)
        ensures
            r@ == instruction_kind_name(*self),
    {
        match self {
            InstructionKind::Const => "Const",
            InstructionKind::Let => "Let",
            InstructionKind::Reassign => "Reassign",
        }
    }
}

pub open spec fn instruction_kind_name(k: InstructionKind) -> Seq<char> {
    match k {
        InstructionKind::Const => "Const"@,
        InstructionKind::Let => "Let"@,
        InstructionKind::Reassign => "Reassign"@,
    }
}

/// The capability with which a reference acts on a value.
#[derive(Clone, Copy, PartialEq, Eq, Structural, PartialOrd, Ord, Hash, Debug)]
pub enum Effect {
    /// This reference freezes the value (codegen emits a freeze here)
    Freeze,
    /// This reference reads the value
    Read,
    /// This reference reads and stores the value
    Capture,
    /// This reference *may* mutate the value: mutable values are assumed to be
    /// mutated, but an immutable value flowing here is not an error.
    ConditionallyMutate,
    /// This reference *does* mutate the value; an immutable value flowing here
    /// is invalid input.
    Mutate,
    /// This reference may alias to (mutate) the value
    Store,
}

/// Capture, store, mutate and conditional mutate may change the value.
pub open spec fn effect_mutable(e: Effect) -> bool {
    match e {
        Effect::Capture | Effect::Store | Effect::ConditionallyMutate | Effect::Mutate => true,
        Effect::Read | Effect::Freeze => false,
    }
}

pub open spec fn effect_name(e: Effect) -> Seq<char> {
    match e {
        Effect::Capture => "capture"@,
        Effect::ConditionallyMutate => "mutate?"@,
        Effect::Freeze => "freeze"@,
        Effect::Mutate => "mutate"@,
        Effect::Read => "read"@,
        Effect::Store => "store"@,
    }
}

impl Effect {
    pub fn is_mutable(self) -> (r: bool)
        ensures
            r == effect_mutable(self),
    {
        match self {
            Effect::Capture | Effect::Store | Effect::ConditionallyMutate | Effect::Mutate => true,
            Effect::Read | Effect::Freeze => false,
        }
    }

    /// The effect's name as printed.
    pub fn name(self) -> (r: &'static str)
        ensures
            r@ == effect_name(self),
    {
        match self {
            Effect::Capture => "capture",
            Effect::ConditionallyMutate => "mutate?",
            Effect::Freeze => "freeze",
            Effect::Mutate => "mutate",
            Effect::Read => "read",
            Effect::Store => "store",
        }
    }
}

} // verus!
