//! The closed set of element types a tensor may carry and the trait families
//! that scope the operations on them.
//!
//! - [`Dtype`]: every supported scalar type (`bool` and the integers), with
//!   [`DtypeStyler`] naming it for display.
//! - [`Numeric`]: arithmetic-capable types. Integer arithmetic wraps on
//!   overflow; division and remainder are defined when the divisor is nonzero
//!   and the quotient is representable.
//! - [`Signed`]: numeric types with a negation (the signed integers).
//! - [`Integer`]: the integer family.
use vstd::prelude::*;

verus! {

/// Closes the dtype families to the types implemented here.
pub trait Sealed {}

/// Base family: every scalar type a tensor may carry.
pub trait Dtype: Sealed + Copy {}

/// Display support for a dtype.
pub trait DtypeStyler: Dtype {
    /// The dtype's name.
    spec fn spec_dtype_name() -> Seq<char>;

    /// The text of a value.
    spec fn spec_text(v: Self) -> Seq<char>;

    /// Human-readable dtype name, as printed by tensor displays.
    fn dtype_name() -> (r: &'static str)
        ensures
            r@ == Self::spec_dtype_name(),
    ;

    /// Append the text of `v` (decimal for integers, `true`/`false` for
    /// booleans).
    fn push_text(v: Self, out: &mut String)
        ensures
            final(out)@ == old(out)@ + Self::spec_text(v),
    ;
}

/// Arithmetic family (`+ - * / %` and ordering). Each operation is pinned to
/// a spec function; the ordering laws below hold for every member.
pub trait Numeric: Dtype {
    spec fn spec_zero() -> Self;

    spec fn spec_one() -> Self;

    spec fn spec_add(a: Self, b: Self) -> Self;

    spec fn spec_sub(a: Self, b: Self) -> Self;

    spec fn spec_mul(a: Self, b: Self) -> Self;

    /// Division and remainder are defined: nonzero divisor, representable quotient.
    spec fn div_defined(a: Self, b: Self) -> bool;

    spec fn spec_div(a: Self, b: Self) -> Self;

    spec fn spec_rem(a: Self, b: Self) -> Self;

    /// Strict order `a > b`.
    spec fn spec_gt(a: Self, b: Self) -> bool;

    /// Non-strict order `a >= b`.
    spec fn spec_ge(a: Self, b: Self) -> bool;

    fn zero() -> (r: Self)
        ensures
            r == Self::spec_zero(),
    ;

    fn one() -> (r: Self)
        ensures
            r == Self::spec_one(),
    ;

    fn plus(self, other: Self) -> (r: Self)
        ensures
            r == Self::spec_add(self, other),
    ;

    fn minus(self, other: Self) -> (r: Self)
        ensures
            r == Self::spec_sub(self, other),
    ;

    fn times(self, other: Self) -> (r: Self)
        ensures
            r == Self::spec_mul(self, other),
    ;

    fn divide(self, other: Self) -> (r: Self)
        requires
            Self::div_defined(self, other),
        ensures
            r == Self::spec_div(self, other),
    ;

    fn remainder(self, other: Self) -> (r: Self)
        requires
            Self::div_defined(self, other),
        ensures
            r == Self::spec_rem(self, other),
    ;

    fn greater(self, other: Self) -> (r: bool)
        ensures
            r == Self::spec_gt(self, other),
    ;

    fn greater_eq(self, other: Self) -> (r: bool)
        ensures
            r == Self::spec_ge(self, other),
    ;

    fn same(self, other: Self) -> (r: bool)
        ensures
            r == (self == other),
    ;

    /// Zero is a left identity of addition.
    proof fn lemma_add_zero(a: Self)
        ensures
            Self::spec_add(Self::spec_zero(), a) == a,
    ;

    /// `>=` is a total preorder and `>` is its strict part.
    proof fn lemma_order(a: Self, b: Self, c: Self)
        ensures
            Self::spec_ge(a, a),
            Self::spec_ge(a, b) || Self::spec_ge(b, a),
            Self::spec_ge(a, b) && Self::spec_ge(b, c) ==> Self::spec_ge(a, c),
            Self::spec_gt(a, b) == !Self::spec_ge(b, a),
            Self::spec_ge(a, b) && Self::spec_ge(b, a) ==> a == b,
    ;
}

/// Signed family: numeric types with a negation and an absolute value
/// (both wrapping at the minimum value).
pub trait Signed: Numeric {
    spec fn spec_neg(a: Self) -> Self;

    spec fn spec_abs(a: Self) -> Self;

    fn negate(self) -> (r: Self)
        ensures
            r == Self::spec_neg(self),
    ;

    fn absolute(self) -> (r: Self)
        ensures
            r == Self::spec_abs(self),
    ;
}

/// Integer family.
pub trait Integer: Numeric {}

/// Elements that can act as one-hot class labels.
pub trait OneHotLabel: Dtype {
    /// The element denotes a class (it is non-negative).
    spec fn is_label(a: Self) -> bool;

    /// The class index the element denotes.
    spec fn spec_class(a: Self) -> nat;

    /// Convert to a class index.
    fn as_class(self) -> (r: usize)
        requires
            Self::is_label(self),
        ensures
            r == Self::spec_class(self),
    ;
}

impl Sealed for bool {}

impl Dtype for bool {}

impl DtypeStyler for bool {
    open spec fn spec_dtype_name() -> Seq<char> {
        seq!['b', 'o', 'o', 'l']
    }

    open spec fn spec_text(v: Self) -> Seq<char> {
        crate::text::bool_text(v)
    }

    fn dtype_name() -> (r: &'static str) {
        proof {
            reveal_strlit("bool");
        }
        "bool"
    }

    fn push_text(v: Self, out: &mut String) {
        crate::text::push_bool(out, v);
    }
}

impl Sealed for i8 {}

impl Dtype for i8 {}

impl DtypeStyler for i8 {
    open spec fn spec_dtype_name() -> Seq<char> {
        seq!['i', 'n', 't', '8']
    }

    open spec fn spec_text(v: Self) -> Seq<char> {
        crate::text::int_text(v as int)
    }

    fn dtype_name() -> (r: &'static str) {
        proof {
            reveal_strlit("int8");
        }
        "int8"
    }

    fn push_text(v: Self, out: &mut String) {
        crate::text::push_int(out, v as i64);
    }
}

impl Numeric for i8 {
    open spec fn spec_zero() -> Self {
        0
    }

    open spec fn spec_one() -> Self {
        1
    }

    open spec fn spec_add(a: Self, b: Self) -> Self {
        vstd::wrapping::i8_specs::wrapping_add(a, b)
    }

    open spec fn spec_sub(a: Self, b: Self) -> Self {
        vstd::wrapping::i8_specs::wrapping_sub(a, b)
    }

    open spec fn spec_mul(a: Self, b: Self) -> Self {
        vstd::wrapping::i8_specs::wrapping_mul(a, b)
    }

    open spec fn div_defined(a: Self, b: Self) -> bool {
        a.checked_div(b) is Some
    }

    open spec fn spec_div(a: Self, b: Self) -> Self {
        a.checked_div(b)->0
    }

    open spec fn spec_rem(a: Self, b: Self) -> Self {
        a.checked_rem(b)->0
    }

    open spec fn spec_gt(a: Self, b: Self) -> bool {
        a > b
    }

    open spec fn spec_ge(a: Self, b: Self) -> bool {
        a >= b
    }

    fn zero() -> (r: Self) {
        0
    }

    fn one() -> (r: Self) {
        1
    }

    fn plus(self, other: Self) -> (r: Self) {
        self.wrapping_add(other)
    }

    fn minus(self, other: Self) -> (r: Self) {
        self.wrapping_sub(other)
    }

    fn times(self, other: Self) -> (r: Self) {
        self.wrapping_mul(other)
    }

    fn divide(self, other: Self) -> (r: Self) {
        match self.checked_div(other) {
            Some(q) => q,
            None => 0,
        }
    }

    fn remainder(self, other: Self) -> (r: Self) {
        match self.checked_rem(other) {
            Some(q) => q,
            None => 0,
        }
    }

    fn greater(self, other: Self) -> (r: bool) {
        self > other
    }

    fn greater_eq(self, other: Self) -> (r: bool) {
        self >= other
    }

    fn same(self, other: Self) -> (r: bool) {
        self == other
    }

    proof fn lemma_add_zero(a: Self) {
    }

    proof fn lemma_order(a: Self, b: Self, c: Self) {
    }
}

impl Integer for i8 {}

impl Signed for i8 {
    open spec fn spec_neg(a: Self) -> Self {
        vstd::wrapping::i8_specs::wrapping_sub(0, a)
    }

    open spec fn spec_abs(a: Self) -> Self {
        if a < 0 {
            vstd::wrapping::i8_specs::wrapping_sub(0, a)
        } else {
            a
        }
    }

    fn negate(self) -> (r: Self) {
        (0 as i8).wrapping_sub(self)
    }

    fn absolute(self) -> (r: Self) {
        if self < 0 {
            (0 as i8).wrapping_sub(self)
        } else {
            self
        }
    }
}

impl OneHotLabel for i8 {
    open spec fn is_label(a: Self) -> bool {
        a >= 0 && a as nat <= usize::MAX
    }

    open spec fn spec_class(a: Self) -> nat {
        a as nat
    }

    fn as_class(self) -> (r: usize) {
        self as usize
    }
}

impl Sealed for i16 {}

impl Dtype for i16 {}

impl DtypeStyler for i16 {
    open spec fn spec_dtype_name() -> Seq<char> {
        seq!['i', 'n', 't', '1', '6']
    }

    open spec fn spec_text(v: Self) -> Seq<char> {
        crate::text::int_text(v as int)
    }

    fn dtype_name() -> (r: &'static str) {
        proof {
            reveal_strlit("int16");
        }
        "int16"
    }

    fn push_text(v: Self, out: &mut String) {
        crate::text::push_int(out, v as i64);
    }
}

impl Numeric for i16 {
    open spec fn spec_zero() -> Self {
        0
    }

    open spec fn spec_one() -> Self {
        1
    }

    open spec fn spec_add(a: Self, b: Self) -> Self {
        vstd::wrapping::i16_specs::wrapping_add(a, b)
    }

    open spec fn spec_sub(a: Self, b: Self) -> Self {
        vstd::wrapping::i16_specs::wrapping_sub(a, b)
    }

    open spec fn spec_mul(a: Self, b: Self) -> Self {
        vstd::wrapping::i16_specs::wrapping_mul(a, b)
    }

    open spec fn div_defined(a: Self, b: Self) -> bool {
        a.checked_div(b) is Some
    }

    open spec fn spec_div(a: Self, b: Self) -> Self {
        a.checked_div(b)->0
    }

    open spec fn spec_rem(a: Self, b: Self) -> Self {
        a.checked_rem(b)->0
    }

    open spec fn spec_gt(a: Self, b: Self) -> bool {
        a > b
    }

    open spec fn spec_ge(a: Self, b: Self) -> bool {
        a >= b
    }

    fn zero() -> (r: Self) {
        0
    }

    fn one() -> (r: Self) {
        1
    }

    fn plus(self, other: Self) -> (r: Self) {
        self.wrapping_add(other)
    }

    fn minus(self, other: Self) -> (r: Self) {
        self.wrapping_sub(other)
    }

    fn times(self, other: Self) -> (r: Self) {
        self.wrapping_mul(other)
    }

    fn divide(self, other: Self) -> (r: Self) {
        match self.checked_div(other) {
            Some(q) => q,
            None => 0,
        }
    }

    fn remainder(self, other: Self) -> (r: Self) {
        match self.checked_rem(other) {
            Some(q) => q,
            None => 0,
        }
    }

    fn greater(self, other: Self) -> (r: bool) {
        self > other
    }

    fn greater_eq(self, other: Self) -> (r: bool) {
        self >= other
    }

    fn same(self, other: Self) -> (r: bool) {
        self == other
    }

    proof fn lemma_add_zero(a: Self) {
    }

    proof fn lemma_order(a: Self, b: Self, c: Self) {
    }
}

impl Integer for i16 {}

impl Signed for i16 {
    open spec fn spec_neg(a: Self) -> Self {
        vstd::wrapping::i16_specs::wrapping_sub(0, a)
    }

    open spec fn spec_abs(a: Self) -> Self {
        if a < 0 {
            vstd::wrapping::i16_specs::wrapping_sub(0, a)
        } else {
            a
        }
    }

    fn negate(self) -> (r: Self) {
        (0 as i16).wrapping_sub(self)
    }

    fn absolute(self) -> (r: Self) {
        if self < 0 {
            (0 as i16).wrapping_sub(self)
        } else {
            self
        }
    }
}

impl OneHotLabel for i16 {
    open spec fn is_label(a: Self) -> bool {
        a >= 0 && a as nat <= usize::MAX
    }

    open spec fn spec_class(a: Self) -> nat {
        a as nat
    }

    fn as_class(self) -> (r: usize) {
        self as usize
    }
}

impl Sealed for i32 {}

impl Dtype for i32 {}

impl DtypeStyler for i32 {
    open spec fn spec_dtype_name() -> Seq<char> {
        seq!['i', 'n', 't', '3', '2']
    }

    open spec fn spec_text(v: Self) -> Seq<char> {
        crate::text::int_text(v as int)
    }

    fn dtype_name() -> (r: &'static str) {
        proof {
            reveal_strlit("int32");
        }
        "int32"
    }

    fn push_text(v: Self, out: &mut String) {
        crate::text::push_int(out, v as i64);
    }
}

impl Numeric for i32 {
    open spec fn spec_zero() -> Self {
        0
    }

    open spec fn spec_one() -> Self {
        1
    }

    open spec fn spec_add(a: Self, b: Self) -> Self {
        vstd::wrapping::i32_specs::wrapping_add(a, b)
    }

    open spec fn spec_sub(a: Self, b: Self) -> Self {
        vstd::wrapping::i32_specs::wrapping_sub(a, b)
    }

    open spec fn spec_mul(a: Self, b: Self) -> Self {
        vstd::wrapping::i32_specs::wrapping_mul(a, b)
    }

    open spec fn div_defined(a: Self, b: Self) -> bool {
        a.checked_div(b) is Some
    }

    open spec fn spec_div(a: Self, b: Self) -> Self {
        a.checked_div(b)->0
    }

    open spec fn spec_rem(a: Self, b: Self) -> Self {
        a.checked_rem(b)->0
    }

    open spec fn spec_gt(a: Self, b: Self) -> bool {
        a > b
    }

    open spec fn spec_ge(a: Self, b: Self) -> bool {
        a >= b
    }

    fn zero() -> (r: Self) {
        0
    }

    fn one() -> (r: Self) {
        1
    }

    fn plus(self, other: Self) -> (r: Self) {
        self.wrapping_add(other)
    }

    fn minus(self, other: Self) -> (r: Self) {
        self.wrapping_sub(other)
    }

    fn times(self, other: Self) -> (r: Self) {
        self.wrapping_mul(other)
    }

    fn divide(self, other: Self) -> (r: Self) {
        match self.checked_div(other) {
            Some(q) => q,
            None => 0,
        }
    }

    fn remainder(self, other: Self) -> (r: Self) {
        match self.checked_rem(other) {
            Some(q) => q,
            None => 0,
        }
    }

    fn greater(self, other: Self) -> (r: bool) {
        self > other
    }

    fn greater_eq(self, other: Self) -> (r: bool) {
        self >= other
    }

    fn same(self, other: Self) -> (r: bool) {
        self == other
    }

    proof fn lemma_add_zero(a: Self) {
    }

    proof fn lemma_order(a: Self, b: Self, c: Self) {
    }
}

impl Integer for i32 {}

impl Signed for i32 {
    open spec fn spec_neg(a: Self) -> Self {
        vstd::wrapping::i32_specs::wrapping_sub(0, a)
    }

    open spec fn spec_abs(a: Self) -> Self {
        if a < 0 {
            vstd::wrapping::i32_specs::wrapping_sub(0, a)
        } else {
            a
        }
    }

    fn negate(self) -> (r: Self) {
        (0 as i32).wrapping_sub(self)
    }

    fn absolute(self) -> (r: Self) {
        if self < 0 {
            (0 as i32).wrapping_sub(self)
        } else {
            self
        }
    }
}

impl OneHotLabel for i32 {
    open spec fn is_label(a: Self) -> bool {
        a >= 0 && a as nat <= usize::MAX
    }

    open spec fn spec_class(a: Self) -> nat {
        a as nat
    }

    fn as_class(self) -> (r: usize) {
        self as usize
    }
}

impl Sealed for i64 {}

impl Dtype for i64 {}

impl DtypeStyler for i64 {
    open spec fn spec_dtype_name() -> Seq<char> {
        seq!['i', 'n', 't', '6', '4']
    }

    open spec fn spec_text(v: Self) -> Seq<char> {
        crate::text::int_text(v as int)
    }

    fn dtype_name() -> (r: &'static str) {
        proof {
            reveal_strlit("int64");
        }
        "int64"
    }

    fn push_text(v: Self, out: &mut String) {
        crate::text::push_int(out, v as i64);
    }
}

impl Numeric for i64 {
    open spec fn spec_zero() -> Self {
        0
    }

    open spec fn spec_one() -> Self {
        1
    }

    open spec fn spec_add(a: Self, b: Self) -> Self {
        vstd::wrapping::i64_specs::wrapping_add(a, b)
    }

    open spec fn spec_sub(a: Self, b: Self) -> Self {
        vstd::wrapping::i64_specs::wrapping_sub(a, b)
    }

    open spec fn spec_mul(a: Self, b: Self) -> Self {
        vstd::wrapping::i64_specs::wrapping_mul(a, b)
    }

    open spec fn div_defined(a: Self, b: Self) -> bool {
        a.checked_div(b) is Some
    }

    open spec fn spec_div(a: Self, b: Self) -> Self {
        a.checked_div(b)->0
    }

    open spec fn spec_rem(a: Self, b: Self) -> Self {
        a.checked_rem(b)->0
    }

    open spec fn spec_gt(a: Self, b: Self) -> bool {
        a > b
    }

    open spec fn spec_ge(a: Self, b: Self) -> bool {
        a >= b
    }

    fn zero() -> (r: Self) {
        0
    }

    fn one() -> (r: Self) {
        1
    }

    fn plus(self, other: Self) -> (r: Self) {
        self.wrapping_add(other)
    }

    fn minus(self, other: Self) -> (r: Self) {
        self.wrapping_sub(other)
    }

    fn times(self, other: Self) -> (r: Self) {
        self.wrapping_mul(other)
    }

    fn divide(self, other: Self) -> (r: Self) {
        match self.checked_div(other) {
            Some(q) => q,
            None => 0,
        }
    }

    fn remainder(self, other: Self) -> (r: Self) {
        match self.checked_rem(other) {
            Some(q) => q,
            None => 0,
        }
    }

    fn greater(self, other: Self) -> (r: bool) {
        self > other
    }

    fn greater_eq(self, other: Self) -> (r: bool) {
        self >= other
    }

    fn same(self, other: Self) -> (r: bool) {
        self == other
    }

    proof fn lemma_add_zero(a: Self) {
    }

    proof fn lemma_order(a: Self, b: Self, c: Self) {
    }
}

impl Integer for i64 {}

impl Signed for i64 {
    open spec fn spec_neg(a: Self) -> Self {
        vstd::wrapping::i64_specs::wrapping_sub(0, a)
    }

    open spec fn spec_abs(a: Self) -> Self {
        if a < 0 {
            vstd::wrapping::i64_specs::wrapping_sub(0, a)
        } else {
            a
        }
    }

    fn negate(self) -> (r: Self) {
        (0 as i64).wrapping_sub(self)
    }

    fn absolute(self) -> (r: Self) {
        if self < 0 {
            (0 as i64).wrapping_sub(self)
        } else {
            self
        }
    }
}

impl OneHotLabel for i64 {
    open spec fn is_label(a: Self) -> bool {
        a >= 0 && a as nat <= usize::MAX
    }

    open spec fn spec_class(a: Self) -> nat {
        a as nat
    }

    fn as_class(self) -> (r: usize) {
        self as usize
    }
}

impl Sealed for u8 {}

impl Dtype for u8 {}

impl DtypeStyler for u8 {
    open spec fn spec_dtype_name() -> Seq<char> {
        seq!['u', 'i', 'n', 't', '8']
    }

    open spec fn spec_text(v: Self) -> Seq<char> {
        crate::text::int_text(v as int)
    }

    fn dtype_name() -> (r: &'static str) {
        proof {
            reveal_strlit("uint8");
        }
        "uint8"
    }

    fn push_text(v: Self, out: &mut String) {
        crate::text::push_nat(out, v as u64);
    }
}

impl Numeric for u8 {
    open spec fn spec_zero() -> Self {
        0
    }

    open spec fn spec_one() -> Self {
        1
    }

    open spec fn spec_add(a: Self, b: Self) -> Self {
        vstd::wrapping::u8_specs::wrapping_add(a, b)
    }

    open spec fn spec_sub(a: Self, b: Self) -> Self {
        vstd::wrapping::u8_specs::wrapping_sub(a, b)
    }

    open spec fn spec_mul(a: Self, b: Self) -> Self {
        vstd::wrapping::u8_specs::wrapping_mul(a, b)
    }

    open spec fn div_defined(a: Self, b: Self) -> bool {
        a.checked_div(b) is Some
    }

    open spec fn spec_div(a: Self, b: Self) -> Self {
        a.checked_div(b)->0
    }

    open spec fn spec_rem(a: Self, b: Self) -> Self {
        a.checked_rem(b)->0
    }

    open spec fn spec_gt(a: Self, b: Self) -> bool {
        a > b
    }

    open spec fn spec_ge(a: Self, b: Self) -> bool {
        a >= b
    }

    fn zero() -> (r: Self) {
        0
    }

    fn one() -> (r: Self) {
        1
    }

    fn plus(self, other: Self) -> (r: Self) {
        self.wrapping_add(other)
    }

    fn minus(self, other: Self) -> (r: Self) {
        self.wrapping_sub(other)
    }

    fn times(self, other: Self) -> (r: Self) {
        self.wrapping_mul(other)
    }

    fn divide(self, other: Self) -> (r: Self) {
        match self.checked_div(other) {
            Some(q) => q,
            None => 0,
        }
    }

    fn remainder(self, other: Self) -> (r: Self) {
        match self.checked_rem(other) {
            Some(q) => q,
            None => 0,
        }
    }

    fn greater(self, other: Self) -> (r: bool) {
        self > other
    }

    fn greater_eq(self, other: Self) -> (r: bool) {
        self >= other
    }

    fn same(self, other: Self) -> (r: bool) {
        self == other
    }

    proof fn lemma_add_zero(a: Self) {
    }

    proof fn lemma_order(a: Self, b: Self, c: Self) {
    }
}

impl Integer for u8 {}

impl OneHotLabel for u8 {
    open spec fn is_label(a: Self) -> bool {
        a as nat <= usize::MAX
    }

    open spec fn spec_class(a: Self) -> nat {
        a as nat
    }

    fn as_class(self) -> (r: usize) {
        self as usize
    }
}

impl Sealed for u16 {}

impl Dtype for u16 {}

impl DtypeStyler for u16 {
    open spec fn spec_dtype_name() -> Seq<char> {
        seq!['u', 'i', 'n', 't', '1', '6']
    }

    open spec fn spec_text(v: Self) -> Seq<char> {
        crate::text::int_text(v as int)
    }

    fn dtype_name() -> (r: &'static str) {
        proof {
            reveal_strlit("uint16");
        }
        "uint16"
    }

    fn push_text(v: Self, out: &mut String) {
        crate::text::push_nat(out, v as u64);
    }
}

impl Numeric for u16 {
    open spec fn spec_zero() -> Self {
        0
    }

    open spec fn spec_one() -> Self {
        1
    }

    open spec fn spec_add(a: Self, b: Self) -> Self {
        vstd::wrapping::u16_specs::wrapping_add(a, b)
    }

    open spec fn spec_sub(a: Self, b: Self) -> Self {
        vstd::wrapping::u16_specs::wrapping_sub(a, b)
    }

    open spec fn spec_mul(a: Self, b: Self) -> Self {
        vstd::wrapping::u16_specs::wrapping_mul(a, b)
    }

    open spec fn div_defined(a: Self, b: Self) -> bool {
        a.checked_div(b) is Some
    }

    open spec fn spec_div(a: Self, b: Self) -> Self {
        a.checked_div(b)->0
    }

    open spec fn spec_rem(a: Self, b: Self) -> Self {
        a.checked_rem(b)->0
    }

    open spec fn spec_gt(a: Self, b: Self) -> bool {
        a > b
    }

    open spec fn spec_ge(a: Self, b: Self) -> bool {
        a >= b
    }

    fn zero() -> (r: Self) {
        0
    }

    fn one() -> (r: Self) {
        1
    }

    fn plus(self, other: Self) -> (r: Self) {
        self.wrapping_add(other)
    }

    fn minus(self, other: Self) -> (r: Self) {
        self.wrapping_sub(other)
    }

    fn times(self, other: Self) -> (r: Self) {
        self.wrapping_mul(other)
    }

    fn divide(self, other: Self) -> (r: Self) {
        match self.checked_div(other) {
            Some(q) => q,
            None => 0,
        }
    }

    fn remainder(self, other: Self) -> (r: Self) {
        match self.checked_rem(other) {
            Some(q) => q,
            None => 0,
        }
    }

    fn greater(self, other: Self) -> (r: bool) {
        self > other
    }

    fn greater_eq(self, other: Self) -> (r: bool) {
        self >= other
    }

    fn same(self, other: Self) -> (r: bool) {
        self == other
    }

    proof fn lemma_add_zero(a: Self) {
    }

    proof fn lemma_order(a: Self, b: Self, c: Self) {
    }
}

impl Integer for u16 {}

impl OneHotLabel for u16 {
    open spec fn is_label(a: Self) -> bool {
        a as nat <= usize::MAX
    }

    open spec fn spec_class(a: Self) -> nat {
        a as nat
    }

    fn as_class(self) -> (r: usize) {
        self as usize
    }
}

impl Sealed for u32 {}

impl Dtype for u32 {}

impl DtypeStyler for u32 {
    open spec fn spec_dtype_name() -> Seq<char> {
        seq!['u', 'i', 'n', 't', '3', '2']
    }

    open spec fn spec_text(v: Self) -> Seq<char> {
        crate::text::int_text(v as int)
    }

    fn dtype_name() -> (r: &'static str) {
        proof {
            reveal_strlit("uint32");
        }
        "uint32"
    }

    fn push_text(v: Self, out: &mut String) {
        crate::text::push_nat(out, v as u64);
    }
}

impl Numeric for u32 {
    open spec fn spec_zero() -> Self {
        0
    }

    open spec fn spec_one() -> Self {
        1
    }

    open spec fn spec_add(a: Self, b: Self) -> Self {
        vstd::wrapping::u32_specs::wrapping_add(a, b)
    }

    open spec fn spec_sub(a: Self, b: Self) -> Self {
        vstd::wrapping::u32_specs::wrapping_sub(a, b)
    }

    open spec fn spec_mul(a: Self, b: Self) -> Self {
        vstd::wrapping::u32_specs::wrapping_mul(a, b)
    }

    open spec fn div_defined(a: Self, b: Self) -> bool {
        a.checked_div(b) is Some
    }

    open spec fn spec_div(a: Self, b: Self) -> Self {
        a.checked_div(b)->0
    }

    open spec fn spec_rem(a: Self, b: Self) -> Self {
        a.checked_rem(b)->0
    }

    open spec fn spec_gt(a: Self, b: Self) -> bool {
        a > b
    }

    open spec fn spec_ge(a: Self, b: Self) -> bool {
        a >= b
    }

    fn zero() -> (r: Self) {
        0
    }

    fn one() -> (r: Self) {
        1
    }

    fn plus(self, other: Self) -> (r: Self) {
        self.wrapping_add(other)
    }

    fn minus(self, other: Self) -> (r: Self) {
        self.wrapping_sub(other)
    }

    fn times(self, other: Self) -> (r: Self) {
        self.wrapping_mul(other)
    }

    fn divide(self, other: Self) -> (r: Self) {
        match self.checked_div(other) {
            Some(q) => q,
            None => 0,
        }
    }

    fn remainder(self, other: Self) -> (r: Self) {
        match self.checked_rem(other) {
            Some(q) => q,
            None => 0,
        }
    }

    fn greater(self, other: Self) -> (r: bool) {
        self > other
    }

    fn greater_eq(self, other: Self) -> (r: bool) {
        self >= other
    }

    fn same(self, other: Self) -> (r: bool) {
        self == other
    }

    proof fn lemma_add_zero(a: Self) {
    }

    proof fn lemma_order(a: Self, b: Self, c: Self) {
    }
}

impl Integer for u32 {}

impl OneHotLabel for u32 {
    open spec fn is_label(a: Self) -> bool {
        a as nat <= usize::MAX
    }

    open spec fn spec_class(a: Self) -> nat {
        a as nat
    }

    fn as_class(self) -> (r: usize) {
        self as usize
    }
}

impl Sealed for u64 {}

impl Dtype for u64 {}

impl DtypeStyler for u64 {
    open spec fn spec_dtype_name() -> Seq<char> {
        seq!['u', 'i', 'n', 't', '6', '4']
    }

    open spec fn spec_text(v: Self) -> Seq<char> {
        crate::text::int_text(v as int)
    }

    fn dtype_name() -> (r: &'static str) {
        proof {
            reveal_strlit("uint64");
        }
        "uint64"
    }

    fn push_text(v: Self, out: &mut String) {
        crate::text::push_nat(out, v as u64);
    }
}

impl Numeric for u64 {
    open spec fn spec_zero() -> Self {
        0
    }

    open spec fn spec_one() -> Self {
        1
    }

    open spec fn spec_add(a: Self, b: Self) -> Self {
        vstd::wrapping::u64_specs::wrapping_add(a, b)
    }

    open spec fn spec_sub(a: Self, b: Self) -> Self {
        vstd::wrapping::u64_specs::wrapping_sub(a, b)
    }

    open spec fn spec_mul(a: Self, b: Self) -> Self {
        vstd::wrapping::u64_specs::wrapping_mul(a, b)
    }

    open spec fn div_defined(a: Self, b: Self) -> bool {
        a.checked_div(b) is Some
    }

    open spec fn spec_div(a: Self, b: Self) -> Self {
        a.checked_div(b)->0
    }

    open spec fn spec_rem(a: Self, b: Self) -> Self {
        a.checked_rem(b)->0
    }

    open spec fn spec_gt(a: Self, b: Self) -> bool {
        a > b
    }

    open spec fn spec_ge(a: Self, b: Self) -> bool {
        a >= b
    }

    fn zero() -> (r: Self) {
        0
    }

    fn one() -> (r: Self) {
        1
    }

    fn plus(self, other: Self) -> (r: Self) {
        self.wrapping_add(other)
    }

    fn minus(self, other: Self) -> (r: Self) {
        self.wrapping_sub(other)
    }

    fn times(self, other: Self) -> (r: Self) {
        self.wrapping_mul(other)
    }

    fn divide(self, other: Self) -> (r: Self) {
        match self.checked_div(other) {
            Some(q) => q,
            None => 0,
        }
    }

    fn remainder(self, other: Self) -> (r: Self) {
        match self.checked_rem(other) {
            Some(q) => q,
            None => 0,
        }
    }

    fn greater(self, other: Self) -> (r: bool) {
        self > other
    }

    fn greater_eq(self, other: Self) -> (r: bool) {
        self >= other
    }

    fn same(self, other: Self) -> (r: bool) {
        self == other
    }

    proof fn lemma_add_zero(a: Self) {
    }

    proof fn lemma_order(a: Self, b: Self, c: Self) {
    }
}

impl Integer for u64 {}

impl OneHotLabel for u64 {
    open spec fn is_label(a: Self) -> bool {
        a as nat <= usize::MAX
    }

    open spec fn spec_class(a: Self) -> nat {
        a as nat
    }

    fn as_class(self) -> (r: usize) {
        self as usize
    }
}

} // verus!
