//! Where a C cast has to be written.
//!
//! C converts silently between integer types, from any scalar to a truth
//! value in a condition, and from an array to a pointer to its element.
//! Every other conversion (integer to pointer, pointer to a different
//! pointee, integer to floating point) is a real claim about the program and
//! is spelled out.

use vstd::prelude::*;

verus! {

/// The data types that cast placement distinguishes.
#[derive(Debug)]
pub enum Type {
    /// An unsigned integer of the given width in bits.
    Unsigned(u32),
    /// A signed integer of the given width in bits.
    Signed(u32),
    /// A truth value.
    Bool,
    /// A pointer to a value of the inner type.
    Pointer(Box<Type>),
    /// A binary floating-point value of the given width in bits.
    Float(u32),
    /// Nothing is known about the value's type.
    Unknown,
}

impl Clone for Type {
    fn clone(&self) -> (r: Self)
        ensures
            r == *self,
        decreases *self,
    {
        match self {
            Type::Unsigned(width) => Type::Unsigned(*width),
            Type::Signed(width) => Type::Signed(*width),
            Type::Bool => Type::Bool,
            Type::Pointer(inner) => Type::Pointer(Box::new((**inner).clone())),
            Type::Float(width) => Type::Float(*width),
            Type::Unknown => Type::Unknown,
        }
    }
}

/// An integer type, signed or not.
pub open spec fn is_integer(t: Type) -> bool {
    t is Unsigned || t is Signed
}

/// A type that converts silently to an integer: an integer or a truth value.
pub open spec fn converts_to_integer(t: Type) -> bool {
    is_integer(t) || t is Bool
}

/// A type that tests as a condition without a cast.
pub open spec fn is_scalar(t: Type) -> bool {
    is_integer(t) || t is Pointer || t is Float
}

/// Whether converting `from` to `to` is a real conversion that C would not
/// make by itself.
pub open spec fn cast_needed(from: Type, to: Type) -> bool {
    if from == to {
        false
    } else if converts_to_integer(from) && is_integer(to) {
        false
    } else if is_scalar(from) && to is Bool {
        false
    } else if from is Pointer && to is Pointer {
        from->Pointer_0 != to->Pointer_0
    } else if from is Unknown || to is Unknown {
        false
    } else {
        true
    }
}

/// Structural equality of two types.
fn same_type(left: &Type, right: &Type) -> (r: bool)
    ensures
        r == (*left == *right),
    decreases *left,
{
    match (left, right) {
        (Type::Unsigned(a), Type::Unsigned(b)) => *a == *b,
        (Type::Signed(a), Type::Signed(b)) => *a == *b,
        (Type::Bool, Type::Bool) => true,
        (Type::Float(a), Type::Float(b)) => *a == *b,
        (Type::Unknown, Type::Unknown) => true,
        (Type::Pointer(a), Type::Pointer(b)) => {
            let inner = same_type(&**a, &**b);
            proof {
                if inner {
                    assert(*left == *right);
                }
            }
            inner
        },
        _ => false,
    }
}

/// Whether converting `from` to `to` needs to be written down.
pub fn needs_cast(from: &Type, to: &Type) -> (r: bool)
    ensures
        r == cast_needed(*from, *to),
{
    if same_type(from, to) {
        return false;
    }
    match (from, to) {
        (Type::Unsigned(_), Type::Unsigned(_)) | (Type::Unsigned(_), Type::Signed(_)) => false,
        (Type::Signed(_), Type::Unsigned(_)) | (Type::Signed(_), Type::Signed(_)) => false,
        (Type::Bool, Type::Unsigned(_)) | (Type::Bool, Type::Signed(_)) => false,
        (Type::Unsigned(_), Type::Bool) | (Type::Signed(_), Type::Bool) => false,
        (Type::Pointer(_), Type::Bool) | (Type::Float(_), Type::Bool) => false,
        (Type::Pointer(left), Type::Pointer(right)) => !same_type(&**left, &**right),
        (Type::Unknown, _) | (_, Type::Unknown) => false,
        _ => true,
    }
}

/// Whether an address expression needs the integer conversion a memory
/// access otherwise carries: a value already typed as a pointer is already
/// an address.
pub fn address_needs_cast(ty: &Type) -> (r: bool)
    ensures
        r == !(*ty is Pointer),
{
    match ty {
        Type::Pointer(_) => false,
        _ => true,
    }
}

/// A value never needs a cast to its own type.
pub proof fn lemma_no_cast_to_same_type(t: Type)
    ensures
        !cast_needed(t, t),
{
}

/// Any two integer types convert into each other silently, in both
/// directions.
pub proof fn lemma_integer_conversions_are_implicit(a: Type, b: Type)
    requires
        is_integer(a),
        is_integer(b),
    ensures
        !cast_needed(a, b),
        !cast_needed(b, a),
{
}

} // verus!
