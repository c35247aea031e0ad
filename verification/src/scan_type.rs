use vstd::prelude::*;

verus! {

/// Data types that the scanner can search for.
#[derive(Debug, Clone, Copy, PartialEq, Eq, Structural)]
pub enum ScanType {
    I8,
    I16,
    I32,
    I64,
    F32,
    F64,
}

/// Comparison used to filter candidates against their previous value.
#[derive(Debug, Clone, Copy, PartialEq, Eq, Structural)]
pub enum CompareType {
    Equal,
    GreaterThan,
    LessThan,
    NotEqual,
}

/// Width in bytes of a value of the given type.
pub open spec fn spec_size(t: ScanType) -> nat {
    match t {
        ScanType::I8 => 1,
        ScanType::I16 => 2,
        ScanType::I32 => 4,
        ScanType::I64 => 8,
        ScanType::F32 => 4,
        ScanType::F64 => 8,
    }
}

/// The label shown for a type in the type selector.
pub open spec fn spec_name(t: ScanType) -> Seq<char> {
    match t {
        ScanType::I8 => "1-Byte Integer (i8)"@,
        ScanType::I16 => "2-Byte Integer (i16)"@,
        ScanType::I32 => "4-Byte Integer (i32)"@,
        ScanType::I64 => "8-Byte Integer (i64)"@,
        ScanType::F32 => "Float (f32)"@,
        ScanType::F64 => "Double (f64)"@,
    }
}

/// True for the two IEEE 754 types.
pub open spec fn spec_is_float(t: ScanType) -> bool {
    t == ScanType::F32 || t == ScanType::F64
}

impl ScanType {
    /// Width in bytes of a value of this type.
    pub fn size(&self) -> (r: usize)
        ensures
            r == spec_size(*self),
    {
        match self {
            ScanType::I8 => 1,
            ScanType::I16 => 2,
            ScanType::I32 => 4,
            ScanType::I64 => 8,
            ScanType::F32 => 4,
            ScanType::F64 => 8,
        }
    }

    /// Human-readable label of this type.
    pub fn name(&self) -> (r: &'static str)
        ensures
            r@ == spec_name(*self),
    {
        match self {
            ScanType::I8 => "1-Byte Integer (i8)",
            ScanType::I16 => "2-Byte Integer (i16)",
            ScanType::I32 => "4-Byte Integer (i32)",
            ScanType::I64 => "8-Byte Integer (i64)",
            ScanType::F32 => "Float (f32)",
            ScanType::F64 => "Double (f64)",
        }
    }

    /// Whether this is one of the IEEE 754 types.
    pub fn is_float(&self) -> (r: bool)
        ensures
            r == spec_is_float(*self),
    {
        match self {
            ScanType::F32 | ScanType::F64 => true,
            _ => false,
        }
    }
}

} // verus!
