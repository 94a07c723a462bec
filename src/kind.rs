use vstd::prelude::*;

verus! {

/// The logical type of a column's values.
#[derive(Clone, Copy, PartialEq, Eq, Structural, Debug, Hash, PartialOrd, Ord)]
pub enum LogicalType {
    Bit,
    Int,
    Flo,
    Bin,
}

impl LogicalType {
    /// The type whose code is the low two bits of `u`: 0 bit, 1 int, 2
    /// float, 3 bin.
    pub fn from_u8_low_2_bits(u: u8) -> (r: Self)
        ensures
            r == (if u % 4 == 0 {
                LogicalType::Bit
            } else if u % 4 == 1 {
                LogicalType::Int
            } else if u % 4 == 2 {
                LogicalType::Flo
            } else {
                LogicalType::Bin
            }),
    {
        let c = u & 3;
        assert(c == u % 4) by (bit_vector)
            requires
                c == u & 3,
        ;
        if c == 0 {
            LogicalType::Bit
        } else if c == 1 {
            LogicalType::Int
        } else if c == 2 {
            LogicalType::Flo
        } else {
            LogicalType::Bin
        }
    }
}

} // verus!
