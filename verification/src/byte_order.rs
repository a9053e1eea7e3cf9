//! The order in which the bytes of a number are written.
use crate::outside::native_bytes;
use vstd::prelude::*;

verus! {

/// The order in which the bytes of a number are written.
#[derive(Clone, Copy, Debug, PartialEq, Eq, Structural)]
pub enum ByteOrder {
    /// the least significant byte comes first
    Little,
    /// the most significant byte comes first
    Big,
}

impl ByteOrder {
    /// The bytes of `number` in this order.
    pub open spec fn bytes(self, number: u64) -> Seq<u8> {
        match self {
            ByteOrder::Little => vstd::bytes::spec_u64_to_le_bytes(number),
            ByteOrder::Big => vstd::bytes::spec_u64_to_le_bytes(number).reverse(),
        }
    }

    /// The order in which `bytes` are the bytes of the number one.
    pub fn of_one(bytes: &[u8; 8]) -> (order: Self)
        requires
            bytes@ == ByteOrder::Little.bytes(1) || bytes@ == ByteOrder::Big.bytes(1),
        ensures
            bytes@ == order.bytes(1),
            order is Little <==> bytes@ == ByteOrder::Little.bytes(1),
    {
        proof {
            vstd::bytes::spec_u64_to_le_bytes_to_open(1);
            assert(1u64 & 0xff == 1 && (1u64 >> 56) & 0xff == 0) by (bit_vector);
        }
        if bytes[0] == 1 {
            ByteOrder::Little
        } else {
            ByteOrder::Big
        }
    }

    /// The order of the machine. Which one that is, the machine decides, so nothing is said of it.
    pub fn native() -> (order: Self) {
        Self::of_one(&native_bytes(1))
    }

    /// The bytes of `number` in this order.
    pub fn to_bytes(self, number: u64) -> (bytes: Vec<u8>)
        ensures
            bytes@ == self.bytes(number),
    {
        let little = vstd::bytes::u64_to_le_bytes(number);
        match self {
            ByteOrder::Little => little,
            ByteOrder::Big => {
                let mut bytes: Vec<u8> = Vec::new();
                let mut left: usize = little.len();
                while 0 < left
                    invariant
                        left <= little@.len(),
                        bytes@ == little@.reverse().take(little@.len() - left),
                    decreases left,
                {
                    left = left - 1;
                    bytes.push(little[left]);
                    assert(bytes@ =~= little@.reverse().take(little@.len() - left));
                }
                assert(bytes@ =~= little@.reverse());
                bytes
            },
        }
    }
}

} // verus!
