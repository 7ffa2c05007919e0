//! State for the payload bit grid: which bit positions a signal covers and
//! where its most and least significant bits sit under each byte order.

use vstd::prelude::*;
use crate::bits::ByteOrder;

verus! {

/// A signal as the bit grid sees it: its position and the colour slot it
/// was assigned.
#[derive(Debug, Clone)]
pub struct SignalInfo {
    /// Signal name.
    pub name: Vec<u8>,
    /// Starting bit position in DBC notation.
    pub start_bit: u8,
    /// Width of the field in bits.
    pub bit_length: u8,
    /// Byte order of the field.
    pub byte_order: ByteOrder,
    /// Colour slot assigned to the signal.
    pub color_idx: usize,
    /// Bus the signal's message was seen on.
    pub bus_id: u8,
}

impl SignalInfo {
    /// The DBC-notation bit positions the signal covers: `bit_length`
    /// consecutive positions from `start_bit`.
    pub fn get_bit_positions(&self) -> (r: Vec<usize>)
        ensures
            r@.len() == self.bit_length as nat,
            forall|k: int| 0 <= k < r@.len() ==> r@[k] == self.start_bit + k,
    {
        let mut r: Vec<usize> = Vec::new();
        let mut k: usize = 0;
        while k < self.bit_length as usize
            invariant
                k <= self.bit_length as nat,
                r@.len() == k,
                forall|j: int| 0 <= j < r@.len() ==> r@[j] == self.start_bit + j,
            decreases self.bit_length as usize - k,
        {
            r.push(self.start_bit as usize + k);
            k = k + 1;
        }
        r
    }

    /// The DBC position of the most significant bit: the top of the range
    /// for little-endian signals, the start bit itself for big-endian ones.
    pub fn get_msb_pos(&self) -> (r: usize)
        requires
            self.byte_order == ByteOrder::Intel ==> self.start_bit + self.bit_length >= 1,
        ensures
            self.byte_order == ByteOrder::Intel ==> r == self.start_bit + self.bit_length - 1,
            self.byte_order == ByteOrder::Motorola ==> r == self.start_bit,
    {
        match self.byte_order {
            ByteOrder::Intel => self.start_bit as usize + self.bit_length as usize - 1,
            ByteOrder::Motorola => self.start_bit as usize,
        }
    }

    /// The DBC position of the least significant bit: the start bit for
    /// little-endian signals, the top of the range for big-endian ones.
    pub fn get_lsb_pos(&self) -> (r: usize)
        requires
            self.byte_order == ByteOrder::Motorola ==> self.start_bit + self.bit_length >= 1,
        ensures
            self.byte_order == ByteOrder::Intel ==> r == self.start_bit,
            self.byte_order == ByteOrder::Motorola ==> r == self.start_bit + self.bit_length - 1,
    {
        match self.byte_order {
            ByteOrder::Intel => self.start_bit as usize,
            ByteOrder::Motorola => self.start_bit as usize + self.bit_length as usize - 1,
        }
    }
}

} // verus!
