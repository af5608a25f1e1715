use vstd::prelude::*;

verus! {

/// A scalar payload box holding a 64-bit word.
pub struct TagValue {
    value: u64,
}

impl View for TagValue {
    type V = u64;

    closed spec fn view(&self) -> u64 {
        self.value
    }
}

impl TagValue {
    pub fn new(value: u64) -> (r: Self)
        ensures
            r@ == value,
    {
        Self { value }
    }

    pub fn u64_equal(&self, value: u64) -> (r: bool)
        ensures
            r == (self@ == value),
    {
        self.value == value
    }

    /// The low 32 bits of the payload.
    pub fn get_lo_u32(&self) -> (r: u32)
        ensures
            r as int == self@ as int % 0x1_0000_0000,
    {
        let v = self.value;
        assert(v & 0xffff_ffff == v % 0x1_0000_0000) by (bit_vector);
        (v & 0xffff_ffff) as u32
    }

    pub fn get_u64(&self) -> (r: u64)
        ensures
            r == self@,
    {
        self.value
    }

    pub fn set_u64(&mut self, value: u64)
        ensures
            final(self)@ == value,
    {
        self.value = value;
    }
}

} // verus!
