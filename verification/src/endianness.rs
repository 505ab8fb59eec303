//! Fixed-width field codec: unsigned 16- and 32-bit integers held in a
//! fixed byte order, independent of the host, with explicit byte-by-byte
//! encoding and decoding.

#![allow(non_camel_case_types)]

use vstd::prelude::*;

verus! {

/// The value stored by two big-endian bytes.
pub open spec fn be16_value(b: Seq<u8>) -> u16
    recommends
        b.len() == 2,
{
    (b[0] * 256 + b[1]) as u16
}

/// The value stored by four big-endian bytes.
pub open spec fn be32_value(b: Seq<u8>) -> u32
    recommends
        b.len() == 4,
{
    (b[0] * 0x1000000 + b[1] * 0x10000 + b[2] * 0x100 + b[3]) as u32
}

/// The value stored by four little-endian bytes.
pub open spec fn le32_value(b: Seq<u8>) -> u32
    recommends
        b.len() == 4,
{
    (b[3] * 0x1000000 + b[2] * 0x10000 + b[1] * 0x100 + b[0]) as u32
}

/// A 16-bit unsigned integer stored as two big-endian bytes.
#[derive(Clone, Copy, Debug)]
pub struct u16be(pub [u8; 2]);

impl u16be {
    /// The stored value.
    pub open spec fn value(self) -> u16 {
        be16_value(self.0@)
    }

    pub fn get(&self) -> (v: u16)
        ensures
            v == self.value(),
    {
        (self.0[0] as u16) * 0x100 + (self.0[1] as u16)
    }

    pub fn new(val: u16) -> (r: u16be)
        ensures
            r.value() == val,
    {
        u16be([(val / 0x100) as u8, (val % 0x100) as u8])
    }

    pub fn set(&mut self, val: u16)
        ensures
            final(self).value() == val,
    {
        self.0 = [(val / 0x100) as u8, (val % 0x100) as u8];
    }
}

/// A 32-bit unsigned integer stored as four big-endian bytes.
#[derive(Clone, Copy, Debug)]
pub struct u32be(pub [u8; 4]);

impl u32be {
    /// The stored value.
    pub open spec fn value(self) -> u32 {
        be32_value(self.0@)
    }

    pub fn get(&self) -> (v: u32)
        ensures
            v == self.value(),
    {
        (self.0[0] as u32) * 0x1000000 + (self.0[1] as u32) * 0x10000
            + (self.0[2] as u32) * 0x100 + (self.0[3] as u32)
    }

    pub fn new(val: u32) -> (r: u32be)
        ensures
            r.value() == val,
    {
        u32be(
            [
                (val / 0x1000000) as u8,
                ((val / 0x10000) % 0x100) as u8,
                ((val / 0x100) % 0x100) as u8,
                (val % 0x100) as u8,
            ],
        )
    }

    pub fn set(&mut self, val: u32)
        ensures
            final(self).value() == val,
    {
        self.0 = [
            (val / 0x1000000) as u8,
            ((val / 0x10000) % 0x100) as u8,
            ((val / 0x100) % 0x100) as u8,
            (val % 0x100) as u8,
        ];
    }
}

/// A 32-bit unsigned integer stored as four little-endian bytes.
#[derive(Clone, Copy, Debug)]
pub struct u32le(pub [u8; 4]);

impl u32le {
    /// The stored value.
    pub open spec fn value(self) -> u32 {
        le32_value(self.0@)
    }

    pub fn get(&self) -> (v: u32)
        ensures
            v == self.value(),
    {
        (self.0[3] as u32) * 0x1000000 + (self.0[2] as u32) * 0x10000
            + (self.0[1] as u32) * 0x100 + (self.0[0] as u32)
    }

    pub fn new(val: u32) -> (r: u32le)
        ensures
            r.value() == val,
    {
        u32le(
            [
                (val % 0x100) as u8,
                ((val / 0x100) % 0x100) as u8,
                ((val / 0x10000) % 0x100) as u8,
                (val / 0x1000000) as u8,
            ],
        )
    }

    pub fn set(&mut self, val: u32)
        ensures
            final(self).value() == val,
    {
        self.0 = [
            (val % 0x100) as u8,
            ((val / 0x100) % 0x100) as u8,
            ((val / 0x10000) % 0x100) as u8,
            (val / 0x1000000) as u8,
        ];
    }
}

} // verus!
