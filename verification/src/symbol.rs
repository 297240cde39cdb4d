//! The alphabet of the transforms: symbols that carry an order-preserving,
//! injective key.
use vstd::prelude::*;

verus! {

/// A symbol of the text being transformed.
///
/// Every symbol has a key of type `u32`; keys order symbols as their own `Ord`
/// does and distinct symbols have distinct keys.
pub trait Symbol: Copy + Sized {
    /// The key of the symbol.
    spec fn key(self) -> u32;

    /// Distinct symbols have distinct keys.
    proof fn lemma_key_injective(a: Self, b: Self)
        requires
            a.key() == b.key(),
        ensures
            a == b,
    ;

    /// Computes the key of the symbol.
    fn to_key(&self) -> (k: u32)
        ensures
            k == self.key(),
    ;
}

impl Symbol for u8 {
    open spec fn key(self) -> u32 {
        self as u32
    }

    proof fn lemma_key_injective(a: Self, b: Self) {
    }

    fn to_key(&self) -> (k: u32) {
        *self as u32
    }
}

impl Symbol for u16 {
    open spec fn key(self) -> u32 {
        self as u32
    }

    proof fn lemma_key_injective(a: Self, b: Self) {
    }

    fn to_key(&self) -> (k: u32) {
        *self as u32
    }
}

impl Symbol for u32 {
    open spec fn key(self) -> u32 {
        self
    }

    proof fn lemma_key_injective(a: Self, b: Self) {
    }

    fn to_key(&self) -> (k: u32) {
        *self
    }
}

impl Symbol for char {
    open spec fn key(self) -> u32 {
        self as u32
    }

    proof fn lemma_key_injective(a: Self, b: Self) {
        vstd::utf8::char_u32_cast(a, a as u32);
        vstd::utf8::char_u32_cast(b, b as u32);
    }

    fn to_key(&self) -> (k: u32) {
        *self as u32
    }
}

impl Symbol for i8 {
    open spec fn key(self) -> u32 {
        (self + 128) as u32
    }

    proof fn lemma_key_injective(a: Self, b: Self) {
    }

    fn to_key(&self) -> (k: u32) {
        (*self as i16 + 128) as u32
    }
}

impl Symbol for i16 {
    open spec fn key(self) -> u32 {
        (self + 32768) as u32
    }

    proof fn lemma_key_injective(a: Self, b: Self) {
    }

    fn to_key(&self) -> (k: u32) {
        (*self as i32 + 32768) as u32
    }
}

impl Symbol for i32 {
    open spec fn key(self) -> u32 {
        (self + 2147483648) as u32
    }

    proof fn lemma_key_injective(a: Self, b: Self) {
    }

    fn to_key(&self) -> (k: u32) {
        (*self as i64 + 2147483648) as u32
    }
}

/// Two symbols are equal exactly when their keys are.
pub fn same_symbol<T: Symbol>(a: &T, b: &T) -> (r: bool)
    ensures
        r == (*a == *b),
{
    let r = a.to_key() == b.to_key();
    proof {
        if r {
            T::lemma_key_injective(*a, *b);
        }
    }
    r
}

/// Law: byte keys follow the order of the bytes.
pub proof fn lemma_key_order_u8(a: u8, b: u8)
    ensures
        a < b <==> a.key() < b.key(),
{
}

/// Law: keys of 16-bit symbols follow their order.
pub proof fn lemma_key_order_u16(a: u16, b: u16)
    ensures
        a < b <==> a.key() < b.key(),
{
}

/// Law: keys of 32-bit symbols follow their order.
pub proof fn lemma_key_order_u32(a: u32, b: u32)
    ensures
        a < b <==> a.key() < b.key(),
{
}

/// Law: keys of signed bytes follow their order, negative ones first.
pub proof fn lemma_key_order_i8(a: i8, b: i8)
    ensures
        a < b <==> a.key() < b.key(),
{
}

/// Law: keys of signed 16-bit symbols follow their order.
pub proof fn lemma_key_order_i16(a: i16, b: i16)
    ensures
        a < b <==> a.key() < b.key(),
{
}

/// Law: keys of signed 32-bit symbols follow their order.
pub proof fn lemma_key_order_i32(a: i32, b: i32)
    ensures
        a < b <==> a.key() < b.key(),
{
}

/// Law: keys of characters follow the order of their scalar values.
pub proof fn lemma_key_order_char(a: char, b: char)
    ensures
        (a as u32) < (b as u32) <==> a.key() < b.key(),
{
}

} // verus!
