//! Hashing and equality capabilities for table keys.
//!
//! A stored key type implements [`TableKey`]: it can hash itself and compare
//! itself against another stored key, and both operations are functions of the
//! key's abstract value alone, so equal keys always hash identically. A type
//! that is only used to look a key up (a borrowed form of the stored type)
//! implements [`LookupKey`], whose hash and equality are consistent with the
//! stored type's.

use std::collections::hash_map::DefaultHasher;
use std::hash::Hasher;
use vstd::prelude::*;
use vstd::std_specs::hash::DefaultHasherAdditionalSpecFns;

verus! {

/// A key that the table can store: hashing and equality are determined by the
/// key's abstract value (its view), which makes the hash consistent.
pub trait TableKey: View + Sized {
    /// The hash of a key, as a function of its abstract value alone.
    spec fn spec_hash(abs: <Self as View>::V) -> u64;

    /// Computes the key's hash; equal abstract values give equal hashes.
    fn hash_code(&self) -> (h: u64)
        ensures
            h == Self::spec_hash(self@),
    ;

    /// Decides whether two keys have the same abstract value.
    fn key_eq(&self, other: &Self) -> (r: bool)
        ensures
            r == (self@ == other@),
    ;
}

/// A lookup form of a stored key type `K`: a possibly different type that
/// denotes the same abstract values and hashes and compares consistently
/// with `K`. Every `K` is a lookup form of itself.
pub trait LookupKey<K: TableKey> {
    /// The abstract value this lookup key stands for.
    spec fn abs(&self) -> <K as View>::V;

    /// Hashes exactly as the stored key with the same abstract value would.
    fn view_hash(&self) -> (h: u64)
        ensures
            h == K::spec_hash(self.abs()),
    ;

    /// Decides whether this lookup key denotes the stored key's abstract value.
    fn eq_stored(&self, stored: &K) -> (r: bool)
        ensures
            r == (self.abs() == stored@),
    ;
}

impl<K: TableKey> LookupKey<K> for K {
    open spec fn abs(&self) -> <K as View>::V {
        self@
    }

    fn view_hash(&self) -> (h: u64) {
        self.hash_code()
    }

    fn eq_stored(&self, stored: &K) -> (r: bool) {
        self.key_eq(stored)
    }
}

impl TableKey for u64 {
    open spec fn spec_hash(abs: u64) -> u64 {
        abs
    }

    fn hash_code(&self) -> (h: u64) {
        *self
    }

    fn key_eq(&self, other: &Self) -> (r: bool) {
        *self == *other
    }
}

/// The hash of a character sequence: what `DefaultHasher` returns after one
/// write of the sequence's UTF-8 encoding.
pub open spec fn spec_str_hash(s: Seq<char>) -> u64 {
    DefaultHasher::spec_finish(seq![vstd::utf8::encode_utf8(s)])
}

/// Hashes a string slice by feeding its bytes to `DefaultHasher`.
fn hash_str(s: &str) -> (h: u64)
    ensures
        h == spec_str_hash(s@),
{
    let mut hasher = DefaultHasher::new();
    hasher.write(s.as_bytes());
    proof {
        assert(hasher@ =~= seq![vstd::utf8::encode_utf8(s@)]);
    }
    hasher.finish()
}

/// Compares two byte slices element by element.
fn bytes_eq(a: &[u8], b: &[u8]) -> (r: bool)
    ensures
        r == (a@ == b@),
{
    if a.len() != b.len() {
        return false;
    }
    let mut i: usize = 0;
    while i < a.len()
        invariant
            a@.len() == b@.len(),
            0 <= i <= a@.len(),
            forall|j: int| 0 <= j < i ==> a@[j] == b@[j],
        decreases a@.len() - i,
    {
        if a[i] != b[i] {
            return false;
        }
        i += 1;
    }
    proof {
        assert(a@ =~= b@);
    }
    true
}

/// Compares two string slices; equal byte encodings mean equal character
/// sequences because UTF-8 encoding is injective.
fn str_eq(a: &str, b: &str) -> (r: bool)
    ensures
        r == (a@ == b@),
{
    let r = bytes_eq(a.as_bytes(), b.as_bytes());
    proof {
        broadcast use vstd::utf8::encode_utf8_decode_utf8;

        if vstd::utf8::encode_utf8(a@) == vstd::utf8::encode_utf8(b@) {
            assert(vstd::utf8::decode_utf8(vstd::utf8::encode_utf8(a@)) == a@);
            assert(vstd::utf8::decode_utf8(vstd::utf8::encode_utf8(b@)) == b@);
        }
    }
    r
}

impl<'a> TableKey for &'a str {
    open spec fn spec_hash(abs: Seq<char>) -> u64 {
        spec_str_hash(abs)
    }

    fn hash_code(&self) -> (h: u64) {
        hash_str(*self)
    }

    fn key_eq(&self, other: &Self) -> (r: bool) {
        str_eq(*self, *other)
    }
}

impl TableKey for String {
    open spec fn spec_hash(abs: Seq<char>) -> u64 {
        spec_str_hash(abs)
    }

    fn hash_code(&self) -> (h: u64) {
        hash_str(self.as_str())
    }

    fn key_eq(&self, other: &Self) -> (r: bool) {
        str_eq(self.as_str(), other.as_str())
    }
}

impl<'a> LookupKey<String> for &'a str {
    open spec fn abs(&self) -> Seq<char> {
        self@
    }

    fn view_hash(&self) -> (h: u64) {
        hash_str(*self)
    }

    fn eq_stored(&self, stored: &String) -> (r: bool) {
        str_eq(*self, stored.as_str())
    }
}

} // verus!
