//! What the table asks of its keys: a view, a hash code that depends on the
//! view alone, and a test for equal views.

use std::collections::hash_map::DefaultHasher;
use std::hash::Hasher;
use vstd::prelude::*;
use vstd::std_specs::hash::DefaultHasherAdditionalSpecFns;

verus! {

/// A type whose values can be keys of a table.
///
/// Two keys are the same key when their views are equal, and keys with equal
/// views have equal hash codes: `hash_of` is a function of the view.
pub trait Key: View {
    /// The hash code of every key whose view is `v`.
    spec fn hash_of(v: Self::V) -> u64;

    /// Computes the hash code of this key.
    fn hash_code(&self) -> (h: u64)
        ensures
            h == Self::hash_of(self@),
    ;

    /// Tells whether two keys have the same view.
    fn key_eq(&self, other: &Self) -> (b: bool)
        ensures
            b == (self@ == other@),
    ;
}

/// A type whose values can be looked up in a table keyed by `K`: a value of
/// it stands for the key with the same view, and hashes like that key.
pub trait Equivalent<K: Key>: Key + View<V = <K as View>::V> {
    /// `Self` and `K` give every view the same hash code.
    proof fn hashes_alike(v: <K as View>::V)
        ensures
            Self::hash_of(v) == K::hash_of(v),
    ;

    /// Tells whether this value stands for `key`.
    fn equivalent(&self, key: &K) -> (b: bool)
        ensures
            b == (self@ == key@),
    ;
}

/// The writes by which `std`'s `Hash` impl of `str` feeds a string of the
/// characters `s` to a hasher. Nothing is known of them but that they depend
/// on `s` alone.
pub uninterp spec fn str_writes(s: Seq<char>) -> Seq<Seq<u8>>;

/// The writes by which `std`'s `Hash` impl of `u64` feeds the number `x` to a
/// hasher. Nothing is known of them but that they depend on `x` alone.
pub uninterp spec fn u64_writes(x: u64) -> Seq<Seq<u8>>;

/// `<str as std::hash::Hash>::hash` into a `DefaultHasher`. Trusted: the
/// writes that it adds to the hasher are a function of the string's
/// characters alone.
#[verifier::external_body]
fn feed_str(s: &str, state: &mut DefaultHasher)
    ensures
        final(state)@ == old(state)@ + str_writes(s@),
{
    std::hash::Hash::hash(s, state)
}

/// `<u64 as std::hash::Hash>::hash` into a `DefaultHasher`. Trusted: the
/// writes that it adds to the hasher are a function of the number alone.
#[verifier::external_body]
fn feed_u64(x: u64, state: &mut DefaultHasher)
    ensures
        final(state)@ == old(state)@ + u64_writes(x),
{
    std::hash::Hash::hash(&x, state)
}

/// `==` on `str`. Trusted: two string slices are equal exactly when they hold
/// the same characters.
pub assume_specification[ <str as PartialEq>::eq ](a: &str, b: &str) -> (r: bool)
    ensures
        r == (a@ == b@),
;

/// The hash code of a string: `std`'s default hasher, fed the string.
pub open spec fn str_hash(s: Seq<char>) -> u64 {
    DefaultHasher::spec_finish(str_writes(s))
}

/// The hash code of a number: `std`'s default hasher, fed the number.
pub open spec fn u64_hash(x: u64) -> u64 {
    DefaultHasher::spec_finish(u64_writes(x))
}

/// Hashes a string slice with a fresh `DefaultHasher`.
pub fn hash_str(s: &str) -> (h: u64)
    ensures
        h == str_hash(s@),
{
    let mut hasher = DefaultHasher::new();
    feed_str(s, &mut hasher);
    hasher.finish()
}

/// Hashes a number with a fresh `DefaultHasher`.
pub fn hash_u64(x: u64) -> (h: u64)
    ensures
        h == u64_hash(x),
{
    let mut hasher = DefaultHasher::new();
    feed_u64(x, &mut hasher);
    hasher.finish()
}

/// A string slice is its characters.
impl Key for str {
    open spec fn hash_of(v: Seq<char>) -> u64 {
        str_hash(v)
    }

    fn hash_code(&self) -> (h: u64) {
        hash_str(self)
    }

    fn key_eq(&self, other: &Self) -> (b: bool) {
        *self == *other
    }
}

/// An owned string is a key like the slice of its characters.
impl Key for String {
    open spec fn hash_of(v: Seq<char>) -> u64 {
        str_hash(v)
    }

    fn hash_code(&self) -> (h: u64) {
        hash_str(self.as_str())
    }

    fn key_eq(&self, other: &Self) -> (b: bool) {
        *self == *other
    }
}

/// A number is a key that hashes as `std` hashes a `u64`.
impl Key for u64 {
    open spec fn hash_of(v: u64) -> u64 {
        u64_hash(v)
    }

    fn hash_code(&self) -> (h: u64) {
        hash_u64(*self)
    }

    fn key_eq(&self, other: &Self) -> (b: bool) {
        *self == *other
    }
}

/// A reference to a key is a key with the same view and hash code.
impl<'a, T: Key + ?Sized> Key for &'a T {
    open spec fn hash_of(v: Self::V) -> u64 {
        T::hash_of(v)
    }

    fn hash_code(&self) -> (h: u64) {
        (**self).hash_code()
    }

    fn key_eq(&self, other: &Self) -> (b: bool) {
        (**self).key_eq(*other)
    }
}

/// Every key stands for itself.
impl<K: Key> Equivalent<K> for K {
    proof fn hashes_alike(v: <K as View>::V) {
    }

    fn equivalent(&self, key: &K) -> (b: bool) {
        self.key_eq(key)
    }
}

/// A key can be looked up where references to such keys are stored.
impl<'a, T: Key + ?Sized> Equivalent<&'a T> for T {
    proof fn hashes_alike(v: <T as View>::V) {
    }

    fn equivalent(&self, key: &&'a T) -> (b: bool) {
        self.key_eq(*key)
    }
}

/// A string slice can be looked up where owned strings are stored.
impl Equivalent<String> for str {
    proof fn hashes_alike(v: Seq<char>) {
    }

    fn equivalent(&self, key: &String) -> (b: bool) {
        self.key_eq(key.as_str())
    }
}

} // verus!
