//! Keys: values that can be hashed and compared.
//!
//! A key is known to the map by its view. Two keys with the same view are the same key, and
//! what a key feeds into a hasher depends on its view alone, so the same key always lands in
//! the same bucket.

use std::collections::hash_map::DefaultHasher;
use std::hash::Hash;
use vstd::prelude::*;

verus! {

/// A type whose values can serve as keys.
///
/// The map takes two keys for the same key exactly when their views are equal, and finds a
/// key by what the key feeds into a hasher. An implementation shows that both go by the
/// view: `same` compares the views, and `feed` writes what `hash_input` gives for the view.
pub trait Key: View + Sized {
    /// What hashing a key with view `v` writes into a hasher.
    spec fn hash_input(v: Self::V) -> Seq<Seq<u8>>;

    /// Feeds this key into `state`.
    fn feed(&self, state: &mut DefaultHasher)
        ensures
            final(state)@ == old(state)@ + Self::hash_input(self@),
    ;

    /// Whether two keys are the same key.
    fn same(&self, other: &Self) -> (b: bool)
        ensures
            b == (self@ == other@),
    ;
}

/// What `<u32 as Hash>::hash` writes into a hasher.
pub uninterp spec fn u32_hash_input(k: u32) -> Seq<Seq<u8>>;

/// What `<u64 as Hash>::hash` writes into a hasher.
pub uninterp spec fn u64_hash_input(k: u64) -> Seq<Seq<u8>>;

/// What `<i32 as Hash>::hash` writes into a hasher.
pub uninterp spec fn i32_hash_input(k: i32) -> Seq<Seq<u8>>;

/// What `<i64 as Hash>::hash` writes into a hasher.
pub uninterp spec fn i64_hash_input(k: i64) -> Seq<Seq<u8>>;

/// What `<str as Hash>::hash` writes into a hasher, for a string slice of the given
/// characters.
pub uninterp spec fn str_hash_input(s: Seq<char>) -> Seq<Seq<u8>>;

/// What `<String as Hash>::hash` writes into a hasher, for a string of the given characters.
pub uninterp spec fn string_hash_input(s: Seq<char>) -> Seq<Seq<u8>>;

/// Calls `<u32 as Hash>::hash`. Taken on trust: the call appends to what the hasher was fed,
/// and what it appends depends on the value alone.
#[verifier::external_body]
fn feed_u32(k: &u32, state: &mut DefaultHasher)
    ensures
        final(state)@ == old(state)@ + u32_hash_input(*k),
{
    k.hash(state)
}

/// Calls `<u64 as Hash>::hash`. Taken on trust: the call appends to what the hasher was fed,
/// and what it appends depends on the value alone.
#[verifier::external_body]
fn feed_u64(k: &u64, state: &mut DefaultHasher)
    ensures
        final(state)@ == old(state)@ + u64_hash_input(*k),
{
    k.hash(state)
}

/// Calls `<i32 as Hash>::hash`. Taken on trust: the call appends to what the hasher was fed,
/// and what it appends depends on the value alone.
#[verifier::external_body]
fn feed_i32(k: &i32, state: &mut DefaultHasher)
    ensures
        final(state)@ == old(state)@ + i32_hash_input(*k),
{
    k.hash(state)
}

/// Calls `<i64 as Hash>::hash`. Taken on trust: the call appends to what the hasher was fed,
/// and what it appends depends on the value alone.
#[verifier::external_body]
fn feed_i64(k: &i64, state: &mut DefaultHasher)
    ensures
        final(state)@ == old(state)@ + i64_hash_input(*k),
{
    k.hash(state)
}

/// Calls `<str as Hash>::hash`. Taken on trust: the call appends to what the hasher was fed,
/// and what it appends depends on the characters alone.
#[verifier::external_body]
fn feed_str(k: &str, state: &mut DefaultHasher)
    ensures
        final(state)@ == old(state)@ + str_hash_input(k@),
{
    k.hash(state)
}

/// Calls `<String as Hash>::hash`. Taken on trust: the call appends to what the hasher was
/// fed, and what it appends depends on the characters alone.
#[verifier::external_body]
fn feed_string(k: &String, state: &mut DefaultHasher)
    ensures
        final(state)@ == old(state)@ + string_hash_input(k@),
{
    k.hash(state)
}

/// Calls `<str as PartialEq>::eq`. Taken on trust: two string slices are equal exactly when
/// they hold the same characters.
#[verifier::external_body]
fn same_str(a: &str, b: &str) -> (same: bool)
    ensures
        same == (a@ == b@),
{
    a == b
}

impl Key for u32 {
    open spec fn hash_input(v: u32) -> Seq<Seq<u8>> {
        u32_hash_input(v)
    }

    fn feed(&self, state: &mut DefaultHasher) {
        feed_u32(self, state)
    }

    fn same(&self, other: &Self) -> (b: bool) {
        *self == *other
    }
}

impl Key for u64 {
    open spec fn hash_input(v: u64) -> Seq<Seq<u8>> {
        u64_hash_input(v)
    }

    fn feed(&self, state: &mut DefaultHasher) {
        feed_u64(self, state)
    }

    fn same(&self, other: &Self) -> (b: bool) {
        *self == *other
    }
}

impl Key for i32 {
    open spec fn hash_input(v: i32) -> Seq<Seq<u8>> {
        i32_hash_input(v)
    }

    fn feed(&self, state: &mut DefaultHasher) {
        feed_i32(self, state)
    }

    fn same(&self, other: &Self) -> (b: bool) {
        *self == *other
    }
}

impl Key for i64 {
    open spec fn hash_input(v: i64) -> Seq<Seq<u8>> {
        i64_hash_input(v)
    }

    fn feed(&self, state: &mut DefaultHasher) {
        feed_i64(self, state)
    }

    fn same(&self, other: &Self) -> (b: bool) {
        *self == *other
    }
}

impl<'a> Key for &'a str {
    open spec fn hash_input(v: Seq<char>) -> Seq<Seq<u8>> {
        str_hash_input(v)
    }

    fn feed(&self, state: &mut DefaultHasher) {
        feed_str(*self, state)
    }

    fn same(&self, other: &Self) -> (b: bool) {
        same_str(*self, *other)
    }
}

impl Key for String {
    open spec fn hash_input(v: Seq<char>) -> Seq<Seq<u8>> {
        string_hash_input(v)
    }

    fn feed(&self, state: &mut DefaultHasher) {
        feed_string(self, state)
    }

    fn same(&self, other: &Self) -> (b: bool) {
        *self == *other
    }
}

} // verus!
