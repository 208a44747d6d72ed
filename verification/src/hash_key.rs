//! Keys: what the table needs of them, and how they are hashed.

use std::collections::hash_map::RandomState;
use std::hash::BuildHasher;
use std::hash::Hash;
use vstd::prelude::*;

verus! {

/// The hash code that `builder` gives to a byte string. The seed is part of the
/// builder, so that nothing else has a say in the code.
pub uninterp spec fn bytes_hash(builder: RandomState, key: Seq<u8>) -> u64;

/// The hash code that `builder` gives to a `u64`.
pub uninterp spec fn u64_hash(builder: RandomState, key: u64) -> u64;

/// The hash code that `builder` gives to a string.
pub uninterp spec fn string_hash(builder: RandomState, key: Seq<char>) -> u64;

/// The hash code that `builder` gives to a `u8`.
pub uninterp spec fn u8_hash(builder: RandomState, key: u8) -> u64;

/// The hash code that `builder` gives to a `u16`.
pub uninterp spec fn u16_hash(builder: RandomState, key: u16) -> u64;

/// The hash code that `builder` gives to a `u32`.
pub uninterp spec fn u32_hash(builder: RandomState, key: u32) -> u64;

/// The hash code that `builder` gives to a `usize`.
pub uninterp spec fn usize_hash(builder: RandomState, key: usize) -> u64;

/// The hash code that `builder` gives to an `i32`.
pub uninterp spec fn i32_hash(builder: RandomState, key: i32) -> u64;

/// The hash code that `builder` gives to an `i64`.
pub uninterp spec fn i64_hash(builder: RandomState, key: i64) -> u64;

/// The hash code that `builder` gives to a `bool`.
pub uninterp spec fn bool_hash(builder: RandomState, key: bool) -> u64;

/// The hash code that `builder` gives to a `char`.
pub uninterp spec fn char_hash(builder: RandomState, key: char) -> u64;

/// The hash code that `builder` gives to a vector of bytes.
pub uninterp spec fn vec_hash(builder: RandomState, key: Seq<u8>) -> u64;

/// `RandomState::new` seeds a hash builder. The seed is drawn at random, so
/// nothing is claimed of the builder that comes back.
pub assume_specification[ RandomState::new ]() -> (builder: RandomState)
;

/// `BuildHasher::hash_one` on a byte string: a hasher made by `builder` is fed
/// the key, and finished. A particular `RandomState` makes the same hasher every
/// time, and a boxed slice is hashed by its bytes, so the code is a function of
/// the two. What function it is, and that different keys mostly have different
/// codes, is left unsaid.
#[verifier::external_body]
fn hash_one_bytes(builder: &RandomState, key: &Box<[u8]>) -> (code: u64)
    ensures
        code == bytes_hash(*builder, key@),
{
    builder.hash_one(key)
}

/// `BuildHasher::hash_one` on a `u64`: the code is a function of the builder and
/// the number.
#[verifier::external_body]
fn hash_one_u64(builder: &RandomState, key: &u64) -> (code: u64)
    ensures
        code == u64_hash(*builder, *key),
{
    builder.hash_one(key)
}

/// `BuildHasher::hash_one` on a `String`: the code is a function of the builder
/// and the characters.
#[verifier::external_body]
fn hash_one_string(builder: &RandomState, key: &String) -> (code: u64)
    ensures
        code == string_hash(*builder, key@),
{
    builder.hash_one(key)
}

/// `BuildHasher::hash_one` on a `u8`: the code is a function of the builder and the
/// value.
#[verifier::external_body]
fn hash_one_u8(builder: &RandomState, key: &u8) -> (code: u64)
    ensures
        code == u8_hash(*builder, *key),
{
    builder.hash_one(key)
}

/// `BuildHasher::hash_one` on a `u16`: the code is a function of the builder and the
/// value.
#[verifier::external_body]
fn hash_one_u16(builder: &RandomState, key: &u16) -> (code: u64)
    ensures
        code == u16_hash(*builder, *key),
{
    builder.hash_one(key)
}

/// `BuildHasher::hash_one` on a `u32`: the code is a function of the builder and the
/// value.
#[verifier::external_body]
fn hash_one_u32(builder: &RandomState, key: &u32) -> (code: u64)
    ensures
        code == u32_hash(*builder, *key),
{
    builder.hash_one(key)
}

/// `BuildHasher::hash_one` on a `usize`: the code is a function of the builder and the
/// value.
#[verifier::external_body]
fn hash_one_usize(builder: &RandomState, key: &usize) -> (code: u64)
    ensures
        code == usize_hash(*builder, *key),
{
    builder.hash_one(key)
}

/// `BuildHasher::hash_one` on an `i32`: the code is a function of the builder and the
/// value.
#[verifier::external_body]
fn hash_one_i32(builder: &RandomState, key: &i32) -> (code: u64)
    ensures
        code == i32_hash(*builder, *key),
{
    builder.hash_one(key)
}

/// `BuildHasher::hash_one` on an `i64`: the code is a function of the builder and the
/// value.
#[verifier::external_body]
fn hash_one_i64(builder: &RandomState, key: &i64) -> (code: u64)
    ensures
        code == i64_hash(*builder, *key),
{
    builder.hash_one(key)
}

/// `BuildHasher::hash_one` on a `bool`: the code is a function of the builder and the
/// value.
#[verifier::external_body]
fn hash_one_bool(builder: &RandomState, key: &bool) -> (code: u64)
    ensures
        code == bool_hash(*builder, *key),
{
    builder.hash_one(key)
}

/// `BuildHasher::hash_one` on a `char`: the code is a function of the builder and the
/// value.
#[verifier::external_body]
fn hash_one_char(builder: &RandomState, key: &char) -> (code: u64)
    ensures
        code == char_hash(*builder, *key),
{
    builder.hash_one(key)
}

/// `BuildHasher::hash_one` on a vector of bytes: the code is a function of the builder and
/// the bytes.
#[verifier::external_body]
fn hash_one_vec(builder: &RandomState, key: &Vec<u8>) -> (code: u64)
    ensures
        code == vec_hash(*builder, key@),
{
    builder.hash_one(key)
}

/// A type whose values can be keys. Two keys are the same key exactly when their
/// views are equal, and equal keys have equal hash codes.
pub trait HashKey: View + Hash + Eq + Default {
    /// The hash code that `builder` gives to a key with this view.
    spec fn hash_code(builder: RandomState, key: Self::V) -> u64;

    /// Hashes the key with `builder`.
    fn hash_with(&self, builder: &RandomState) -> (code: u64)
        ensures
            code == Self::hash_code(*builder, self@),
    ;

    /// Whether the two are the same key.
    fn same_key(&self, other: &Self) -> (same: bool)
        ensures
            same == (self@ == other@),
    ;
}

/// Whether two byte strings are equal.
fn same_bytes(a: &[u8], b: &[u8]) -> (same: bool)
    ensures
        same == (a@ == b@),
{
    let n: usize = a.len();
    if n != b.len() {
        return false;
    }
    let mut i: usize = 0;
    while i < n
        invariant
            i <= n,
            n == a@.len(),
            n == b@.len(),
            forall|j: int| 0 <= j < i ==> a@[j] == b@[j],
        decreases n - i,
    {
        if a[i] != b[i] {
            return false;
        }
        i = i + 1;
    }
    assert(a@ =~= b@);
    true
}

impl HashKey for Box<[u8]> {
    open spec fn hash_code(builder: RandomState, key: Seq<u8>) -> u64 {
        bytes_hash(builder, key)
    }

    fn hash_with(&self, builder: &RandomState) -> (code: u64)
        ensures
            code == bytes_hash(*builder, self@),
    {
        hash_one_bytes(builder, self)
    }

    fn same_key(&self, other: &Self) -> (same: bool) {
        same_bytes(self, other)
    }
}

impl HashKey for Vec<u8> {
    open spec fn hash_code(builder: RandomState, key: Seq<u8>) -> u64 {
        vec_hash(builder, key)
    }

    fn hash_with(&self, builder: &RandomState) -> (code: u64)
        ensures
            code == vec_hash(*builder, self@),
    {
        hash_one_vec(builder, self)
    }

    fn same_key(&self, other: &Self) -> (same: bool) {
        same_bytes(self.as_slice(), other.as_slice())
    }
}

impl HashKey for u64 {
    open spec fn hash_code(builder: RandomState, key: u64) -> u64 {
        u64_hash(builder, key)
    }

    fn hash_with(&self, builder: &RandomState) -> (code: u64)
        ensures
            code == u64_hash(*builder, *self),
    {
        hash_one_u64(builder, self)
    }

    fn same_key(&self, other: &Self) -> (same: bool) {
        *self == *other
    }
}

impl HashKey for u8 {
    open spec fn hash_code(builder: RandomState, key: u8) -> u64 {
        u8_hash(builder, key)
    }

    fn hash_with(&self, builder: &RandomState) -> (code: u64)
        ensures
            code == u8_hash(*builder, *self),
    {
        hash_one_u8(builder, self)
    }

    fn same_key(&self, other: &Self) -> (same: bool) {
        *self == *other
    }
}

impl HashKey for u16 {
    open spec fn hash_code(builder: RandomState, key: u16) -> u64 {
        u16_hash(builder, key)
    }

    fn hash_with(&self, builder: &RandomState) -> (code: u64)
        ensures
            code == u16_hash(*builder, *self),
    {
        hash_one_u16(builder, self)
    }

    fn same_key(&self, other: &Self) -> (same: bool) {
        *self == *other
    }
}

impl HashKey for u32 {
    open spec fn hash_code(builder: RandomState, key: u32) -> u64 {
        u32_hash(builder, key)
    }

    fn hash_with(&self, builder: &RandomState) -> (code: u64)
        ensures
            code == u32_hash(*builder, *self),
    {
        hash_one_u32(builder, self)
    }

    fn same_key(&self, other: &Self) -> (same: bool) {
        *self == *other
    }
}

impl HashKey for usize {
    open spec fn hash_code(builder: RandomState, key: usize) -> u64 {
        usize_hash(builder, key)
    }

    fn hash_with(&self, builder: &RandomState) -> (code: u64)
        ensures
            code == usize_hash(*builder, *self),
    {
        hash_one_usize(builder, self)
    }

    fn same_key(&self, other: &Self) -> (same: bool) {
        *self == *other
    }
}

impl HashKey for i32 {
    open spec fn hash_code(builder: RandomState, key: i32) -> u64 {
        i32_hash(builder, key)
    }

    fn hash_with(&self, builder: &RandomState) -> (code: u64)
        ensures
            code == i32_hash(*builder, *self),
    {
        hash_one_i32(builder, self)
    }

    fn same_key(&self, other: &Self) -> (same: bool) {
        *self == *other
    }
}

impl HashKey for i64 {
    open spec fn hash_code(builder: RandomState, key: i64) -> u64 {
        i64_hash(builder, key)
    }

    fn hash_with(&self, builder: &RandomState) -> (code: u64)
        ensures
            code == i64_hash(*builder, *self),
    {
        hash_one_i64(builder, self)
    }

    fn same_key(&self, other: &Self) -> (same: bool) {
        *self == *other
    }
}

impl HashKey for bool {
    open spec fn hash_code(builder: RandomState, key: bool) -> u64 {
        bool_hash(builder, key)
    }

    fn hash_with(&self, builder: &RandomState) -> (code: u64)
        ensures
            code == bool_hash(*builder, *self),
    {
        hash_one_bool(builder, self)
    }

    fn same_key(&self, other: &Self) -> (same: bool) {
        *self == *other
    }
}

impl HashKey for char {
    open spec fn hash_code(builder: RandomState, key: char) -> u64 {
        char_hash(builder, key)
    }

    fn hash_with(&self, builder: &RandomState) -> (code: u64)
        ensures
            code == char_hash(*builder, *self),
    {
        hash_one_char(builder, self)
    }

    fn same_key(&self, other: &Self) -> (same: bool) {
        *self == *other
    }
}

impl HashKey for String {
    open spec fn hash_code(builder: RandomState, key: Seq<char>) -> u64 {
        string_hash(builder, key)
    }

    fn hash_with(&self, builder: &RandomState) -> (code: u64)
        ensures
            code == string_hash(*builder, self@),
    {
        hash_one_string(builder, self)
    }

    fn same_key(&self, other: &Self) -> (same: bool) {
        *self == *other
    }
}

/// A key has the code that the builder gives to it, all of it: to the bytes of a byte
/// string, and to the characters of a string.
pub proof fn law_text_has_the_code_of_the_builder(
    builder: RandomState,
    bytes: Seq<u8>,
    text: Seq<char>,
)
    ensures
        <Box<[u8]> as HashKey>::hash_code(builder, bytes) == bytes_hash(builder, bytes),
        <Vec<u8> as HashKey>::hash_code(builder, bytes) == vec_hash(builder, bytes),
        <String as HashKey>::hash_code(builder, text) == string_hash(builder, text),
{
}

/// So has a number without a sign.
pub proof fn law_numbers_have_the_code_of_the_builder(
    builder: RandomState,
    byte: u8,
    short: u16,
    word: u32,
    long: u64,
    size: usize,
)
    ensures
        <u8 as HashKey>::hash_code(builder, byte) == u8_hash(builder, byte),
        <u16 as HashKey>::hash_code(builder, short) == u16_hash(builder, short),
        <u32 as HashKey>::hash_code(builder, word) == u32_hash(builder, word),
        <u64 as HashKey>::hash_code(builder, long) == u64_hash(builder, long),
        <usize as HashKey>::hash_code(builder, size) == usize_hash(builder, size),
{
}

/// So has a number with a sign, a truth value, and a character.
pub proof fn law_other_keys_have_the_code_of_the_builder(
    builder: RandomState,
    word: i32,
    long: i64,
    truth: bool,
    letter: char,
)
    ensures
        <i32 as HashKey>::hash_code(builder, word) == i32_hash(builder, word),
        <i64 as HashKey>::hash_code(builder, long) == i64_hash(builder, long),
        <bool as HashKey>::hash_code(builder, truth) == bool_hash(builder, truth),
        <char as HashKey>::hash_code(builder, letter) == char_hash(builder, letter),
{
}

} // verus!
