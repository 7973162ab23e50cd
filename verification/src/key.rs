use std::collections::hash_map::DefaultHasher;
use std::hash::Hash;
use std::hash::Hasher;
use vstd::prelude::*;
use vstd::std_specs::hash::DefaultHasherAdditionalSpecFns;

verus! {

/// A type that can key a hash table: each value has one 64-bit digest, and
/// two values can be told apart.
///
/// Keys that `same` takes for one key are one value, and so have one
/// digest. A type whose equality and hashing disagree cannot meet this
/// contract; a table keyed by it would look for a key in the wrong bucket.
pub trait HashKey: Sized {
    /// The digest of this key. Equal keys have equal digests, because the
    /// digest is a function of the key.
    spec fn digest(&self) -> u64;

    /// Computes the digest.
    fn compute_digest(&self) -> (h: u64)
        ensures
            h == self.digest(),
    ;

    /// Whether two keys are the same key.
    fn same(&self, other: &Self) -> (b: bool)
        ensures
            b == (*self == *other),
    ;
}

/// The digest that the standard library's default hasher, freshly made,
/// gives after it was fed `written`.
pub open spec fn default_digest(written: Seq<Seq<u8>>) -> u64 {
    DefaultHasher::spec_finish(written)
}

/// What hashing a `char` writes to a hasher.
pub uninterp spec fn char_written(c: char) -> Seq<Seq<u8>>;

/// What hashing a `u32` writes to a hasher.
pub uninterp spec fn u32_written(x: u32) -> Seq<Seq<u8>>;

/// What hashing a `u64` writes to a hasher.
pub uninterp spec fn u64_written(x: u64) -> Seq<Seq<u8>>;

/// What hashing a `usize` writes to a hasher.
pub uninterp spec fn usize_written(x: usize) -> Seq<Seq<u8>>;

/// What hashing an `i32` writes to a hasher.
pub uninterp spec fn i32_written(x: i32) -> Seq<Seq<u8>>;

/// What hashing an `i64` writes to a hasher.
pub uninterp spec fn i64_written(x: i64) -> Seq<Seq<u8>>;

/// `<char as Hash>::hash` appends to the hasher's input, and what it appends
/// depends on the character alone.
#[verifier::external_body]
fn feed_char(c: &char, state: &mut DefaultHasher)
    ensures
        final(state)@ == old(state)@ + char_written(*c),
{
    c.hash(state);
}

/// `<u32 as Hash>::hash` appends to the hasher's input, and what it appends
/// depends on the number alone.
#[verifier::external_body]
fn feed_u32(x: &u32, state: &mut DefaultHasher)
    ensures
        final(state)@ == old(state)@ + u32_written(*x),
{
    x.hash(state);
}

/// `<u64 as Hash>::hash` appends to the hasher's input, and what it appends
/// depends on the number alone.
#[verifier::external_body]
fn feed_u64(x: &u64, state: &mut DefaultHasher)
    ensures
        final(state)@ == old(state)@ + u64_written(*x),
{
    x.hash(state);
}

/// `<usize as Hash>::hash` appends to the hasher's input, and what it appends
/// depends on the number alone.
#[verifier::external_body]
fn feed_usize(x: &usize, state: &mut DefaultHasher)
    ensures
        final(state)@ == old(state)@ + usize_written(*x),
{
    x.hash(state);
}

/// `<i32 as Hash>::hash` appends to the hasher's input, and what it appends
/// depends on the number alone.
#[verifier::external_body]
fn feed_i32(x: &i32, state: &mut DefaultHasher)
    ensures
        final(state)@ == old(state)@ + i32_written(*x),
{
    x.hash(state);
}

/// `<i64 as Hash>::hash` appends to the hasher's input, and what it appends
/// depends on the number alone.
#[verifier::external_body]
fn feed_i64(x: &i64, state: &mut DefaultHasher)
    ensures
        final(state)@ == old(state)@ + i64_written(*x),
{
    x.hash(state);
}

impl HashKey for char {
    open spec fn digest(&self) -> u64 {
        default_digest(char_written(*self))
    }

    fn compute_digest(&self) -> (h: u64) {
        let mut s = DefaultHasher::new();
        feed_char(self, &mut s);
        s.finish()
    }

    fn same(&self, other: &Self) -> (b: bool) {
        *self == *other
    }
}

impl HashKey for u32 {
    open spec fn digest(&self) -> u64 {
        default_digest(u32_written(*self))
    }

    fn compute_digest(&self) -> (h: u64) {
        let mut s = DefaultHasher::new();
        feed_u32(self, &mut s);
        s.finish()
    }

    fn same(&self, other: &Self) -> (b: bool) {
        *self == *other
    }
}

impl HashKey for u64 {
    open spec fn digest(&self) -> u64 {
        default_digest(u64_written(*self))
    }

    fn compute_digest(&self) -> (h: u64) {
        let mut s = DefaultHasher::new();
        feed_u64(self, &mut s);
        s.finish()
    }

    fn same(&self, other: &Self) -> (b: bool) {
        *self == *other
    }
}

impl HashKey for usize {
    open spec fn digest(&self) -> u64 {
        default_digest(usize_written(*self))
    }

    fn compute_digest(&self) -> (h: u64) {
        let mut s = DefaultHasher::new();
        feed_usize(self, &mut s);
        s.finish()
    }

    fn same(&self, other: &Self) -> (b: bool) {
        *self == *other
    }
}

impl HashKey for i32 {
    open spec fn digest(&self) -> u64 {
        default_digest(i32_written(*self))
    }

    fn compute_digest(&self) -> (h: u64) {
        let mut s = DefaultHasher::new();
        feed_i32(self, &mut s);
        s.finish()
    }

    fn same(&self, other: &Self) -> (b: bool) {
        *self == *other
    }
}

impl HashKey for i64 {
    open spec fn digest(&self) -> u64 {
        default_digest(i64_written(*self))
    }

    fn compute_digest(&self) -> (h: u64) {
        let mut s = DefaultHasher::new();
        feed_i64(self, &mut s);
        s.finish()
    }

    fn same(&self, other: &Self) -> (b: bool) {
        *self == *other
    }
}

} // verus!
