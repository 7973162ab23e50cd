use vstd::prelude::*;

verus! {

/// A type whose values have a text to stand for them in a dump: the text
/// that `{:?}` gives.
pub trait DebugText {
    /// The text of this value.
    spec fn text(&self) -> Seq<char>;

    /// Writes the text out.
    fn debug_text(&self) -> (s: String)
        ensures
            s@ == self.text(),
    ;
}

/// The text that `{:?}` gives for a `char`.
pub uninterp spec fn char_text(c: char) -> Seq<char>;

/// The text that `{:?}` gives for a `u32`.
pub uninterp spec fn u32_text(x: u32) -> Seq<char>;

/// The text that `{:?}` gives for a `u64`.
pub uninterp spec fn u64_text(x: u64) -> Seq<char>;

/// The text that `{:?}` gives for a `usize`.
pub uninterp spec fn usize_text(x: usize) -> Seq<char>;

/// The text that `{:?}` gives for an `i32`.
pub uninterp spec fn i32_text(x: i32) -> Seq<char>;

/// The text that `{:?}` gives for an `i64`.
pub uninterp spec fn i64_text(x: i64) -> Seq<char>;

/// `format!` with `{:?}` on a `char`, that is `<char as Debug>::fmt`: the text
/// depends on the character alone.
#[verifier::external_body]
fn show_char(c: &char) -> (s: String)
    ensures
        s@ == char_text(*c),
{
    format!("{:?}", c)
}

/// `format!` with `{:?}` on a `u32`, that is `<u32 as Debug>::fmt`: the text
/// depends on the number alone.
#[verifier::external_body]
fn show_u32(x: &u32) -> (s: String)
    ensures
        s@ == u32_text(*x),
{
    format!("{:?}", x)
}

/// `format!` with `{:?}` on a `u64`, that is `<u64 as Debug>::fmt`: the text
/// depends on the number alone.
#[verifier::external_body]
fn show_u64(x: &u64) -> (s: String)
    ensures
        s@ == u64_text(*x),
{
    format!("{:?}", x)
}

/// `format!` with `{:?}` on a `usize`, that is `<usize as Debug>::fmt`: the text
/// depends on the number alone.
#[verifier::external_body]
fn show_usize(x: &usize) -> (s: String)
    ensures
        s@ == usize_text(*x),
{
    format!("{:?}", x)
}

/// `format!` with `{:?}` on an `i32`, that is `<i32 as Debug>::fmt`: the text
/// depends on the number alone.
#[verifier::external_body]
fn show_i32(x: &i32) -> (s: String)
    ensures
        s@ == i32_text(*x),
{
    format!("{:?}", x)
}

/// `format!` with `{:?}` on an `i64`, that is `<i64 as Debug>::fmt`: the text
/// depends on the number alone.
#[verifier::external_body]
fn show_i64(x: &i64) -> (s: String)
    ensures
        s@ == i64_text(*x),
{
    format!("{:?}", x)
}

impl DebugText for char {
    open spec fn text(&self) -> Seq<char> {
        char_text(*self)
    }

    fn debug_text(&self) -> (s: String) {
        show_char(self)
    }
}

impl DebugText for u32 {
    open spec fn text(&self) -> Seq<char> {
        u32_text(*self)
    }

    fn debug_text(&self) -> (s: String) {
        show_u32(self)
    }
}

impl DebugText for u64 {
    open spec fn text(&self) -> Seq<char> {
        u64_text(*self)
    }

    fn debug_text(&self) -> (s: String) {
        show_u64(self)
    }
}

impl DebugText for usize {
    open spec fn text(&self) -> Seq<char> {
        usize_text(*self)
    }

    fn debug_text(&self) -> (s: String) {
        show_usize(self)
    }
}

impl DebugText for i32 {
    open spec fn text(&self) -> Seq<char> {
        i32_text(*self)
    }

    fn debug_text(&self) -> (s: String) {
        show_i32(self)
    }
}

impl DebugText for i64 {
    open spec fn text(&self) -> Seq<char> {
        i64_text(*self)
    }

    fn debug_text(&self) -> (s: String) {
        show_i64(self)
    }
}

} // verus!
