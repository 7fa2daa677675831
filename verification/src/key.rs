//! Keys: values with a strict total order and a text label.

use crate::decimal::{decimal, signed_text, unsigned_text};
use vstd::prelude::*;

verus! {

/// A key of a tree or a graph: it can be copied, compared and written out.
///
/// `below` is a strict total order, and it agrees with equality of values:
/// two keys are the same key exactly when neither is below the other.
pub trait Key: Copy {
    /// The strict order on keys.
    spec fn below(self, other: Self) -> bool;

    /// The text that stands for the key in a printed route.
    spec fn label_text(self) -> Seq<char>;

    /// No key is below itself.
    proof fn below_irreflexive(a: Self)
        ensures
            !a.below(a),
    ;

    /// The order is transitive.
    proof fn below_transitive(a: Self, b: Self, c: Self)
        requires
            a.below(b),
            b.below(c),
        ensures
            a.below(c),
    ;

    /// Any two different keys are ordered one way or the other.
    proof fn below_connected(a: Self, b: Self)
        ensures
            a.below(b) || b.below(a) || a == b,
    ;

    /// Decides `self.below(other)`.
    fn is_below(&self, other: &Self) -> (r: bool)
        ensures
            r == self.below(*other),
    ;

    /// Decides whether the two keys are the same.
    fn is_same(&self, other: &Self) -> (r: bool)
        ensures
            r == (*self == *other),
    ;

    /// Writes the key's label.
    fn label(&self) -> (text: String)
        ensures
            text@ == self.label_text(),
    ;
}

/// The labels of `keys`, in the same order.
pub open spec fn labels<T: Key>(keys: Seq<T>) -> Seq<Seq<char>> {
    Seq::new(keys.len(), |i: int| keys[i].label_text())
}

impl Key for u8 {
    open spec fn below(self, other: Self) -> bool {
        self < other
    }

    open spec fn label_text(self) -> Seq<char> {
        decimal(self as int)
    }

    proof fn below_irreflexive(a: Self) {
    }

    proof fn below_transitive(a: Self, b: Self, c: Self) {
    }

    proof fn below_connected(a: Self, b: Self) {
    }

    fn is_below(&self, other: &Self) -> (r: bool) {
        *self < *other
    }

    fn is_same(&self, other: &Self) -> (r: bool) {
        *self == *other
    }

    fn label(&self) -> (text: String) {
        unsigned_text(*self as u64)
    }
}

impl Key for u16 {
    open spec fn below(self, other: Self) -> bool {
        self < other
    }

    open spec fn label_text(self) -> Seq<char> {
        decimal(self as int)
    }

    proof fn below_irreflexive(a: Self) {
    }

    proof fn below_transitive(a: Self, b: Self, c: Self) {
    }

    proof fn below_connected(a: Self, b: Self) {
    }

    fn is_below(&self, other: &Self) -> (r: bool) {
        *self < *other
    }

    fn is_same(&self, other: &Self) -> (r: bool) {
        *self == *other
    }

    fn label(&self) -> (text: String) {
        unsigned_text(*self as u64)
    }
}

impl Key for u32 {
    open spec fn below(self, other: Self) -> bool {
        self < other
    }

    open spec fn label_text(self) -> Seq<char> {
        decimal(self as int)
    }

    proof fn below_irreflexive(a: Self) {
    }

    proof fn below_transitive(a: Self, b: Self, c: Self) {
    }

    proof fn below_connected(a: Self, b: Self) {
    }

    fn is_below(&self, other: &Self) -> (r: bool) {
        *self < *other
    }

    fn is_same(&self, other: &Self) -> (r: bool) {
        *self == *other
    }

    fn label(&self) -> (text: String) {
        unsigned_text(*self as u64)
    }
}

impl Key for u64 {
    open spec fn below(self, other: Self) -> bool {
        self < other
    }

    open spec fn label_text(self) -> Seq<char> {
        decimal(self as int)
    }

    proof fn below_irreflexive(a: Self) {
    }

    proof fn below_transitive(a: Self, b: Self, c: Self) {
    }

    proof fn below_connected(a: Self, b: Self) {
    }

    fn is_below(&self, other: &Self) -> (r: bool) {
        *self < *other
    }

    fn is_same(&self, other: &Self) -> (r: bool) {
        *self == *other
    }

    fn label(&self) -> (text: String) {
        unsigned_text(*self)
    }
}

impl Key for usize {
    open spec fn below(self, other: Self) -> bool {
        self < other
    }

    open spec fn label_text(self) -> Seq<char> {
        decimal(self as int)
    }

    proof fn below_irreflexive(a: Self) {
    }

    proof fn below_transitive(a: Self, b: Self, c: Self) {
    }

    proof fn below_connected(a: Self, b: Self) {
    }

    fn is_below(&self, other: &Self) -> (r: bool) {
        *self < *other
    }

    fn is_same(&self, other: &Self) -> (r: bool) {
        *self == *other
    }

    fn label(&self) -> (text: String) {
        unsigned_text(*self as u64)
    }
}

impl Key for i8 {
    open spec fn below(self, other: Self) -> bool {
        self < other
    }

    open spec fn label_text(self) -> Seq<char> {
        decimal(self as int)
    }

    proof fn below_irreflexive(a: Self) {
    }

    proof fn below_transitive(a: Self, b: Self, c: Self) {
    }

    proof fn below_connected(a: Self, b: Self) {
    }

    fn is_below(&self, other: &Self) -> (r: bool) {
        *self < *other
    }

    fn is_same(&self, other: &Self) -> (r: bool) {
        *self == *other
    }

    fn label(&self) -> (text: String) {
        signed_text(*self as i64)
    }
}

impl Key for i16 {
    open spec fn below(self, other: Self) -> bool {
        self < other
    }

    open spec fn label_text(self) -> Seq<char> {
        decimal(self as int)
    }

    proof fn below_irreflexive(a: Self) {
    }

    proof fn below_transitive(a: Self, b: Self, c: Self) {
    }

    proof fn below_connected(a: Self, b: Self) {
    }

    fn is_below(&self, other: &Self) -> (r: bool) {
        *self < *other
    }

    fn is_same(&self, other: &Self) -> (r: bool) {
        *self == *other
    }

    fn label(&self) -> (text: String) {
        signed_text(*self as i64)
    }
}

impl Key for i32 {
    open spec fn below(self, other: Self) -> bool {
        self < other
    }

    open spec fn label_text(self) -> Seq<char> {
        decimal(self as int)
    }

    proof fn below_irreflexive(a: Self) {
    }

    proof fn below_transitive(a: Self, b: Self, c: Self) {
    }

    proof fn below_connected(a: Self, b: Self) {
    }

    fn is_below(&self, other: &Self) -> (r: bool) {
        *self < *other
    }

    fn is_same(&self, other: &Self) -> (r: bool) {
        *self == *other
    }

    fn label(&self) -> (text: String) {
        signed_text(*self as i64)
    }
}

impl Key for i64 {
    open spec fn below(self, other: Self) -> bool {
        self < other
    }

    open spec fn label_text(self) -> Seq<char> {
        decimal(self as int)
    }

    proof fn below_irreflexive(a: Self) {
    }

    proof fn below_transitive(a: Self, b: Self, c: Self) {
    }

    proof fn below_connected(a: Self, b: Self) {
    }

    fn is_below(&self, other: &Self) -> (r: bool) {
        *self < *other
    }

    fn is_same(&self, other: &Self) -> (r: bool) {
        *self == *other
    }

    fn label(&self) -> (text: String) {
        signed_text(*self)
    }
}

impl Key for isize {
    open spec fn below(self, other: Self) -> bool {
        self < other
    }

    open spec fn label_text(self) -> Seq<char> {
        decimal(self as int)
    }

    proof fn below_irreflexive(a: Self) {
    }

    proof fn below_transitive(a: Self, b: Self, c: Self) {
    }

    proof fn below_connected(a: Self, b: Self) {
    }

    fn is_below(&self, other: &Self) -> (r: bool) {
        *self < *other
    }

    fn is_same(&self, other: &Self) -> (r: bool) {
        *self == *other
    }

    fn label(&self) -> (text: String) {
        signed_text(*self as i64)
    }
}

} // verus!
