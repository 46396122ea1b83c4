//! Keys with a total order.

use crate::utils::le;
use crate::utils::lex;
use crate::utils::lex::Order;
use vstd::prelude::*;

verus! {

/// A type whose views are totally ordered.
pub trait Key: View + Sized {
    /// `a` comes before `b`.
    spec fn before(a: Self::V, b: Self::V) -> bool;

    proof fn irreflexive(a: Self::V)
        ensures
            !Self::before(a, a),
    ;

    proof fn transitive(a: Self::V, b: Self::V, c: Self::V)
        requires
            Self::before(a, b),
            Self::before(b, c),
        ensures
            Self::before(a, c),
    ;

    proof fn total(a: Self::V, b: Self::V)
        ensures
            a == b || Self::before(a, b) || Self::before(b, a),
    ;

    /// How this key lies to another.
    fn compare(&self, other: &Self) -> (r: Order)
        ensures
            match r {
                Order::Less => Self::before(self@, other@),
                Order::Equal => self@ == other@,
                Order::Greater => Self::before(other@, self@),
            },
    ;

    /// A copy.
    fn duplicate(&self) -> (r: Self)
        ensures
            r@ == self@,
    ;
}

impl Key for u64 {
    open spec fn before(a: u64, b: u64) -> bool {
        a < b
    }

    proof fn irreflexive(a: u64) {
    }

    proof fn transitive(a: u64, b: u64, c: u64) {
    }

    proof fn total(a: u64, b: u64) {
    }

    fn compare(&self, other: &u64) -> (r: Order) {
        if *self < *other {
            Order::Less
        } else if *self == *other {
            Order::Equal
        } else {
            Order::Greater
        }
    }

    fn duplicate(&self) -> (r: u64) {
        *self
    }
}

impl Key for Vec<u8> {
    open spec fn before(a: Seq<u8>, b: Seq<u8>) -> bool {
        lex::lt(a, b)
    }

    proof fn irreflexive(a: Seq<u8>) {
        lex::order_laws();
    }

    proof fn transitive(a: Seq<u8>, b: Seq<u8>, c: Seq<u8>) {
        lex::order_laws();
    }

    proof fn total(a: Seq<u8>, b: Seq<u8>) {
        lex::order_laws();
    }

    fn compare(&self, other: &Vec<u8>) -> (r: Order) {
        lex::compare_bytes(self, other)
    }

    fn duplicate(&self) -> (r: Vec<u8>) {
        let r: Vec<u8> = le::copy_range(self, 0, self.len());
        assert(r@ =~= self@);
        r
    }
}

} // verus!
