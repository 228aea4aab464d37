use vstd::prelude::*;

verus! {

use core::cmp::Ordering;
use vstd::utf8::encode_utf8;

/// A key type that can be stored in the tree.
///
/// Every key is abstracted, for specification purposes, by a mathematical
/// value of type `Repr`, and `before` is a strict total order on those
/// values: transitive, and trichotomous (for any two values exactly one of
/// `before(a, b)`, `a == b`, `before(b, a)` holds). The executable
/// `compare` is the three-way comparison that agrees with that order.
pub trait TotalOrder: Sized {
    /// The mathematical value this key is compared by.
    type Repr;

    /// The mathematical value of this key.
    spec fn repr(self) -> Self::Repr;

    /// The strict order on key values: `a` comes before `b`.
    spec fn before(a: Self::Repr, b: Self::Repr) -> bool;

    /// The order is transitive.
    proof fn lemma_before_transitive(a: Self::Repr, b: Self::Repr, c: Self::Repr)
        requires
            Self::before(a, b),
            Self::before(b, c),
        ensures
            Self::before(a, c),
    ;

    /// Any two key values are related in exactly one way.
    proof fn lemma_before_trichotomy(a: Self::Repr, b: Self::Repr)
        ensures
            Self::before(a, b) || a == b || Self::before(b, a),
            Self::before(a, b) ==> a != b && !Self::before(b, a),
            a == b ==> !Self::before(a, b),
    ;

    /// Three-way comparison agreeing with `before`.
    fn compare(&self, other: &Self) -> (c: Ordering)
        ensures
            match c {
                Ordering::Less => Self::before(self.repr(), other.repr()),
                Ordering::Equal => self.repr() == other.repr(),
                Ordering::Greater => Self::before(other.repr(), self.repr()),
            },
    ;
}

impl TotalOrder for u32 {
    type Repr = u32;

    open spec fn repr(self) -> u32 {
        self
    }

    open spec fn before(a: u32, b: u32) -> bool {
        a < b
    }

    proof fn lemma_before_transitive(a: u32, b: u32, c: u32) {
    }

    proof fn lemma_before_trichotomy(a: u32, b: u32) {
    }

    fn compare(&self, other: &Self) -> (c: Ordering) {
        if *self < *other {
            Ordering::Less
        } else if *self == *other {
            Ordering::Equal
        } else {
            Ordering::Greater
        }
    }
}

impl TotalOrder for i32 {
    type Repr = i32;

    open spec fn repr(self) -> i32 {
        self
    }

    open spec fn before(a: i32, b: i32) -> bool {
        a < b
    }

    proof fn lemma_before_transitive(a: i32, b: i32, c: i32) {
    }

    proof fn lemma_before_trichotomy(a: i32, b: i32) {
    }

    fn compare(&self, other: &Self) -> (c: Ordering) {
        if *self < *other {
            Ordering::Less
        } else if *self == *other {
            Ordering::Equal
        } else {
            Ordering::Greater
        }
    }
}

impl TotalOrder for u64 {
    type Repr = u64;

    open spec fn repr(self) -> u64 {
        self
    }

    open spec fn before(a: u64, b: u64) -> bool {
        a < b
    }

    proof fn lemma_before_transitive(a: u64, b: u64, c: u64) {
    }

    proof fn lemma_before_trichotomy(a: u64, b: u64) {
    }

    fn compare(&self, other: &Self) -> (c: Ordering) {
        if *self < *other {
            Ordering::Less
        } else if *self == *other {
            Ordering::Equal
        } else {
            Ordering::Greater
        }
    }
}

/// Strict lexicographic order on byte sequences: `a` comes first when it
/// is a proper prefix of `b`, or when it is smaller at the first index
/// where the two differ.
pub open spec fn bytes_lt(a: Seq<u8>, b: Seq<u8>) -> bool
    decreases a.len(),
{
    if b.len() == 0 {
        false
    } else if a.len() == 0 {
        true
    } else if a[0] != b[0] {
        a[0] < b[0]
    } else {
        bytes_lt(a.drop_first(), b.drop_first())
    }
}

/// Lexicographic order on byte sequences is transitive.
pub proof fn lemma_bytes_lt_transitive(a: Seq<u8>, b: Seq<u8>, c: Seq<u8>)
    requires
        bytes_lt(a, b),
        bytes_lt(b, c),
    ensures
        bytes_lt(a, c),
    decreases a.len(),
{
    if c.len() == 0 || a.len() == 0 {
        // either the second premise is impossible or the conclusion direct
    } else {
        if a[0] == b[0] && b[0] == c[0] {
            lemma_bytes_lt_transitive(a.drop_first(), b.drop_first(), c.drop_first());
        }
    }
}

/// Any two byte sequences are lexicographically related in exactly one
/// way.
pub proof fn lemma_bytes_lt_trichotomy(a: Seq<u8>, b: Seq<u8>)
    ensures
        bytes_lt(a, b) || a == b || bytes_lt(b, a),
        bytes_lt(a, b) ==> a != b && !bytes_lt(b, a),
        a == b ==> !bytes_lt(a, b),
    decreases a.len() + b.len(),
{
    if a.len() == 0 && b.len() == 0 {
        assert(a =~= b);
    } else if a.len() > 0 && b.len() > 0 {
        if a[0] == b[0] {
            lemma_bytes_lt_trichotomy(a.drop_first(), b.drop_first());
            if a.drop_first() == b.drop_first() {
                assert forall|j: int| 0 <= j < a.len() implies a[j] == b[j] by {
                    if j > 0 {
                        assert(a[j] == a.drop_first()[j - 1]);
                        assert(b[j] == b.drop_first()[j - 1]);
                    }
                }
                assert(a =~= b);
            }
            if a == b {
                assert(a.drop_first() == b.drop_first());
            }
        } else {
            assert(a != b) by {
                assert(a[0] != b[0]);
            }
        }
    }
}

/// When two byte sequences agree up to index `i` and either the first ends
/// there while the second goes on, or the first is smaller at `i`, the
/// first comes lexicographically before the second.
pub proof fn lemma_bytes_lt_from_index(a: Seq<u8>, b: Seq<u8>, i: int)
    requires
        0 <= i <= a.len(),
        i <= b.len(),
        forall|j: int| 0 <= j < i ==> a[j] == b[j],
        (i == a.len() && i < b.len()) || (i < a.len() && i < b.len() && a[i] < b[i]),
    ensures
        bytes_lt(a, b),
    decreases i,
{
    if i > 0 {
        let a1 = a.drop_first();
        let b1 = b.drop_first();
        assert(forall|j: int| 0 <= j < i - 1 ==> a1[j] == b1[j]);
        lemma_bytes_lt_from_index(a1, b1, i - 1);
    }
}

/// Verified three-way lexicographic comparison of two byte slices.
fn bytes_compare(a: &[u8], b: &[u8]) -> (c: Ordering)
    ensures
        match c {
            Ordering::Less => bytes_lt(a@, b@),
            Ordering::Equal => a@ == b@,
            Ordering::Greater => bytes_lt(b@, a@),
        },
{
    let mut i: usize = 0;
    loop
        invariant
            i <= a@.len(),
            i <= b@.len(),
            forall|j: int| 0 <= j < i ==> a@[j] == b@[j],
        decreases a@.len() - i,
    {
        if i < a.len() && i < b.len() {
            let x = a[i];
            let y = b[i];
            if x < y {
                proof {
                    lemma_bytes_lt_from_index(a@, b@, i as int);
                }
                return Ordering::Less;
            }
            if y < x {
                proof {
                    lemma_bytes_lt_from_index(b@, a@, i as int);
                }
                return Ordering::Greater;
            }
            i = i + 1;
        } else if i < b.len() {
            proof {
                lemma_bytes_lt_from_index(a@, b@, i as int);
            }
            return Ordering::Less;
        } else if i < a.len() {
            proof {
                lemma_bytes_lt_from_index(b@, a@, i as int);
            }
            return Ordering::Greater;
        } else {
            proof {
                assert(a@ =~= b@);
            }
            return Ordering::Equal;
        }
    }
}

impl<'x> TotalOrder for &'x str {
    type Repr = Seq<u8>;

    open spec fn repr(self) -> Seq<u8> {
        encode_utf8(self@)
    }

    open spec fn before(a: Seq<u8>, b: Seq<u8>) -> bool {
        bytes_lt(a, b)
    }

    proof fn lemma_before_transitive(a: Seq<u8>, b: Seq<u8>, c: Seq<u8>) {
        lemma_bytes_lt_transitive(a, b, c);
    }

    proof fn lemma_before_trichotomy(a: Seq<u8>, b: Seq<u8>) {
        lemma_bytes_lt_trichotomy(a, b);
    }

    fn compare(&self, other: &Self) -> (c: Ordering) {
        bytes_compare(self.as_bytes(), other.as_bytes())
    }
}

impl TotalOrder for String {
    type Repr = Seq<u8>;

    open spec fn repr(self) -> Seq<u8> {
        encode_utf8(self@)
    }

    open spec fn before(a: Seq<u8>, b: Seq<u8>) -> bool {
        bytes_lt(a, b)
    }

    proof fn lemma_before_transitive(a: Seq<u8>, b: Seq<u8>, c: Seq<u8>) {
        lemma_bytes_lt_transitive(a, b, c);
    }

    proof fn lemma_before_trichotomy(a: Seq<u8>, b: Seq<u8>) {
        lemma_bytes_lt_trichotomy(a, b);
    }

    fn compare(&self, other: &Self) -> (c: Ordering) {
        bytes_compare(self.as_str().as_bytes(), other.as_str().as_bytes())
    }
}

} // verus!
