//! Values that can be stored in the replicated collections of this crate.

use vstd::prelude::*;

verus! {

/// A value that a collection can compare, order and duplicate.
///
/// Collections model their contents by the views of the stored values, so
/// comparison, order and duplication are stated over views. The order is a
/// total order; replicated types use it to break ties deterministically.
pub trait Element: Sized + View {
    /// The total order on views.
    spec fn view_le(a: Self::V, b: Self::V) -> bool;

    /// `view_le` is reflexive, antisymmetric, transitive and total.
    proof fn lemma_total_order(a: Self::V, b: Self::V, c: Self::V)
        ensures
            Self::view_le(a, a),
            Self::view_le(a, b) && Self::view_le(b, a) ==> a == b,
            Self::view_le(a, b) && Self::view_le(b, c) ==> Self::view_le(a, c),
            Self::view_le(a, b) || Self::view_le(b, a),
    ;

    /// Whether two values have the same view.
    fn same_value(&self, other: &Self) -> (r: bool)
        ensures
            r == (self@ == other@),
    ;

    /// Whether this value's view is at most the other's.
    fn value_le(&self, other: &Self) -> (r: bool)
        ensures
            r == Self::view_le(self@, other@),
    ;

    /// A copy with the same view.
    fn copy_value(&self) -> (r: Self)
        ensures
            r@ == self@,
    ;
}

impl Element for u64 {
    open spec fn view_le(a: u64, b: u64) -> bool {
        a <= b
    }

    proof fn lemma_total_order(a: u64, b: u64, c: u64) {
    }

    fn same_value(&self, other: &Self) -> (r: bool) {
        *self == *other
    }

    fn value_le(&self, other: &Self) -> (r: bool) {
        *self <= *other
    }

    fn copy_value(&self) -> (r: Self) {
        *self
    }
}

impl Element for i32 {
    open spec fn view_le(a: i32, b: i32) -> bool {
        a <= b
    }

    proof fn lemma_total_order(a: i32, b: i32, c: i32) {
    }

    fn same_value(&self, other: &Self) -> (r: bool) {
        *self == *other
    }

    fn value_le(&self, other: &Self) -> (r: bool) {
        *self <= *other
    }

    fn copy_value(&self) -> (r: Self) {
        *self
    }
}

impl Element for i64 {
    open spec fn view_le(a: i64, b: i64) -> bool {
        a <= b
    }

    proof fn lemma_total_order(a: i64, b: i64, c: i64) {
    }

    fn same_value(&self, other: &Self) -> (r: bool) {
        *self == *other
    }

    fn value_le(&self, other: &Self) -> (r: bool) {
        *self <= *other
    }

    fn copy_value(&self) -> (r: Self) {
        *self
    }
}

/// Lexicographic order on character sequences, by code point.
pub open spec fn chars_le(a: Seq<char>, b: Seq<char>) -> bool
    decreases a.len(),
{
    if a.len() == 0 {
        true
    } else if b.len() == 0 {
        false
    } else if a[0] != b[0] {
        a[0] < b[0]
    } else {
        chars_le(a.drop_first(), b.drop_first())
    }
}

/// `chars_le` is a total order.
pub proof fn lemma_chars_total_order(a: Seq<char>, b: Seq<char>, c: Seq<char>)
    ensures
        chars_le(a, a),
        chars_le(a, b) && chars_le(b, a) ==> a == b,
        chars_le(a, b) && chars_le(b, c) ==> chars_le(a, c),
        chars_le(a, b) || chars_le(b, a),
    decreases a.len(),
{
    if a.len() > 0 && b.len() > 0 && c.len() > 0 {
        lemma_chars_total_order(a.drop_first(), b.drop_first(), c.drop_first());
        if a[0] == b[0] && chars_le(a, b) && chars_le(b, a) {
            assert(a =~= seq![a[0]] + a.drop_first());
            assert(b =~= seq![b[0]] + b.drop_first());
        }
    } else if a.len() > 0 && b.len() > 0 {
        lemma_chars_total_order(a.drop_first(), b.drop_first(), b.drop_first());
        if a[0] == b[0] && chars_le(a, b) && chars_le(b, a) {
            assert(a =~= seq![a[0]] + a.drop_first());
            assert(b =~= seq![b[0]] + b.drop_first());
        }
    } else if a.len() > 0 {
        lemma_chars_total_order(a.drop_first(), a.drop_first(), a.drop_first());
    }
    if a.len() == 0 && b.len() == 0 {
        assert(a =~= b);
    }
}

/// Past a common prefix of length `i`, the order of two sequences is that
/// of their remainders.
proof fn lemma_chars_le_skip(a: Seq<char>, b: Seq<char>, i: int)
    requires
        0 <= i <= a.len(),
        i <= b.len(),
        forall|j: int| 0 <= j < i ==> a[j] == b[j],
    ensures
        chars_le(a, b) == chars_le(a.skip(i), b.skip(i)),
    decreases i,
{
    if i > 0 {
        lemma_chars_le_skip(a.drop_first(), b.drop_first(), i - 1);
        assert(a.drop_first().skip(i - 1) =~= a.skip(i));
        assert(b.drop_first().skip(i - 1) =~= b.skip(i));
    } else {
        assert(a.skip(0) =~= a);
        assert(b.skip(0) =~= b);
    }
}

/// Compares two string slices character by character.
fn str_le(a: &str, b: &str) -> (r: bool)
    ensures
        r == chars_le(a@, b@),
{
    let la = a.unicode_len();
    let lb = b.unicode_len();
    let mut i: usize = 0;
    while i < la && i < lb
        invariant
            la == a@.len(),
            lb == b@.len(),
            i <= la,
            i <= lb,
            forall|j: int| 0 <= j < i ==> a@[j] == b@[j],
        decreases la - i,
    {
        let x = a.get_char(i);
        let y = b.get_char(i);
        if x != y {
            proof {
                lemma_chars_le_skip(a@, b@, i as int);
                assert(a@.skip(i as int)[0] == x && b@.skip(i as int)[0] == y);
            }
            return x < y;
        }
        i += 1;
    }
    proof {
        lemma_chars_le_skip(a@, b@, i as int);
    }
    la <= lb
}

impl Element for String {
    open spec fn view_le(a: Seq<char>, b: Seq<char>) -> bool {
        chars_le(a, b)
    }

    proof fn lemma_total_order(a: Seq<char>, b: Seq<char>, c: Seq<char>) {
        lemma_chars_total_order(a, b, c);
    }

    fn same_value(&self, other: &Self) -> (r: bool) {
        *self == *other
    }

    fn value_le(&self, other: &Self) -> (r: bool) {
        str_le(self.as_str(), other.as_str())
    }

    fn copy_value(&self) -> (r: Self) {
        self.clone()
    }
}

impl<'a> Element for &'a str {
    open spec fn view_le(a: Seq<char>, b: Seq<char>) -> bool {
        chars_le(a, b)
    }

    proof fn lemma_total_order(a: Seq<char>, b: Seq<char>, c: Seq<char>) {
        lemma_chars_total_order(a, b, c);
    }

    fn same_value(&self, other: &Self) -> (r: bool) {
        let a: String = (*self).to_owned();
        let b: String = (*other).to_owned();
        a == b
    }

    fn value_le(&self, other: &Self) -> (r: bool) {
        str_le(*self, *other)
    }

    fn copy_value(&self) -> (r: Self) {
        *self
    }
}

impl<A: Element, B: Element> Element for (A, B) {
    /// Lexicographic: by the first component, then by the second.
    open spec fn view_le(a: (A::V, B::V), b: (A::V, B::V)) -> bool {
        if a.0 == b.0 {
            B::view_le(a.1, b.1)
        } else {
            A::view_le(a.0, b.0)
        }
    }

    proof fn lemma_total_order(a: (A::V, B::V), b: (A::V, B::V), c: (A::V, B::V)) {
        A::lemma_total_order(a.0, b.0, c.0);
        A::lemma_total_order(b.0, c.0, a.0);
        A::lemma_total_order(c.0, a.0, b.0);
        B::lemma_total_order(a.1, b.1, c.1);
    }

    fn same_value(&self, other: &Self) -> (r: bool) {
        self.0.same_value(&other.0) && self.1.same_value(&other.1)
    }

    fn value_le(&self, other: &Self) -> (r: bool) {
        if self.0.same_value(&other.0) {
            self.1.value_le(&other.1)
        } else {
            self.0.value_le(&other.0)
        }
    }

    fn copy_value(&self) -> (r: Self) {
        (self.0.copy_value(), self.1.copy_value())
    }
}

} // verus!
