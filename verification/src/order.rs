//! Total orders, and the lexicographic order on sequences.

use vstd::prelude::*;

verus! {

/// The outcome of a three-way comparison.
#[derive(Clone, Copy, Debug, PartialEq, Eq, Structural)]
pub enum Order {
    Less,
    Equal,
    Greater,
}

/// Types whose values are totally ordered.
pub trait TotalOrder: View + Sized {
    /// Whether `a` comes before `b`, or is `b`, in the order of the values.
    spec fn le(a: Self::V, b: Self::V) -> bool;

    /// Two values are equal where each is at most the other, and only there.
    proof fn law_antisymmetric(a: Self::V, b: Self::V)
        ensures
            (Self::le(a, b) && Self::le(b, a)) <==> a == b,
    ;

    /// Of two values one is at most the other.
    proof fn law_total(a: Self::V, b: Self::V)
        ensures
            Self::le(a, b) || Self::le(b, a),
    ;

    /// The order carries over from one pair of values to the next.
    proof fn law_transitive(a: Self::V, b: Self::V, c: Self::V)
        requires
            Self::le(a, b),
            Self::le(b, c),
        ensures
            Self::le(a, c),
    ;

    /// Compares two values.
    fn compare(&self, other: &Self) -> (r: Order)
        ensures
            match r {
                Order::Less => self@ != other@ && Self::le(self@, other@),
                Order::Equal => self@ == other@,
                Order::Greater => self@ != other@ && Self::le(other@, self@),
            },
    ;
}

impl TotalOrder for u8 {
    open spec fn le(a: u8, b: u8) -> bool {
        a <= b
    }

    proof fn law_antisymmetric(a: u8, b: u8) {
    }

    proof fn law_total(a: u8, b: u8) {
    }

    proof fn law_transitive(a: u8, b: u8, c: u8) {
    }

    fn compare(&self, other: &u8) -> (r: Order) {
        if *self < *other {
            Order::Less
        } else if *self == *other {
            Order::Equal
        } else {
            Order::Greater
        }
    }
}

/// The values of the items of a vector, in order.
pub open spec fn values<T: View>(items: Seq<T>) -> Seq<T::V> {
    items.map_values(|t: T| t@)
}

/// Item by item, the values are those of the items.
pub proof fn law_values<T: View>(items: Seq<T>)
    ensures
        values(items).len() == items.len(),
        forall|i: int| 0 <= i < items.len() ==> #[trigger] values(items)[i] == items[i]@,
{
}

/// Bytes are ordered as numbers.
pub proof fn law_byte_order(a: u8, b: u8)
    ensures
        <u8 as TotalOrder>::le(a, b) <==> a <= b,
{
}

/// The values of a vector with one more item.
pub proof fn lemma_values_push<T: View>(items: Seq<T>, item: T)
    ensures
        values(items.push(item)) == values(items).push(item@),
{
    assert(values(items.push(item)) =~= values(items).push(item@));
}

/// Whether `a` comes before `b`, or is `b`, when sequences are ordered by their first value, then
/// by their second, and so on, a sequence coming after its prefixes.
pub open spec fn key_le<T: TotalOrder>(a: Seq<T::V>, b: Seq<T::V>) -> bool
    decreases a.len(),
{
    if a.len() == 0 {
        true
    } else if b.len() == 0 {
        false
    } else if a[0] == b[0] {
        key_le::<T>(a.drop_first(), b.drop_first())
    } else {
        T::le(a[0], b[0])
    }
}

/// Whether `a` comes strictly before `b` in that order.
pub open spec fn key_lt<T: TotalOrder>(a: Seq<T::V>, b: Seq<T::V>) -> bool {
    a != b && key_le::<T>(a, b)
}

/// One sequence is at most another exactly where it is a prefix of it, or where at the first place
/// at which they differ its value is the lesser.
pub proof fn law_key_order<T: TotalOrder>(a: Seq<T::V>, b: Seq<T::V>)
    ensures
        key_le::<T>(a, b) <==> a.is_prefix_of(b) || exists|n: int|
            0 <= n < a.len() && n < b.len() && #[trigger] a[n] != b[n] && T::le(a[n], b[n]) && (
            forall|i: int| 0 <= i < n ==> a[i] == b[i]),
        key_lt::<T>(a, b) <==> key_le::<T>(a, b) && a != b,
    decreases a.len(),
{
    if a.len() > 0 && b.len() > 0 {
        let a1 = a.drop_first();
        let b1 = b.drop_first();
        if a[0] == b[0] {
            law_key_order::<T>(a1, b1);
            assert(a.is_prefix_of(b) <==> a1.is_prefix_of(b1)) by {
                if a1.is_prefix_of(b1) {
                    assert forall|i: int| 0 <= i < a.len() implies a[i] == b[i] by {
                        if i > 0 {
                            assert(a[i] == a1[i - 1]);
                            assert(b1.subrange(0, a1.len() as int)[i - 1] == b1[i - 1]);
                        }
                    }
                    assert(a =~= b.subrange(0, a.len() as int));
                }
                if a.is_prefix_of(b) {
                    assert forall|i: int| 0 <= i < a1.len() implies a1[i] == b1[i] by {
                        assert(b.subrange(0, a.len() as int)[i + 1] == b[i + 1]);
                    }
                    assert(a1 =~= b1.subrange(0, a1.len() as int));
                }
            }
            if exists|n: int|
                0 <= n < a1.len() && n < b1.len() && #[trigger] a1[n] != b1[n] && T::le(
                    a1[n],
                    b1[n],
                ) && (forall|i: int| 0 <= i < n ==> a1[i] == b1[i]) {
                let n = choose|n: int|
                    0 <= n < a1.len() && n < b1.len() && #[trigger] a1[n] != b1[n] && T::le(
                        a1[n],
                        b1[n],
                    ) && (forall|i: int| 0 <= i < n ==> a1[i] == b1[i]);
                assert forall|i: int| 0 <= i < n + 1 implies a[i] == b[i] by {
                    if i > 0 {
                        assert(a1[i - 1] == b1[i - 1]);
                    }
                }
                assert(a[n + 1] != b[n + 1]);
            }
            if exists|n: int|
                0 <= n < a.len() && n < b.len() && #[trigger] a[n] != b[n] && T::le(a[n], b[n]) && (
                forall|i: int| 0 <= i < n ==> a[i] == b[i]) {
                let n = choose|n: int|
                    0 <= n < a.len() && n < b.len() && #[trigger] a[n] != b[n] && T::le(a[n], b[n])
                        && (forall|i: int| 0 <= i < n ==> a[i] == b[i]);
                assert(a1[n - 1] != b1[n - 1]);
            }
        } else {
            if a.is_prefix_of(b) {
                assert(b.subrange(0, a.len() as int)[0] == b[0]);
            }
        }
    } else if a.len() == 0 {
        assert(a =~= b.subrange(0, 0));
    }
}

pub proof fn lemma_key_le_antisymmetric<T: TotalOrder>(a: Seq<T::V>, b: Seq<T::V>)
    ensures
        (key_le::<T>(a, b) && key_le::<T>(b, a)) <==> a == b,
    decreases a.len(),
{
    if a.len() == 0 || b.len() == 0 {
        if key_le::<T>(a, b) && key_le::<T>(b, a) {
            assert(a =~= b);
        }
    } else {
        T::law_antisymmetric(a[0], b[0]);
        if a[0] == b[0] {
            lemma_key_le_antisymmetric::<T>(a.drop_first(), b.drop_first());
            if a.drop_first() == b.drop_first() {
                assert(a =~= seq![a[0]] + a.drop_first());
                assert(b =~= seq![b[0]] + b.drop_first());
            }
        }
    }
}

pub proof fn lemma_key_le_total<T: TotalOrder>(a: Seq<T::V>, b: Seq<T::V>)
    ensures
        key_le::<T>(a, b) || key_le::<T>(b, a),
    decreases a.len(),
{
    if a.len() > 0 && b.len() > 0 {
        T::law_total(a[0], b[0]);
        if a[0] == b[0] {
            lemma_key_le_total::<T>(a.drop_first(), b.drop_first());
        }
    }
}

pub proof fn lemma_key_le_transitive<T: TotalOrder>(a: Seq<T::V>, b: Seq<T::V>, c: Seq<T::V>)
    requires
        key_le::<T>(a, b),
        key_le::<T>(b, c),
    ensures
        key_le::<T>(a, c),
    decreases a.len(),
{
    if a.len() > 0 {
        if a[0] == b[0] && b[0] == c[0] {
            lemma_key_le_transitive::<T>(a.drop_first(), b.drop_first(), c.drop_first());
        } else if a[0] != b[0] && b[0] != c[0] {
            T::law_transitive(a[0], b[0], c[0]);
            T::law_antisymmetric(a[0], b[0]);
        }
    }
}

/// Leaving out an equal first part does not change how two sequences compare.
proof fn lemma_key_le_skip<T: TotalOrder>(a: Seq<T::V>, b: Seq<T::V>, n: int)
    requires
        0 <= n <= a.len(),
        n <= b.len(),
        forall|i: int| 0 <= i < n ==> a[i] == b[i],
    ensures
        key_le::<T>(a, b) == key_le::<T>(a.skip(n), b.skip(n)),
    decreases n,
{
    if n == 0 {
        assert(a.skip(0) =~= a);
        assert(b.skip(0) =~= b);
    } else {
        let a1 = a.drop_first();
        let b1 = b.drop_first();
        lemma_key_le_skip::<T>(a1, b1, n - 1);
        assert(a1.skip(n - 1) =~= a.skip(n));
        assert(b1.skip(n - 1) =~= b.skip(n));
    }
}

/// Compares two slices lexicographically.
pub fn compare_keys<T: TotalOrder>(a: &[T], b: &[T]) -> (r: Order)
    ensures
        match r {
            Order::Less => key_lt::<T>(values(a@), values(b@)),
            Order::Equal => values(a@) == values(b@),
            Order::Greater => key_lt::<T>(values(b@), values(a@)),
        },
{
    let ghost va = values(a@);
    let ghost vb = values(b@);
    let mut i: usize = 0;
    while i < a.len() && i < b.len()
        invariant
            va == values(a@),
            vb == values(b@),
            i <= a.len(),
            i <= b.len(),
            forall|j: int| 0 <= j < i ==> va[j] == vb[j],
        decreases a.len() - i,
    {
        proof {
            lemma_key_le_skip::<T>(va, vb, i as int);
            lemma_key_le_skip::<T>(vb, va, i as int);
            assert(va[i as int] == a[i as int]@ && vb[i as int] == b[i as int]@);
        }
        match a[i].compare(&b[i]) {
            Order::Less => {
                return Order::Less;
            },
            Order::Greater => {
                return Order::Greater;
            },
            Order::Equal => {},
        }
        i = i + 1;
    }
    proof {
        lemma_key_le_skip::<T>(va, vb, i as int);
        lemma_key_le_skip::<T>(vb, va, i as int);
    }
    if i < b.len() {
        Order::Less
    } else if i < a.len() {
        Order::Greater
    } else {
        assert(va =~= vb);
        Order::Equal
    }
}

} // verus!
