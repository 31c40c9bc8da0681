//! The total order on matrices: entries are compared row by row, and
//! within a row column by column; the first difference decides.

use crate::matrix::Matrix;
use vstd::prelude::*;

verus! {

/// How one matrix stands to another in the order.
#[derive(Clone, Copy, Debug, PartialEq, Eq)]
pub enum Order {
    Less,
    Equal,
    Greater,
}

/// The entry at place `k`, counting row by row from 0 to 4095.
pub open spec fn entry_at(rows: Seq<Seq<u16>>, k: int) -> u16 {
    rows[k / 64][k % 64]
}

/// The first place at or after `from` where `a` and `b` differ; 4096 if
/// they agree from there on.
pub open spec fn first_difference(a: Seq<Seq<u16>>, b: Seq<Seq<u16>>, from: int) -> int
    decreases 4096 - from,
{
    if from >= 4096 {
        4096
    } else if entry_at(a, from) != entry_at(b, from) {
        from
    } else {
        first_difference(a, b, from + 1)
    }
}

/// How `a` stands to `b`: decided by the entries at the first place where
/// they differ.
pub open spec fn order_of(a: Seq<Seq<u16>>, b: Seq<Seq<u16>>) -> Order {
    let k = first_difference(a, b, 0);
    if k >= 4096 {
        Order::Equal
    } else if entry_at(a, k) < entry_at(b, k) {
        Order::Less
    } else {
        Order::Greater
    }
}

/// Where the first difference lies, and that no earlier place differs.
pub proof fn lemma_first_difference(a: Seq<Seq<u16>>, b: Seq<Seq<u16>>, from: int)
    requires
        0 <= from <= 4096,
    ensures
        from <= first_difference(a, b, from) <= 4096,
        first_difference(a, b, from) < 4096 ==> entry_at(a, first_difference(a, b, from))
            != entry_at(b, first_difference(a, b, from)),
        forall|k: int|
            from <= k < first_difference(a, b, from) ==> entry_at(a, k) == entry_at(b, k),
    decreases 4096 - from,
{
    if from < 4096 && entry_at(a, from) == entry_at(b, from) {
        lemma_first_difference(a, b, from + 1);
    }
}

/// The first difference does not depend on which matrix is named first.
pub proof fn lemma_first_difference_symmetric(a: Seq<Seq<u16>>, b: Seq<Seq<u16>>, from: int)
    requires
        0 <= from <= 4096,
    ensures
        first_difference(a, b, from) == first_difference(b, a, from),
    decreases 4096 - from,
{
    if from < 4096 && entry_at(a, from) == entry_at(b, from) {
        lemma_first_difference_symmetric(a, b, from + 1);
    }
}

/// `a` is less than `b` exactly when `b` is greater than `a`, and equal
/// exactly when `b` is equal.
pub proof fn lemma_order_flips(a: Seq<Seq<u16>>, b: Seq<Seq<u16>>)
    ensures
        order_of(a, b) == Order::Less <==> order_of(b, a) == Order::Greater,
        order_of(a, b) == Order::Equal <==> order_of(b, a) == Order::Equal,
{
    lemma_first_difference_symmetric(a, b, 0);
    lemma_first_difference(a, b, 0);
}

/// Two matrices are equal in the order exactly when all entries agree.
pub proof fn lemma_equal_means_same(a: Matrix, b: Matrix)
    ensures
        order_of(a@, b@) == Order::Equal <==> a == b,
{
    let x = a@;
    let y = b@;
    lemma_first_difference(x, y, 0);
    if order_of(x, y) == Order::Equal {
        assert forall|i: int| 0 <= i < 64 implies a.0[i] == b.0[i] by {
            assert forall|j: int| 0 <= j < 64 implies a.0[i][j] == b.0[i][j] by {
                let k = 64 * i + j;
                assert(k / 64 == i && k % 64 == j);
                assert(entry_at(x, k) == entry_at(y, k));
            }
            assert(a.0[i] =~= b.0[i]);
        }
        assert(a.0 =~= b.0);
    }
}

/// The order is transitive.
pub proof fn lemma_order_transitive(a: Seq<Seq<u16>>, b: Seq<Seq<u16>>, c: Seq<Seq<u16>>)
    requires
        order_of(a, b) != Order::Greater,
        order_of(b, c) != Order::Greater,
    ensures
        order_of(a, c) != Order::Greater,
        order_of(a, b) == Order::Less || order_of(b, c) == Order::Less ==> order_of(a, c)
            == Order::Less,
{
    lemma_first_difference(a, b, 0);
    lemma_first_difference(b, c, 0);
    lemma_first_difference(a, c, 0);
    let ab = first_difference(a, b, 0);
    let bc = first_difference(b, c, 0);
    let ac = first_difference(a, c, 0);
    let least = if ab <= bc {
        ab
    } else {
        bc
    };
    if least < 4096 {
        assert(entry_at(a, least) < entry_at(c, least));
        if ac > least {
            assert(entry_at(a, least) == entry_at(c, least));
        }
        if ac < least {
            assert(entry_at(a, ac) == entry_at(b, ac));
            assert(entry_at(b, ac) == entry_at(c, ac));
        }
    } else {
        if ac < 4096 {
            assert(entry_at(a, ac) == entry_at(b, ac));
            assert(entry_at(b, ac) == entry_at(c, ac));
        }
    }
}

impl Matrix {
    /// How this matrix stands to `other` in the row-major lexicographic
    /// order.
    pub fn compare(&self, other: &Matrix) -> (order: Order)
        ensures
            order == order_of(self@, other@),
    {
        let mut i: usize = 0;
        while i < 64
            invariant
                i <= 64,
                first_difference(self@, other@, 0) == first_difference(
                    self@,
                    other@,
                    64 * i as int,
                ),
            decreases 64 - i,
        {
            let mut j: usize = 0;
            while j < 64
                invariant
                    i < 64,
                    j <= 64,
                    first_difference(self@, other@, 0) == first_difference(
                        self@,
                        other@,
                        64 * i as int + j as int,
                    ),
                decreases 64 - j,
            {
                let ghost k = 64 * i as int + j as int;
                assert(k / 64 == i as int && k % 64 == j as int);
                if self.0[i][j] < other.0[i][j] {
                    return Order::Less;
                }
                if self.0[i][j] > other.0[i][j] {
                    return Order::Greater;
                }
                j += 1;
            }
            i += 1;
        }
        Order::Equal
    }
}

} // verus!
