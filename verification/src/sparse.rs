//! Sparse dropout: keep only the `k` trits of largest magnitude.
use vstd::prelude::*;
use crate::trit::Trit;
use crate::matrix::TernaryMatrix;

verus! {

/// The number of nonzero trits in `s`.
pub open spec fn count_nonzero(s: Seq<Trit>) -> nat
    decreases s.len(),
{
    if s.len() == 0 {
        0
    } else {
        count_nonzero(s.drop_last()) + if s.last() != Trit::Zero {
            1nat
        } else {
            0nat
        }
    }
}

/// The magnitude of a trit: 0 for zero, 1 for -1 and +1.
pub open spec fn magnitude(t: Trit) -> u8 {
    if t == Trit::Zero {
        0
    } else {
        1
    }
}

/// The rank of position `i` among the nonzero trits of `data`: the number
/// of nonzero trits before it.
pub open spec fn nonzero_rank(data: Seq<Trit>, i: int) -> nat {
    count_nonzero(data.take(i))
}

/// Whether sparse dropout with budget `k` keeps position `i` of `data`:
/// ranking by magnitude, larger first and earlier positions first among
/// equals, the nonzero trit at `i` is among the first `k`.
pub open spec fn sparse_keeps(data: Seq<Trit>, k: nat, i: int) -> bool {
    data[i] != Trit::Zero && nonzero_rank(data, i) < k
}

/// The trits that sparse dropout with budget `k` produces from `data` in a
/// result of `size` trits: the kept trits stay, all others are zero.
pub open spec fn sparse_dropout_data(data: Seq<Trit>, k: nat, size: nat) -> Seq<Trit> {
    Seq::new(
        size,
        |i: int|
            if i < data.len() && sparse_keeps(data, k, i) {
                data[i]
            } else {
                Trit::Zero
            },
    )
}

/// The first `nonzero` entries of `order` are positions below `bound` of
/// nonzero trits, each at the index of its rank.
pub open spec fn ranked_entries(data: Seq<Trit>, order: Seq<usize>, nonzero: int, bound: int) -> bool {
    forall|j: int|
        0 <= j < nonzero ==> {
            &&& #[trigger] order[j] < bound
            &&& data[order[j] as int] != Trit::Zero
            &&& nonzero_rank(data, order[j] as int) == j
        }
}

/// The entries of `order` from `nonzero` on are positions below `bound` of
/// zero trits.
pub open spec fn zero_entries(data: Seq<Trit>, order: Seq<usize>, nonzero: int, bound: int) -> bool {
    forall|j: int|
        nonzero <= j < order.len() ==> {
            &&& #[trigger] order[j] < bound
            &&& data[order[j] as int] == Trit::Zero
        }
}

/// Every nonzero trit below position `upto` sits in `order` at the index of
/// its rank.
pub open spec fn ranks_listed(data: Seq<Trit>, order: Seq<usize>, upto: int) -> bool {
    forall|x: int|
        0 <= x < upto && data[x] != Trit::Zero ==> order[#[trigger] nonzero_rank(data, x) as int] == x
}

/// Extending a prefix by one trit adds one to its nonzero count exactly
/// when that trit is nonzero.
pub proof fn lemma_count_nonzero_step(data: Seq<Trit>, i: int)
    requires
        0 <= i < data.len(),
    ensures
        count_nonzero(data.take(i + 1)) == count_nonzero(data.take(i)) + if data[i] != Trit::Zero {
            1nat
        } else {
            0nat
        },
{
    assert(data.take(i + 1).drop_last() =~= data.take(i));
}

/// The nonzero count of prefixes never decreases, and grows by at most the
/// length added.
pub proof fn lemma_count_nonzero_monotone(data: Seq<Trit>, i: int, j: int)
    requires
        0 <= i <= j <= data.len(),
    ensures
        count_nonzero(data.take(i)) <= count_nonzero(data.take(j)) <= count_nonzero(data.take(i))
            + (j - i),
    decreases j - i,
{
    if i < j {
        lemma_count_nonzero_monotone(data, i, j - 1);
        lemma_count_nonzero_step(data, j - 1);
    }
}

/// Sparse dropout: keep only the top-k elements by magnitude (treating -1
/// and 1 as equal magnitude).
///
/// When `k` is at least the number of trits the input comes back unchanged.
/// Otherwise the result is a zero matrix of the same shape into which the
/// first `k` positions, ranked by magnitude (descending) and then by position
/// (ascending), are copied: so the first `k` nonzero trits survive.
pub fn sparse_dropout(matrix: &TernaryMatrix, k: usize) -> (result: TernaryMatrix)
    requires
        k < matrix.data.len() ==> matrix.data.len() <= matrix.rows * matrix.cols <= usize::MAX,
    ensures
        result.rows == matrix.rows,
        result.cols == matrix.cols,
        k >= matrix.data.len() ==> result.data@ == matrix.data@,
        k < matrix.data.len() ==> result.data@ == sparse_dropout_data(
            matrix.data@,
            k as nat,
            (matrix.rows * matrix.cols) as nat,
        ),
{
    let total: usize = matrix.data.len();
    if k >= total {
        return matrix.duplicate();
    }
    let ghost data = matrix.data@;

    // Magnitudes: |NegOne| = |One| = 1, |Zero| = 0.
    let mut magnitudes: Vec<u8> = Vec::new();
    let mut i: usize = 0;
    while i < total
        invariant
            data == matrix.data@,
            total == data.len(),
            0 <= i <= total,
            magnitudes.len() == i,
            forall|j: int| 0 <= j < i ==> #[trigger] magnitudes@[j] == magnitude(data[j]),
        decreases total - i,
    {
        let m: u8 = if matrix.data[i] == Trit::Zero {
            0
        } else {
            1
        };
        magnitudes.push(m);
        i = i + 1;
    }

    // Positions ordered by magnitude descending, then by position ascending.
    // Magnitudes are 0 or 1, so this order lists the positions of magnitude 1
    // in ascending order, then those of magnitude 0 in ascending order.
    let mut sorted: Vec<usize> = Vec::new();
    let mut i: usize = 0;
    while i < total
        invariant
            data == matrix.data@,
            total == data.len(),
            magnitudes.len() == total,
            forall|j: int| 0 <= j < total ==> #[trigger] magnitudes@[j] == magnitude(data[j]),
            0 <= i <= total,
            sorted.len() == nonzero_rank(data, i as int),
            ranked_entries(data, sorted@, sorted.len() as int, i as int),
            ranks_listed(data, sorted@, i as int),
        decreases total - i,
    {
        proof {
            lemma_count_nonzero_step(data, i as int);
        }
        let ghost before = sorted@;
        if magnitudes[i] == 1 {
            sorted.push(i);
        }
        proof {
            assert forall|x: int|
                0 <= x < i + 1 && data[x] != Trit::Zero implies sorted@[#[trigger] nonzero_rank(
                data,
                x,
            ) as int] == x by {
                if x < i {
                    lemma_count_nonzero_step(data, x);
                    lemma_count_nonzero_monotone(data, x + 1, i as int);
                    assert(before[nonzero_rank(data, x) as int] == x);
                }
            }
        }
        i = i + 1;
    }
    let ghost nonzero = sorted.len();
    proof {
        assert(data.take(total as int) =~= data);
    }
    let mut i: usize = 0;
    while i < total
        invariant
            data == matrix.data@,
            total == data.len(),
            magnitudes.len() == total,
            forall|j: int| 0 <= j < total ==> #[trigger] magnitudes@[j] == magnitude(data[j]),
            0 <= i <= total,
            nonzero == count_nonzero(data),
            data.take(total as int) == data,
            count_nonzero(data.take(i as int)) <= i,
            sorted.len() == nonzero + i - count_nonzero(data.take(i as int)),
            ranked_entries(data, sorted@, nonzero as int, total as int),
            zero_entries(data, sorted@, nonzero as int, total as int),
            ranks_listed(data, sorted@, total as int),
        decreases total - i,
    {
        proof {
            lemma_count_nonzero_step(data, i as int);
        }
        let ghost before = sorted@;
        if magnitudes[i] == 0 {
            sorted.push(i);
        }
        proof {
            assert forall|x: int|
                0 <= x < total && data[x] != Trit::Zero implies sorted@[#[trigger] nonzero_rank(
                data,
                x,
            ) as int] == x by {
                lemma_count_nonzero_step(data, x);
                lemma_count_nonzero_monotone(data, x + 1, total as int);
                assert(before[nonzero_rank(data, x) as int] == x);
            }
        }
        i = i + 1;
    }
    proof {
        lemma_count_nonzero_monotone(data, 0, total as int);
        assert(data.take(0) =~= Seq::<Trit>::empty());
    }

    let mut result = TernaryMatrix::zeros(matrix.rows, matrix.cols);
    let size: usize = matrix.rows * matrix.cols;
    let limit: usize = if k < sorted.len() {
        k
    } else {
        sorted.len()
    };
    let mut j: usize = 0;
    while j < limit
        invariant
            data == matrix.data@,
            total == data.len(),
            total <= size,
            size == matrix.rows * matrix.cols,
            limit == k,
            k < total,
            sorted.len() == total,
            nonzero == count_nonzero(data),
            data.take(total as int) == data,
            result.rows == matrix.rows,
            result.cols == matrix.cols,
            result.data.len() == size,
            0 <= j <= limit,
            ranked_entries(data, sorted@, nonzero as int, total as int),
            zero_entries(data, sorted@, nonzero as int, total as int),
            ranks_listed(data, sorted@, total as int),
            forall|x: int|
                0 <= x < size ==> #[trigger] result.data@[x] == (if x < total && sparse_keeps(
                    data,
                    j as nat,
                    x,
                ) {
                    data[x]
                } else {
                    Trit::Zero
                }),
        decreases limit - j,
    {
        let idx = sorted[j];
        let ghost before = result.data@;
        result.data[idx] = matrix.data[idx];
        proof {
            assert forall|x: int| 0 <= x < size implies #[trigger] result.data@[x] == (if x < total
                && sparse_keeps(data, (j + 1) as nat, x) {
                data[x]
            } else {
                Trit::Zero
            }) by {
                assert(before[x] == (if x < total && sparse_keeps(data, j as nat, x) {
                    data[x]
                } else {
                    Trit::Zero
                }));
                if x < total && data[x] != Trit::Zero {
                    lemma_count_nonzero_monotone(data, x, total as int);
                    lemma_count_nonzero_step(data, x);
                }
            }
        }
        j = j + 1;
    }
    proof {
        assert(result.data@ =~= sparse_dropout_data(data, k as nat, size as nat));
    }
    result
}

/// On every prefix, sparse dropout keeps `min(k, nonzero count of the
/// prefix)` nonzero trits.
proof fn lemma_sparse_count_prefix(data: Seq<Trit>, k: nat, i: int)
    requires
        0 <= i <= data.len(),
    ensures
        count_nonzero(sparse_dropout_data(data, k, data.len()).take(i)) == if k < count_nonzero(
            data.take(i),
        ) {
            k
        } else {
            count_nonzero(data.take(i))
        },
    decreases i,
{
    let out = sparse_dropout_data(data, k, data.len());
    if i == 0 {
        assert(out.take(0) =~= Seq::<Trit>::empty());
        assert(data.take(0) =~= Seq::<Trit>::empty());
    } else {
        lemma_sparse_count_prefix(data, k, i - 1);
        lemma_count_nonzero_step(data, i - 1);
        lemma_count_nonzero_step(out, i - 1);
    }
}

/// Sparse dropout keeps exactly the `k` first nonzero trits (all of them
/// when there are fewer): the result has `min(k, nonzero count)` nonzero
/// trits, each equal to the input trit at its position, and the result is
/// all zero when `k` is 0.
pub proof fn lemma_sparse_keeps_top_k(data: Seq<Trit>, k: nat)
    ensures
        count_nonzero(sparse_dropout_data(data, k, data.len())) == if k < count_nonzero(data) {
            k
        } else {
            count_nonzero(data)
        },
        forall|i: int|
            0 <= i < data.len() && #[trigger] sparse_dropout_data(data, k, data.len())[i]
                != Trit::Zero ==> sparse_dropout_data(data, k, data.len())[i] == data[i],
        k == 0 ==> forall|i: int|
            0 <= i < data.len() ==> #[trigger] sparse_dropout_data(data, k, data.len())[i]
                == Trit::Zero,
{
    let out = sparse_dropout_data(data, k, data.len());
    lemma_sparse_count_prefix(data, k, data.len() as int);
    assert(out.take(data.len() as int) =~= out);
    assert(data.take(data.len() as int) =~= data);
}

} // verus!
