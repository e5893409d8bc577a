//! Monte Carlo dropout: many dropout passes, summarised per element by a
//! consensus trit and an uncertainty trit.
use vstd::prelude::*;
use crate::trit::Trit;
use crate::rng::{TernaryRng, advance, lemma_advance_adds};
use crate::matrix::TernaryMatrix;
use crate::dropout::{
    DropRate,
    random_dropout,
    random_dropout_data,
    random_dropout_state,
    lemma_random_dropout_only_silences,
    lemma_random_dropout_own_draw,
};

verus! {

/// The generator state before the `t`-th of a series of random dropout
/// passes over `len` trits, starting from state `s`.
pub open spec fn pass_state(len: nat, rate: DropRate, s: u64, t: nat) -> u64
    decreases t,
{
    if t == 0 {
        s
    } else {
        random_dropout_state(len, rate, pass_state(len, rate, s, (t - 1) as nat))
    }
}

/// The `t`-th random dropout pass over `data` in a series started from
/// generator state `s`.
pub open spec fn pass_sample(data: Seq<Trit>, rate: DropRate, s: u64, t: nat) -> Seq<Trit> {
    random_dropout_data(data, rate, pass_state(data.len(), rate, s, t))
}

/// In how many of the first `n` passes position `i` holds the trit `v`.
pub open spec fn pass_count(data: Seq<Trit>, rate: DropRate, s: u64, n: nat, i: int, v: Trit) -> nat
    decreases n,
{
    if n == 0 {
        0
    } else {
        pass_count(data, rate, s, (n - 1) as nat, i, v) + if pass_sample(
            data,
            rate,
            s,
            (n - 1) as nat,
        )[i] == v {
            1nat
        } else {
            0nat
        }
    }
}

/// The consensus trit of a position whose `n` samples sum to `sum`: the
/// mean `sum / n` mapped to the nearest trit, -1 below -1/2, +1 above 1/2,
/// 0 otherwise (and 0 when there are no samples). The comparisons are made
/// exactly, on integers; for sample counts below 2^47 they agree with
/// comparing the `f64` quotient `sum / n` against -0.5 and 0.5.
pub open spec fn mean_trit(sum: int, n: int) -> Trit {
    if 2 * sum < -n {
        Trit::NegOne
    } else if 2 * sum > n {
        Trit::One
    } else {
        Trit::Zero
    }
}

/// The uncertainty trit of a position that was nonzero in `nonzero` of `n`
/// samples: the fraction `nonzero / n` below 33/100 gives 0 (low), below
/// 66/100 gives +1 (medium), otherwise -1 (high, also when there are no
/// samples). The comparisons are made exactly, on integers; for sample
/// counts below 2^47 they agree with comparing the `f64` quotient
/// `nonzero / n` against the `f64` constants 0.33 and 0.66.
pub open spec fn spread_trit(nonzero: int, n: int) -> Trit {
    if 100 * nonzero < 33 * n {
        Trit::Zero
    } else if 100 * nonzero < 66 * n {
        Trit::One
    } else {
        Trit::NegOne
    }
}

/// The consensus trits of `n` passes over `data`.
pub open spec fn mc_mean_data(data: Seq<Trit>, rate: DropRate, s: u64, n: nat) -> Seq<Trit> {
    Seq::new(
        data.len(),
        |i: int|
            mean_trit(
                pass_count(data, rate, s, n, i, Trit::One) - pass_count(data, rate, s, n, i, Trit::NegOne),
                n as int,
            ),
    )
}

/// The uncertainty trits of `n` passes over `data`.
pub open spec fn mc_variance_data(data: Seq<Trit>, rate: DropRate, s: u64, n: nat) -> Seq<Trit> {
    Seq::new(
        data.len(),
        |i: int|
            spread_trit(
                (pass_count(data, rate, s, n, i, Trit::One) + pass_count(data, rate, s, n, i, Trit::NegOne)) as int,
                n as int,
            ),
    )
}

/// Monte Carlo dropout: run multiple forward passes with dropout enabled
/// to estimate uncertainty.
///
///   - `mean`: a matrix where each element is the mean of all samples
///     (mapped back to the nearest trit)
///   - `variance`: a matrix where each element maps the fraction of samples
///     that were non-zero to a ternary uncertainty score
pub struct MCOutput {
    pub mean: TernaryMatrix,
    pub variance: TernaryMatrix,
}

/// Runs `num_samples` random dropout passes over `matrix`, one after the
/// other on the same generator, and summarises each element over them.
pub fn monte_carlo_dropout(
    matrix: &TernaryMatrix,
    drop_rate: DropRate,
    num_samples: usize,
    rng: &mut TernaryRng,
) -> (out: MCOutput)
    requires
        matrix.wf(),
        num_samples <= i64::MAX,
    ensures
        out.mean.rows == matrix.rows,
        out.mean.cols == matrix.cols,
        out.variance.rows == matrix.rows,
        out.variance.cols == matrix.cols,
        out.mean.data@ == mc_mean_data(matrix.data@, drop_rate, old(rng)@, num_samples as nat),
        out.variance.data@ == mc_variance_data(
            matrix.data@,
            drop_rate,
            old(rng)@,
            num_samples as nat,
        ),
        final(rng)@ == pass_state(matrix.data.len() as nat, drop_rate, old(rng)@, num_samples as nat),
{
    let total: usize = matrix.data.len();
    let ghost data = matrix.data@;
    let ghost s = rng@;

    // Track sum and count of non-zero for each position
    let mut sums: Vec<i64> = vec![0i64; total];
    let mut nonzero_counts: Vec<usize> = vec![0usize; total];

    let mut t: usize = 0;
    while t < num_samples
        invariant
            data == matrix.data@,
            total == data.len(),
            num_samples <= i64::MAX,
            0 <= t <= num_samples,
            sums.len() == total,
            nonzero_counts.len() == total,
            rng@ == pass_state(total as nat, drop_rate, s, t as nat),
            forall|i: int|
                0 <= i < total ==> #[trigger] sums@[i] == pass_count(
                    data,
                    drop_rate,
                    s,
                    t as nat,
                    i,
                    Trit::One,
                ) - pass_count(data, drop_rate, s, t as nat, i, Trit::NegOne),
            forall|i: int|
                0 <= i < total ==> #[trigger] nonzero_counts@[i] == pass_count(
                    data,
                    drop_rate,
                    s,
                    t as nat,
                    i,
                    Trit::One,
                ) + pass_count(data, drop_rate, s, t as nat, i, Trit::NegOne),
            forall|i: int| 0 <= i < total ==> #[trigger] nonzero_counts@[i] <= t,
        decreases num_samples - t,
    {
        let sample = random_dropout(matrix, drop_rate, rng);
        let ghost old_sums = sums@;
        let ghost old_counts = nonzero_counts@;
        let mut i: usize = 0;
        while i < total
            invariant
                data == matrix.data@,
                total == data.len(),
                num_samples <= i64::MAX,
                0 <= t < num_samples,
                sample.data@ == pass_sample(data, drop_rate, s, t as nat),
                sums.len() == total,
                nonzero_counts.len() == total,
                old_sums.len() == total,
                old_counts.len() == total,
                0 <= i <= total,
                forall|j: int|
                    0 <= j < total ==> #[trigger] old_sums[j] == pass_count(
                        data,
                        drop_rate,
                        s,
                        t as nat,
                        j,
                        Trit::One,
                    ) - pass_count(data, drop_rate, s, t as nat, j, Trit::NegOne),
                forall|j: int|
                    0 <= j < total ==> #[trigger] old_counts[j] == pass_count(
                        data,
                        drop_rate,
                        s,
                        t as nat,
                        j,
                        Trit::One,
                    ) + pass_count(data, drop_rate, s, t as nat, j, Trit::NegOne),
                forall|j: int| 0 <= j < total ==> #[trigger] old_counts[j] <= t,
                forall|j: int| i <= j < total ==> #[trigger] sums@[j] == old_sums[j],
                forall|j: int| i <= j < total ==> #[trigger] nonzero_counts@[j] == old_counts[j],
                forall|j: int|
                    0 <= j < i ==> #[trigger] sums@[j] == pass_count(
                        data,
                        drop_rate,
                        s,
                        (t + 1) as nat,
                        j,
                        Trit::One,
                    ) - pass_count(data, drop_rate, s, (t + 1) as nat, j, Trit::NegOne),
                forall|j: int|
                    0 <= j < i ==> #[trigger] nonzero_counts@[j] == pass_count(
                        data,
                        drop_rate,
                        s,
                        (t + 1) as nat,
                        j,
                        Trit::One,
                    ) + pass_count(data, drop_rate, s, (t + 1) as nat, j, Trit::NegOne),
                forall|j: int| 0 <= j < i ==> #[trigger] nonzero_counts@[j] <= t + 1,
            decreases total - i,
        {
            let trit = sample.data[i];
            proof {
                let ii = i as int;
                assert(trit == pass_sample(data, drop_rate, s, t as nat)[ii]);
                assert(sums@[ii] == old_sums[ii]);
                assert(nonzero_counts@[ii] == old_counts[ii]);
                assert(old_counts[ii] <= t);
            }
            sums[i] = sums[i] + trit.to_i8() as i64;
            if trit != Trit::Zero {
                nonzero_counts[i] = nonzero_counts[i] + 1;
            }
            i = i + 1;
        }
        t = t + 1;
    }

    // Compute mean (quantized to trit)
    let mut mean_data: Vec<Trit> = vec![Trit::Zero; total];
    let mut i: usize = 0;
    while i < total
        invariant
            total == data.len(),
            sums.len() == total,
            mean_data.len() == total,
            nonzero_counts.len() == total,
            0 <= i <= total,
            num_samples <= i64::MAX,
            forall|j: int|
                0 <= j < total ==> #[trigger] nonzero_counts@[j] == pass_count(
                    data,
                    drop_rate,
                    s,
                    num_samples as nat,
                    j,
                    Trit::One,
                ) + pass_count(data, drop_rate, s, num_samples as nat, j, Trit::NegOne),
            forall|j: int|
                0 <= j < total ==> #[trigger] sums@[j] == pass_count(
                    data,
                    drop_rate,
                    s,
                    num_samples as nat,
                    j,
                    Trit::One,
                ) - pass_count(data, drop_rate, s, num_samples as nat, j, Trit::NegOne),
            forall|j: int|
                0 <= j < i ==> #[trigger] mean_data@[j] == mc_mean_data(
                    data,
                    drop_rate,
                    s,
                    num_samples as nat,
                )[j],
        decreases total - i,
    {
        let sum = sums[i] as i128;
        let n = num_samples as i128;
        mean_data[i] = if 2 * sum < -n {
            Trit::NegOne
        } else if 2 * sum > n {
            Trit::One
        } else {
            Trit::Zero
        };
        i = i + 1;
    }

    // Variance as fraction of samples that were non-zero
    let mut var_data: Vec<Trit> = vec![Trit::Zero; total];
    let mut i: usize = 0;
    while i < total
        invariant
            total == data.len(),
            nonzero_counts.len() == total,
            var_data.len() == total,
            0 <= i <= total,
            forall|j: int|
                0 <= j < total ==> #[trigger] nonzero_counts@[j] == pass_count(
                    data,
                    drop_rate,
                    s,
                    num_samples as nat,
                    j,
                    Trit::One,
                ) + pass_count(data, drop_rate, s, num_samples as nat, j, Trit::NegOne),
            forall|j: int|
                0 <= j < i ==> #[trigger] var_data@[j] == mc_variance_data(
                    data,
                    drop_rate,
                    s,
                    num_samples as nat,
                )[j],
        decreases total - i,
    {
        let count = nonzero_counts[i] as u128;
        let n = num_samples as u128;
        // Map variance fraction to trit: low/medium/high uncertainty
        var_data[i] = if 100 * count < 33 * n {
            Trit::Zero
        } else if 100 * count < 66 * n {
            Trit::One
        } else {
            Trit::NegOne
        };
        i = i + 1;
    }
    proof {
        assert(mean_data@ =~= mc_mean_data(data, drop_rate, s, num_samples as nat));
        assert(var_data@ =~= mc_variance_data(data, drop_rate, s, num_samples as nat));
    }

    MCOutput {
        mean: TernaryMatrix::from_flat(matrix.rows, matrix.cols, mean_data),
        variance: TernaryMatrix::from_flat(matrix.rows, matrix.cols, var_data),
    }
}

/// With dropout disabled every pass is the input itself, so position `i`
/// holds `data[i]` in all `n` passes.
pub proof fn lemma_pass_count_disabled(data: Seq<Trit>, rate: DropRate, s: u64, n: nat, i: int, v: Trit)
    requires
        !rate.enabled,
        0 <= i < data.len(),
    ensures
        pass_count(data, rate, s, n, i, v) == if data[i] == v {
            n
        } else {
            0
        },
    decreases n,
{
    if n > 0 {
        lemma_pass_count_disabled(data, rate, s, (n - 1) as nat, i, v);
    }
}

/// A position whose input trit is zero stays zero in every pass.
pub proof fn lemma_pass_count_zero_input(data: Seq<Trit>, rate: DropRate, s: u64, n: nat, i: int, v: Trit)
    requires
        0 <= i < data.len(),
        data[i] == Trit::Zero,
        v != Trit::Zero,
    ensures
        pass_count(data, rate, s, n, i, v) == 0,
    decreases n,
{
    if n > 0 {
        lemma_pass_count_zero_input(data, rate, s, (n - 1) as nat, i, v);
        lemma_random_dropout_only_silences(
            data,
            rate,
            pass_state(data.len(), rate, s, (n - 1) as nat),
        );
    }
}

/// Without dropout, at least one pass gives back the input as the mean, and
/// an uncertainty of 0 where the input is zero and -1 (every pass nonzero)
/// elsewhere.
pub proof fn lemma_mc_without_dropout(data: Seq<Trit>, rate: DropRate, s: u64, n: nat)
    requires
        !rate.enabled,
        n >= 1,
    ensures
        mc_mean_data(data, rate, s, n) == data,
        forall|i: int|
            0 <= i < data.len() ==> #[trigger] mc_variance_data(data, rate, s, n)[i] == if data[i]
                == Trit::Zero {
                Trit::Zero
            } else {
                Trit::NegOne
            },
{
    assert forall|i: int| 0 <= i < data.len() implies #[trigger] mc_mean_data(data, rate, s, n)[i]
        == data[i] && mc_variance_data(data, rate, s, n)[i] == if data[i] == Trit::Zero {
        Trit::Zero
    } else {
        Trit::NegOne
    } by {
        lemma_pass_count_disabled(data, rate, s, n, i, Trit::One);
        lemma_pass_count_disabled(data, rate, s, n, i, Trit::NegOne);
    }
    assert(mc_mean_data(data, rate, s, n) =~= data);
}

/// Whatever the rate, at least one pass gives an uncertainty of 0 wherever
/// the input is zero, since dropout never makes a zero nonzero.
pub proof fn lemma_mc_zero_stays_certain(data: Seq<Trit>, rate: DropRate, s: u64, n: nat, i: int)
    requires
        n >= 1,
        0 <= i < data.len(),
        data[i] == Trit::Zero,
    ensures
        mc_variance_data(data, rate, s, n)[i] == Trit::Zero,
        mc_mean_data(data, rate, s, n)[i] == Trit::Zero,
{
    lemma_pass_count_zero_input(data, rate, s, n, i, Trit::One);
    lemma_pass_count_zero_input(data, rate, s, n, i, Trit::NegOne);
}

/// The passes run one after the other on the same generator: with an
/// enabled rate, pass `t` starts `t * len` steps after the start (each pass
/// draws once per trit), and with a disabled rate nothing is drawn.
pub proof fn lemma_pass_state_closed_form(len: nat, rate: DropRate, s: u64, t: nat)
    ensures
        pass_state(len, rate, s, t) == if rate.enabled {
            advance(s, t * len)
        } else {
            s
        },
    decreases t,
{
    if t > 0 {
        lemma_pass_state_closed_form(len, rate, s, (t - 1) as nat);
        if rate.enabled {
            lemma_advance_adds(s, ((t - 1) * len) as nat, len);
            assert((t - 1) * len + len == t * len) by (nonlinear_arith)
                requires
                    t > 0,
            ;
        }
    }
}

/// Position `i` of pass `t` is zero exactly when (with an enabled rate) the
/// word drawn for it, the `(t * len + i + 1)`-th word from the start, has
/// its 21-bit fraction below the threshold; otherwise it keeps the input
/// trit. So consecutive passes use fresh draws, never the same mask.
pub proof fn lemma_pass_sample_own_draw(data: Seq<Trit>, rate: DropRate, s: u64, t: nat, i: int)
    requires
        0 <= i < data.len(),
    ensures
        pass_sample(data, rate, s, t)[i] == if rate.enabled && (advance(
            s,
            (t * data.len() + i + 1) as nat,
        ) & 0x1F_FFFFu64) < rate.threshold {
            Trit::Zero
        } else {
            data[i]
        },
{
    let len = data.len();
    lemma_pass_state_closed_form(len, rate, s, t);
    let st = pass_state(len, rate, s, t);
    lemma_random_dropout_own_draw(data, rate, st, i);
    if rate.enabled {
        assert(t * len >= 0) by (nonlinear_arith);
        lemma_advance_adds(s, t * len, (i + 1) as nat);
    }
}

/// Every pass puts exactly one of the three trits at each position, so the
/// three counts of a position add up to the number of passes.
pub proof fn lemma_pass_counts_total(data: Seq<Trit>, rate: DropRate, s: u64, n: nat, i: int)
    ensures
        pass_count(data, rate, s, n, i, Trit::NegOne) + pass_count(data, rate, s, n, i, Trit::Zero)
            + pass_count(data, rate, s, n, i, Trit::One) == n,
    decreases n,
{
    if n > 0 {
        lemma_pass_counts_total(data, rate, s, (n - 1) as nat, i);
    }
}

} // verus!
