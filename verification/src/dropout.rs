//! Random, structured and connection dropout, and noise injection: each
//! decision compares the next 21-bit fraction of the generator with a rate.
use vstd::prelude::*;
use crate::trit::{Trit, flipped};
use crate::rng::{
    TernaryRng,
    xorshift,
    advance,
    fraction_bits,
    lemma_fraction_bits_bound,
    FRACTION_RANGE,
};
use crate::matrix::{
    TernaryMatrix,
    lemma_flat_index_decompose,
    lemma_flat_index_in_bounds,
    lemma_flat_index_row_col_bounds,
};

verus! {

/// A dropout (or flip) rate `p`, held as the exact outcome of comparing a
/// drawn fraction `m / 2^21` (for `m` in `0 .. 2^21`) with `p`.
///
/// - `threshold` is the number of such fractions strictly below `p`, so a
///   draw `m` falls under the rate exactly when `m < threshold`. It is 0 for
///   `p <= 0`, `2^21` for `p >= 1`, and `ceil(p * 2^21)` in between.
/// - `enabled` is `false` exactly when `p <= 0`: the operations that skip
///   all work for such a rate (and draw nothing) look at it.
#[derive(Debug, Clone, Copy, PartialEq, Eq, Structural)]
pub struct DropRate {
    pub enabled: bool,
    pub threshold: u64,
}

impl DropRate {
    /// The rate comes from a real rate `p`: a rate `p <= 0` has threshold 0,
    /// and no threshold exceeds `2^21` (the count for `p >= 1`).
    pub open spec fn wf(self) -> bool {
        &&& !self.enabled ==> self.threshold == 0
        &&& self.threshold <= FRACTION_RANGE
    }

    /// The rate of a `p <= 0`: nothing is dropped, and the operations that
    /// skip work for such a rate draw nothing.
    pub fn off() -> (r: Self)
        ensures
            !r.enabled,
            r.threshold == 0,
            r.wf(),
    {
        DropRate { enabled: false, threshold: 0 }
    }

    /// The rate whose threshold is `threshold` (the number of fractions
    /// `m / 2^21` below it), capped at `2^21`; a threshold of 0 is the rate
    /// that compares false with every fraction without being `<= 0` (NaN).
    pub fn below(threshold: u64) -> (r: Self)
        ensures
            r.enabled,
            r.threshold == if threshold < FRACTION_RANGE {
                threshold
            } else {
                FRACTION_RANGE
            },
            r.wf(),
    {
        let t: u64 = if threshold < FRACTION_RANGE {
            threshold
        } else {
            FRACTION_RANGE
        };
        DropRate { enabled: true, threshold: t }
    }
}

/// Whether the draw made from generator state `s` falls under the rate.
pub open spec fn draw_hits(threshold: u64, s: u64) -> bool {
    fraction_bits(xorshift(s)) < threshold
}

/// The trits that random dropout produces from `data` with the generator
/// in state `s`: element `i` is zeroed when the `i`-th draw hits.
pub open spec fn random_dropout_data(data: Seq<Trit>, rate: DropRate, s: u64) -> Seq<Trit> {
    if !rate.enabled {
        data
    } else {
        Seq::new(
            data.len(),
            |i: int|
                if draw_hits(rate.threshold, advance(s, i as nat)) {
                    Trit::Zero
                } else {
                    data[i]
                },
        )
    }
}

/// The generator state after random dropout over `len` trits from state `s`.
pub open spec fn random_dropout_state(len: nat, rate: DropRate, s: u64) -> u64 {
    if rate.enabled {
        advance(s, len)
    } else {
        s
    }
}

/// Random ternary dropout: set each element to 0 with probability
/// `drop_rate`.
///
/// Returns a new matrix of the same shape. A disabled rate (`p <= 0`) gives
/// the input unchanged and draws nothing; otherwise one fraction is drawn per
/// element, in order, and the element is zeroed when it falls under the rate.
pub fn random_dropout(matrix: &TernaryMatrix, drop_rate: DropRate, rng: &mut TernaryRng) -> (result: TernaryMatrix)
    ensures
        result.rows == matrix.rows,
        result.cols == matrix.cols,
        result.data@ == random_dropout_data(matrix.data@, drop_rate, old(rng)@),
        final(rng)@ == random_dropout_state(matrix.data.len() as nat, drop_rate, old(rng)@),
{
    let mut result = matrix.duplicate();
    if !drop_rate.enabled {
        return result;
    }
    let n: usize = result.data.len();
    let ghost s = rng@;
    let mut i: usize = 0;
    while i < n
        invariant
            n == matrix.data.len(),
            result.rows == matrix.rows,
            result.cols == matrix.cols,
            result.data.len() == n,
            0 <= i <= n,
            rng@ == advance(s, i as nat),
            forall|j: int|
                0 <= j < n ==> #[trigger] result.data@[j] == (if j < i && draw_hits(
                    drop_rate.threshold,
                    advance(s, j as nat),
                ) {
                    Trit::Zero
                } else {
                    matrix.data@[j]
                }),
        decreases n - i,
    {
        let f = rng.next_fraction_bits();
        if f < drop_rate.threshold {
            result.data[i] = Trit::Zero;
        }
        i = i + 1;
    }
    assert(result.data@ =~= random_dropout_data(matrix.data@, drop_rate, s));
    result
}

/// DropConnect: randomly drop individual weight connections in a matrix.
///
/// Each element has a probability of `drop_rate` to be set to `Trit::Zero`.
/// This is element-wise random dropout, applied to weight matrices rather
/// than activations.
pub fn dropconnect(weights: &TernaryMatrix, drop_rate: DropRate, rng: &mut TernaryRng) -> (result: TernaryMatrix)
    ensures
        result.rows == weights.rows,
        result.cols == weights.cols,
        result.data@ == random_dropout_data(weights.data@, drop_rate, old(rng)@),
        final(rng)@ == random_dropout_state(weights.data.len() as nat, drop_rate, old(rng)@),
{
    random_dropout(weights, drop_rate, rng)
}

/// The line (row or column) that flat index `i` belongs to in a matrix with
/// `cols` columns: its row `i / cols` or its column `i % cols`.
pub open spec fn line_of(i: int, cols: nat, by_rows: bool) -> int {
    if by_rows {
        i / (cols as int)
    } else {
        i % (cols as int)
    }
}

/// The trits that structured dropout produces from `data` (a `rows` by
/// `cols` matrix, whose trits from index `rows * cols` on lie outside it)
/// and the generator in state `s`: the cells of line `k` (row or column) are
/// zeroed when the `k`-th draw hits; trits outside the matrix stay.
pub open spec fn structured_dropout_data(
    data: Seq<Trit>,
    rows: nat,
    cols: nat,
    threshold: u64,
    drop_rows: bool,
    s: u64,
) -> Seq<Trit> {
    Seq::new(
        data.len(),
        |i: int|
            if i < rows * cols && draw_hits(threshold, advance(s, line_of(i, cols, drop_rows) as nat)) {
                Trit::Zero
            } else {
                data[i]
            },
    )
}

/// Whether position `i` has been zeroed once the first `r` rows (and, on
/// row `r`, the first `c` cells) have been processed by row-wise dropout.
spec fn row_pass_zeroed(i: int, size: int, cols: int, threshold: u64, s: u64, r: int, c: int) -> bool {
    i < size && ((i / cols < r && draw_hits(threshold, advance(s, (i / cols) as nat))) || (i / cols
        == r && i % cols < c))
}

/// Whether position `i` has been zeroed once the first `c` columns (and, in
/// column `c`, the first `r` cells) have been processed by column-wise
/// dropout.
spec fn col_pass_zeroed(i: int, size: int, cols: int, threshold: u64, s: u64, c: int, r: int) -> bool {
    i < size && ((i % cols < c && draw_hits(threshold, advance(s, (i % cols) as nat))) || (i % cols
        == c && i / cols < r))
}

/// Structured dropout: drop entire rows or columns.
///
/// With `drop_rows == true`, one fraction is drawn per row (in row order)
/// and a row whose draw falls under the rate is zeroed; with
/// `drop_rows == false` the same is done per column. The generator always
/// advances once per row (or column), whatever the rate.
pub fn structured_dropout(
    matrix: &TernaryMatrix,
    drop_rate: DropRate,
    drop_rows: bool,
    rng: &mut TernaryRng,
) -> (result: TernaryMatrix)
    requires
        matrix.rows * matrix.cols <= matrix.data.len(),
    ensures
        result.rows == matrix.rows,
        result.cols == matrix.cols,
        result.data@ == structured_dropout_data(
            matrix.data@,
            matrix.rows as nat,
            matrix.cols as nat,
            drop_rate.threshold,
            drop_rows,
            old(rng)@,
        ),
        final(rng)@ == advance(
            old(rng)@,
            (if drop_rows {
                matrix.rows
            } else {
                matrix.cols
            }) as nat,
        ),
{
    let mut result = matrix.duplicate();
    let ghost s = rng@;
    let ghost data = matrix.data@;
    let ghost len = data.len();
    let ghost thr = drop_rate.threshold;
    let rows = result.rows;
    let cols = result.cols;
    let ghost size = rows * cols;
    proof {
        assert forall|i: int| 0 <= i < len implies !row_pass_zeroed(i, size, cols as int, thr, s, 0, 0)
            && !col_pass_zeroed(i, size, cols as int, thr, s, 0, 0) by {
            if i < size {
                lemma_flat_index_row_col_bounds(i, rows as int, cols as int);
            }
        }
    }
    if drop_rows {
        let mut r: usize = 0;
        while r < rows
            invariant
                result.rows == rows,
                result.cols == cols,
                rows == matrix.rows,
                cols == matrix.cols,
                data == matrix.data@,
                len == data.len(),
                size == rows * cols,
                size <= len,
                thr == drop_rate.threshold,
                result.data.len() == len,
                0 <= r <= rows,
                rng@ == advance(s, r as nat),
                forall|i: int|
                    0 <= i < len ==> #[trigger] result.data@[i] == (if row_pass_zeroed(
                        i,
                        size,
                        cols as int,
                        thr,
                        s,
                        r as int,
                        0,
                    ) {
                        Trit::Zero
                    } else {
                        data[i]
                    }),
            decreases rows - r,
        {
            let f = rng.next_fraction_bits();
            if f < drop_rate.threshold {
                let mut c: usize = 0;
                while c < cols
                    invariant
                        result.rows == rows,
                        result.cols == cols,
                        size == rows * cols,
                        size <= len,
                        result.data.len() == len,
                        0 <= r < rows,
                        0 <= c <= cols,
                        draw_hits(thr, advance(s, r as nat)),
                        forall|i: int|
                            0 <= i < len ==> #[trigger] result.data@[i] == (if row_pass_zeroed(
                                i,
                                size,
                                cols as int,
                                thr,
                                s,
                                r as int,
                                c as int,
                            ) {
                                Trit::Zero
                            } else {
                                data[i]
                            }),
                    decreases cols - c,
                {
                    proof {
                        lemma_flat_index_in_bounds(r as int, c as int, rows as int, cols as int);
                    }
                    let ghost before = result.data@;
                    result.set(r, c, Trit::Zero);
                    proof {
                        assert forall|i: int| 0 <= i < len implies #[trigger] result.data@[i] == (if row_pass_zeroed(
                            i,
                            size,
                            cols as int,
                            thr,
                            s,
                            r as int,
                            c + 1,
                        ) {
                            Trit::Zero
                        } else {
                            data[i]
                        }) by {
                            lemma_flat_index_decompose(i, r as int, c as int, cols as int);
                            assert(before[i] == (if row_pass_zeroed(
                                i,
                                size,
                                cols as int,
                                thr,
                                s,
                                r as int,
                                c as int,
                            ) {
                                Trit::Zero
                            } else {
                                data[i]
                            }));
                        }
                    }
                    c = c + 1;
                }
                proof {
                    assert forall|i: int| 0 <= i < len implies #[trigger] result.data@[i] == (if row_pass_zeroed(
                        i,
                        size,
                        cols as int,
                        thr,
                        s,
                        r + 1,
                        0,
                    ) {
                        Trit::Zero
                    } else {
                        data[i]
                    }) by {
                        if i < size {
                            lemma_flat_index_row_col_bounds(i, rows as int, cols as int);
                        }
                    }
                }
            }
            r = r + 1;
        }
    } else {
        let mut c: usize = 0;
        while c < cols
            invariant
                result.rows == rows,
                result.cols == cols,
                rows == matrix.rows,
                cols == matrix.cols,
                data == matrix.data@,
                len == data.len(),
                size == rows * cols,
                size <= len,
                thr == drop_rate.threshold,
                result.data.len() == len,
                0 <= c <= cols,
                rng@ == advance(s, c as nat),
                forall|i: int|
                    0 <= i < len ==> #[trigger] result.data@[i] == (if col_pass_zeroed(
                        i,
                        size,
                        cols as int,
                        thr,
                        s,
                        c as int,
                        0,
                    ) {
                        Trit::Zero
                    } else {
                        data[i]
                    }),
            decreases cols - c,
        {
            let f = rng.next_fraction_bits();
            if f < drop_rate.threshold {
                let mut r: usize = 0;
                while r < rows
                    invariant
                        result.rows == rows,
                        result.cols == cols,
                        size == rows * cols,
                        size <= len,
                        result.data.len() == len,
                        0 <= c < cols,
                        0 <= r <= rows,
                        draw_hits(thr, advance(s, c as nat)),
                        forall|i: int|
                            0 <= i < len ==> #[trigger] result.data@[i] == (if col_pass_zeroed(
                                i,
                                size,
                                cols as int,
                                thr,
                                s,
                                c as int,
                                r as int,
                            ) {
                                Trit::Zero
                            } else {
                                data[i]
                            }),
                    decreases rows - r,
                {
                    proof {
                        lemma_flat_index_in_bounds(r as int, c as int, rows as int, cols as int);
                    }
                    let ghost before = result.data@;
                    result.set(r, c, Trit::Zero);
                    proof {
                        assert forall|i: int| 0 <= i < len implies #[trigger] result.data@[i] == (if col_pass_zeroed(
                            i,
                            size,
                            cols as int,
                            thr,
                            s,
                            c as int,
                            r + 1,
                        ) {
                            Trit::Zero
                        } else {
                            data[i]
                        }) by {
                            lemma_flat_index_decompose(i, r as int, c as int, cols as int);
                            assert(before[i] == (if col_pass_zeroed(
                                i,
                                size,
                                cols as int,
                                thr,
                                s,
                                c as int,
                                r as int,
                            ) {
                                Trit::Zero
                            } else {
                                data[i]
                            }));
                        }
                    }
                    r = r + 1;
                }
                proof {
                    assert forall|i: int| 0 <= i < len implies #[trigger] result.data@[i] == (if col_pass_zeroed(
                        i,
                        size,
                        cols as int,
                        thr,
                        s,
                        c + 1,
                        0,
                    ) {
                        Trit::Zero
                    } else {
                        data[i]
                    }) by {
                        if i < size {
                            lemma_flat_index_row_col_bounds(i, rows as int, cols as int);
                        }
                    }
                }
            }
            c = c + 1;
        }
    }
    proof {
        let spec_data = structured_dropout_data(data, rows as nat, cols as nat, thr, drop_rows, s);
        assert forall|i: int| 0 <= i < len implies #[trigger] result.data@[i] == spec_data[i] by {
            if i < size {
                lemma_flat_index_row_col_bounds(i, rows as int, cols as int);
            }
        }
        assert(result.data@ =~= spec_data);
    }
    result
}

/// Noise injection over the first `n` trits of `data` from generator state
/// `s`: the trits produced and the state reached. Each trit takes one draw;
/// when it falls under `threshold`, a second draw's low byte picks which of
/// the two other trits it flips to.
pub open spec fn noise_run(data: Seq<Trit>, threshold: u64, s: u64, n: nat) -> (Seq<Trit>, u64)
    decreases n,
{
    if n == 0 {
        (Seq::empty(), s)
    } else {
        let (out, st) = noise_run(data, threshold, s, (n - 1) as nat);
        let s1 = xorshift(st);
        if fraction_bits(s1) < threshold {
            let s2 = xorshift(s1);
            (out.push(flipped(data[n - 1], ((s2 as u8) % 2) as int)), s2)
        } else {
            (out.push(data[n - 1]), s1)
        }
    }
}

/// The run over `n` trits yields `n` trits, and the trits produced for a
/// prefix stay as they are when the run goes on.
pub proof fn lemma_noise_run_prefix(data: Seq<Trit>, threshold: u64, s: u64, m: nat, n: nat)
    requires
        m <= n,
    ensures
        noise_run(data, threshold, s, n).0.len() == n,
        noise_run(data, threshold, s, n).0.take(m as int) == noise_run(data, threshold, s, m).0,
    decreases n,
{
    if n > 0 {
        if m < n {
            lemma_noise_run_prefix(data, threshold, s, m, (n - 1) as nat);
            let prev = noise_run(data, threshold, s, (n - 1) as nat).0;
            assert(noise_run(data, threshold, s, n).0.take(m as int) =~= prev.take(m as int));
        } else {
            lemma_noise_run_prefix(data, threshold, s, (n - 1) as nat, (n - 1) as nat);
            assert(noise_run(data, threshold, s, n).0.take(m as int) =~= noise_run(data, threshold, s, n).0);
        }
    }
}

/// The trits that noise injection produces from `data` with the generator
/// in state `s`.
pub open spec fn noise_injection_data(data: Seq<Trit>, rate: DropRate, s: u64) -> Seq<Trit> {
    if rate.enabled {
        noise_run(data, rate.threshold, s, data.len()).0
    } else {
        data
    }
}

/// The generator state after noise injection over `data` from state `s`.
pub open spec fn noise_injection_state(data: Seq<Trit>, rate: DropRate, s: u64) -> u64 {
    if rate.enabled {
        noise_run(data, rate.threshold, s, data.len()).1
    } else {
        s
    }
}

/// Ternary noise injection: flip random trits to a different value.
///
/// Each element has a probability of `flip_rate` to be flipped to one of the
/// other two trit values, chosen by a second draw. A disabled rate
/// (`p <= 0`) gives the input unchanged and draws nothing.
pub fn noise_injection(matrix: &TernaryMatrix, flip_rate: DropRate, rng: &mut TernaryRng) -> (result: TernaryMatrix)
    ensures
        result.rows == matrix.rows,
        result.cols == matrix.cols,
        result.data@ == noise_injection_data(matrix.data@, flip_rate, old(rng)@),
        final(rng)@ == noise_injection_state(matrix.data@, flip_rate, old(rng)@),
{
    let mut result = matrix.duplicate();
    if !flip_rate.enabled {
        return result;
    }
    let ghost s = rng@;
    let ghost data = matrix.data@;
    let n: usize = result.data.len();
    let mut i: usize = 0;
    while i < n
        invariant
            data == matrix.data@,
            n == data.len(),
            result.rows == matrix.rows,
            result.cols == matrix.cols,
            result.data.len() == n,
            0 <= i <= n,
            rng@ == noise_run(data, flip_rate.threshold, s, i as nat).1,
            result.data@.take(i as int) == noise_run(data, flip_rate.threshold, s, i as nat).0,
            forall|j: int| i <= j < n ==> #[trigger] result.data@[j] == data[j],
        decreases n - i,
    {
        proof {
            lemma_noise_run_prefix(data, flip_rate.threshold, s, i as nat, i as nat);
        }
        let ghost before = result.data@;
        let f = rng.next_fraction_bits();
        if f < flip_rate.threshold {
            let choice = rng.next_u8();
            let t = result.data[i].flip(choice);
            result.data[i] = t;
        }
        proof {
            assert(result.data@.take(i + 1) =~= before.take(i as int).push(result.data@[i as int]));
        }
        i = i + 1;
    }
    proof {
        assert(result.data@ =~= result.data@.take(n as int));
    }
    result
}

/// Random dropout only silences: every trit of the result is either zero
/// or the trit that was there.
pub proof fn lemma_random_dropout_only_silences(data: Seq<Trit>, rate: DropRate, s: u64)
    ensures
        random_dropout_data(data, rate, s).len() == data.len(),
        forall|i: int|
            0 <= i < data.len() ==> #[trigger] random_dropout_data(data, rate, s)[i] == Trit::Zero
                || random_dropout_data(data, rate, s)[i] == data[i],
{
}

/// A rate of 1 or more (threshold at least 2^21) zeroes every trit.
pub proof fn lemma_random_dropout_full_rate(data: Seq<Trit>, rate: DropRate, s: u64)
    requires
        rate.enabled,
        rate.threshold >= FRACTION_RANGE,
    ensures
        forall|i: int|
            0 <= i < data.len() ==> #[trigger] random_dropout_data(data, rate, s)[i] == Trit::Zero,
{
    assert forall|i: int| 0 <= i < data.len() implies #[trigger] random_dropout_data(
        data,
        rate,
        s,
    )[i] == Trit::Zero by {
        lemma_fraction_bits_bound(xorshift(advance(s, i as nat)));
    }
}

/// A rate that no draw falls under (threshold 0) keeps every trit.
pub proof fn lemma_random_dropout_zero_threshold(data: Seq<Trit>, rate: DropRate, s: u64)
    requires
        rate.threshold == 0,
    ensures
        random_dropout_data(data, rate, s) == data,
{
    assert(random_dropout_data(data, rate, s) =~= data);
}

/// Structured dropout only silences, and it silences whole lines: two
/// cells on the same line (row, or column) are either both zeroed or both
/// kept.
pub proof fn lemma_structured_dropout_whole_lines(
    data: Seq<Trit>,
    rows: nat,
    cols: nat,
    threshold: u64,
    drop_rows: bool,
    s: u64,
    i: int,
    j: int,
)
    requires
        0 <= i < rows * cols,
        0 <= j < rows * cols,
        rows * cols <= data.len(),
        line_of(i, cols, drop_rows) == line_of(j, cols, drop_rows),
        structured_dropout_data(data, rows, cols, threshold, drop_rows, s)[i] != data[i],
    ensures
        structured_dropout_data(data, rows, cols, threshold, drop_rows, s)[i] == Trit::Zero,
        structured_dropout_data(data, rows, cols, threshold, drop_rows, s)[j] == Trit::Zero,
{
}

/// With a valid disabled rate (threshold 0) no draw hits, so structured
/// dropout, like the other operations, keeps every trit.
pub proof fn lemma_structured_dropout_disabled_keeps(
    data: Seq<Trit>,
    rows: nat,
    cols: nat,
    rate: DropRate,
    drop_rows: bool,
    s: u64,
)
    requires
        rate.wf(),
        !rate.enabled,
    ensures
        structured_dropout_data(data, rows, cols, rate.threshold, drop_rows, s) == data,
{
    assert(structured_dropout_data(data, rows, cols, rate.threshold, drop_rows, s) =~= data);
}

/// Noise injection changes a trit exactly when that trit's draw falls
/// under the rate, and then always to a different trit: the trit produced
/// at position `j` differs from the input exactly when the draw made from
/// the state reached after the first `j` trits hits.
pub proof fn lemma_noise_changes_exactly_hits(data: Seq<Trit>, threshold: u64, s: u64, n: nat)
    requires
        n <= data.len(),
    ensures
        forall|j: int|
            0 <= j < n ==> (#[trigger] noise_run(data, threshold, s, n).0[j] != data[j]) == draw_hits(
                threshold,
                noise_run(data, threshold, s, j as nat).1,
            ),
    decreases n,
{
    if n > 0 {
        lemma_noise_changes_exactly_hits(data, threshold, s, (n - 1) as nat);
        lemma_noise_run_prefix(data, threshold, s, (n - 1) as nat, (n - 1) as nat);
        let prev = noise_run(data, threshold, s, (n - 1) as nat);
        let s1 = xorshift(prev.1);
        let s2 = xorshift(s1);
        let p = ((s2 as u8) % 2) as int;
        assert(flipped(data[n - 1], p) != data[n - 1]) by {
            assert(p == 0 || p == 1);
        }
        assert forall|j: int| 0 <= j < n implies (#[trigger] noise_run(data, threshold, s, n).0[j]
            != data[j]) == draw_hits(threshold, noise_run(data, threshold, s, j as nat).1) by {
            if j < n - 1 {
                assert(noise_run(data, threshold, s, n).0[j] == prev.0[j]);
            }
        }
    }
}

/// Random dropout decides every element on its own draw: with an enabled
/// rate, element `i` becomes zero exactly when the `(i+1)`-th word drawn
/// from `s` has its 21-bit fraction below the threshold, and otherwise keeps
/// its trit; a disabled rate keeps everything.
pub proof fn lemma_random_dropout_own_draw(data: Seq<Trit>, rate: DropRate, s: u64, i: int)
    requires
        0 <= i < data.len(),
    ensures
        random_dropout_data(data, rate, s).len() == data.len(),
        random_dropout_data(data, rate, s)[i] == if rate.enabled && (advance(s, (i + 1) as nat)
            & 0x1F_FFFFu64) < rate.threshold {
            Trit::Zero
        } else {
            data[i]
        },
{
}

/// Structured dropout decides every cell of the matrix on the draw of its
/// own line alone: cell `i` (row `i / cols`, column `i % cols`) becomes zero
/// exactly when the word drawn for its row (row mode) or its column (column
/// mode), the `(line+1)`-th word from `s`, has its 21-bit fraction below the
/// threshold; trits past the matrix are kept.
pub proof fn lemma_structured_dropout_own_line(
    data: Seq<Trit>,
    rows: nat,
    cols: nat,
    threshold: u64,
    drop_rows: bool,
    s: u64,
    i: int,
)
    requires
        0 <= i < data.len(),
    ensures
        structured_dropout_data(data, rows, cols, threshold, drop_rows, s).len() == data.len(),
        i < rows * cols ==> structured_dropout_data(data, rows, cols, threshold, drop_rows, s)[i]
            == if (advance(
            s,
            ((if drop_rows {
                i / (cols as int)
            } else {
                i % (cols as int)
            }) + 1) as nat,
        ) & 0x1F_FFFFu64) < threshold {
            Trit::Zero
        } else {
            data[i]
        },
        i >= rows * cols ==> structured_dropout_data(data, rows, cols, threshold, drop_rows, s)[i]
            == data[i],
{
    if i < rows * cols {
        lemma_flat_index_row_col_bounds(i, rows as int, cols as int);
    }
}

/// Noise injection decides each trit on its own draws: from the state `st`
/// reached after the first `j` trits, the next word decides whether trit `j`
/// flips. If its fraction is below the threshold the trit changes to the
/// other trit picked by the parity of the low byte of the word after it
/// (even: the lower one, odd: the higher one) and two words are used;
/// otherwise the trit is kept and one word is used. Later trits never change
/// it.
pub proof fn lemma_noise_own_draws(data: Seq<Trit>, threshold: u64, s: u64, j: int, n: nat)
    requires
        0 <= j < n <= data.len(),
    ensures
        ({
            let st = noise_run(data, threshold, s, j as nat).1;
            let w1 = xorshift(st);
            let w2 = xorshift(w1);
            let out = noise_run(data, threshold, s, n).0;
            let next = noise_run(data, threshold, s, (j + 1) as nat).1;
            &&& (w1 & 0x1F_FFFFu64) < threshold ==> {
                &&& out[j] == flipped(data[j], ((w2 as u8) % 2) as int)
                &&& out[j] != data[j]
                &&& next == w2
            }
            &&& !((w1 & 0x1F_FFFFu64) < threshold) ==> {
                &&& out[j] == data[j]
                &&& next == w1
            }
        }),
{
    lemma_noise_run_prefix(data, threshold, s, (j + 1) as nat, n);
    lemma_noise_run_prefix(data, threshold, s, j as nat, j as nat);
    let st = noise_run(data, threshold, s, j as nat).1;
    let w1 = xorshift(st);
    let w2 = xorshift(w1);
    let p = ((w2 as u8) % 2) as int;
    assert(p == 0 || p == 1);
    assert(flipped(data[j], p) != data[j]);
    let out = noise_run(data, threshold, s, n).0;
    let step = noise_run(data, threshold, s, (j + 1) as nat);
    assert(out[j] == out.take(j + 1)[j]);
    assert(fraction_bits(w1) == (w1 & 0x1F_FFFFu64));
    if (w1 & 0x1F_FFFFu64) < threshold {
        assert(step.0[j] == flipped(data[j], p));
    } else {
        assert(step.0[j] == data[j]);
    }
}

} // verus!
