use ternary_dropout::{
    dropconnect, monte_carlo_dropout, noise_injection, random_dropout, sparse_dropout,
    structured_dropout, DropRate, TernaryMatrix, TernaryRng, Trit,
};

/// The rate `p` as the library holds it: the number of 21-bit fractions
/// below `p`, and whether `p` is above zero (or NaN).
fn rate(p: f64) -> DropRate {
    let scale = 2097152.0_f64;
    let scaled = p * scale;
    let threshold = if scaled.is_nan() || scaled <= 0.0 {
        0
    } else if scaled >= scale {
        2097152
    } else {
        scaled.ceil() as u64
    };
    DropRate { enabled: !(p <= 0.0), threshold }
}

fn sample_matrix() -> TernaryMatrix {
    TernaryMatrix::from_flat(3, 4, vec![
        Trit::One, Trit::NegOne, Trit::Zero, Trit::One,
        Trit::Zero, Trit::One, Trit::One, Trit::NegOne,
        Trit::NegOne, Trit::Zero, Trit::One, Trit::Zero,
    ])
}

fn count_zeros(m: &TernaryMatrix) -> usize {
    m.data.iter().filter(|&&t| t == Trit::Zero).count()
}

#[test]
fn test_random_dropout_zeros_correct_fraction() {
    let mat = sample_matrix();
    let mut rng = TernaryRng::new(42);
    let drop_rate = 0.5;

    let dropped = random_dropout(&mat, rate(drop_rate), &mut rng);

    // Count zeros
    let zeros = dropped.data.iter().filter(|&&t| t == Trit::Zero).count();
    let total = dropped.data.len();

    // The matrix already has 4 zeros, so we need at least 4
    assert!(zeros >= 4, "Expected at least 4 zeros, got {}", zeros);

    // Should not zero everything
    assert!(zeros < total, "Should not zero everything");
}

#[test]
fn test_random_dropout_no_drop_mode() {
    let mat = sample_matrix();
    let mut rng = TernaryRng::new(42);

    // drop_rate = 0 should return identical matrix
    let dropped = random_dropout(&mat, rate(0.0), &mut rng);
    assert_eq!(dropped, mat);

    // Negative drop_rate should also be no-op
    let dropped = random_dropout(&mat, rate(-0.5), &mut rng);
    assert_eq!(dropped, mat);
}

#[test]
fn test_random_dropout_full_drop() {
    let mat = sample_matrix();
    let mut rng = TernaryRng::new(42);

    let dropped = random_dropout(&mat, rate(1.0), &mut rng);
    // Everything should be zero
    assert!(dropped.data.iter().all(|&t| t == Trit::Zero));
}

#[test]
fn test_structured_dropout_rows_preserves_shape() {
    let mat = sample_matrix();
    let mut rng = TernaryRng::new(123);

    let dropped = structured_dropout(&mat, rate(0.5), true, &mut rng);

    // Shape preserved
    assert_eq!(dropped.rows, mat.rows);
    assert_eq!(dropped.cols, mat.cols);

    // At least one row should be all zeros
    let all_zero_rows = (0..dropped.rows)
        .filter(|&r| (0..dropped.cols).all(|c| dropped.get(r, c) == Trit::Zero))
        .count();
    assert!(all_zero_rows >= 1, "Expected at least 1 dropped row");
}

#[test]
fn test_structured_dropout_columns_preserves_shape() {
    let mat = sample_matrix();
    let mut rng = TernaryRng::new(456);

    let dropped = structured_dropout(&mat, rate(0.5), false, &mut rng);

    assert_eq!(dropped.rows, mat.rows);
    assert_eq!(dropped.cols, mat.cols);

    // Check that at least one column is all zeros
    let all_zero_cols = (0..dropped.cols)
        .filter(|&c| (0..dropped.rows).all(|r| dropped.get(r, c) == Trit::Zero))
        .count();
    assert!(all_zero_cols >= 1, "Expected at least 1 dropped column");
}

#[test]
fn test_noise_injection_changes_some_trits() {
    let mat = sample_matrix();
    let mut rng = TernaryRng::new(789);

    let noisy = noise_injection(&mat, rate(0.5), &mut rng);

    // Some values should have changed
    let changed = mat.data.iter().zip(noisy.data.iter())
        .filter(|(a, b)| a != b)
        .count();
    assert!(changed > 0, "Expected some trits to be flipped");

    // But not all should change
    assert!(changed < mat.data.len(), "Not all trits should flip at 50%");
}

#[test]
fn test_noise_injection_no_flip() {
    let mat = sample_matrix();
    let mut rng = TernaryRng::new(42);

    let result = noise_injection(&mat, rate(0.0), &mut rng);
    assert_eq!(result, mat);

    let result = noise_injection(&mat, rate(-1.0), &mut rng);
    assert_eq!(result, mat);
}

#[test]
fn test_sparse_dropout_keeps_top_k() {
    let mat = sample_matrix();
    // mat has 8 non-zero elements and 4 zeros
    // Keep top 4

    let result = sparse_dropout(&mat, 4);

    // Count non-zero in result
    let nonzero = result.data.iter().filter(|&&t| t != Trit::Zero).count();
    assert_eq!(nonzero, 4, "Should keep exactly 4 elements");

    // The kept elements should be from original non-zero positions
    for i in 0..result.data.len() {
        if result.data[i] != Trit::Zero {
            assert_eq!(result.data[i], mat.data[i], "Kept value should match original");
        }
    }
}

#[test]
fn test_sparse_dropout_k_exceeds_total() {
    let mat = sample_matrix();
    let result = sparse_dropout(&mat, 100);
    assert_eq!(result, mat, "k >= total should return original");
}

#[test]
fn test_sparse_dropout_k_zero() {
    let mat = sample_matrix();
    let result = sparse_dropout(&mat, 0);
    assert!(result.data.iter().all(|&t| t == Trit::Zero), "k=0 should zero everything");
}

#[test]
fn test_dropconnect_zeros_connections() {
    let weights = sample_matrix();
    let mut rng = TernaryRng::new(999);

    let dropped = dropconnect(&weights, rate(0.5), &mut rng);

    let zeros = dropped.data.iter().filter(|&&t| t == Trit::Zero).count();
    assert!(zeros > 4, "Expected significant number of zeros from dropconnect");
}

#[test]
fn test_mc_dropout_produces_variance() {
    let mat = sample_matrix();
    let mut rng = TernaryRng::new(42);

    let mc = monte_carlo_dropout(&mat, rate(0.5), 20, &mut rng);

    // Mean should have correct shape
    assert_eq!(mc.mean.rows, mat.rows);
    assert_eq!(mc.mean.cols, mat.cols);

    // Variance should have correct shape
    assert_eq!(mc.variance.rows, mat.rows);
    assert_eq!(mc.variance.cols, mat.cols);

    // With dropout 0.5, there should be some non-zero variance entries
    let var_nonzero = mc.variance.data.iter()
        .filter(|&&t| t != Trit::Zero)
        .count();
    assert!(var_nonzero > 0, "MC dropout should produce some variance");
}

#[test]
fn test_mc_dropout_no_drop_gives_original() {
    let mat = sample_matrix();
    let mut rng = TernaryRng::new(42);

    let mc = monte_carlo_dropout(&mat, rate(0.0), 10, &mut rng);

    // With no dropout, mean should match original
    assert_eq!(mc.mean, mat);

    // For originally zero elements, frac = 0.0 < 0.33 -> Zero
    for i in 0..mat.data.len() {
        if mat.data[i] == Trit::Zero {
            assert_eq!(mc.variance.data[i], Trit::Zero, "Zero elements should have zero variance");
        }
    }
}

#[test]
fn test_rng_reproducibility() {
    let mut rng1 = TernaryRng::new(12345);
    let mut rng2 = TernaryRng::new(12345);

    for _ in 0..100 {
        assert_eq!(rng1.next_u64(), rng2.next_u64());
    }
}

#[test]
fn test_trit_flip() {
    assert_eq!(Trit::One.flip(0), Trit::NegOne);
    assert_eq!(Trit::One.flip(1), Trit::Zero);
    assert_eq!(Trit::NegOne.flip(0), Trit::Zero);
    assert_eq!(Trit::NegOne.flip(1), Trit::One);
    assert_eq!(Trit::Zero.flip(0), Trit::NegOne);
    assert_eq!(Trit::Zero.flip(1), Trit::One);
}

#[test]
fn test_sparse_dropout_preserves_shape() {
    let mat = sample_matrix();
    let result = sparse_dropout(&mat, 3);
    assert_eq!(result.rows, mat.rows);
    assert_eq!(result.cols, mat.cols);
}

// ---------------------------------------------------------------------------
// Further cases
// ---------------------------------------------------------------------------

#[test]
fn trit_to_and_from_i8() {
    assert_eq!(Trit::NegOne.to_i8(), -1);
    assert_eq!(Trit::Zero.to_i8(), 0);
    assert_eq!(Trit::One.to_i8(), 1);
    assert_eq!(Trit::from_i8(-100), Trit::NegOne);
    assert_eq!(Trit::from_i8(-1), Trit::NegOne);
    assert_eq!(Trit::from_i8(0), Trit::Zero);
    assert_eq!(Trit::from_i8(7), Trit::One);
    assert_eq!(Trit::from_i8(i8::MIN), Trit::NegOne);
    assert_eq!(Trit::from_i8(i8::MAX), Trit::One);
    for t in [Trit::NegOne, Trit::Zero, Trit::One] {
        assert_eq!(Trit::from_i8(t.to_i8()), t);
    }
}

#[test]
fn trit_flip_uses_parity_and_always_changes() {
    for t in [Trit::NegOne, Trit::Zero, Trit::One] {
        assert_eq!(t.flip(2), t.flip(0));
        assert_eq!(t.flip(255), t.flip(1));
        assert_ne!(t.flip(0), t);
        assert_ne!(t.flip(1), t);
        assert_ne!(t.flip(0), t.flip(1));
    }
}

#[test]
fn trit_text() {
    assert_eq!(Trit::NegOne.to_text(), "-1");
    assert_eq!(Trit::Zero.to_text(), "0");
    assert_eq!(Trit::One.to_text(), "1");
}

#[test]
fn rng_exact_xorshift_values() {
    let mut rng = TernaryRng::new(42);
    assert_eq!(rng.next_u64(), 45454805674);
    assert_eq!(rng.next_u64(), 11532217803599905471);
    assert_eq!(rng.next_u64(), 10021416941527320954);
}

#[test]
fn rng_zero_seed_is_replaced() {
    let mut rng = TernaryRng::new(0);
    assert_eq!(rng.next_u64(), 2872271934144653387);
    let mut other = TernaryRng::new(0xDEAD_BEEF_CAFE_BABE);
    let mut again = TernaryRng::new(0);
    assert_eq!(again.next_u64(), other.next_u64());
}

#[test]
fn rng_derived_draws() {
    let mut a = TernaryRng::new(42);
    assert_eq!(a.next_u8(), 170);
    assert_eq!(a.next_fraction_bits(), 131775);
    // 122 % 3 == 2 gives +1
    assert_eq!(a.next_trit(), Trit::One);
    let mut b = TernaryRng::new(42);
    // 170 % 3 == 2 gives +1
    assert_eq!(b.next_trit(), Trit::One);
    assert_eq!(b.next_fraction_bits(), 131775);
}

#[test]
fn rng_clone_continues_identically() {
    let mut a = TernaryRng::new(7);
    a.next_u64();
    let mut b = a.clone();
    for _ in 0..10 {
        assert_eq!(a.next_u64(), b.next_u64());
    }
}

#[test]
fn matrix_zeros_get_set() {
    let mut m = TernaryMatrix::zeros(2, 3);
    assert_eq!(m.rows, 2);
    assert_eq!(m.cols, 3);
    assert_eq!(m.data.len(), 6);
    assert!(m.data.iter().all(|&t| t == Trit::Zero));
    m.set(1, 2, Trit::NegOne);
    assert_eq!(m.get(1, 2), Trit::NegOne);
    assert_eq!(m.data[5], Trit::NegOne);
    assert_eq!(m.get(0, 2), Trit::Zero);
    m.set(0, 1, Trit::One);
    assert_eq!(m.data[1], Trit::One);
    assert_eq!(m.get(1, 2), Trit::NegOne);
}

#[test]
fn matrix_get_reads_row_major() {
    let mat = sample_matrix();
    assert_eq!(mat.get(0, 0), Trit::One);
    assert_eq!(mat.get(1, 3), Trit::NegOne);
    assert_eq!(mat.get(2, 0), Trit::NegOne);
    assert_eq!(mat.get(2, 3), Trit::Zero);
}

#[test]
fn random_dropout_only_zeroes() {
    let mat = sample_matrix();
    let mut rng = TernaryRng::new(2024);
    let dropped = random_dropout(&mat, rate(0.7), &mut rng);
    for i in 0..mat.data.len() {
        assert!(dropped.data[i] == Trit::Zero || dropped.data[i] == mat.data[i]);
    }
    assert!(count_zeros(&dropped) >= count_zeros(&mat));
}

#[test]
fn random_dropout_draws_once_per_element() {
    let mat = sample_matrix();
    let mut rng = TernaryRng::new(5);
    let _ = random_dropout(&mat, rate(0.5), &mut rng);
    let mut reference = TernaryRng::new(5);
    for _ in 0..12 {
        reference.next_u64();
    }
    assert_eq!(rng.next_u64(), reference.next_u64());
}

#[test]
fn random_dropout_disabled_draws_nothing() {
    let mat = sample_matrix();
    let mut rng = TernaryRng::new(5);
    let _ = random_dropout(&mat, rate(0.0), &mut rng);
    let mut reference = TernaryRng::new(5);
    assert_eq!(rng.next_u64(), reference.next_u64());
}

#[test]
fn random_dropout_nan_rate_draws_but_keeps() {
    let mat = sample_matrix();
    let mut rng = TernaryRng::new(5);
    let dropped = random_dropout(&mat, rate(f64::NAN), &mut rng);
    assert_eq!(dropped, mat);
    let mut reference = TernaryRng::new(5);
    for _ in 0..12 {
        reference.next_u64();
    }
    assert_eq!(rng.next_u64(), reference.next_u64());
}

#[test]
fn random_dropout_follows_draws() {
    // Seed 42: the first three fractions are 1133226, 131775 and 1132922
    // (out of 2^21); a threshold of 1133000 drops the 2nd and 3rd elements.
    let mat = TernaryMatrix::from_flat(1, 3, vec![Trit::One, Trit::NegOne, Trit::One]);
    let mut rng = TernaryRng::new(42);
    let dropped = random_dropout(&mat, DropRate { enabled: true, threshold: 1133000 }, &mut rng);
    assert_eq!(dropped.data, vec![Trit::One, Trit::Zero, Trit::Zero]);
}

#[test]
fn same_seed_same_mask() {
    let mat = sample_matrix();
    let mut a = TernaryRng::new(31337);
    let mut b = TernaryRng::new(31337);
    assert_eq!(random_dropout(&mat, rate(0.4), &mut a), random_dropout(&mat, rate(0.4), &mut b));
    assert_eq!(structured_dropout(&mat, rate(0.4), true, &mut a), structured_dropout(&mat, rate(0.4), true, &mut b));
    assert_eq!(noise_injection(&mat, rate(0.4), &mut a), noise_injection(&mat, rate(0.4), &mut b));
}

#[test]
fn structured_dropout_zeroes_whole_rows_or_keeps_them() {
    let mat = sample_matrix();
    for seed in 1..20u64 {
        let mut rng = TernaryRng::new(seed);
        let d = structured_dropout(&mat, rate(0.5), true, &mut rng);
        for r in 0..mat.rows {
            let row_kept = (0..mat.cols).all(|c| d.get(r, c) == mat.get(r, c));
            let row_zero = (0..mat.cols).all(|c| d.get(r, c) == Trit::Zero);
            assert!(row_kept || row_zero);
        }
    }
}

#[test]
fn structured_dropout_full_rate_columns() {
    let mat = sample_matrix();
    let mut rng = TernaryRng::new(9);
    let d = structured_dropout(&mat, rate(1.0), false, &mut rng);
    assert!(d.data.iter().all(|&t| t == Trit::Zero));
    // one draw per column
    let mut reference = TernaryRng::new(9);
    for _ in 0..4 {
        reference.next_u64();
    }
    assert_eq!(rng.next_u64(), reference.next_u64());
}

#[test]
fn structured_dropout_zero_rate_still_draws() {
    let mat = sample_matrix();
    let mut rng = TernaryRng::new(9);
    let d = structured_dropout(&mat, rate(0.0), true, &mut rng);
    assert_eq!(d, mat);
    let mut reference = TernaryRng::new(9);
    for _ in 0..3 {
        reference.next_u64();
    }
    assert_eq!(rng.next_u64(), reference.next_u64());
}

#[test]
fn noise_injection_full_rate_changes_everything() {
    let mat = sample_matrix();
    let mut rng = TernaryRng::new(77);
    let noisy = noise_injection(&mat, rate(1.0), &mut rng);
    for i in 0..mat.data.len() {
        assert_ne!(noisy.data[i], mat.data[i]);
    }
    // two draws per element
    let mut reference = TernaryRng::new(77);
    for _ in 0..24 {
        reference.next_u64();
    }
    assert_eq!(rng.next_u64(), reference.next_u64());
}

#[test]
fn noise_injection_exact_flip() {
    // Seed 42: draw 1 has fraction 1133226 (hits a full rate), draw 2 has
    // low byte 191, odd, so +1 flips to 0.
    let mat = TernaryMatrix::from_flat(1, 1, vec![Trit::One]);
    let mut rng = TernaryRng::new(42);
    let noisy = noise_injection(&mat, rate(1.0), &mut rng);
    assert_eq!(noisy.data, vec![Trit::Zero]);
}

#[test]
fn sparse_dropout_exact_selection() {
    let mat = sample_matrix();
    let result = sparse_dropout(&mat, 4);
    assert_eq!(result.data, vec![
        Trit::One, Trit::NegOne, Trit::Zero, Trit::One,
        Trit::Zero, Trit::One, Trit::Zero, Trit::Zero,
        Trit::Zero, Trit::Zero, Trit::Zero, Trit::Zero,
    ]);
    // more budget than nonzero trits keeps them all
    let all = sparse_dropout(&mat, 11);
    assert_eq!(all.data, mat.data);
}

#[test]
fn sparse_dropout_k_equals_total() {
    let mat = sample_matrix();
    assert_eq!(sparse_dropout(&mat, 12), mat);
}

#[test]
fn mc_dropout_no_samples() {
    let mat = sample_matrix();
    let mut rng = TernaryRng::new(1);
    let mc = monte_carlo_dropout(&mat, rate(0.5), 0, &mut rng);
    assert!(mc.mean.data.iter().all(|&t| t == Trit::Zero));
    assert!(mc.variance.data.iter().all(|&t| t == Trit::NegOne));
}

#[test]
fn mc_dropout_no_drop_variance_exact() {
    let mat = sample_matrix();
    let mut rng = TernaryRng::new(1);
    let mc = monte_carlo_dropout(&mat, rate(0.0), 3, &mut rng);
    for i in 0..mat.data.len() {
        let expected = if mat.data[i] == Trit::Zero { Trit::Zero } else { Trit::NegOne };
        assert_eq!(mc.variance.data[i], expected);
    }
}

#[test]
fn mc_dropout_full_drop() {
    let mat = sample_matrix();
    let mut rng = TernaryRng::new(1);
    let mc = monte_carlo_dropout(&mat, rate(1.0), 5, &mut rng);
    assert!(mc.mean.data.iter().all(|&t| t == Trit::Zero));
    assert!(mc.variance.data.iter().all(|&t| t == Trit::Zero));
}

#[test]
fn mc_dropout_thresholds() {
    // One element, +1, kept in a chosen share of 100 passes: with a rate
    // that lets each pass keep it or not, the counts decide the trits.
    // Here every pass keeps it (rate 0 but enabled draws): mean +1, high.
    let mat = TernaryMatrix::from_flat(1, 1, vec![Trit::One]);
    let mut rng = TernaryRng::new(3);
    let mc = monte_carlo_dropout(&mat, DropRate { enabled: true, threshold: 0 }, 100, &mut rng);
    assert_eq!(mc.mean.data, vec![Trit::One]);
    assert_eq!(mc.variance.data, vec![Trit::NegOne]);
}

#[test]
fn structured_dropout_leaves_trits_past_the_matrix() {
    // A 1 by 2 matrix whose data carries a third trit: only the two cells
    // of the matrix take part.
    let mut m = TernaryMatrix::from_flat(1, 2, vec![Trit::One, Trit::NegOne]);
    m.data.push(Trit::One);
    let mut rng = TernaryRng::new(11);
    let d = structured_dropout(&m, rate(1.0), true, &mut rng);
    assert_eq!(d.data, vec![Trit::Zero, Trit::Zero, Trit::One]);
    let mut rng = TernaryRng::new(11);
    let d = structured_dropout(&m, rate(1.0), false, &mut rng);
    assert_eq!(d.data, vec![Trit::Zero, Trit::Zero, Trit::One]);
}

#[test]
fn drop_rate_constructors() {
    assert_eq!(DropRate::off(), DropRate { enabled: false, threshold: 0 });
    assert_eq!(DropRate::below(5), DropRate { enabled: true, threshold: 5 });
    assert_eq!(DropRate::below(u64::MAX), DropRate { enabled: true, threshold: 2097152 });
    assert_eq!(rate(0.5), DropRate::below(1048576));
    assert_eq!(rate(-0.0), DropRate::off());
    assert_eq!(rate(f64::NAN), DropRate::below(0));
}
