//! The linearised shuffle computes what the game's generator computes.
use vstd::prelude::*;
use crate::subtractive::{
    modulus, eval_pair, pair_minus, adjusted_minus, seeded, lemma_eval_carries, lemma_seeded_map,
    lemma_draws_map, lemma_draws_prefix, lemma_fill_table_len, lemma_mix_len, lemma_seeded_range,
    lemma_draws_range, fill_table, step, table_after, position_after, lemma_draws_index,
};
use crate::coefficients::{
    multiplier, offset, draw_table, draw_seq, zero_pairs, lemma_symbolic_draws, lemma_coefficient_links,
};
use crate::shuffle::{
    linear_shuffle, linear_targets, affine_draw, identity_order, lemma_identity_order, lemma_swaps_rearrange,
};
use crate::dotnet::{MSEED, dotnet_draws, dotnet_targets, dotnet_shuffle};

verus! {

/// `a * (MSEED - seed) + b` and `A * seed + B` agree modulo `2^31 - 1` when
/// `A = -a` and `B = a * MSEED + b` modulo `2^31 - 1`.
proof fn lemma_reparametrise(a: int, b: int, big_a: int, big_b: int, seed: int)
    requires
        big_a == (modulus() - a) % modulus(),
        big_b == (a * 161803398 + b) % modulus(),
    ensures
        eval_pair((a, b), 161803398 - seed) == (big_a * seed + big_b) % modulus(),
{
    let m = modulus();
    let s = 161803398 - seed;
    let lhs = (a * s + b) % m;
    let rhs = (big_a * seed + big_b) % m;
    assert(lhs == rhs) by (nonlinear_arith)
        requires
            m == 2147483647,
            s == 161803398 - seed,
            big_a == (m - a) % m,
            big_b == (a * 161803398 + b) % m,
            lhs == (a * s + b) % m,
            rhs == (big_a * seed + big_b) % m,
    {
        let q1 = (m - a) / m;
        let q2 = (a * 161803398 + b) / m;
        let ql = (a * s + b) / m;
        let qr = (big_a * seed + big_b) / m;
        assert(m - a == m * q1 + big_a);
        assert(a * 161803398 + b == m * q2 + big_b);
        assert(a * s + b == m * ql + lhs);
        assert(big_a * seed + big_b == m * qr + rhs);
        assert(0 <= lhs < m && 0 <= rhs < m);
        assert(big_a * seed + big_b == (m - a - m * q1) * seed + a * 161803398 + b - m * q2);
        assert(lhs - rhs == m * (q1 * seed + q2 - seed - ql + qr));
    }
}

/// Output `k` of a generator freshly seeded with `seed` (from 0 to `MSEED`) is
/// `(A[k] * seed + B[k]) mod (2^31 - 1)`, for each of the first 96 outputs.
pub proof fn lemma_draws_are_affine(n: nat, seed: int)
    requires
        n <= 96,
        0 <= seed <= MSEED,
    ensures
        dotnet_draws(n, seed).len() == n,
        forall|k: int| 0 <= k < n ==> #[trigger] dotnet_draws(n, seed)[k] == affine_draw(k, seed),
{
    let s = MSEED - seed;
    let f = |p: (int, int)| eval_pair(p, s);
    lemma_eval_carries(s);
    assert(zero_pairs().map_values(f) =~= Seq::new(56, |k: int| 0int));
    assert(f((1int, 0int)) == s);
    assert(f((0int, 1int)) == 1);
    lemma_seeded_map(zero_pairs(), (1int, 0int), (0int, 1int), pair_minus(), adjusted_minus(), f);
    let symbolic = seeded(zero_pairs(), (1int, 0int), (0int, 1int), pair_minus());
    lemma_fill_table_len(zero_pairs().update(55, (1int, 0int)), 0, (0int, 1int), (1int, 0int), 54, pair_minus());
    lemma_mix_len(
        fill_table(zero_pairs().update(55, (1int, 0int)), 0, (0int, 1int), (1int, 0int), 54, pair_minus()),
        4,
        pair_minus(),
    );
    lemma_draws_map(symbolic, 0, n, pair_minus(), adjusted_minus(), f);
    lemma_draws_prefix(symbolic, 0, n, 96, pair_minus());
    lemma_symbolic_draws();
    lemma_coefficient_links();
    assert(dotnet_draws(n, seed) == draw_seq().take(n as int).map_values(f));
    assert forall|k: int| 0 <= k < n implies #[trigger] dotnet_draws(n, seed)[k] == affine_draw(k, seed) by {
        let (a, b) = draw_table(k);
        lemma_reparametrise(a, b, multiplier(k), offset(k), seed);
    }
}

/// The linearised shuffle equals the game's generator's shuffle: for every seed
/// from 0 to `MSEED` and every rush of at most 96 levels, both give the same order.
pub proof fn lemma_linear_matches_dotnet(n: nat, seed: int)
    requires
        n <= 96,
        0 <= seed <= MSEED,
    ensures
        linear_shuffle(n, seed) == dotnet_shuffle(n, seed),
{
    lemma_draws_are_affine(n, seed);
    assert(linear_targets(n, seed) =~= dotnet_targets(n, seed));
}

/// For a seed above `MSEED - i32::MAX`, no output of the freshly seeded
/// generator reaches `2^31 - 1`.
pub proof fn lemma_draws_below_modulus(n: nat, seed: int)
    requires
        MSEED - i32::MAX < seed <= MSEED,
    ensures
        dotnet_draws(n, seed).len() == n,
        forall|k: int| 0 <= k < n ==> 0 <= #[trigger] dotnet_draws(n, seed)[k] < modulus(),
{
    let init = Seq::new(56, |k: int| 0int);
    lemma_seeded_range(init, MSEED - seed, modulus() - 1);
    lemma_draws_range(seeded(init, MSEED - seed, 1, adjusted_minus()), 0, n, modulus() - 1);
}

/// The `n`-th output of the generator is affine in the seed: after
/// `with_seed(seed)` (from 0 to `MSEED`) and `n` calls of `next`, the table and
/// position are those after `n` steps, and the next call returns
/// `(A[n] * seed + B[n]) mod (2^31 - 1)`, for each `n` below 96.
pub proof fn lemma_nth_output(n: nat, seed: int)
    requires
        n < 96,
        0 <= seed <= MSEED,
    ensures
        step(
            table_after(seeded(Seq::new(56, |k: int| 0int), MSEED - seed, 1, adjusted_minus()), 0, n, adjusted_minus()),
            position_after(0, n),
            adjusted_minus(),
        ).2 == affine_draw(n as int, seed),
{
    let start = seeded(Seq::new(56, |k: int| 0int), MSEED - seed, 1, adjusted_minus());
    lemma_draws_index(start, 0, n + 1, n, adjusted_minus());
    lemma_draws_are_affine(n + 1, seed);
}

/// The game's shuffle rearranges the levels: for a rush of fewer than 256
/// levels and a seed above `MSEED - i32::MAX`, the order holds each of `0..n`
/// exactly once.
pub proof fn lemma_dotnet_shuffle_rearranges(n: nat, seed: int)
    requires
        n < 256,
        MSEED - i32::MAX < seed <= MSEED,
    ensures
        dotnet_shuffle(n, seed).len() == n,
        dotnet_shuffle(n, seed).no_duplicates(),
        forall|x: u8| #[trigger] dotnet_shuffle(n, seed).contains(x) <==> x < n,
{
    lemma_draws_below_modulus(n, seed);
    let targets = dotnet_targets(n, seed);
    assert forall|k: int| 0 <= k < targets.len() implies 0 <= #[trigger] targets[k] < n by {
        let v = dotnet_draws(n, seed)[k];
        assert(0 <= v * (n as int) / modulus() < n) by (nonlinear_arith)
            requires 0 <= v < 2147483647, n > 0, modulus() == 2147483647;
    }
    lemma_identity_order(n);
    lemma_swaps_rearrange(identity_order(n), targets);
}

} // verus!
