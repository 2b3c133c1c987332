//! The game's random number generator (the .NET `System.Random` subtractive
//! generator), computed step by step.  It is the reference that the
//! linearised shuffle of [`crate::shuffle`] reproduces.
use vstd::prelude::*;
use crate::subtractive::{
    modulus, sub_adjust, adjusted_minus, fill_table, mix_pass, mix, seeded, step, draws, table_after,
    position_after, lemma_fill_slot_step, lemma_draws_index, lemma_table_after_step,
    lemma_sub_adjust_range, lemma_seeded_range, within, lemma_seeded_reads_slot0, lemma_fill_table_len,
    lemma_mix_len, lag_index,
};
use crate::shuffle::{identity_order, apply_swaps, scaled_index};

verus! {

broadcast use vstd::array::group_array_axioms;

/// The fixed seed constant that the generator subtracts the seed from.
pub const MSEED: i32 = 161803398;

/// The generator: a table of 56 entries (entry 0 unused) and the current position.
pub struct DotnetRandom {
    state: [i32; 56],
    i: usize,
}

/// `v * w / (2^31 - 1)`, rounded toward zero, for a width `w` of either sign.
pub open spec fn scaled_signed(v: int, w: int) -> int {
    if w >= 0 {
        v * w / modulus()
    } else {
        -((v * (-w)) / modulus())
    }
}

/// The first `n` outputs of a generator freshly seeded with `seed`.
pub open spec fn dotnet_draws(n: nat, seed: int) -> Seq<int> {
    draws(seeded(Seq::new(56, |k: int| 0int), MSEED - seed, 1, adjusted_minus()), 0, n, adjusted_minus())
}

/// The exchange targets of the reference shuffle: output `k` scaled to `0..n`.
pub open spec fn dotnet_targets(n: nat, seed: int) -> Seq<int> {
    Seq::new(n, |k: int| scaled_index(dotnet_draws(n, seed)[k], n as int))
}

/// The rush order for `seed` as the reference shuffle computes it.
pub open spec fn dotnet_shuffle(n: nat, seed: int) -> Seq<u8> {
    apply_swaps(identity_order(n), dotnet_targets(n, seed))
}

/// The seeds with `MSEED - seed` in `0..=i32::MAX`: the table then starts
/// with entries in `0..=i32::MAX`, and the seeding arithmetic stays within
/// `i32` (below `MSEED - i32::MAX` the first subtraction overflows).
pub open spec fn seed_in_range(seed: int) -> bool {
    MSEED - i32::MAX <= seed <= MSEED
}

/// Entries 1 to 55 of a table (the ones that outputs read) are below `2^31 - 1`.
pub open spec fn below_modulus(t: Seq<int>) -> bool {
    forall|k: int| 1 <= k < 56 ==> #[trigger] t[k] < modulus()
}

/// A table of 56 entries, each in `0..=i32::MAX`: what every generator holds.
pub open spec fn table_in_range(t: Seq<int>) -> bool {
    &&& t.len() == 56
    &&& forall|k: int| 0 <= k < 56 ==> 0 <= #[trigger] t[k] <= i32::MAX
}

impl DotnetRandom {
    /// The table, entry by entry.
    pub closed spec fn table(&self) -> Seq<int> {
        self.state@.map_values(|x: i32| x as int)
    }

    /// The current position in `0..=55`.
    pub closed spec fn position(&self) -> int {
        self.i as int
    }

    /// The position is at most 55 and every entry lies in `0..=i32::MAX`.
    #[verifier::type_invariant]
    spec fn well_formed(&self) -> bool {
        &&& self.i <= 55
        &&& forall|k: int| 0 <= k < 56 ==> 0 <= #[trigger] self.state@[k] <= i32::MAX
    }

    /// A generator seeded with `seed`.
    pub fn with_seed(seed: i32) -> (r: Self)
        requires
            seed_in_range(seed as int),
        ensures
            r.table() == seeded(Seq::new(56, |k: int| 0int), MSEED - seed, 1, adjusted_minus()),
            r.position() == 0,
            table_in_range(r.table()),
    {
        let mut res = Self::default();
        assert(res.table() =~= Seq::new(56, |k: int| 0int));
        res.set_seed(seed);
        res
    }

    /// Reseeds the table with `seed`; the position is kept.
    pub fn set_seed(&mut self, seed: i32)
        requires
            seed_in_range(seed as int),
        ensures
            final(self).table() == seeded(old(self).table(), MSEED - seed, 1, adjusted_minus()),
            final(self).position() == old(self).position(),
            table_in_range(old(self).table()),
            table_in_range(final(self).table()),
    {
        proof {
            use_type_invariant(&*self);
        }
        let ghost m = modulus();
        let mut st = self.state;
        let ghost init = st@.map_values(|x: i32| x as int);
        assert(init == old(self).table());
        let mut seed = MSEED - seed;
        let ghost s = seed as int;
        st[55] = seed;
        let ghost st0 = st@.map_values(|x: i32| x as int);
        assert(st0 =~= init.update(55, s));
        let mut num3: i32 = 1;
        let mut index: usize = 0;
        let ghost mut k: int = 0;
        while index != 34
            invariant
                0 <= k <= 54,
                index == (21 * k) % 55,
                0 <= num3 <= i32::MAX,
                0 <= seed <= i32::MAX,
                m == modulus(),
                forall|j: int| 0 <= j < 56 ==> 0 <= #[trigger] st@[j] <= i32::MAX,
                fill_table(st@.map_values(|x: i32| x as int), index as int, num3 as int, seed as int, (54 - k) as nat, adjusted_minus())
                    == fill_table(st0, 0, 1, s, 54, adjusted_minus()),
            decreases 54 - k,
        {
            proof {
                if k == 54 {
                    lemma_fill_slot_step(54, 34);
                }
            }
            let ghost before = st@.map_values(|x: i32| x as int);
            let ghost old_index = index as int;
            index = (index + 21) % 55;
            st[index] = num3;
            let diff = seed - num3;
            let next3 = if diff < 0 { diff + i32::MAX } else { diff };
            assert(next3 as int == sub_adjust(seed as int, num3 as int));
            proof {
                assert(st@.map_values(|x: i32| x as int) =~= before.update(index as int, num3 as int));
                assert(index == (21 * (k + 1)) % 55) by (nonlinear_arith)
                    requires index == ((21 * k) % 55 + 21) % 55, 0 <= k;
                assert((adjusted_minus())(seed as int, num3 as int) == sub_adjust(seed as int, num3 as int));
            }
            seed = num3;
            num3 = next3;
            proof {
                k = k + 1;
            }
        }
        proof {
            if 1 <= k {
                lemma_fill_slot_step(k, 34);
            }
        }
        let ghost filled_view = st@.map_values(|x: i32| x as int);
        assert(filled_view == fill_table(st0, 0, 1, s, 54, adjusted_minus()));
        let mut pass: usize = 0;
        while pass < 4
            invariant
                pass <= 4,
                forall|j: int| 0 <= j < 56 ==> 0 <= #[trigger] st@[j] <= i32::MAX,
                mix(st@.map_values(|x: i32| x as int), (4 - pass) as nat, adjusted_minus())
                    == mix(filled_view, 4, adjusted_minus()),
            decreases 4 - pass,
        {
            let ghost pass_start = st@.map_values(|x: i32| x as int);
            let mut k: usize = 0;
            while k < 55
                invariant
                    k <= 55,
                    forall|j: int| 0 <= j < 56 ==> 0 <= #[trigger] st@[j] <= i32::MAX,
                    mix_pass(st@.map_values(|x: i32| x as int), k as nat, adjusted_minus())
                        == mix_pass(pass_start, 0, adjusted_minus()),
                decreases 55 - k,
            {
                let ghost before = st@.map_values(|x: i32| x as int);
                let acc = st[k + 1] - st[(k + 31) % 55 + 1];
                let v = if acc < 0 { acc + i32::MAX } else { acc };
                assert(v as int == sub_adjust(before[k + 1], before[(k + 31) % 55 + 1]));
                st[k + 1] = v;
                proof {
                    assert(st@.map_values(|x: i32| x as int) =~= before.update(k + 1, v as int));
                    assert((adjusted_minus())(before[k + 1], before[(k + 31) % 55 + 1]) == v as int);
                }
                k = k + 1;
            }
            proof {
                assert(mix(pass_start, (4 - pass) as nat, adjusted_minus())
                    == mix(mix_pass(pass_start, 0, adjusted_minus()), (4 - pass - 1) as nat, adjusted_minus()));
            }
            pass = pass + 1;
        }
        self.state = st;
        assert(self.table() =~= st@.map_values(|x: i32| x as int));
    }

    /// The next output: the entry at the next position, minus the entry 21
    /// places ahead, lifted by `2^31 - 1` when negative, is stored and returned.
    pub fn next(&mut self) -> (r: i32)
        ensures
            final(self).table() == step(old(self).table(), old(self).position(), adjusted_minus()).0,
            final(self).position() == step(old(self).table(), old(self).position(), adjusted_minus()).1,
            r as int == step(old(self).table(), old(self).position(), adjusted_minus()).2,
            0 <= r <= i32::MAX,
            below_modulus(old(self).table()) ==> below_modulus(final(self).table()) && r < modulus(),
            table_in_range(old(self).table()),
            table_in_range(final(self).table()),
            0 <= old(self).position() <= 55,
    {
        proof {
            use_type_invariant(&*self);
        }
        let ghost before = self.table();
        let i1 = (if self.i + 21 >= 55 { self.i + 21 - 55 } else { self.i + 21 }) + 1;
        let ni = if self.i == 55 { 1 } else { self.i + 1 };
        let mut st = self.state;
        let mut num3 = st[ni] - st[i1];
        if num3 < 0 {
            num3 += i32::MAX;
        }
        st[ni] = num3;
        proof {
            assert((adjusted_minus())(before[ni as int], before[i1 as int]) == num3 as int);
            if below_modulus(before) {
                lemma_sub_adjust_range(before[ni as int], before[i1 as int], modulus() - 1);
            }
        }
        self.state = st;
        self.i = ni;
        assert(self.table() =~= before.update(ni as int, num3 as int));
        num3
    }

    /// The next output `v` scaled to the range from `min` to `max`.
    ///
    /// The game computes `v / (2^31 - 1)` times the width `max - min` in double
    /// precision and truncates it toward zero.  Here the quotient is computed
    /// exactly, `v * (max - min) / (2^31 - 1)` rounded toward zero.  The two
    /// roundings of the double computation are each within a relative `2^-53`,
    /// so for a width of at most `2^20` its product is off by less than
    /// `2^-32`, while the exact quotient is either an integer (only for
    /// `v == 0`) or at least `1 / (2^31 - 1)` away from one: truncation then
    /// gives the same integer, and the value is stated for those widths.  A
    /// wider range can round across an integer in double precision (a width of
    /// `2^31 - 1` gives back `v - 1` for some `v`), so for it only the range
    /// of the result is stated: from `min` up to but not including `max`.
    pub fn next_range(&mut self, min: i32, max: i32) -> (r: i32)
        requires
            i32::MIN <= max - min <= i32::MAX,
        ensures
            final(self).table() == step(old(self).table(), old(self).position(), adjusted_minus()).0,
            final(self).position() == step(old(self).table(), old(self).position(), adjusted_minus()).1,
            table_in_range(old(self).table()),
            table_in_range(final(self).table()),
            0 <= step(old(self).table(), old(self).position(), adjusted_minus()).2 <= i32::MAX,
            -0x10_0000 <= max - min <= 0x10_0000
                ==> r == min + scaled_signed(step(old(self).table(), old(self).position(), adjusted_minus()).2, max - min),
            min == max ==> r == min,
            below_modulus(old(self).table()) && min < max ==> min <= r < max,
            below_modulus(old(self).table()) && max < min ==> max < r <= min,
            below_modulus(old(self).table()) ==> below_modulus(final(self).table()),
    {
        let v = self.next();
        let w: i64 = (max as i64) - (min as i64);
        let t: i64 = if w >= 0 {
            assert((v as i64) * w <= 2147483647 * 2147483647) by (nonlinear_arith)
                requires 0 <= v <= 2147483647, 0 <= w <= 2147483647;
            assert((v as i64) * w / 2147483647 <= w) by (nonlinear_arith)
                requires 0 <= v <= 2147483647, 0 <= w;
            proof {
                if below_modulus(old(self).table()) && min < max {
                    assert((v as i64) * w / 2147483647 < w) by (nonlinear_arith)
                        requires 0 <= v < 2147483647, 0 < w;
                }
            }
            (v as i64) * w / 2147483647
        } else {
            assert((v as i64) * (-w) <= 2147483647 * 2147483648) by (nonlinear_arith)
                requires 0 <= v <= 2147483647, 0 < -w <= 2147483648;
            assert((v as i64) * (-w) / 2147483647 <= -w) by (nonlinear_arith)
                requires 0 <= v <= 2147483647, 0 < -w;
            proof {
                if below_modulus(old(self).table()) {
                    assert((v as i64) * (-w) / 2147483647 < -w) by (nonlinear_arith)
                        requires 0 <= v < 2147483647, 0 < -w;
                }
            }
            -((v as i64) * (-w) / 2147483647)
        };
        (t + (min as i64)) as i32
    }

    /// Fills `out` with the order of a rush of `num_levels` levels for `seed`,
    /// drawing every exchange target from a generator seeded with `seed`.
    ///
    /// At the one seed `MSEED - i32::MAX` the table can hold `2^31 - 1`, an
    /// output can then reach it, and the exchange target would be `num_levels`
    /// itself, past the end of the order; that seed and every seed below it
    /// (where seeding overflows) are left out.
    pub fn get_shuffled_idxs(num_levels: usize, seed: i32, out: &mut Vec<u8>)
        requires
            num_levels < 256,
            MSEED - i32::MAX < seed <= MSEED,
        ensures
            final(out)@ == dotnet_shuffle(num_levels as nat, seed as int),
    {
        out.clear();
        let mut k: usize = 0;
        while k < num_levels
            invariant
                k <= num_levels < 256,
                out@ == identity_order(k as nat),
            decreases num_levels - k,
        {
            out.push(k as u8);
            k = k + 1;
            assert(out@ =~= identity_order(k as nat));
        }
        let ghost n = num_levels as nat;
        let mut random = DotnetRandom::with_seed(seed);
        let ghost start = random.table();
        proof {
            let init = Seq::new(56, |k: int| 0int);
            assert(within(init, modulus() - 1));
            lemma_seeded_range(init, MSEED - seed, modulus() - 1);
        }
        let ghost targets = dotnet_targets(n, seed as int);
        let mut i: usize = 0;
        while i < num_levels
            invariant
                n == num_levels as nat,
                num_levels < 256,
                i <= num_levels,
                targets == dotnet_targets(n, seed as int),
                start == seeded(Seq::new(56, |k: int| 0int), MSEED - seed, 1, adjusted_minus()),
                below_modulus(random.table()),
                random.table() == table_after(start, 0, i as nat, adjusted_minus()),
                random.position() == position_after(0, i as nat),
                out@ == apply_swaps(identity_order(n), targets.take(i as int)),
                out@.len() == num_levels,
            decreases num_levels - i,
        {
            proof {
                lemma_draws_index(start, 0, n, i as nat, adjusted_minus());
                lemma_table_after_step(start, 0, i as nat, adjusted_minus());
            }
            let ghost v = step(random.table(), random.position(), adjusted_minus()).2;
            assert(v == dotnet_draws(n, seed as int)[i as int]);
            let r = random.next_range(0, num_levels as i32);
            let j = r as usize;
            assert(j == targets[i as int]);
            let x = out[i];
            let y = out[j];
            out.set(i, y);
            out.set(j, x);
            proof {
                assert(targets.take(i + 1).drop_last() =~= targets.take(i as int));
                assert(targets.take(i + 1).last() == targets[i as int]);
            }
            i = i + 1;
        }
        assert(targets.take(num_levels as int) =~= targets);
    }
}

/// Seeding forgets the old table: `set_seed` reads nothing of it but the
/// unused slot 0, which it keeps.  So two generators that agree in slot 0 (as
/// every generator made by `default` or `with_seed` does) hold the same table
/// after `set_seed(seed)`, and seeding again with the same seed changes nothing.
pub proof fn lemma_set_seed_forgets(r1: DotnetRandom, r2: DotnetRandom, seed: int)
    requires
        r1.table()[0] == r2.table()[0],
    ensures
        seeded(r1.table(), MSEED - seed, 1, adjusted_minus()) == seeded(r2.table(), MSEED - seed, 1, adjusted_minus()),
        seeded(seeded(r1.table(), MSEED - seed, 1, adjusted_minus()), MSEED - seed, 1, adjusted_minus())
            == seeded(r1.table(), MSEED - seed, 1, adjusted_minus()),
{
    let s = MSEED - seed;
    lemma_seeded_reads_slot0(r1.table(), r2.table(), s, 1, adjusted_minus());
    lemma_fill_table_len(r1.table().update(55, s), 0, 1, s, 54, adjusted_minus());
    lemma_mix_len(fill_table(r1.table().update(55, s), 0, 1, s, 54, adjusted_minus()), 4, adjusted_minus());
    lemma_seeded_reads_slot0(seeded(r1.table(), s, 1, adjusted_minus()), r1.table(), s, 1, adjusted_minus());
}

/// One call of `next`, entry by entry.  From position `i` the generator moves
/// to `j`, the next position (after 55 comes 1 again); the output is entry `j`
/// minus entry `(j + 20) % 55 + 1`, modulo `2^31 - 1`; it is stored in entry
/// `j`, and every other entry stays.  When entries 1 to 55 are below
/// `2^31 - 1`, so is the output, and so are the entries afterwards.
pub proof fn lemma_next_entries(t: Seq<int>, i: int)
    requires
        table_in_range(t),
        0 <= i <= 55,
        below_modulus(t),
    ensures
        ({
            let (t2, j, r) = step(t, i, adjusted_minus());
            &&& j == if i == 55 { 1 } else { i + 1 }
            &&& r == (t[j] - t[(j + 20) % 55 + 1]) % modulus()
            &&& 0 <= r < modulus()
            &&& t2.len() == 56
            &&& t2[j] == r
            &&& forall|k: int| 0 <= k < 56 && k != j ==> #[trigger] t2[k] == t[k]
            &&& table_in_range(t2)
            &&& below_modulus(t2)
        }),
{
    let (t2, j, r) = step(t, i, adjusted_minus());
    let l = (j + 20) % 55 + 1;
    assert(l == lag_index(i));
    assert(1 <= j <= 55);
    assert(1 <= l <= 55);
    lemma_sub_adjust_range(t[j], t[l], modulus() - 1);
    let d = t[j] - t[l];
    if d < 0 {
        assert(d % modulus() == d + modulus()) by (nonlinear_arith)
            requires -2147483647 < d < 0, modulus() == 2147483647;
    } else {
        assert(d % modulus() == d) by (nonlinear_arith)
            requires 0 <= d < 2147483647, modulus() == 2147483647;
    }
}

impl Default for DotnetRandom {
    /// An unseeded generator: every entry 0, position 0.
    fn default() -> (r: Self)
        ensures
            r.table() == Seq::new(56, |k: int| 0int),
            r.position() == 0,
            table_in_range(r.table()),
    {
        let r = DotnetRandom { state: [0i32; 56], i: 0 };
        assert(r.table() =~= Seq::new(56, |k: int| 0int));
        r
    }
}

} // verus!
