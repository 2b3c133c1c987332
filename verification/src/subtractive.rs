//! The subtractive generator that seeds and drives the rush shuffle, as a
//! mathematical model over any value domain.
//!
//! The model is written once, generic in the type of the table entries and in
//! the subtraction that combines them.  With `int` entries and
//! [`adjusted_minus`] it is exactly what the executable generator computes;
//! with `(int, int)` entries and [`pair_minus`] it tracks every entry as an
//! affine function `a * s + b` of the seed value `s`, modulo `2^31 - 1`.
use vstd::prelude::*;

verus! {

/// The modulus of the generator, `2^31 - 1` (`i32::MAX`).
pub open spec fn modulus() -> int {
    2147483647
}

/// The generator's subtraction: a negative difference is lifted by the modulus once.
pub open spec fn sub_adjust(x: int, y: int) -> int {
    if x - y < 0 {
        x - y + modulus()
    } else {
        x - y
    }
}

/// [`sub_adjust`] as a value, the combining step of the integer model.
pub open spec fn adjusted_minus() -> spec_fn(int, int) -> int {
    |x: int, y: int| sub_adjust(x, y)
}

/// Difference of two affine forms `(a, b)` (standing for `a * s + b`), reduced modulo the modulus.
pub open spec fn sub_pair(p: (int, int), q: (int, int)) -> (int, int) {
    ((p.0 - q.0) % modulus(), (p.1 - q.1) % modulus())
}

/// [`sub_pair`] as a value, the combining step of the symbolic model.
pub open spec fn pair_minus() -> spec_fn((int, int), (int, int)) -> (int, int) {
    |p: (int, int), q: (int, int)| sub_pair(p, q)
}

/// The value of the affine form `p` at seed value `s`, reduced modulo the modulus.
pub open spec fn eval_pair(p: (int, int), s: int) -> int {
    (p.0 * s + p.1) % modulus()
}

/// The first seeding loop: `fuel` more entries are written, each at the slot 21
/// places after the previous one (modulo 55), with values that follow
/// `num3' = seed - num3`, `seed' = num3`.
pub open spec fn fill_table<T>(
    st: Seq<T>,
    index: int,
    num3: T,
    seed: T,
    fuel: nat,
    minus: spec_fn(T, T) -> T,
) -> Seq<T>
    decreases fuel,
{
    if fuel == 0 {
        st
    } else {
        let idx = (index + 21) % 55;
        fill_table(st.update(idx, num3), idx, minus(seed, num3), num3, (fuel - 1) as nat, minus)
    }
}

/// One mixing pass, from slot `k + 1` on: every slot `k + 1` in `1..=55` is
/// replaced by itself minus slot `(k + 31) % 55 + 1`.
pub open spec fn mix_pass<T>(st: Seq<T>, k: nat, minus: spec_fn(T, T) -> T) -> Seq<T>
    decreases 55 - k,
{
    if k >= 55 {
        st
    } else {
        mix_pass(
            st.update(k + 1int, minus(st[k + 1int], st[(k + 31int) % 55 + 1])),
            k + 1,
            minus,
        )
    }
}

/// `passes` mixing passes.
pub open spec fn mix<T>(st: Seq<T>, passes: nat, minus: spec_fn(T, T) -> T) -> Seq<T>
    decreases passes,
{
    if passes == 0 {
        st
    } else {
        mix(mix_pass(st, 0, minus), (passes - 1) as nat, minus)
    }
}

/// The table after seeding with seed value `s` (slot 55 gets `s`, the chain starts at `one`).
pub open spec fn seeded<T>(init: Seq<T>, s: T, one: T, minus: spec_fn(T, T) -> T) -> Seq<T> {
    mix(fill_table(init.update(55, s), 0, one, s, 54, minus), 4, minus)
}

/// The slot that the next output overwrites, from the current position `i`.
pub open spec fn next_index(i: int) -> int {
    if i == 55 {
        1
    } else {
        i + 1
    }
}

/// The slot 21 places ahead of position `i`, whose value is subtracted.
pub open spec fn lag_index(i: int) -> int {
    (if i + 21 >= 55 {
        i + 21 - 55
    } else {
        i + 21
    }) + 1
}

/// One output step from table `st` at position `i`: the new table, the new position and the output.
pub open spec fn step<T>(st: Seq<T>, i: int, minus: spec_fn(T, T) -> T) -> (Seq<T>, int, T) {
    let ni = next_index(i);
    let v = minus(st[ni], st[lag_index(i)]);
    (st.update(ni, v), ni, v)
}

/// The table after `n` output steps.
pub open spec fn table_after<T>(st: Seq<T>, i: int, n: nat, minus: spec_fn(T, T) -> T) -> Seq<T>
    decreases n,
{
    if n == 0 {
        st
    } else {
        let (st2, i2, _v) = step(st, i, minus);
        table_after(st2, i2, (n - 1) as nat, minus)
    }
}

/// The position after `n` output steps.
pub open spec fn position_after(i: int, n: nat) -> int
    decreases n,
{
    if n == 0 {
        i
    } else {
        position_after(next_index(i), (n - 1) as nat)
    }
}

/// The first `n` outputs from table `st` at position `i`.
pub open spec fn draws<T>(st: Seq<T>, i: int, n: nat, minus: spec_fn(T, T) -> T) -> Seq<T>
    decreases n,
{
    if n == 0 {
        Seq::empty()
    } else {
        let (st2, i2, v) = step(st, i, minus);
        seq![v] + draws(st2, i2, (n - 1) as nat, minus)
    }
}


// ---------------------------------------------------------------------------
// Characterisations of the three phases by the values they produce
// ---------------------------------------------------------------------------

/// 21 is its own inverse modulo 55: the fill visits slot `j` at step `21 * j % 55`.
pub proof fn lemma_fill_slot_step(j: int, u: int)
    requires
        1 <= j <= 54,
        1 <= u <= 54,
    ensures
        ((21 * j) % 55 == u) <==> ((21 * u) % 55 == j),
{
    assert(((21 * j) % 55 == u) ==> ((21 * u) % 55 == j)) by (nonlinear_arith)
        requires 1 <= j <= 54, 1 <= u <= 54,
    {
        if (21 * j) % 55 == u {
            let q = (21 * j) / 55;
            assert(21 * j == 55 * q + u);
            assert(21 * u == 441 * j - 1155 * q);
            assert(21 * u == 55 * (8 * j - 21 * q) + j);
        }
    }
    assert(((21 * u) % 55 == j) ==> ((21 * j) % 55 == u)) by (nonlinear_arith)
        requires 1 <= j <= 54, 1 <= u <= 54,
    {
        if (21 * u) % 55 == j {
            let q = (21 * u) / 55;
            assert(21 * u == 55 * q + j);
            assert(21 * j == 441 * u - 1155 * q);
            assert(21 * j == 55 * (8 * u - 21 * q) + u);
        }
    }
}

/// The slot written at fill step `u` (in `1..=54`) is in `1..=54`.
pub proof fn lemma_fill_slot_range(u: int)
    requires
        1 <= u <= 54,
    ensures
        1 <= (21 * u) % 55 <= 54,
        (21 * ((21 * u) % 55)) % 55 == u,
{
    assert(1 <= (21 * u) % 55 <= 54 && (21 * ((21 * u) % 55)) % 55 == u) by (nonlinear_arith)
        requires 1 <= u <= 54,
    {
        let q = (21 * u) / 55;
        let j = (21 * u) % 55;
        assert(21 * u == 55 * q + j);
        assert(21 * j == 441 * u - 1155 * q);
        assert(21 * j == 55 * (8 * u - 21 * q) + u);
        if j == 0 {
            assert(21 * j == 0);
        }
    }
}

/// The values of the fill chain obey `chain(t) = chain(t - 2) - chain(t - 1)` up to step 54.
pub open spec fn chain_follows<T>(chain: spec_fn(int) -> T, minus: spec_fn(T, T) -> T) -> bool {
    forall|t: int| 2 <= t <= 54 ==> #[trigger] chain(t) == minus(chain(t - 2), chain(t - 1))
}

/// The table after the fill: slot `j` in `1..=54` holds the chain value of the step that visits it.
pub open spec fn filled<T>(st: Seq<T>, chain: spec_fn(int) -> T) -> Seq<T> {
    Seq::new(56, |j: int| if 1 <= j <= 54 { chain((21 * j) % 55) } else { st[j] })
}

/// From fill step `t` on, the fill ends in [`filled`].
proof fn lemma_fill_from<T>(
    st: Seq<T>,
    chain: spec_fn(int) -> T,
    cur: Seq<T>,
    t: int,
    num3: T,
    minus: spec_fn(T, T) -> T,
)
    requires
        st.len() == 56,
        chain_follows(chain, minus),
        0 <= t <= 54,
        t < 54 ==> num3 == chain(t + 1),
        cur.len() == 56,
        forall|j: int|
            0 <= j < 56 ==> #[trigger] cur[j] == if 1 <= j <= 54 && 1 <= (21 * j) % 55 <= t {
                chain((21 * j) % 55)
            } else {
                st[j]
            },
    ensures
        fill_table(cur, (21 * t) % 55, num3, chain(t), (54 - t) as nat, minus) == filled(st, chain),
    decreases 54 - t,
{
    if t == 54 {
        assert forall|j: int| 0 <= j < 56 implies #[trigger] cur[j] == filled(st, chain)[j] by {
            if 1 <= j <= 54 {
                assert(1 <= (21 * j) % 55 <= 54) by {
                    let u = (21 * j) % 55;
                    assert(u != 0) by (nonlinear_arith)
                        requires 1 <= j <= 54, u == (21 * j) % 55,
                    {
                        if u == 0 {
                            let q = (21 * j) / 55;
                            assert(21 * j == 55 * q);
                            assert(441 * j == 55 * 21 * q);
                            assert(j == 55 * (21 * q - 8 * j));
                        }
                    }
                }
            }
        }
        assert(cur =~= filled(st, chain));
    } else {
        let idx = ((21 * t) % 55 + 21) % 55;
        assert(idx == (21 * (t + 1)) % 55) by (nonlinear_arith)
            requires idx == ((21 * t) % 55 + 21) % 55, 0 <= t,
        {
            let q = (21 * t) / 55;
            assert(21 * t == 55 * q + (21 * t) % 55);
            assert(21 * (t + 1) == 55 * q + ((21 * t) % 55 + 21));
        }
        lemma_fill_slot_range(t + 1);
        let next = cur.update(idx, num3);
        assert forall|j: int|
            0 <= j < 56 implies #[trigger] next[j] == if 1 <= j <= 54 && 1 <= (21 * j) % 55 <= t + 1 {
                chain((21 * j) % 55)
            } else {
                st[j]
            } by {
            if 1 <= j <= 54 {
                lemma_fill_slot_step(j, t + 1);
            }
            if j == idx {
                assert((21 * j) % 55 == t + 1);
            }
        }
        if t + 1 < 54 {
            assert(chain(t + 2) == minus(chain(t), chain(t + 1)));
        }
        lemma_fill_from(st, chain, next, t + 1, minus(chain(t), num3), minus);
    }
}

/// The fill phase writes the chain values, each at the slot that its step visits.
pub proof fn lemma_fill_table<T>(st: Seq<T>, chain: spec_fn(int) -> T, minus: spec_fn(T, T) -> T)
    requires
        st.len() == 56,
        chain_follows(chain, minus),
    ensures
        fill_table(st, 0, chain(1), chain(0), 54, minus) == filled(st, chain),
{
    assert forall|j: int| 0 <= j < 56 implies #[trigger] st[j] == if 1 <= j <= 54 && 1 <= (21 * j) % 55 <= 0 {
        chain((21 * j) % 55)
    } else {
        st[j]
    } by {}
    lemma_fill_from(st, chain, st, 0, chain(1), minus);
}

/// The value subtracted at step `k` of a pass: slot `(k + 31) % 55 + 1`, already updated when it lies before `k + 1`.
pub open spec fn pass_source<T>(st: Seq<T>, r: Seq<T>, k: int) -> T {
    let m = (k + 31) % 55 + 1;
    if m <= k {
        r[m]
    } else {
        st[m]
    }
}

/// `r` is the table that one mixing pass makes of `st`.
pub open spec fn is_pass_of<T>(st: Seq<T>, r: Seq<T>, minus: spec_fn(T, T) -> T) -> bool {
    &&& st.len() == 56
    &&& r.len() == 56
    &&& r[0] == st[0]
    &&& forall|k: int| 0 <= k < 55 ==> #[trigger] r[k + 1] == minus(st[k + 1], pass_source(st, r, k))
}

/// From slot `k` on, a mixing pass ends in the pass `r`.
proof fn lemma_mix_pass_from<T>(st: Seq<T>, r: Seq<T>, cur: Seq<T>, k: int, minus: spec_fn(T, T) -> T)
    requires
        is_pass_of(st, r, minus),
        0 <= k <= 55,
        cur.len() == 56,
        forall|j: int| 0 <= j < 56 ==> #[trigger] cur[j] == if 1 <= j <= k { r[j] } else { st[j] },
    ensures
        mix_pass(cur, k as nat, minus) == r,
    decreases 55 - k,
{
    if k == 55 {
        assert(cur =~= r);
    } else {
        let m = (k + 31) % 55 + 1;
        let next = cur.update(k + 1, minus(cur[k + 1], cur[m]));
        assert(cur[k + 1] == st[k + 1]);
        assert(cur[m] == pass_source(st, r, k));
        assert(r[k + 1] == minus(st[k + 1], pass_source(st, r, k)));
        assert forall|j: int| 0 <= j < 56 implies #[trigger] next[j] == if 1 <= j <= k + 1 { r[j] } else { st[j] } by {
            if j == k + 1 {
            } else {
                assert(next[j] == cur[j]);
            }
        }
        lemma_mix_pass_from(st, r, next, k + 1, minus);
    }
}

/// A pass is determined by its defining equations.
pub proof fn lemma_mix_pass<T>(st: Seq<T>, r: Seq<T>, minus: spec_fn(T, T) -> T)
    requires
        is_pass_of(st, r, minus),
    ensures
        mix_pass(st, 0, minus) == r,
{
    assert forall|j: int| 0 <= j < 56 implies #[trigger] st[j] == if 1 <= j <= 0 { r[j] } else { st[j] } by {}
    lemma_mix_pass_from(st, r, st, 0, minus);
}

/// `v` lists the outputs drawn from table `st` starting at position 0: output `d`
/// subtracts the slot 21 ahead from the slot it overwrites, each holding either
/// its seeded value or an earlier output.
pub open spec fn is_draws_of<T>(st: Seq<T>, v: Seq<T>, minus: spec_fn(T, T) -> T) -> bool {
    &&& st.len() == 56
    &&& v.len() <= 110
    &&& forall|d: int|
        0 <= d < v.len() ==> #[trigger] v[d] == minus(
            if d >= 55 {
                v[d - 55]
            } else {
                st[d + 1]
            },
            if d >= 34 {
                v[d - 34]
            } else {
                st[(d + 21) % 55 + 1]
            },
        )
}

/// From draw `d` on, drawing gives the outputs `v`.
proof fn lemma_draws_from<T>(st: Seq<T>, v: Seq<T>, cur: Seq<T>, d: int, minus: spec_fn(T, T) -> T)
    requires
        is_draws_of(st, v, minus),
        0 <= d <= v.len(),
        cur.len() == 56,
        forall|j: int|
            0 <= j < 56 ==> #[trigger] cur[j] == if 1 <= j && j - 1 < d {
                if j - 1 + 55 < d {
                    v[j - 1 + 55]
                } else {
                    v[j - 1]
                }
            } else {
                st[j]
            },
    ensures
        draws(cur, if d == 0 { 0 } else { (d - 1) % 55 + 1 }, (v.len() - d) as nat, minus) == v.subrange(d, v.len() as int),
    decreases v.len() - d,
{
    let i = if d == 0 { 0 } else { (d - 1) % 55 + 1 };
    if d == v.len() {
        assert(v.subrange(d, v.len() as int) =~= Seq::<T>::empty());
    } else {
        let ni = next_index(i);
        let li = lag_index(i);
        assert(ni == d % 55 + 1);
        assert(li == (d + 21) % 55 + 1);
        let val = minus(cur[ni], cur[li]);
        assert(val == v[d]);
        let next = cur.update(ni, val);
        assert forall|j: int|
            0 <= j < 56 implies #[trigger] next[j] == if 1 <= j && j - 1 < d + 1 {
                if j - 1 + 55 < d + 1 {
                    v[j - 1 + 55]
                } else {
                    v[j - 1]
                }
            } else {
                st[j]
            } by {
            if j != ni {
                assert(next[j] == cur[j]);
            }
        }
        assert((if d + 1 == 0 { 0 } else { d % 55 + 1 }) == ni);
        lemma_draws_from(st, v, next, d + 1, minus);
        assert(v.subrange(d, v.len() as int) =~= seq![v[d]] + v.subrange(d + 1, v.len() as int));
    }
}

/// Outputs drawn from position 0 are determined by their defining equations.
pub proof fn lemma_draws<T>(st: Seq<T>, v: Seq<T>, minus: spec_fn(T, T) -> T)
    requires
        is_draws_of(st, v, minus),
    ensures
        draws(st, 0, v.len(), minus) == v,
{
    assert forall|j: int|
        0 <= j < 56 implies #[trigger] st[j] == if 1 <= j && j - 1 < 0 {
            if j - 1 + 55 < 0 { v[j - 1 + 55] } else { v[j - 1] }
        } else {
            st[j]
        } by {}
    lemma_draws_from(st, v, st, 0, minus);
    assert(v.subrange(0, v.len() as int) =~= v);
}


// ---------------------------------------------------------------------------
// Changing the value domain
// ---------------------------------------------------------------------------

/// `f` carries the subtraction `ma` over to the subtraction `mb`.
pub open spec fn carries<A, B>(f: spec_fn(A) -> B, ma: spec_fn(A, A) -> A, mb: spec_fn(B, B) -> B) -> bool {
    forall|x: A, y: A| #[trigger] f(ma(x, y)) == mb(f(x), f(y))
}

/// Mapping the entries by `f` commutes with the fill.
pub proof fn lemma_fill_table_map<A, B>(
    st: Seq<A>,
    index: int,
    num3: A,
    seed: A,
    fuel: nat,
    ma: spec_fn(A, A) -> A,
    mb: spec_fn(B, B) -> B,
    f: spec_fn(A) -> B,
)
    requires
        st.len() == 56,
        carries(f, ma, mb),
    ensures
        fill_table(st.map_values(f), index, f(num3), f(seed), fuel, mb) == fill_table(
            st,
            index,
            num3,
            seed,
            fuel,
            ma,
        ).map_values(f),
    decreases fuel,
{
    if fuel > 0 {
        let idx = (index + 21) % 55;
        assert(st.update(idx, num3).map_values(f) =~= st.map_values(f).update(idx, f(num3)));
        assert(f(ma(seed, num3)) == mb(f(seed), f(num3)));
        lemma_fill_table_map(st.update(idx, num3), idx, ma(seed, num3), num3, (fuel - 1) as nat, ma, mb, f);
    }
}

/// Mapping the entries by `f` commutes with a mixing pass.
pub proof fn lemma_mix_pass_map<A, B>(
    st: Seq<A>,
    k: nat,
    ma: spec_fn(A, A) -> A,
    mb: spec_fn(B, B) -> B,
    f: spec_fn(A) -> B,
)
    requires
        st.len() == 56,
        carries(f, ma, mb),
    ensures
        mix_pass(st.map_values(f), k, mb) == mix_pass(st, k, ma).map_values(f),
    decreases 55 - k,
{
    if k < 55 {
        let m = (k + 31int) % 55 + 1;
        let v = ma(st[k + 1int], st[m]);
        assert(f(v) == mb(f(st[k + 1int]), f(st[m])));
        assert(st.update(k + 1int, v).map_values(f) =~= st.map_values(f).update(k + 1int, f(v)));
        lemma_mix_pass_map(st.update(k + 1int, v), k + 1, ma, mb, f);
    }
}

/// Mapping the entries by `f` commutes with the mixing passes.
pub proof fn lemma_mix_map<A, B>(
    st: Seq<A>,
    passes: nat,
    ma: spec_fn(A, A) -> A,
    mb: spec_fn(B, B) -> B,
    f: spec_fn(A) -> B,
)
    requires
        st.len() == 56,
        carries(f, ma, mb),
    ensures
        mix(st.map_values(f), passes, mb) == mix(st, passes, ma).map_values(f),
    decreases passes,
{
    if passes > 0 {
        lemma_mix_pass_map(st, 0, ma, mb, f);
        lemma_mix_pass_len(st, 0, ma);
        lemma_mix_map(mix_pass(st, 0, ma), (passes - 1) as nat, ma, mb, f);
    }
}

/// A mixing pass keeps the 56 entries.
pub proof fn lemma_mix_pass_len<A>(st: Seq<A>, k: nat, ma: spec_fn(A, A) -> A)
    requires
        st.len() == 56,
    ensures
        mix_pass(st, k, ma).len() == 56,
    decreases 55 - k,
{
    if k < 55 {
        lemma_mix_pass_len(st.update(k + 1int, ma(st[k + 1int], st[(k + 31int) % 55 + 1])), k + 1, ma);
    }
}

/// The mixing passes keep the 56 entries.
pub proof fn lemma_mix_len<A>(st: Seq<A>, passes: nat, ma: spec_fn(A, A) -> A)
    requires
        st.len() == 56,
    ensures
        mix(st, passes, ma).len() == 56,
    decreases passes,
{
    if passes > 0 {
        lemma_mix_pass_len(st, 0, ma);
        lemma_mix_len(mix_pass(st, 0, ma), (passes - 1) as nat, ma);
    }
}

/// The fill keeps the 56 entries.
pub proof fn lemma_fill_table_len<A>(st: Seq<A>, index: int, num3: A, seed: A, fuel: nat, ma: spec_fn(A, A) -> A)
    requires
        st.len() == 56,
    ensures
        fill_table(st, index, num3, seed, fuel, ma).len() == 56,
    decreases fuel,
{
    if fuel > 0 {
        let idx = (index + 21) % 55;
        lemma_fill_table_len(st.update(idx, num3), idx, ma(seed, num3), num3, (fuel - 1) as nat, ma);
    }
}

/// Mapping the entries by `f` commutes with drawing.
pub proof fn lemma_draws_map<A, B>(
    st: Seq<A>,
    i: int,
    n: nat,
    ma: spec_fn(A, A) -> A,
    mb: spec_fn(B, B) -> B,
    f: spec_fn(A) -> B,
)
    requires
        st.len() == 56,
        0 <= i <= 55,
        carries(f, ma, mb),
    ensures
        draws(st.map_values(f), i, n, mb) == draws(st, i, n, ma).map_values(f),
    decreases n,
{
    if n > 0 {
        let ni = next_index(i);
        let v = ma(st[ni], st[lag_index(i)]);
        assert(f(v) == mb(f(st[ni]), f(st[lag_index(i)])));
        assert(st.update(ni, v).map_values(f) =~= st.map_values(f).update(ni, f(v)));
        lemma_draws_map(st.update(ni, v), ni, (n - 1) as nat, ma, mb, f);
        assert((seq![v] + draws(st.update(ni, v), ni, (n - 1) as nat, ma)).map_values(f)
            =~= seq![f(v)] + draws(st.update(ni, v), ni, (n - 1) as nat, ma).map_values(f));
    }
}

/// Mapping the entries by `f` commutes with seeding.
pub proof fn lemma_seeded_map<A, B>(
    init: Seq<A>,
    s: A,
    one: A,
    ma: spec_fn(A, A) -> A,
    mb: spec_fn(B, B) -> B,
    f: spec_fn(A) -> B,
)
    requires
        init.len() == 56,
        carries(f, ma, mb),
    ensures
        seeded(init.map_values(f), f(s), f(one), mb) == seeded(init, s, one, ma).map_values(f),
{
    assert(init.update(55, s).map_values(f) =~= init.map_values(f).update(55, f(s)));
    lemma_fill_table_map(init.update(55, s), 0, one, s, 54, ma, mb, f);
    lemma_fill_table_len(init.update(55, s), 0, one, s, 54, ma);
    lemma_mix_map(fill_table(init.update(55, s), 0, one, s, 54, ma), 4, ma, mb, f);
}

/// Evaluating affine forms at a seed value carries the pair subtraction to the generator's.
pub proof fn lemma_eval_carries(s: int)
    requires
        0 <= s < modulus(),
    ensures
        carries(|p: (int, int)| eval_pair(p, s), pair_minus(), adjusted_minus()),
{
    assert forall|p: (int, int), q: (int, int)|
        #[trigger] eval_pair(sub_pair(p, q), s) == sub_adjust(eval_pair(p, s), eval_pair(q, s)) by {
        lemma_eval_sub(p, q, s);
    }
}

/// Evaluating the difference of two affine forms is the adjusted difference of their values.
pub proof fn lemma_eval_sub(p: (int, int), q: (int, int), s: int)
    requires
        0 <= s < modulus(),
    ensures
        eval_pair(sub_pair(p, q), s) == sub_adjust(eval_pair(p, s), eval_pair(q, s)),
{
    let m = modulus();
    let x = eval_pair(p, s);
    let y = eval_pair(q, s);
    let a = (p.0 - q.0) % m;
    let b = (p.1 - q.1) % m;
    let lhs = (a * s + b) % m;
    assert(lhs == sub_adjust(x, y)) by (nonlinear_arith)
        requires
            m == 2147483647,
            x == (p.0 * s + p.1) % m,
            y == (q.0 * s + q.1) % m,
            a == (p.0 - q.0) % m,
            b == (p.1 - q.1) % m,
            lhs == (a * s + b) % m,
            sub_adjust(x, y) == if x - y < 0 { x - y + m } else { x - y },
    {
        let qa = (p.0 - q.0) / m;
        let qb = (p.1 - q.1) / m;
        let qx = (p.0 * s + p.1) / m;
        let qy = (q.0 * s + q.1) / m;
        let ql = (a * s + b) / m;
        assert(p.0 - q.0 == m * qa + a);
        assert(p.1 - q.1 == m * qb + b);
        assert(p.0 * s + p.1 == m * qx + x);
        assert(q.0 * s + q.1 == m * qy + y);
        assert(a * s + b == m * ql + lhs);
        assert(0 <= x < m && 0 <= y < m && 0 <= lhs < m);
        // lhs - (x - y) is a multiple of m
        assert(lhs - (x - y) == m * (qx - qy - qa * s - qb - ql));
    }
}


// ---------------------------------------------------------------------------
// Ranges of the integer model
// ---------------------------------------------------------------------------

/// Every entry of `st` lies in `0..=hi`.
pub open spec fn within(st: Seq<int>, hi: int) -> bool {
    forall|k: int| 0 <= k < st.len() ==> 0 <= #[trigger] st[k] <= hi
}

/// The adjusted difference of two entries in `0..=hi` is in `0..=hi`.
pub proof fn lemma_sub_adjust_range(x: int, y: int, hi: int)
    requires
        modulus() - 1 <= hi <= modulus(),
        0 <= x <= hi,
        0 <= y <= hi,
    ensures
        0 <= sub_adjust(x, y) <= hi,
{
}

/// The fill keeps every entry in `0..=hi`.
pub proof fn lemma_fill_table_range(st: Seq<int>, index: int, num3: int, seed: int, fuel: nat, hi: int)
    requires
        modulus() - 1 <= hi <= modulus(),
        st.len() == 56,
        within(st, hi),
        0 <= num3 <= hi,
        0 <= seed <= hi,
    ensures
        within(fill_table(st, index, num3, seed, fuel, adjusted_minus()), hi),
    decreases fuel,
{
    if fuel > 0 {
        let idx = (index + 21) % 55;
        lemma_sub_adjust_range(seed, num3, hi);
        lemma_fill_table_range(st.update(idx, num3), idx, sub_adjust(seed, num3), num3, (fuel - 1) as nat, hi);
    }
}

/// A mixing pass keeps every entry in `0..=hi`.
pub proof fn lemma_mix_pass_range(st: Seq<int>, k: nat, hi: int)
    requires
        modulus() - 1 <= hi <= modulus(),
        st.len() == 56,
        within(st, hi),
    ensures
        within(mix_pass(st, k, adjusted_minus()), hi),
    decreases 55 - k,
{
    if k < 55 {
        let m = (k + 31int) % 55 + 1;
        lemma_sub_adjust_range(st[k + 1int], st[m], hi);
        lemma_mix_pass_range(st.update(k + 1int, sub_adjust(st[k + 1int], st[m])), k + 1, hi);
    }
}

/// The mixing passes keep every entry in `0..=hi`.
pub proof fn lemma_mix_range(st: Seq<int>, passes: nat, hi: int)
    requires
        modulus() - 1 <= hi <= modulus(),
        st.len() == 56,
        within(st, hi),
    ensures
        within(mix(st, passes, adjusted_minus()), hi),
        mix(st, passes, adjusted_minus()).len() == 56,
    decreases passes,
{
    lemma_mix_len(st, passes, adjusted_minus());
    if passes > 0 {
        lemma_mix_pass_range(st, 0, hi);
        lemma_mix_pass_len(st, 0, adjusted_minus());
        lemma_mix_range(mix_pass(st, 0, adjusted_minus()), (passes - 1) as nat, hi);
    }
}

/// Seeding keeps every entry in `0..=hi` when the seed value and the old table do.
pub proof fn lemma_seeded_range(init: Seq<int>, s: int, hi: int)
    requires
        modulus() - 1 <= hi <= modulus(),
        init.len() == 56,
        within(init, hi),
        0 <= s <= hi,
    ensures
        within(seeded(init, s, 1, adjusted_minus()), hi),
        seeded(init, s, 1, adjusted_minus()).len() == 56,
{
    lemma_fill_table_range(init.update(55, s), 0, 1, s, 54, hi);
    lemma_fill_table_len(init.update(55, s), 0, 1, s, 54, adjusted_minus());
    lemma_mix_range(fill_table(init.update(55, s), 0, 1, s, 54, adjusted_minus()), 4, hi);
}

/// Output steps keep every entry, and every output, in `0..=hi`.
pub proof fn lemma_draws_range(st: Seq<int>, i: int, n: nat, hi: int)
    requires
        modulus() - 1 <= hi <= modulus(),
        st.len() == 56,
        0 <= i <= 55,
        within(st, hi),
    ensures
        within(draws(st, i, n, adjusted_minus()), hi),
        draws(st, i, n, adjusted_minus()).len() == n,
    decreases n,
{
    if n > 0 {
        let (st2, i2, v) = step(st, i, adjusted_minus());
        lemma_sub_adjust_range(st[next_index(i)], st[lag_index(i)], hi);
        lemma_draws_range(st2, i2, (n - 1) as nat, hi);
        let rest = draws(st2, i2, (n - 1) as nat, adjusted_minus());
        assert forall|k: int| 0 <= k < n implies 0 <= #[trigger] (seq![v] + rest)[k] <= hi by {
            if k > 0 {
                assert((seq![v] + rest)[k] == rest[k - 1]);
            }
        }
    }
}

/// The `k`-th output is the output of a single step from the table after `k` steps.
pub proof fn lemma_draws_index<T>(st: Seq<T>, i: int, n: nat, k: nat, minus: spec_fn(T, T) -> T)
    requires
        k < n,
    ensures
        draws(st, i, n, minus)[k as int] == step(table_after(st, i, k, minus), position_after(i, k), minus).2,
        draws(st, i, n, minus).len() == n,
    decreases k,
{
    lemma_draws_len(st, i, n, minus);
    let (st2, i2, v) = step(st, i, minus);
    if k > 0 {
        lemma_draws_index(st2, i2, (n - 1) as nat, (k - 1) as nat, minus);
    }
}

/// Drawing `n` times gives `n` outputs.
pub proof fn lemma_draws_len<T>(st: Seq<T>, i: int, n: nat, minus: spec_fn(T, T) -> T)
    ensures
        draws(st, i, n, minus).len() == n,
    decreases n,
{
    if n > 0 {
        let (st2, i2, v) = step(st, i, minus);
        lemma_draws_len(st2, i2, (n - 1) as nat, minus);
    }
}

/// Fewer outputs are a prefix of more outputs.
pub proof fn lemma_draws_prefix<T>(st: Seq<T>, i: int, n: nat, m: nat, minus: spec_fn(T, T) -> T)
    requires
        n <= m,
    ensures
        draws(st, i, n, minus) == draws(st, i, m, minus).take(n as int),
    decreases n,
{
    lemma_draws_len(st, i, n, minus);
    lemma_draws_len(st, i, m, minus);
    if n > 0 {
        let (st2, i2, v) = step(st, i, minus);
        lemma_draws_prefix(st2, i2, (n - 1) as nat, (m - 1) as nat, minus);
        assert(draws(st, i, n, minus) =~= draws(st, i, m, minus).take(n as int));
    } else {
        assert(draws(st, i, n, minus) =~= draws(st, i, m, minus).take(n as int));
    }
}

/// The table after `k + 1` steps is one step after the table after `k` steps.
pub proof fn lemma_table_after_step<T>(st: Seq<T>, i: int, k: nat, minus: spec_fn(T, T) -> T)
    ensures
        table_after(st, i, k + 1, minus) == step(table_after(st, i, k, minus), position_after(i, k), minus).0,
        position_after(i, k + 1) == step(table_after(st, i, k, minus), position_after(i, k), minus).1,
    decreases k,
{
    let (st2, i2, v) = step(st, i, minus);
    assert(table_after(st, i, k + 1, minus) == table_after(st2, i2, k, minus));
    assert(position_after(i, k + 1) == position_after(i2, k));
    assert(i2 == next_index(i));
    if k > 0 {
        lemma_table_after_step(st2, i2, (k - 1) as nat, minus);
        assert(table_after(st, i, k, minus) == table_after(st2, i2, (k - 1) as nat, minus));
        assert(position_after(i, k) == position_after(i2, (k - 1) as nat));
    }
}

/// The values that seeding writes, in the order it writes them: `s`, then
/// `one`, then each the one before last minus the last.
pub open spec fn seed_chain<T>(s: T, one: T, minus: spec_fn(T, T) -> T, t: nat) -> T
    decreases t,
{
    if t == 0 {
        s
    } else if t == 1 {
        one
    } else {
        minus(seed_chain(s, one, minus, (t - 2) as nat), seed_chain(s, one, minus, (t - 1) as nat))
    }
}

/// A mixing pass leaves slot 0 as it is.
proof fn lemma_mix_pass_keeps_slot0<A>(st: Seq<A>, k: nat, ma: spec_fn(A, A) -> A)
    requires
        st.len() == 56,
    ensures
        mix_pass(st, k, ma)[0] == st[0],
    decreases 55 - k,
{
    if k < 55 {
        lemma_mix_pass_keeps_slot0(st.update(k + 1int, ma(st[k + 1int], st[(k + 31int) % 55 + 1])), k + 1, ma);
    }
}

/// The mixing passes leave slot 0 as it is.
proof fn lemma_mix_keeps_slot0<A>(st: Seq<A>, passes: nat, ma: spec_fn(A, A) -> A)
    requires
        st.len() == 56,
    ensures
        mix(st, passes, ma)[0] == st[0],
    decreases passes,
{
    if passes > 0 {
        lemma_mix_pass_keeps_slot0(st, 0, ma);
        lemma_mix_pass_len(st, 0, ma);
        lemma_mix_keeps_slot0(mix_pass(st, 0, ma), (passes - 1) as nat, ma);
    }
}

/// Seeding reads nothing of the old table but slot 0, which it keeps: two
/// tables of 56 entries that agree in slot 0 are seeded to the same table.
pub proof fn lemma_seeded_reads_slot0<T>(t1: Seq<T>, t2: Seq<T>, s: T, one: T, minus: spec_fn(T, T) -> T)
    requires
        t1.len() == 56,
        t2.len() == 56,
        t1[0] == t2[0],
    ensures
        seeded(t1, s, one, minus) == seeded(t2, s, one, minus),
        seeded(t1, s, one, minus)[0] == t1[0],
{
    let chain = |t: int| seed_chain(s, one, minus, t as nat);
    assert forall|t: int| 2 <= t <= 54 implies #[trigger] chain(t) == minus(chain(t - 2), chain(t - 1)) by {
        assert((t as nat - 2) as nat == (t - 2) as nat);
        assert((t as nat - 1) as nat == (t - 1) as nat);
    }
    assert(chain_follows(chain, minus));
    assert(chain(0) == s);
    assert(chain(1) == one);
    let u1 = t1.update(55, s);
    let u2 = t2.update(55, s);
    lemma_fill_table(u1, chain, minus);
    lemma_fill_table(u2, chain, minus);
    assert(filled(u1, chain) =~= filled(u2, chain));
    lemma_mix_keeps_slot0(filled(u1, chain), 4, minus);
}

} // verus!
