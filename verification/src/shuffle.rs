//! The linearised rush shuffle: output `k` of the game's generator for seed `s`
//! is `(A[k] * s + B[k]) mod (2^31 - 1)`, so a shuffle needs no generator state.
use vstd::prelude::*;
use crate::coefficients::{multiplier, offset};
use crate::subtractive::modulus;

verus! {

/// The identity arrangement `0, 1, ..., n - 1` of a rush of `n` levels.
pub open spec fn identity_order(n: nat) -> Seq<u8> {
    Seq::new(n, |i: int| i as u8)
}

/// `s` with the entries at `i` and `j` exchanged.
pub open spec fn swap_at(s: Seq<u8>, i: int, j: int) -> Seq<u8> {
    s.update(i, s[j]).update(j, s[i])
}

/// The arrangement after exchanging, for each `k` in order, position `k` with position `targets[k]`.
pub open spec fn apply_swaps(s: Seq<u8>, targets: Seq<int>) -> Seq<u8>
    decreases targets.len(),
{
    if targets.len() == 0 {
        s
    } else {
        swap_at(apply_swaps(s, targets.drop_last()), targets.len() - 1, targets.last())
    }
}

/// A generator output `value` in `0..2^31 - 1` scaled to a position in `0..n`:
/// `floor(value * n / (2^31 - 1))`.
pub open spec fn scaled_index(value: int, n: int) -> int {
    value * n / modulus()
}

/// Output `k` of the game's generator for `seed`, from the coefficient tables.
pub open spec fn affine_draw(k: int, seed: int) -> int {
    (multiplier(k) * seed + offset(k)) % modulus()
}

/// The exchange targets of the linearised shuffle: one per position, for at most 96 positions.
pub open spec fn linear_targets(n: nat, seed: int) -> Seq<int> {
    Seq::new(if n < 96 { n } else { 96 }, |k: int| scaled_index(affine_draw(k, seed), n as int))
}

/// The rush order for `seed` as the linearised shuffle computes it.
pub open spec fn linear_shuffle(n: nat, seed: int) -> Seq<u8> {
    apply_swaps(identity_order(n), linear_targets(n, seed))
}

/// Exchanging positions keeps the length.
pub proof fn lemma_apply_swaps_len(s: Seq<u8>, targets: Seq<int>)
    requires
        targets.len() <= s.len(),
        forall|k: int| 0 <= k < targets.len() ==> 0 <= #[trigger] targets[k] < s.len(),
    ensures
        apply_swaps(s, targets).len() == s.len(),
    decreases targets.len(),
{
    if targets.len() > 0 {
        lemma_apply_swaps_len(s, targets.drop_last());
    }
}

/// Every exchange target lies in `0..n`.
pub proof fn lemma_linear_target_range(n: nat, seed: int, k: int)
    requires
        0 <= k < linear_targets(n, seed).len(),
    ensures
        0 <= linear_targets(n, seed)[k] < n,
{
    let v = affine_draw(k, seed);
    assert(0 <= v < modulus());
    assert(0 <= v * (n as int) / modulus() < n) by (nonlinear_arith)
        requires 0 <= v < 2147483647, n > 0, modulus() == 2147483647;
}

/// An exchange keeps the length and the entries, and keeps them distinct.
proof fn lemma_swap_rearranges(s: Seq<u8>, i: int, j: int)
    requires
        0 <= i < s.len(),
        0 <= j < s.len(),
    ensures
        swap_at(s, i, j).len() == s.len(),
        forall|x: u8| s.contains(x) <==> #[trigger] swap_at(s, i, j).contains(x),
        s.no_duplicates() ==> swap_at(s, i, j).no_duplicates(),
{
    let t = swap_at(s, i, j);
    let sigma = |p: int| if p == j { i } else if p == i { j } else { p };
    assert forall|p: int| 0 <= p < s.len() implies #[trigger] t[p] == s[sigma(p)] by {}
    assert forall|x: u8| s.contains(x) <==> #[trigger] t.contains(x) by {
        if s.contains(x) {
            let k = choose|k: int| 0 <= k < s.len() && s[k] == x;
            let p = sigma(k);
            assert(sigma(p) == k);
            assert(t[p] == x);
        }
        if t.contains(x) {
            let p = choose|p: int| 0 <= p < t.len() && t[p] == x;
            assert(s[sigma(p)] == x);
        }
    }
    if s.no_duplicates() {
        assert forall|p: int, q: int| 0 <= p < t.len() && 0 <= q < t.len() && p != q implies t[p] != t[q] by {
            assert(t[p] == s[sigma(p)]);
            assert(t[q] == s[sigma(q)]);
        }
    }
}

/// Exchanging positions rearranges the entries: the same entries, as many, as distinct.
pub proof fn lemma_swaps_rearrange(s: Seq<u8>, targets: Seq<int>)
    requires
        targets.len() <= s.len(),
        forall|k: int| 0 <= k < targets.len() ==> 0 <= #[trigger] targets[k] < s.len(),
    ensures
        apply_swaps(s, targets).len() == s.len(),
        forall|x: u8| s.contains(x) <==> #[trigger] apply_swaps(s, targets).contains(x),
        s.no_duplicates() ==> apply_swaps(s, targets).no_duplicates(),
    decreases targets.len(),
{
    if targets.len() > 0 {
        let init = targets.drop_last();
        lemma_swaps_rearrange(s, init);
        let before = apply_swaps(s, init);
        lemma_swap_rearranges(before, targets.len() - 1, targets.last());
        assert forall|x: u8| s.contains(x) <==> #[trigger] apply_swaps(s, targets).contains(x) by {
            assert(s.contains(x) <==> before.contains(x));
        }
    }
}

/// The order of a rush of `n` levels (at most 256) for any seed is a
/// rearrangement of its levels: each of `0..n` appears exactly once.
pub proof fn lemma_shuffle_rearranges(n: nat, seed: int)
    requires
        n <= 256,
    ensures
        linear_shuffle(n, seed).len() == n,
        linear_shuffle(n, seed).no_duplicates(),
        forall|x: u8| #[trigger] linear_shuffle(n, seed).contains(x) <==> x < n,
{
    let start = identity_order(n);
    let targets = linear_targets(n, seed);
    assert forall|k: int| 0 <= k < targets.len() implies 0 <= #[trigger] targets[k] < start.len() by {
        lemma_linear_target_range(n, seed, k);
    }
    lemma_identity_order(n);
    lemma_swaps_rearrange(start, targets);
}

/// The unshuffled order of `n` levels (at most 256) holds each of `0..n` once.
pub proof fn lemma_identity_order(n: nat)
    requires
        n <= 256,
    ensures
        identity_order(n).len() == n,
        identity_order(n).no_duplicates(),
        forall|x: u8| #[trigger] identity_order(n).contains(x) <==> x < n,
{
    let start = identity_order(n);
    assert forall|p: int| 0 <= p < n implies #[trigger] start[p] == p by {
        assert((p as u8) == p);
    }
    assert forall|x: u8| #[trigger] start.contains(x) <==> x < n by {
        if x < n {
            assert(start[x as int] == x);
        }
    }
    assert(start.no_duplicates());
}

/// `(A[k], B[k])`, the coefficients of output `k` (`k < 96`).
pub fn coefficients(k: usize) -> (r: (u64, u64))
    requires
        k < 96,
    ensures
        r.0 == multiplier(k as int),
        r.1 == offset(k as int),
{
    proof {
        reveal(multiplier);
        reveal(offset);
    }
    match k {
        0 => (1121899819, 1559595546),
        1 => (630111683, 1755192844),
        2 => (1501065279, 1649316166),
        3 => (458365203, 1198642031),
        4 => (969558243, 442452829),
        5 => (1876681249, 1200195957),
        6 => (962194431, 1945678308),
        7 => (1077359051, 949569752),
        8 => (265679591, 2099272109),
        9 => (791886952, 587775847),
        10 => (1582116761, 626863973),
        11 => (1676571504, 1003550677),
        12 => (1476289907, 1358625013),
        13 => (1117239683, 1008269081),
        14 => (1503178135, 2109153755),
        15 => (1341148412, 65212616),
        16 => (902714229, 1851925803),
        17 => (1331438416, 2137491580),
        18 => (58133212, 1454235444),
        19 => (831516153, 675580731),
        20 => (285337308, 1754296375),
        21 => (526856546, 1821177336),
        22 => (362935496, 2130093701),
        23 => (750214563, 70062080),
        24 => (210465667, 1503113964),
        25 => (1381224997, 1130186590),
        26 => (1846331200, 2005789796),
        27 => (1330597961, 1476653312),
        28 => (593162892, 1174277203),
        29 => (1729496551, 174182291),
        30 => (792803163, 401846963),
        31 => (565661843, 973512717),
        32 => (863554642, 638171722),
        33 => (53838754, 2122881600),
        34 => (749855384, 1380182313),
        35 => (93067682, 1638451829),
        36 => (1778866589, 65271247),
        37 => (1463507567, 818200948),
        38 => (367760674, 736891500),
        39 => (1219347826, 2056119311),
        40 => (1648614489, 1084756724),
        41 => (596622148, 1537539262),
        42 => (1228675679, 255459778),
        43 => (243017841, 587232589),
        44 => (1132230640, 1947978014),
        45 => (1891159862, 1706746116),
        46 => (730619752, 724046315),
        47 => (33642253, 981848395),
        48 => (209795643, 315304373),
        49 => (283831563, 475269784),
        50 => (249493290, 880625662),
        51 => (967871855, 1543454120),
        52 => (1560699908, 1331075398),
        53 => (437500212, 1047903413),
        54 => (429989927, 418573418),
        55 => (595043273, 1885901857),
        56 => (267176187, 1772582790),
        57 => (750850716, 1579254086),
        58 => (247899536, 1843011714),
        59 => (1735816893, 1459749886),
        60 => (30350049, 1341889808),
        61 => (1779080117, 469024996),
        62 => (484196159, 1922776196),
        63 => (683666687, 1925089818),
        64 => (2146567436, 185928884),
        65 => (1016454918, 1800834903),
        66 => (813016862, 365378955),
        67 => (1422451153, 1383227060),
        68 => (367384299, 1775570415),
        69 => (1410110453, 470701926),
        70 => (1709765470, 2147425016),
        71 => (1586690309, 1033724855),
        72 => (963677742, 1400600080),
        73 => (986269033, 1545599780),
        74 => (1330385311, 1738307654),
        75 => (1836198807, 216757113),
        76 => (1445664514, 1565717558),
        77 => (119917655, 1542861112),
        78 => (1765467570, 269567713),
        79 => (466789452, 1943851495),
        80 => (650605245, 406140275),
        81 => (1812688947, 1023941401),
        82 => (1120802318, 1161348939),
        83 => (309331329, 699007419),
        84 => (1480003261, 1441040276),
        85 => (1972414955, 1005876490),
        86 => (1152445582, 1789920966),
        87 => (426054430, 1737751956),
        88 => (1771332474, 1704308182),
        89 => (154812111, 1641764103),
        90 => (1973375142, 2013352686),
        91 => (1028015873, 633500808),
        92 => (1215608031, 1122672881),
        93 => (779427428, 1424625261),
        94 => (1188997777, 714229503),
        95 => (2017018019, 615731728),
        _ => (0, 0),
    }
}

/// Fills `out` with the order of the levels of a rush of `num_levels` levels
/// for the given seed: start from `0..num_levels` and, for each position `i`
/// below 96, exchange it with position `floor(v * num_levels / (2^31 - 1))`,
/// where `v = (A[i] * seed + B[i]) mod (2^31 - 1)`.
pub fn get_shuffled_idxs(num_levels: u8, seed: i32, out: &mut Vec<u8>)
    requires
        0 <= seed,
    ensures
        final(out)@ == linear_shuffle(num_levels as nat, seed as int),
{
    out.clear();
    let mut k: u8 = 0;
    while k < num_levels
        invariant
            k <= num_levels,
            out@ == identity_order(k as nat),
        decreases num_levels - k,
    {
        out.push(k);
        k = k + 1;
        assert(out@ =~= identity_order(k as nat));
    }
    let ghost n = num_levels as nat;
    let limit: usize = if num_levels < 96 { num_levels as usize } else { 96 };
    let ghost targets = linear_targets(n, seed as int);
    let mut i: usize = 0;
    while i < limit
        invariant
            limit == targets.len(),
            limit <= num_levels,
            n == num_levels as nat,
            i <= limit,
            targets == linear_targets(n, seed as int),
            0 <= seed,
            out@ == apply_swaps(identity_order(n), targets.take(i as int)),
            out@.len() == num_levels,
        decreases limit - i,
    {
        let (a, b) = coefficients(i);
        proof {
            reveal(multiplier);
            reveal(offset);
        }
        assert(a < 2147483648 && b < 2147483648) by {
            coefficients_bounded(i as int);
        }
        assert(a * (seed as u64) <= 2147483648 * 2147483648) by (nonlinear_arith)
            requires a < 2147483648, 0 <= seed < 2147483648;
        let numer = (a * (seed as u64) + b) % 2147483647;
        assert(numer * (num_levels as u64) < 2147483647 * 256) by (nonlinear_arith)
            requires numer < 2147483647, num_levels < 256;
        let scaled: u64 = numer * (num_levels as u64) / 2147483647;
        assert(scaled < num_levels) by (nonlinear_arith)
            requires scaled == numer * (num_levels as u64) / 2147483647, numer < 2147483647, num_levels > 0;
        let j = scaled as usize;
        assert(seed as u64 == seed as int);
        assert(numer == affine_draw(i as int, seed as int));
        assert(j == scaled_index(numer as int, n as int));
        assert(j == targets[i as int]);
        let x = out[i];
        let y = out[j];
        out.set(i, y);
        out.set(j, x);
        proof {
            assert(targets.take(i + 1).drop_last() =~= targets.take(i as int));
            assert(targets.take(i + 1).last() == targets[i as int]);
        }
        i = i + 1;
    }
    assert(targets.take(limit as int) =~= targets);
}

/// Every coefficient is below `2^31`.
proof fn coefficients_bounded(k: int)
    requires
        0 <= k < 96,
    ensures
        0 <= multiplier(k) < 2147483648,
        0 <= offset(k) < 2147483648,
{
    reveal(multiplier);
    reveal(offset);
}

} // verus!
