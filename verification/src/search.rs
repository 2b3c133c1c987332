//! The search over seeds: the seeds of a range whose order meets the rules,
//! and the seeds that the GPU search reports.
use vstd::prelude::*;
use crate::rules::{Rule, rule_holds, rule_fits, subset_bytes, sequence_bytes, seed_matches};
use crate::shuffle::linear_shuffle;
use crate::frontend::shape_fits;

verus! {

/// The seeds `a, a + 1, ..., b - 1`.
pub open spec fn seed_range(a: int, b: int) -> Seq<int> {
    Seq::new(if b > a { (b - a) as nat } else { 0 }, |t: int| a + t)
}

/// The order of a rush of `n` levels for `seed` meets every rule.
pub open spec fn meets(rules: Seq<Rule>, n: nat) -> spec_fn(int) -> bool {
    |seed: int| forall|k: int| 0 <= k < rules.len() ==> #[trigger] rule_holds(rules[k], linear_shuffle(n, seed))
}

/// The seeds of `a..b` whose order meets the rules, in increasing order.
pub open spec fn matching_in(rules: Seq<Rule>, n: nat, a: int, b: int) -> Seq<int> {
    seed_range(a, b).filter(meets(rules, n))
}

/// The first `limit` entries of `q` (all of them when there are fewer).
pub open spec fn first_entries(q: Seq<int>, limit: int) -> Seq<int> {
    if q.len() <= limit {
        q
    } else {
        q.take(limit)
    }
}

/// Extending the range by one seed adds that seed when it matches.
proof fn lemma_range_step(rules: Seq<Rule>, n: nat, a: int, b: int)
    requires
        a <= b,
    ensures
        matching_in(rules, n, a, b + 1) == if meets(rules, n)(b) {
            matching_in(rules, n, a, b).push(b)
        } else {
            matching_in(rules, n, a, b)
        },
{
    assert(seed_range(a, b + 1) =~= seed_range(a, b).push(b));
    seed_range(a, b).lemma_filter_push(b, meets(rules, n));
}

/// The matches of a shorter range begin the matches of a longer one.
proof fn lemma_range_prefix(rules: Seq<Rule>, n: nat, a: int, b: int, c: int)
    requires
        a <= b <= c,
    ensures
        matching_in(rules, n, a, b).len() <= matching_in(rules, n, a, c).len(),
        matching_in(rules, n, a, c).take(matching_in(rules, n, a, b).len() as int) == matching_in(rules, n, a, b),
    decreases c - b,
{
    if b < c {
        lemma_range_prefix(rules, n, a, b, c - 1);
        lemma_range_step(rules, n, a, c - 1);
        let short = matching_in(rules, n, a, b);
        let mid = matching_in(rules, n, a, c - 1);
        let long = matching_in(rules, n, a, c);
        assert(long.take(short.len() as int) =~= mid.take(short.len() as int));
    } else {
        let q = matching_in(rules, n, a, b);
        assert(q.take(q.len() as int) =~= q);
    }
}

/// The first `limit` seeds of `start..end`, in increasing order, whose order
/// for a rush of `level_count` levels meets the rules (tested against their
/// flat encoding).  The end may be `2^31`, so that the range reaches the last
/// seed, `i32::MAX`.
pub fn matching_seeds(
    level_count: u8,
    rules: &[Rule],
    subset_rules: &[u8],
    sequence_rules: &[u8],
    start: i32,
    end: i64,
    limit: usize,
) -> (r: Vec<i32>)
    requires
        0 <= start,
        end <= 0x8000_0000,
        level_count <= 96,
        forall|k: int| 0 <= k < rules@.len() ==> #[trigger] rule_fits(rules@[k], level_count as nat),
        subset_rules@ == subset_bytes(rules@),
        sequence_rules@ == sequence_bytes(rules@),
    ensures
        r@.map_values(|s: i32| s as int) == first_entries(
            matching_in(rules@, level_count as nat, start as int, end as int),
            limit as int,
        ),
{
    let ghost n = level_count as nat;
    let mut found: Vec<i32> = Vec::new();
    let mut buf: Vec<u8> = Vec::new();
    let mut s: i64 = start as i64;
    assert(seed_range(start as int, start as int) =~= Seq::<int>::empty());
    assert(matching_in(rules@, n, start as int, start as int) =~= Seq::<int>::empty()) by {
        reveal(Seq::filter);
    }
    assert(found@.map_values(|x: i32| x as int) =~= Seq::<int>::empty());
    if limit == 0 {
        return found;
    }
    while s < end
        invariant
            0 <= start <= s,
            end <= 0x8000_0000,
            s <= end || start >= end,
            start >= end ==> s == start,
            n == level_count as nat,
            level_count <= 96,
            limit > 0,
            forall|k: int| 0 <= k < rules@.len() ==> #[trigger] rule_fits(rules@[k], level_count as nat),
            subset_rules@ == subset_bytes(rules@),
            sequence_rules@ == sequence_bytes(rules@),
            found@.map_values(|x: i32| x as int) == matching_in(rules@, n, start as int, s as int),
            found@.len() < limit,
        decreases end - s,
    {
        let seed = s as i32;
        let ok = seed_matches(level_count, seed, rules, subset_rules, sequence_rules, &mut buf);
        proof {
            lemma_range_step(rules@, n, start as int, s as int);
            assert(ok == meets(rules@, n)(s as int));
        }
        let ghost before = found@;
        if ok {
            found.push(seed);
            assert(found@.map_values(|x: i32| x as int) =~= before.map_values(|x: i32| x as int).push(s as int));
        }
        s = s + 1;
        if found.len() == limit {
            proof {
                lemma_range_prefix(rules@, n, start as int, s as int, end as int);
                let got = matching_in(rules@, n, start as int, s as int);
                let all = matching_in(rules@, n, start as int, end as int);
                assert(got.len() == limit);
                if all.len() <= limit {
                    assert(all =~= got);
                }
            }
            return found;
        }
    }
    proof {
        if start >= end {
            assert(seed_range(start as int, end as int) =~= seed_range(start as int, s as int));
        }
    }
    found
}

/// The seeds among the GPU's report slots: every slot that is not the empty
/// mark `u32::MAX`, in order, read as an `i32`.
pub open spec fn reported_seeds(slots: Seq<u32>) -> Seq<i32> {
    slots.filter(|x: u32| x != u32::MAX).map_values(|x: u32| x as i32)
}

/// The first `limit` seeds among the GPU's report slots (see [`reported_seeds`]).
pub fn gpu_results(slots: &[u32], limit: usize) -> (r: Vec<i32>)
    ensures
        r@.len() <= limit,
        r@ == reported_seeds(slots@).take(r@.len() as int),
        r@.len() == limit || r@ == reported_seeds(slots@),
{
    let mut out: Vec<i32> = Vec::new();
    let mut k: usize = 0;
    if limit == 0 {
        assert(out@ =~= reported_seeds(slots@).take(0));
        return out;
    }
    while k < slots.len()
        invariant
            k <= slots.len(),
            limit > 0,
            out@ == reported_seeds(slots@.take(k as int)),
            out@.len() < limit,
        decreases slots.len() - k,
    {
        proof {
            assert(slots@.take(k + 1) =~= slots@.take(k as int).push(slots@[k as int]));
            slots@.take(k as int).lemma_filter_push(slots@[k as int], |x: u32| x != u32::MAX);
        }
        let x = slots[k];
        if x != u32::MAX {
            out.push(#[verifier::truncate] (x as i32));
        }
        k = k + 1;
        assert(out@ =~= reported_seeds(slots@.take(k as int)));
        if out.len() == limit {
            proof {
                lemma_reported_prefix(slots@, k as int);
            }
            return out;
        }
    }
    assert(slots@.take(slots.len() as int) =~= slots@);
    assert(out@.take(out@.len() as int) =~= out@);
    out
}

/// The seeds reported by a prefix of the slots begin those reported by all of them.
proof fn lemma_reported_prefix(slots: Seq<u32>, k: int)
    requires
        0 <= k <= slots.len(),
    ensures
        reported_seeds(slots.take(k)).len() <= reported_seeds(slots).len(),
        reported_seeds(slots).take(reported_seeds(slots.take(k)).len() as int) == reported_seeds(slots.take(k)),
    decreases slots.len() - k,
{
    if k < slots.len() {
        lemma_reported_prefix(slots, k + 1);
        assert(slots.take(k + 1) =~= slots.take(k).push(slots[k]));
        slots.take(k).lemma_filter_push(slots[k], |x: u32| x != u32::MAX);
        let short = reported_seeds(slots.take(k));
        let mid = reported_seeds(slots.take(k + 1));
        let all = reported_seeds(slots);
        assert(all.take(short.len() as int) =~= mid.take(short.len() as int));
    } else {
        assert(slots.take(k) =~= slots);
        let q = reported_seeds(slots);
        assert(q.take(q.len() as int) =~= q);
    }
}

/// A rule that lies within a rush of at most 96 levels (as the rules read
/// from a description do) can be searched for.
pub proof fn lemma_fitting_rule_searchable(r: Rule, n: nat)
    requires
        shape_fits(r.shape(), n as int),
        n <= 96,
    ensures
        rule_fits(r, n),
{
}

} // verus!
