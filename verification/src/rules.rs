//! Rules on a rush order, their flat byte encoding, and the check of an order
//! against the encoding.
use vstd::prelude::*;
use bit_set::BitSet;
use crate::shuffle::{linear_shuffle, get_shuffled_idxs, identity_order, apply_swaps, linear_targets, lemma_apply_swaps_len};
use crate::bitset::{
    bitset_view, ascending, bitset_len, bitset_elements, bitset_contains, lemma_ascending,
};

verus! {

/// A rule on the order of a rush.
#[derive(Debug)]
pub enum Rule {
    /// Positions `a..b` hold exactly the listed levels, in this order.
    Sequence(usize, usize, Vec<u8>),
    /// Positions `a..b` hold every level of the set, in any order.
    Subset(usize, usize, BitSet),
}

impl Rule {
    /// The first position the rule constrains.
    pub open spec fn start(self) -> usize {
        match self {
            Rule::Sequence(a, _, _) => a,
            Rule::Subset(a, _, _) => a,
        }
    }

    /// One past the last position the rule constrains.
    pub open spec fn end(self) -> usize {
        match self {
            Rule::Sequence(_, b, _) => b,
            Rule::Subset(_, b, _) => b,
        }
    }

    /// The levels the rule names: a sequence in its order, a set in increasing order.
    pub open spec fn codomain(self) -> Seq<usize> {
        match self {
            Rule::Sequence(_, _, v) => v@.map_values(|x: u8| x as usize),
            Rule::Subset(_, _, s) => ascending(bitset_view(s)),
        }
    }

    /// The number of levels the rule names (for a set, its size).
    pub open spec fn level_count(self) -> nat {
        match self {
            Rule::Sequence(_, _, v) => v@.len(),
            Rule::Subset(_, _, s) => bitset_view(s).len(),
        }
    }

    /// The number of levels the rule names.
    pub fn len(&self) -> (r: usize)
        ensures
            r == self.level_count(),
    {
        match self {
            Rule::Sequence(_, _, v) => v.len(),
            Rule::Subset(_, _, s) => bitset_len(s),
        }
    }

    /// The positions the rule constrains, `a..b`.
    pub fn iter_domain(&self) -> (r: core::ops::Range<usize>)
        ensures
            r.start == self.start(),
            r.end == self.end(),
    {
        match self {
            Rule::Sequence(a, b, _) => *a..*b,
            Rule::Subset(a, b, _) => *a..*b,
        }
    }

    /// The levels the rule names, as [`Rule::codomain`] lists them.
    pub fn iter_codomain(&self) -> (r: Vec<usize>)
        ensures
            r@ == self.codomain(),
    {
        match self {
            Rule::Sequence(_, _, v) => {
                let mut out: Vec<usize> = Vec::new();
                let mut k: usize = 0;
                while k < v.len()
                    invariant
                        k <= v.len(),
                        out@ == v@.take(k as int).map_values(|x: u8| x as usize),
                    decreases v.len() - k,
                {
                    out.push(v[k] as usize);
                    k = k + 1;
                    assert(out@ =~= v@.take(k as int).map_values(|x: u8| x as usize));
                }
                assert(v@.take(v.len() as int) =~= v@);
                out
            },
            Rule::Subset(_, _, s) => {
                let out = bitset_elements(s);
                proof {
                    lemma_ascending(out@, bitset_view(*s));
                }
                out
            },
        }
    }
}


/// What a rule states, with its levels as a sequence or a set.
pub ghost enum RuleShape {
    Sequence { start: int, end: int, levels: Seq<u8> },
    Subset { start: int, end: int, members: Set<usize> },
}

impl RuleShape {
    /// The first position the rule constrains.
    pub open spec fn start(self) -> int {
        match self {
            RuleShape::Sequence { start, .. } => start,
            RuleShape::Subset { start, .. } => start,
        }
    }

    /// One past the last position the rule constrains.
    pub open spec fn end(self) -> int {
        match self {
            RuleShape::Sequence { end, .. } => end,
            RuleShape::Subset { end, .. } => end,
        }
    }

    /// The levels the rule names: a sequence in its order, a set in increasing order.
    pub open spec fn codomain(self) -> Seq<usize> {
        match self {
            RuleShape::Sequence { levels, .. } => levels.map_values(|x: u8| x as usize),
            RuleShape::Subset { members, .. } => ascending(members),
        }
    }
}

impl Rule {
    /// What the rule states.
    pub open spec fn shape(self) -> RuleShape {
        match self {
            Rule::Sequence(a, b, v) => RuleShape::Sequence { start: a as int, end: b as int, levels: v@ },
            Rule::Subset(a, b, s) => RuleShape::Subset { start: a as int, end: b as int, members: bitset_view(s) },
        }
    }
}

/// What the rules state, in order.
pub open spec fn shapes(rules: Seq<Rule>) -> Seq<RuleShape> {
    rules.map_values(|r: Rule| r.shape())
}

/// Bit `t` of the byte `x`.
pub open spec fn bit(x: u8, t: int) -> bool {
    (x >> (t as u8)) & 1u8 == 1u8
}

/// Bits `0..a` of byte `c` of the 96-bit map of the set `s`: bit `t` is set
/// when `s` holds `8 * c + t`.
pub open spec fn chunk_bits(s: Set<usize>, c: int, a: int) -> u8
    decreases a,
{
    if a <= 0 {
        0u8
    } else {
        chunk_bits(s, c, a - 1) | (if s.contains((8 * c + a - 1) as usize) {
            1u8 << ((a - 1) as u8)
        } else {
            0u8
        })
    }
}

/// The 12-byte map of the levels `0..96` that the set `s` holds.
pub open spec fn bitmap(s: Set<usize>) -> Seq<u8> {
    Seq::new(12, |c: int| chunk_bits(s, c, 8))
}

/// The flat encoding of the set rules among `rules`: for each, in order, its
/// first and end position as bytes, then the 12-byte map of its levels.
pub open spec fn subset_bytes(rules: Seq<Rule>) -> Seq<u8>
    decreases rules.len(),
{
    if rules.len() == 0 {
        Seq::empty()
    } else {
        let prev = subset_bytes(rules.drop_last());
        match rules.last() {
            Rule::Subset(a, b, s) => prev + seq![a as u8, b as u8] + bitmap(bitset_view(s)),
            Rule::Sequence(_, _, _) => prev,
        }
    }
}

/// The flat encoding of the sequence rules among `rules`: for each, in order,
/// its first and end position as bytes, then its levels.
pub open spec fn sequence_bytes(rules: Seq<Rule>) -> Seq<u8>
    decreases rules.len(),
{
    if rules.len() == 0 {
        Seq::empty()
    } else {
        let prev = sequence_bytes(rules.drop_last());
        match rules.last() {
            Rule::Sequence(a, b, v) => prev + seq![a as u8, b as u8] + v@,
            Rule::Subset(_, _, _) => prev,
        }
    }
}

/// Byte `c` of the level map of a bit set.
fn chunk_of(s: &BitSet, c: usize) -> (x: u8)
    requires
        c < 12,
    ensures
        x == chunk_bits(bitset_view(*s), c as int, 8),
{
    let mut x: u8 = 0;
    let mut t: u8 = 0;
    while t < 8
        invariant
            t <= 8,
            c < 12,
            x == chunk_bits(bitset_view(*s), c as int, t as int),
        decreases 8 - t,
    {
        let ghost before = x;
        let present = bitset_contains(s, c * 8 + t as usize);
        if present {
            x = x | (1u8 << t);
        } else {
            assert(x | 0u8 == x) by (bit_vector);
        }
        assert((8 * c + (t + 1) - 1) as usize == c * 8 + t as usize);
        assert(x == chunk_bits(bitset_view(*s), c as int, t + 1));
        t = t + 1;
    }
    x
}

/// Encodes the rules as two byte strings, `(subset_rules, sequence_rules)`:
/// every set rule as 14 bytes (first position, end position, a 12-byte map of
/// its levels `0..96`), every sequence rule as its first and end position
/// followed by its levels.  Positions are stored modulo 256.
pub fn flatten_rules(rules: &[Rule]) -> (r: (Vec<u8>, Vec<u8>))
    ensures
        r.0@ == subset_bytes(rules@),
        r.1@ == sequence_bytes(rules@),
{
    let mut subset_rules: Vec<u8> = Vec::new();
    let mut sequence_rules: Vec<u8> = Vec::new();
    let mut k: usize = 0;
    while k < rules.len()
        invariant
            k <= rules.len(),
            subset_rules@ == subset_bytes(rules@.take(k as int)),
            sequence_rules@ == sequence_bytes(rules@.take(k as int)),
        decreases rules.len() - k,
    {
        let ghost before_subsets = subset_rules@;
        let ghost before_sequences = sequence_rules@;
        assert(rules@.take(k + 1).drop_last() =~= rules@.take(k as int));
        assert(rules@.take(k + 1).last() == rules@[k as int]);
        match &rules[k] {
            Rule::Subset(a, b, s) => {
                subset_rules.push(*a as u8);
                subset_rules.push(*b as u8);
                let mut c: usize = 0;
                while c < 12
                    invariant
                        c <= 12,
                        subset_rules@ == before_subsets + seq![*a as u8, *b as u8] + bitmap(bitset_view(*s)).take(c as int),
                    decreases 12 - c,
                {
                    let x = chunk_of(s, c);
                    subset_rules.push(x);
                    c = c + 1;
                    assert(bitmap(bitset_view(*s)).take(c as int) =~= bitmap(bitset_view(*s)).take(c - 1).push(x));
                }
                assert(bitmap(bitset_view(*s)).take(12) =~= bitmap(bitset_view(*s)));
            },
            Rule::Sequence(a, b, v) => {
                sequence_rules.push(*a as u8);
                sequence_rules.push(*b as u8);
                let mut c: usize = 0;
                while c < v.len()
                    invariant
                        c <= v.len(),
                        sequence_rules@ == before_sequences + seq![*a as u8, *b as u8] + v@.take(c as int),
                    decreases v.len() - c,
                {
                    sequence_rules.push(v[c]);
                    c = c + 1;
                    assert(v@.take(c as int) =~= v@.take(c - 1).push(v@[c - 1]));
                }
                assert(v@.take(v.len() as int) =~= v@);
            },
        }
        k = k + 1;
    }
    assert(rules@.take(rules.len() as int) =~= rules@);
    (subset_rules, sequence_rules)
}


/// Some position in `a..b` of `buf` holds level `x`.
pub open spec fn present(buf: Seq<u8>, a: int, b: int, x: int) -> bool {
    exists|p: int| a <= p < b && buf[p] == x
}

/// The set record at offset `i` of `sr` holds for the order `buf`: every level
/// that its map marks appears in its positions (only the map bytes present in
/// `sr` are read).
pub open spec fn subset_record_holds(buf: Seq<u8>, sr: Seq<u8>, i: int) -> bool {
    forall|c: int, t: int|
        0 <= c < 12 && i + 2 + c < sr.len() && 0 <= t < 8 && #[trigger] bit(sr[i + 2 + c], t) ==> present(
            buf,
            sr[i] as int,
            sr[i + 1] as int,
            8 * c + t,
        )
}

/// The set record at offset `i` can be read: it has its two position bytes,
/// they give a range of `buf`, and every level there is below 96.
pub open spec fn subset_record_safe(buf: Seq<u8>, sr: Seq<u8>, i: int) -> bool {
    &&& i + 1 < sr.len()
    &&& sr[i] <= sr[i + 1] <= buf.len()
    &&& forall|p: int| sr[i] <= p < sr[i + 1] ==> #[trigger] buf[p] < 96
}

/// Every set record from offset `i` on (records are 14 bytes apart) holds.
pub open spec fn subsets_hold(buf: Seq<u8>, sr: Seq<u8>, i: int) -> bool
    decreases sr.len() + 14 - i,
{
    if i < 0 || i >= sr.len() {
        true
    } else {
        subset_record_holds(buf, sr, i) && subsets_hold(buf, sr, i + 14)
    }
}

/// The set records from offset `i` can be read up to the first that fails.
pub open spec fn subsets_safe(buf: Seq<u8>, sr: Seq<u8>, i: int) -> bool
    decreases sr.len() + 14 - i,
{
    if i < 0 || i >= sr.len() {
        true
    } else {
        subset_record_safe(buf, sr, i) && (subset_record_holds(buf, sr, i) ==> subsets_safe(buf, sr, i + 14))
    }
}

/// The offset of the sequence record after the one at `off`.
pub open spec fn sequence_next(sq: Seq<u8>, off: int) -> int {
    off + 2 + (sq[off + 1] - sq[off])
}

/// The sequence record at `off` can be read: it has both position bytes, they
/// give a range of `buf`, and its levels are all there.
pub open spec fn sequence_record_safe(buf: Seq<u8>, sq: Seq<u8>, off: int) -> bool {
    &&& 0 <= off
    &&& off + 1 < sq.len()
    &&& sq[off] <= sq[off + 1] <= buf.len()
    &&& sequence_next(sq, off) <= sq.len()
}

/// The sequence record at `off` holds: the positions of `buf` it names hold exactly its levels.
pub open spec fn sequence_record_holds(buf: Seq<u8>, sq: Seq<u8>, off: int) -> bool {
    buf.subrange(sq[off] as int, sq[off + 1] as int) == sq.subrange(off + 2, sequence_next(sq, off))
}

/// Every sequence record from `off` on holds (an unreadable record does not).
pub open spec fn sequences_hold(buf: Seq<u8>, sq: Seq<u8>, off: int) -> bool
    decreases sq.len() - off,
{
    if off < 0 || off >= sq.len() {
        true
    } else if !sequence_record_safe(buf, sq, off) {
        false
    } else {
        sequence_record_holds(buf, sq, off) && sequences_hold(buf, sq, sequence_next(sq, off))
    }
}

/// The sequence records from `off` on can be read up to the first that fails.
pub open spec fn sequences_safe(buf: Seq<u8>, sq: Seq<u8>, off: int) -> bool
    decreases sq.len() - off,
{
    if off < 0 || off >= sq.len() {
        true
    } else {
        sequence_record_safe(buf, sq, off) && (sequence_record_holds(buf, sq, off) ==> sequences_safe(
            buf,
            sq,
            sequence_next(sq, off),
        ))
    }
}

/// Setting bit `sh` of `x` sets bit `t` exactly when `t` is `sh` or bit `t` was set.
proof fn lemma_bit_or(x: u8, sh: u8, t: u8)
    by (bit_vector)
    requires
        sh < 8,
        t < 8,
    ensures
        (((x | (1u8 << sh)) >> t) & 1u8 == 1u8) == ((((x >> t) & 1u8) == 1u8) || t == sh),
{
}

/// No bit of zero is set.
proof fn lemma_bit_zero(t: u8)
    by (bit_vector)
    requires
        t < 8,
    ensures
        !(((0u8 >> t) & 1u8) == 1u8),
{
}

/// A level below 96 sits at bit `k & 7` of byte `k >> 3`.
proof fn lemma_level_split(k: u8)
    by (bit_vector)
    requires
        k < 96,
    ensures
        (k >> 3u8) < 12,
        (k & 7u8) < 8,
        (k >> 3u8) * 8 + (k & 7u8) == k,
{
}

/// A map covers a required byte exactly when each required bit is set.
proof fn lemma_covered_bits(r: u8, m: u8)
    by (bit_vector)
    ensures
        (r & !m == 0u8) == (
            ((((r >> 0u8) & 1u8) == 1u8) ==> (((m >> 0u8) & 1u8) == 1u8))
            && ((((r >> 1u8) & 1u8) == 1u8) ==> (((m >> 1u8) & 1u8) == 1u8))
            && ((((r >> 2u8) & 1u8) == 1u8) ==> (((m >> 2u8) & 1u8) == 1u8))
            && ((((r >> 3u8) & 1u8) == 1u8) ==> (((m >> 3u8) & 1u8) == 1u8))
            && ((((r >> 4u8) & 1u8) == 1u8) ==> (((m >> 4u8) & 1u8) == 1u8))
            && ((((r >> 5u8) & 1u8) == 1u8) ==> (((m >> 5u8) & 1u8) == 1u8))
            && ((((r >> 6u8) & 1u8) == 1u8) ==> (((m >> 6u8) & 1u8) == 1u8))
            && ((((r >> 7u8) & 1u8) == 1u8) ==> (((m >> 7u8) & 1u8) == 1u8))
        ),
{
}

/// `r & !m == 0` exactly when every bit of `r` is a bit of `m`.
proof fn lemma_covered(r: u8, m: u8)
    ensures
        (r & !m == 0u8) == (forall|t: int| 0 <= t < 8 && #[trigger] bit(r, t) ==> bit(m, t)),
{
    lemma_covered_bits(r, m);
    if r & !m == 0u8 {
        assert forall|t: int| 0 <= t < 8 && #[trigger] bit(r, t) implies bit(m, t) by {
            if t == 0 {
            } else if t == 1 {
            } else if t == 2 {
            } else if t == 3 {
            } else if t == 4 {
            } else if t == 5 {
            } else if t == 6 {
            } else {
            }
        }
    } else {
        if forall|t: int| 0 <= t < 8 && #[trigger] bit(r, t) ==> bit(m, t) {
            assert(bit(r, 0) ==> bit(m, 0));
            assert(bit(r, 1) ==> bit(m, 1));
            assert(bit(r, 2) ==> bit(m, 2));
            assert(bit(r, 3) ==> bit(m, 3));
            assert(bit(r, 4) ==> bit(m, 4));
            assert(bit(r, 5) ==> bit(m, 5));
            assert(bit(r, 6) ==> bit(m, 6));
            assert(bit(r, 7) ==> bit(m, 7));
        }
    }
}

/// The 12-byte map of the levels at positions `a..b` of `buf`.
fn present_map(buf: &[u8], a: usize, b: usize) -> (m: [u8; 12])
    requires
        a <= b <= buf.len(),
        forall|p: int| a <= p < b ==> #[trigger] buf@[p] < 96,
    ensures
        forall|c: int, t: int|
            0 <= c < 12 && 0 <= t < 8 ==> (#[trigger] bit(m@[c], t) <==> present(buf@, a as int, b as int, 8 * c + t)),
{
    let mut my_set = [0u8; 12];
    proof {
        assert forall|c: int, t: int|
            0 <= c < 12 && 0 <= t < 8 implies (#[trigger] bit(my_set@[c], t) <==> present(buf@, a as int, a as int, 8 * c + t)) by {
            lemma_bit_zero(t as u8);
            assert(!bit(my_set@[c], t));
        }
    }
    let mut p = a;
    while p < b
        invariant
            a <= p <= b <= buf.len(),
            forall|q: int| a <= q < b ==> #[trigger] buf@[q] < 96,
            forall|c: int, t: int|
                0 <= c < 12 && 0 <= t < 8 ==> (#[trigger] bit(my_set@[c], t) <==> present(buf@, a as int, p as int, 8 * c + t)),
        decreases b - p,
    {
        let k = buf[p];
        proof {
            lemma_level_split(k);
        }
        let idx = (k >> 3) as usize;
        let sh = k & 7;
        let ghost before = my_set@;
        my_set[idx] = my_set[idx] | (1u8 << sh);
        proof {
            assert forall|c: int, t: int|
                0 <= c < 12 && 0 <= t < 8 implies (#[trigger] bit(my_set@[c], t) <==> present(buf@, a as int, p + 1, 8 * c + t)) by {
                if present(buf@, a as int, p as int, 8 * c + t) {
                    let w = choose|w: int| a <= w < p && buf@[w] == 8 * c + t;
                    assert(a <= w < p + 1 && buf@[w] == 8 * c + t);
                }
                if present(buf@, a as int, p + 1, 8 * c + t) && !present(buf@, a as int, p as int, 8 * c + t) {
                    let w = choose|w: int| a <= w < p + 1 && buf@[w] == 8 * c + t;
                    assert(w == p);
                }
                assert(8 * (idx as int) + (sh as int) == k as int);
                assert(bit(before[c], t) == present(buf@, a as int, p as int, 8 * c + t));
                if c == idx {
                    lemma_bit_or(before[c], sh, t as u8);
                    assert(my_set@[c] == before[c] | (1u8 << sh));
                    if buf@[p as int] == 8 * c + t {
                        assert(t == sh);
                    }
                    if t == sh {
                        assert(buf@[p as int] == 8 * c + t);
                    }
                } else {
                    assert(my_set@[c] == before[c]);
                    assert(buf@[p as int] != 8 * c + t);
                }
            }
        }
        p = p + 1;
    }
    my_set
}

/// Whether the order `buf` meets the flat rules: every set record's levels
/// appear within its positions, and every sequence record's positions hold
/// exactly its levels.
pub fn check_shuffle_matches_flattened(buf: &[u8], subset_rules: &[u8], sequence_rules: &[u8]) -> (r: bool)
    requires
        subsets_safe(buf@, subset_rules@, 0),
        subsets_hold(buf@, subset_rules@, 0) ==> sequences_safe(buf@, sequence_rules@, 0),
    ensures
        r == (subsets_hold(buf@, subset_rules@, 0) && sequences_hold(buf@, sequence_rules@, 0)),
{
    let ghost sr = subset_rules@;
    let ghost sq = sequence_rules@;
    let mut i: usize = 0;
    while i < subset_rules.len()
        invariant
            subsets_safe(buf@, sr, i as int),
            subsets_hold(buf@, sr, 0) == subsets_hold(buf@, sr, i as int),
            subsets_hold(buf@, sr, 0) ==> sequences_safe(buf@, sq, 0),
            sr == subset_rules@,
            sq == sequence_rules@,
        decreases subset_rules.len() - i,
    {
        let a = subset_rules[i] as usize;
        let b = subset_rules[i + 1] as usize;
        let my_set = present_map(buf, a, b);
        let rest = subset_rules.len() - i - 2;
        let limit = if rest < 12 { rest } else { 12 };
        let mut c: usize = 0;
        while c < limit
            invariant
                c <= limit,
                limit <= 12,
                limit == if rest < 12 { rest } else { 12 },
                i + 2 + limit <= subset_rules.len(),
                subsets_hold(buf@, sr, 0) == subsets_hold(buf@, sr, i as int),
                0 <= i < sr.len(),
                rest == sr.len() - i - 2,
                i + 1 < sr.len(),
                sr == subset_rules@,
                a == sr[i as int],
                b == sr[i + 1],
                forall|c2: int, t: int|
                    0 <= c2 < 12 && 0 <= t < 8 ==> (#[trigger] bit(my_set@[c2], t) <==> present(buf@, a as int, b as int, 8 * c2 + t)),
                forall|c2: int, t: int|
                    0 <= c2 < c && 0 <= t < 8 && #[trigger] bit(sr[i + 2 + c2], t) ==> present(buf@, a as int, b as int, 8 * c2 + t),
            decreases limit - c,
        {
            let chunk = subset_rules[i + 2 + c];
            proof {
                lemma_covered(chunk, my_set@[c as int]);
            }
            if chunk & !my_set[c] != 0 {
                proof {
                    let t = choose|t: int| 0 <= t < 8 && #[trigger] bit(chunk, t) && !bit(my_set@[c as int], t);
                    assert(bit(sr[i + 2 + c], t));
                    assert(!subset_record_holds(buf@, sr, i as int));
                }
                return false;
            }
            c = c + 1;
        }
        assert(subset_record_holds(buf@, sr, i as int));
        assert(subsets_hold(buf@, sr, i as int) == subsets_hold(buf@, sr, i + 14));
        assert(subsets_safe(buf@, sr, i + 14));
        if subset_rules.len() - i <= 14 {
            assert(subsets_hold(buf@, sr, i + 14));
            i = subset_rules.len();
        } else {
            i = i + 14;
        }
    }
    let mut off: usize = 0;
    while off < sequence_rules.len()
        invariant
            subsets_hold(buf@, sr, 0),
            sequences_safe(buf@, sq, off as int),
            sequences_hold(buf@, sq, 0) == sequences_hold(buf@, sq, off as int),
            sr == subset_rules@,
            sq == sequence_rules@,
        decreases sequence_rules.len() - off,
    {
        let a = sequence_rules[off] as usize;
        let b = sequence_rules[off + 1] as usize;
        assert(sequence_record_safe(buf@, sq, off as int));
        let start = off + 2;
        let noff = start + (b - a);
        let mut q: usize = 0;
        while q < b - a
            invariant
                q <= b - a,
                a <= b <= buf.len(),
                noff == start + (b - a),
                noff <= sq.len(),
                sq == sequence_rules@,
                a == sq[off as int],
                b == sq[off + 1],
                start == off + 2,
                noff == sequence_next(sq, off as int),
                sequences_hold(buf@, sq, 0) == sequences_hold(buf@, sq, off as int),
                subsets_hold(buf@, sr, 0),
                sr == subset_rules@,
                0 <= off < sq.len(),
                sequence_record_safe(buf@, sq, off as int),
                forall|w: int| 0 <= w < q ==> #[trigger] buf@[a + w] == sq[start + w],
            decreases b - a - q,
        {
            if buf[a + q] != sequence_rules[start + q] {
                assert(buf@.subrange(a as int, b as int)[q as int] != sq.subrange(start as int, noff as int)[q as int]);
                assert(!sequence_record_holds(buf@, sq, off as int));
                return false;
            }
            q = q + 1;
        }
        assert forall|w: int| 0 <= w < b - a implies #[trigger] buf@.subrange(a as int, b as int)[w] == sq.subrange(start as int, noff as int)[w] by {
            assert(buf@[a + w] == sq[start + w]);
        }
        assert(buf@.subrange(a as int, b as int) =~= sq.subrange(start as int, noff as int));
        assert(sequence_record_holds(buf@, sq, off as int));
        assert(sequences_hold(buf@, sq, off as int) == sequences_hold(buf@, sq, noff as int));
        off = noff;
    }
    true
}


// ---------------------------------------------------------------------------
// The flat encoding checks exactly the rules
// ---------------------------------------------------------------------------

/// The order `buf` meets the rule: a sequence rule's positions hold exactly its
/// levels, a set rule's levels all appear within its positions.
pub open spec fn rule_holds(r: Rule, buf: Seq<u8>) -> bool {
    match r {
        Rule::Sequence(a, b, v) => buf.subrange(a as int, b as int) == v@,
        Rule::Subset(a, b, s) => covers(buf, a as int, b as int, bitset_view(s)),
    }
}

/// Every member of `set` appears at some position in `a..b` of `buf`.
pub open spec fn covers(buf: Seq<u8>, a: int, b: int, set: Set<usize>) -> bool {
    forall|x: usize| #[trigger] set.contains(x) ==> present(buf, a, b, x as int)
}

/// The rule fits the encoding and an order `buf` of at most 255 levels below 96:
/// its positions are a range of `buf`, a sequence rule lists one level per
/// position, and a set rule names levels below 96.
pub open spec fn rule_encodable(r: Rule, buf: Seq<u8>) -> bool {
    &&& buf.len() <= 255
    &&& forall|p: int| 0 <= p < buf.len() ==> #[trigger] buf[p] < 96
    &&& rule_fits(r, buf.len())
}

/// The rule fits a rush of `n` levels: its positions lie in `0..n`, a sequence
/// rule lists one level per position, and a set rule names levels below 96.
pub open spec fn rule_fits(r: Rule, n: nat) -> bool {
    &&& r.start() <= r.end() <= n
    &&& match r {
        Rule::Sequence(a, b, v) => v.len() == b - a,
        Rule::Subset(_, _, s) => forall|x: usize| #[trigger] bitset_view(s).contains(x) ==> x < 96,
    }
}

/// Or-ing zero changes no bit.
proof fn lemma_bit_or_zero(x: u8, t: u8)
    by (bit_vector)
    requires
        t < 8,
    ensures
        (((x | 0u8) >> t) & 1u8 == 1u8) == (((x >> t) & 1u8) == 1u8),
{
}

/// Bit `t` of the first `a` bits of a map byte is set exactly when `t < a` and the set holds `8 * c + t`.
proof fn lemma_chunk_bits(s: Set<usize>, c: int, a: int, t: int)
    requires
        0 <= c < 12,
        0 <= a <= 8,
        0 <= t < 8,
    ensures
        bit(chunk_bits(s, c, a), t) == (t < a && s.contains((8 * c + t) as usize)),
    decreases a,
{
    if a == 0 {
        lemma_bit_zero(t as u8);
    } else {
        lemma_chunk_bits(s, c, a - 1, t);
        let prev = chunk_bits(s, c, a - 1);
        if s.contains((8 * c + a - 1) as usize) {
            lemma_bit_or(prev, (a - 1) as u8, t as u8);
        } else {
            lemma_bit_or_zero(prev, t as u8);
        }
    }
}

/// A level of a set rule sits at its bit of the rule's map.
proof fn lemma_subset_rule_member(a: usize, b: usize, s: BitSet, buf: Seq<u8>, x: usize)
    requires
        rule_holds(Rule::Subset(a, b, s), buf),
        bitset_view(s).contains(x),
    ensures
        present(buf, a as int, b as int, x as int),
{
    assert(covers(buf, a as int, b as int, bitset_view(s)));
}

/// A full set record, on its own, holds exactly when its rule does.
proof fn lemma_subset_record(buf: Seq<u8>, prefix: Seq<u8>, a: usize, b: usize, s: BitSet)
    requires
        a <= 255,
        b <= 255,
        forall|x: usize| #[trigger] bitset_view(s).contains(x) ==> x < 96,
    ensures
        subset_record_holds(buf, prefix + seq![a as u8, b as u8] + bitmap(bitset_view(s)), prefix.len() as int)
            == rule_holds(Rule::Subset(a, b, s), buf),
{
    let sr = prefix + seq![a as u8, b as u8] + bitmap(bitset_view(s));
    let i = prefix.len() as int;
    let set = bitset_view(s);
    assert(sr[i] == a as u8 && sr[i + 1] == b as u8);
    assert((a as u8) as int == a as int && (b as u8) as int == b as int);
    if subset_record_holds(buf, sr, i) {
        assert forall|x: usize| #[trigger] set.contains(x) implies present(buf, a as int, b as int, x as int) by {
            let c = (x / 8) as int;
            let t = (x % 8) as int;
            lemma_chunk_bits(set, c, 8, t);
            assert(sr[i + 2 + c] == chunk_bits(set, c, 8));
            assert(bit(sr[i + 2 + c], t));
        }
    }
    if rule_holds(Rule::Subset(a, b, s), buf) {
        assert forall|c: int, t: int|
            0 <= c < 12 && i + 2 + c < sr.len() && 0 <= t < 8 && #[trigger] bit(sr[i + 2 + c], t) implies present(
                buf,
                sr[i] as int,
                sr[i + 1] as int,
                8 * c + t,
            ) by {
            assert(sr[i + 2 + c] == chunk_bits(set, c, 8));
            lemma_chunk_bits(set, c, 8, t);
            assert(set.contains((8 * c + t) as usize));
            let x = (8 * c + t) as usize;
            assert(x as int == 8 * c + t);
            assert(set.contains(x));
            lemma_subset_rule_member(a, b, s, buf, x);
        }
    }
}

/// Set records that lie in a prefix read the same in any extension.
proof fn lemma_subset_record_prefix(buf: Seq<u8>, x: Seq<u8>, y: Seq<u8>, i: int)
    requires
        0 <= i,
        i + 14 <= x.len(),
    ensures
        subset_record_holds(buf, x + y, i) == subset_record_holds(buf, x, i),
        subset_record_safe(buf, x + y, i) == subset_record_safe(buf, x, i),
{
    let z = x + y;
    assert forall|k: int| 0 <= k < 14 implies #[trigger] z[i + k] == x[i + k] by {}
    assert(z[i] == x[i] && z[i + 1] == x[i + 1]);
    if subset_record_holds(buf, x, i) {
        assert forall|c: int, t: int|
            0 <= c < 12 && i + 2 + c < z.len() && 0 <= t < 8 && #[trigger] bit(z[i + 2 + c], t) implies present(
                buf,
                z[i] as int,
                z[i + 1] as int,
                8 * c + t,
            ) by {
            assert(z[i + 2 + c] == x[i + 2 + c]);
        }
    }
    if subset_record_holds(buf, z, i) {
        assert forall|c: int, t: int|
            0 <= c < 12 && i + 2 + c < x.len() && 0 <= t < 8 && #[trigger] bit(x[i + 2 + c], t) implies present(
                buf,
                x[i] as int,
                x[i + 1] as int,
                8 * c + t,
            ) by {
            assert(z[i + 2 + c] == x[i + 2 + c]);
        }
    }
}

/// With all its records at multiples of 14, the set fold holds exactly when every record does.
proof fn lemma_subsets_fold(buf: Seq<u8>, sr: Seq<u8>, i: int)
    requires
        sr.len() % 14 == 0,
        0 <= i,
        i % 14 == 0,
    ensures
        subsets_hold(buf, sr, i) == (forall|j: int| i <= 14 * j < sr.len() ==> #[trigger] subset_record_holds(buf, sr, 14 * j)),
        (forall|j: int| i <= 14 * j < sr.len() ==> #[trigger] subset_record_safe(buf, sr, 14 * j)) ==> subsets_safe(buf, sr, i),
    decreases sr.len() + 14 - i,
{
    if i < sr.len() {
        lemma_subsets_fold(buf, sr, i + 14);
        let j0 = i / 14;
        assert(14 * j0 == i);
        if subsets_hold(buf, sr, i) {
            assert forall|j: int| i <= 14 * j < sr.len() implies #[trigger] subset_record_holds(buf, sr, 14 * j) by {
                if 14 * j != i {
                    assert(i + 14 <= 14 * j);
                }
            }
        }
        if forall|j: int| i <= 14 * j < sr.len() ==> #[trigger] subset_record_holds(buf, sr, 14 * j) {
            assert(subset_record_holds(buf, sr, 14 * j0));
            assert forall|j: int| i + 14 <= 14 * j < sr.len() implies #[trigger] subset_record_holds(buf, sr, 14 * j) by {}
        }
        if forall|j: int| i <= 14 * j < sr.len() ==> #[trigger] subset_record_safe(buf, sr, 14 * j) {
            assert(subset_record_safe(buf, sr, 14 * j0));
            assert forall|j: int| i + 14 <= 14 * j < sr.len() implies #[trigger] subset_record_safe(buf, sr, 14 * j) by {}
        }
    }
}

/// The set part of the encoding: its records, one per set rule, are readable
/// and hold exactly when the set rules do.
proof fn lemma_subset_bytes(rules: Seq<Rule>, buf: Seq<u8>)
    requires
        forall|k: int| 0 <= k < rules.len() ==> #[trigger] rule_encodable(rules[k], buf),
    ensures
        subset_bytes(rules).len() % 14 == 0,
        forall|j: int| 0 <= 14 * j < subset_bytes(rules).len() ==> #[trigger] subset_record_safe(buf, subset_bytes(rules), 14 * j),
        (forall|j: int| 0 <= 14 * j < subset_bytes(rules).len() ==> #[trigger] subset_record_holds(buf, subset_bytes(rules), 14 * j))
            == (forall|k: int| 0 <= k < rules.len() && #[trigger] rules[k] is Subset ==> rule_holds(rules[k], buf)),
    decreases rules.len(),
{
    if rules.len() > 0 {
        let prev = rules.drop_last();
        assert forall|k: int| 0 <= k < prev.len() implies #[trigger] rule_encodable(prev[k], buf) by {
            assert(prev[k] == rules[k]);
        }
        lemma_subset_bytes(prev, buf);
        let x = subset_bytes(prev);
        let last = rules.last();
        assert(rule_encodable(rules[rules.len() - 1], buf));
        match last {
            Rule::Subset(a, b, s) => {
                let rec = seq![a as u8, b as u8] + bitmap(bitset_view(s));
                assert(subset_bytes(rules) == x + rec);
                let z = x + rec;
                assert(z.len() == x.len() + 14);
                lemma_subset_record(buf, x, a, b, s);
                assert(x + seq![a as u8, b as u8] + bitmap(bitset_view(s)) == z);
                assert forall|j: int| 0 <= 14 * j < x.len() implies
                    (#[trigger] subset_record_holds(buf, z, 14 * j) == subset_record_holds(buf, x, 14 * j))
                    && subset_record_safe(buf, z, 14 * j) == subset_record_safe(buf, x, 14 * j) by {
                    lemma_subset_record_prefix(buf, x, rec, 14 * j);
                }
                let jl = (x.len() / 14) as int;
                assert(14 * jl == x.len());
                assert(subset_record_safe(buf, z, 14 * jl)) by {
                    assert(z[x.len() as int] == a as u8 && z[x.len() as int + 1] == b as u8);
                    assert((a as u8) as int == a as int && (b as u8) as int == b as int);
                }
                assert forall|j: int| 0 <= 14 * j < z.len() implies #[trigger] subset_record_safe(buf, z, 14 * j) by {
                    if 14 * j < x.len() {
                        lemma_subset_record_prefix(buf, x, rec, 14 * j);
                        assert(subset_record_safe(buf, x, 14 * j));
                    } else {
                        assert(j == jl);
                    }
                }
                let lhs = forall|j: int| 0 <= 14 * j < z.len() ==> #[trigger] subset_record_holds(buf, z, 14 * j);
                let rhs = forall|k: int| 0 <= k < rules.len() && #[trigger] rules[k] is Subset ==> rule_holds(rules[k], buf);
                if lhs {
                    assert forall|k: int| 0 <= k < rules.len() && #[trigger] rules[k] is Subset implies rule_holds(rules[k], buf) by {
                        if k < prev.len() {
                            assert(prev[k] == rules[k]);
                            assert forall|j: int| 0 <= 14 * j < x.len() implies #[trigger] subset_record_holds(buf, x, 14 * j) by {
                                assert(subset_record_holds(buf, z, 14 * j));
                            }
                        } else {
                            assert(subset_record_holds(buf, z, 14 * jl));
                        }
                    }
                }
                if rhs {
                    assert forall|k: int| 0 <= k < prev.len() && #[trigger] prev[k] is Subset implies rule_holds(prev[k], buf) by {
                        assert(prev[k] == rules[k]);
                    }
                    assert(rules[rules.len() - 1] is Subset);
                    assert forall|j: int| 0 <= 14 * j < z.len() implies #[trigger] subset_record_holds(buf, z, 14 * j) by {
                        if 14 * j < x.len() {
                        } else {
                            assert(j == jl);
                        }
                    }
                }
            },
            Rule::Sequence(_, _, _) => {
                assert(subset_bytes(rules) == x);
                assert(!(rules[rules.len() - 1] is Subset));
                if forall|k: int| 0 <= k < prev.len() && #[trigger] prev[k] is Subset ==> rule_holds(prev[k], buf) {
                    assert forall|k: int| 0 <= k < rules.len() && #[trigger] rules[k] is Subset implies rule_holds(rules[k], buf) by {
                        if k < prev.len() {
                            assert(prev[k] == rules[k]);
                        }
                    }
                }
                if forall|k: int| 0 <= k < rules.len() && #[trigger] rules[k] is Subset ==> rule_holds(rules[k], buf) {
                    assert forall|k: int| 0 <= k < prev.len() && #[trigger] prev[k] is Subset implies rule_holds(prev[k], buf) by {
                        assert(prev[k] == rules[k]);
                    }
                }
            },
        }
    }
}


/// The sequence records from `off` on fill `sq` exactly and can all be read.
pub open spec fn sequences_wellformed(buf: Seq<u8>, sq: Seq<u8>, off: int) -> bool
    decreases sq.len() - off,
{
    if off < 0 || off > sq.len() {
        false
    } else if off == sq.len() {
        true
    } else if !sequence_record_safe(buf, sq, off) {
        false
    } else {
        sequences_wellformed(buf, sq, sequence_next(sq, off))
    }
}

/// Sequence records read the same after a prefix.
proof fn lemma_sequences_shift(buf: Seq<u8>, x: Seq<u8>, y: Seq<u8>, o: int)
    requires
        0 <= o,
    ensures
        sequences_hold(buf, x + y, x.len() + o) == sequences_hold(buf, y, o),
        sequences_safe(buf, x + y, x.len() + o) == sequences_safe(buf, y, o),
        sequences_wellformed(buf, x + y, x.len() + o) == sequences_wellformed(buf, y, o),
    decreases y.len() - o,
{
    let z = x + y;
    let p = x.len() + o;
    if o < y.len() {
        assert(z[p] == y[o]);
        if o + 1 < y.len() {
            assert(z[p + 1] == y[o + 1]);
            assert(sequence_next(z, p) == x.len() + sequence_next(y, o));
            assert(sequence_record_safe(buf, z, p) == sequence_record_safe(buf, y, o));
            if sequence_record_safe(buf, y, o) {
                assert(z.subrange(p + 2, sequence_next(z, p)) =~= y.subrange(o + 2, sequence_next(y, o)));
                assert(sequence_record_holds(buf, z, p) == sequence_record_holds(buf, y, o));
                lemma_sequences_shift(buf, x, y, sequence_next(y, o));
            }
        } else {
            assert(!sequence_record_safe(buf, z, p));
            assert(!sequence_record_safe(buf, y, o));
        }
    }
}

/// A well-formed run of sequence records followed by more records: the whole
/// holds exactly when both parts do, and is readable when the rest is.
proof fn lemma_sequences_concat(buf: Seq<u8>, x: Seq<u8>, y: Seq<u8>, off: int)
    requires
        sequences_wellformed(buf, x, off),
    ensures
        sequences_hold(buf, x + y, off) == (sequences_hold(buf, x, off) && sequences_hold(buf, y, 0)),
        sequences_wellformed(buf, x + y, off) == sequences_wellformed(buf, y, 0),
        sequences_safe(buf, y, 0) ==> sequences_safe(buf, x + y, off),
    decreases x.len() - off,
{
    let z = x + y;
    if off == x.len() {
        lemma_sequences_shift(buf, x, y, 0);
    } else {
        assert(z[off] == x[off] && z[off + 1] == x[off + 1]);
        assert(sequence_next(z, off) == sequence_next(x, off));
        assert(sequence_record_safe(buf, z, off));
        assert(z.subrange(off + 2, sequence_next(z, off)) =~= x.subrange(off + 2, sequence_next(x, off)));
        assert(sequence_record_holds(buf, z, off) == sequence_record_holds(buf, x, off));
        lemma_sequences_concat(buf, x, y, sequence_next(x, off));
    }
}

/// Well-formed sequence records can be read.
proof fn lemma_sequences_wellformed_safe(buf: Seq<u8>, sq: Seq<u8>, off: int)
    requires
        sequences_wellformed(buf, sq, off),
    ensures
        sequences_safe(buf, sq, off),
    decreases sq.len() - off,
{
    if off < sq.len() {
        lemma_sequences_wellformed_safe(buf, sq, sequence_next(sq, off));
    }
}

/// The sequence part of the encoding: its records, one per sequence rule, are
/// readable and hold exactly when the sequence rules do.
proof fn lemma_sequence_bytes(rules: Seq<Rule>, buf: Seq<u8>)
    requires
        forall|k: int| 0 <= k < rules.len() ==> #[trigger] rule_encodable(rules[k], buf),
    ensures
        sequences_wellformed(buf, sequence_bytes(rules), 0),
        sequences_hold(buf, sequence_bytes(rules), 0)
            == (forall|k: int| 0 <= k < rules.len() && #[trigger] rules[k] is Sequence ==> rule_holds(rules[k], buf)),
    decreases rules.len(),
{
    if rules.len() > 0 {
        let prev = rules.drop_last();
        assert forall|k: int| 0 <= k < prev.len() implies #[trigger] rule_encodable(prev[k], buf) by {
            assert(prev[k] == rules[k]);
        }
        lemma_sequence_bytes(prev, buf);
        let x = sequence_bytes(prev);
        assert(rule_encodable(rules[rules.len() - 1], buf));
        match rules.last() {
            Rule::Sequence(a, b, v) => {
                let rec = seq![a as u8, b as u8] + v@;
                assert(sequence_bytes(rules) == x + rec);
                assert((a as u8) as int == a as int && (b as u8) as int == b as int);
                assert(rec[0] == a as u8 && rec[1] == b as u8);
                assert(sequence_next(rec, 0) == rec.len());
                assert(sequence_record_safe(buf, rec, 0));
                assert(sequences_wellformed(buf, rec, rec.len() as int));
                assert(sequences_wellformed(buf, rec, 0));
                assert(rec.subrange(2, rec.len() as int) =~= v@);
                assert(sequences_hold(buf, rec, rec.len() as int));
                assert(sequences_hold(buf, rec, 0) == rule_holds(rules.last(), buf));
                lemma_sequences_concat(buf, x, rec, 0);
                if forall|k: int| 0 <= k < rules.len() && #[trigger] rules[k] is Sequence ==> rule_holds(rules[k], buf) {
                    assert forall|k: int| 0 <= k < prev.len() && #[trigger] prev[k] is Sequence implies rule_holds(prev[k], buf) by {
                        assert(prev[k] == rules[k]);
                    }
                    assert(rules[rules.len() - 1] is Sequence);
                }
                if sequences_hold(buf, x + rec, 0) {
                    assert forall|k: int| 0 <= k < rules.len() && #[trigger] rules[k] is Sequence implies rule_holds(rules[k], buf) by {
                        if k < prev.len() {
                            assert(prev[k] == rules[k]);
                        }
                    }
                }
            },
            Rule::Subset(_, _, _) => {
                assert(sequence_bytes(rules) == x);
                assert(!(rules[rules.len() - 1] is Sequence));
                if forall|k: int| 0 <= k < prev.len() && #[trigger] prev[k] is Sequence ==> rule_holds(prev[k], buf) {
                    assert forall|k: int| 0 <= k < rules.len() && #[trigger] rules[k] is Sequence implies rule_holds(rules[k], buf) by {
                        if k < prev.len() {
                            assert(prev[k] == rules[k]);
                        }
                    }
                }
                if forall|k: int| 0 <= k < rules.len() && #[trigger] rules[k] is Sequence ==> rule_holds(rules[k], buf) {
                    assert forall|k: int| 0 <= k < prev.len() && #[trigger] prev[k] is Sequence implies rule_holds(prev[k], buf) by {
                        assert(prev[k] == rules[k]);
                    }
                }
            },
        }
    } else {
        assert(sequence_bytes(rules) =~= Seq::<u8>::empty());
    }
}

/// Checking an order against the flat encoding of rules is checking it against
/// the rules: for rules that fit the encoding and an order of at most 255 levels
/// below 96, the check can read every record it reaches, and it succeeds
/// exactly when the order meets every rule.
pub proof fn lemma_flattened_check(rules: Seq<Rule>, buf: Seq<u8>)
    requires
        forall|k: int| 0 <= k < rules.len() ==> #[trigger] rule_encodable(rules[k], buf),
    ensures
        subsets_safe(buf, subset_bytes(rules), 0),
        sequences_safe(buf, sequence_bytes(rules), 0),
        (subsets_hold(buf, subset_bytes(rules), 0) && sequences_hold(buf, sequence_bytes(rules), 0))
            == (forall|k: int| 0 <= k < rules.len() ==> #[trigger] rule_holds(rules[k], buf)),
{
    lemma_subset_bytes(rules, buf);
    lemma_subsets_fold(buf, subset_bytes(rules), 0);
    lemma_sequence_bytes(rules, buf);
    lemma_sequences_wellformed_safe(buf, sequence_bytes(rules), 0);
    if forall|k: int| 0 <= k < rules.len() ==> #[trigger] rule_holds(rules[k], buf) {
        assert forall|k: int| 0 <= k < rules.len() && #[trigger] rules[k] is Subset implies rule_holds(rules[k], buf) by {}
        assert forall|k: int| 0 <= k < rules.len() && #[trigger] rules[k] is Sequence implies rule_holds(rules[k], buf) by {}
    }
    if subsets_hold(buf, subset_bytes(rules), 0) && sequences_hold(buf, sequence_bytes(rules), 0) {
        assert forall|k: int| 0 <= k < rules.len() implies #[trigger] rule_holds(rules[k], buf) by {
            if rules[k] is Subset {
            } else {
                assert(rules[k] is Sequence);
            }
        }
    }
}


/// Exchanging positions keeps every entry below `n`.
proof fn lemma_swaps_below(s: Seq<u8>, targets: Seq<int>, n: int)
    requires
        targets.len() <= s.len(),
        forall|k: int| 0 <= k < targets.len() ==> 0 <= #[trigger] targets[k] < s.len(),
        forall|p: int| 0 <= p < s.len() ==> #[trigger] s[p] < n,
    ensures
        forall|p: int| 0 <= p < s.len() ==> #[trigger] apply_swaps(s, targets)[p] < n,
        apply_swaps(s, targets).len() == s.len(),
    decreases targets.len(),
{
    lemma_apply_swaps_len(s, targets);
    if targets.len() > 0 {
        lemma_swaps_below(s, targets.drop_last(), n);
    }
}

/// The order for any seed is a list of `n` levels, each below `n`.
pub proof fn lemma_shuffle_levels(n: nat, seed: int)
    requires
        n <= 255,
    ensures
        linear_shuffle(n, seed).len() == n,
        forall|p: int| 0 <= p < n ==> #[trigger] linear_shuffle(n, seed)[p] < n,
{
    let targets = linear_targets(n, seed);
    assert forall|k: int| 0 <= k < targets.len() implies 0 <= #[trigger] targets[k] < n by {
        crate::shuffle::lemma_linear_target_range(n, seed, k);
    }
    lemma_swaps_below(identity_order(n), targets, n as int);
}

/// Whether the order of a rush of `level_count` levels for `seed` meets the
/// rules, checked against their flat encoding (the test that the search runs
/// for every seed); `buf` receives the order.
pub fn seed_matches(
    level_count: u8,
    seed: i32,
    rules: &[Rule],
    subset_rules: &[u8],
    sequence_rules: &[u8],
    buf: &mut Vec<u8>,
) -> (r: bool)
    requires
        0 <= seed,
        level_count <= 96,
        forall|k: int| 0 <= k < rules@.len() ==> #[trigger] rule_fits(rules@[k], level_count as nat),
        subset_rules@ == subset_bytes(rules@),
        sequence_rules@ == sequence_bytes(rules@),
    ensures
        final(buf)@ == linear_shuffle(level_count as nat, seed as int),
        r == forall|k: int| 0 <= k < rules@.len() ==> #[trigger] rule_holds(rules@[k], final(buf)@),
{
    get_shuffled_idxs(level_count, seed, buf);
    proof {
        lemma_shuffle_levels(level_count as nat, seed as int);
        assert forall|k: int| 0 <= k < rules@.len() implies #[trigger] rule_encodable(rules@[k], buf@) by {
            assert(rule_fits(rules@[k], level_count as nat));
        }
        lemma_flattened_check(rules@, buf@);
    }
    check_shuffle_matches_flattened(buf.as_slice(), subset_rules, sequence_rules)
}

} // verus!
