//! Sets of level indices, held in `bit_set::BitSet`.
//!
//! The bit set is used as the `bit_set` crate provides it; the items below
//! give its methods contracts over [`bitset_view`], the set of indices that a
//! bit set holds, as that crate's source shows them.
use vstd::prelude::*;
use bit_set::BitSet;

verus! {

/// `bit_set::BitSet`, known to the verifier as an opaque type.
#[verifier::external_type_specification]
#[verifier::external_body]
#[verifier::reject_recursive_types(B)]
pub struct ExBitSet<B>(BitSet<B>);

/// The set of indices that `s` holds.
pub uninterp spec fn bitset_view(s: BitSet) -> Set<usize>;

/// `q` lists the members of `s` in increasing order.
pub open spec fn enumerates(q: Seq<usize>, s: Set<usize>) -> bool {
    &&& forall|i: int, j: int| 0 <= i < j < q.len() ==> q[i] < q[j]
    &&& forall|x: usize| #[trigger] s.contains(x) <==> q.contains(x)
}

/// The members of `s` in increasing order.
pub open spec fn ascending(s: Set<usize>) -> Seq<usize> {
    choose|q: Seq<usize>| enumerates(q, s)
}

/// `BitSet::with_capacity`: a new bit set with room for `nbits` indices holds none.
#[verifier::external_body]
pub(crate) fn bitset_with_capacity(nbits: usize) -> (r: BitSet)
    ensures
        bitset_view(r) == Set::<usize>::empty(),
{
    BitSet::with_capacity(nbits)
}

/// `BitSet::capacity`: how many indices the bit set has room for (a hint; nothing is stated of it).
#[verifier::external_body]
pub(crate) fn bitset_capacity(s: &BitSet) -> usize {
    s.capacity()
}

/// `BitSet::contains`: whether `value` is held.
#[verifier::external_body]
pub(crate) fn bitset_contains(s: &BitSet, value: usize) -> (r: bool)
    ensures
        r == bitset_view(*s).contains(value),
{
    s.contains(value)
}

/// `BitSet::insert`: adds `value`, returning whether it was new.  The crate
/// grows the bits to `value + 1`, which overflows (and panics) for `usize::MAX`.
#[verifier::external_body]
pub(crate) fn bitset_insert(s: &mut BitSet, value: usize) -> (r: bool)
    requires
        value < usize::MAX,
    ensures
        bitset_view(*final(s)) == bitset_view(*old(s)).insert(value),
        r == !bitset_view(*old(s)).contains(value),
{
    s.insert(value)
}

/// `BitSet::len`: the number of indices held.
#[verifier::external_body]
pub(crate) fn bitset_len(s: &BitSet) -> (r: usize)
    ensures
        r == bitset_view(*s).len(),
{
    s.len()
}

/// `BitSet::iter`, collected: the indices held, in increasing order (the
/// iterator walks the blocks from the lowest and each block from its lowest bit).
#[verifier::external_body]
pub(crate) fn bitset_elements(s: &BitSet) -> (r: Vec<usize>)
    ensures
        enumerates(r@, bitset_view(*s)),
{
    s.iter().collect()
}

/// An increasing enumeration of a set is unique.
pub proof fn lemma_enumeration_unique(q1: Seq<usize>, q2: Seq<usize>, s: Set<usize>)
    requires
        enumerates(q1, s),
        enumerates(q2, s),
    ensures
        q1 == q2,
    decreases q1.len(),
{
    if q1.len() == 0 {
        if q2.len() > 0 {
            assert(q2.contains(q2[0]));
            assert(s.contains(q2[0]));
            assert(q1.contains(q2[0]));
        }
        assert(q1 =~= q2);
    } else {
        assert(q1.contains(q1[0]));
        assert(s.contains(q1[0]));
        assert(q2.contains(q1[0]));
        assert(q2.len() > 0);
        assert(q2.contains(q2[0]));
        assert(s.contains(q2[0]));
        assert(q1.contains(q2[0]));
        // both first elements are the minimum
        let k1 = choose|k: int| 0 <= k < q2.len() && q2[k] == q1[0];
        let k2 = choose|k: int| 0 <= k < q1.len() && q1[k] == q2[0];
        if k1 > 0 {
            assert(q2[0] < q2[k1]);
        }
        if k2 > 0 {
            assert(q1[0] < q1[k2]);
        }
        assert(q1[0] == q2[0]);
        let x = q1[0];
        let r1 = q1.drop_first();
        let r2 = q2.drop_first();
        let rest = s.remove(x);
        assert forall|y: usize| #[trigger] rest.contains(y) <==> r1.contains(y) by {
            if r1.contains(y) {
                let k = choose|k: int| 0 <= k < r1.len() && r1[k] == y;
                assert(q1[k + 1] == y);
                assert(q1[0] < q1[k + 1]);
                assert(q1.contains(y));
                assert(s.contains(y));
            }
            if rest.contains(y) {
                assert(s.contains(y));
                assert(q1.contains(y));
                let k = choose|k: int| 0 <= k < q1.len() && q1[k] == y;
                assert(k != 0);
                assert(r1[k - 1] == y);
            }
        }
        assert forall|y: usize| #[trigger] rest.contains(y) <==> r2.contains(y) by {
            if r2.contains(y) {
                let k = choose|k: int| 0 <= k < r2.len() && r2[k] == y;
                assert(q2[k + 1] == y);
                assert(q2[0] < q2[k + 1]);
                assert(q2.contains(y));
                assert(s.contains(y));
            }
            if rest.contains(y) {
                assert(s.contains(y));
                assert(q2.contains(y));
                let k = choose|k: int| 0 <= k < q2.len() && q2[k] == y;
                assert(k != 0);
                assert(r2[k - 1] == y);
            }
        }
        lemma_enumeration_unique(r1, r2, rest);
        assert(q1 =~= seq![x] + r1);
        assert(q2 =~= seq![x] + r2);
    }
}

/// Whatever enumerates `s` is [`ascending`]`(s)`.
pub proof fn lemma_ascending(q: Seq<usize>, s: Set<usize>)
    requires
        enumerates(q, s),
    ensures
        ascending(s) == q,
{
    lemma_enumeration_unique(ascending(s), q, s);
}

/// A finite nonempty set of indices has a greatest member.
proof fn lemma_greatest_exists(s: Set<usize>)
    requires
        s.finite(),
        s.len() > 0,
    ensures
        exists|m: usize| #[trigger] s.contains(m) && forall|y: usize| #[trigger] s.contains(y) ==> y <= m,
    decreases s.len(),
{
    let x = s.choose();
    assert(s.contains(x));
    let rest = s.remove(x);
    if rest.len() == 0 {
        assert forall|y: usize| #[trigger] s.contains(y) implies y <= x by {
            if y != x {
                assert(rest.contains(y));
            }
        }
    } else {
        lemma_greatest_exists(rest);
        let m = choose|m: usize| #[trigger] rest.contains(m) && forall|y: usize| #[trigger] rest.contains(y) ==> y <= m;
        let g = if m < x { x } else { m };
        assert(s.contains(g));
        assert forall|y: usize| #[trigger] s.contains(y) implies y <= g by {
            if y != x {
                assert(rest.contains(y));
            }
        }
    }
}

/// Every finite set of indices is listed, in increasing order, by [`ascending`].
pub proof fn lemma_ascending_enumerates(s: Set<usize>)
    requires
        s.finite(),
    ensures
        enumerates(ascending(s), s),
    decreases s.len(),
{
    if s.len() == 0 {
        assert(s =~= Set::<usize>::empty());
        assert(enumerates(Seq::<usize>::empty(), s));
    } else {
        lemma_greatest_exists(s);
        let m = choose|m: usize| #[trigger] s.contains(m) && forall|y: usize| #[trigger] s.contains(y) ==> y <= m;
        let rest = s.remove(m);
        lemma_ascending_enumerates(rest);
        let q = ascending(rest).push(m);
        assert forall|i: int, j: int| 0 <= i < j < q.len() implies q[i] < q[j] by {
            if j == q.len() - 1 {
                assert(ascending(rest).contains(q[i]));
                assert(rest.contains(q[i]));
            }
        }
        assert forall|y: usize| #[trigger] s.contains(y) <==> q.contains(y) by {
            if s.contains(y) && y != m {
                assert(rest.contains(y));
                assert(ascending(rest).contains(y));
                let k = choose|k: int| 0 <= k < ascending(rest).len() && ascending(rest)[k] == y;
                assert(q[k] == y);
            }
            if s.contains(y) && y == m {
                assert(q[q.len() - 1] == y);
            }
            if q.contains(y) {
                let k = choose|k: int| 0 <= k < q.len() && q[k] == y;
                if k < q.len() - 1 {
                    assert(ascending(rest)[k] == y);
                    assert(ascending(rest).contains(y));
                }
            }
        }
        assert(enumerates(q, s));
    }
}

/// An increasing enumeration has as many entries as the set has members.
pub proof fn lemma_enumeration_len(q: Seq<usize>, s: Set<usize>)
    requires
        enumerates(q, s),
    ensures
        q.len() == s.len(),
        s.finite(),
{
    assert(q.no_duplicates()) by {
        assert forall|i: int, j: int| 0 <= i < q.len() && 0 <= j < q.len() && i != j implies q[i] != q[j] by {
            if i < j {
                assert(q[i] < q[j]);
            } else {
                assert(q[j] < q[i]);
            }
        }
    }
    assert(q.to_set() =~= s);
    q.unique_seq_to_set();
    vstd::seq_lib::seq_to_set_is_finite(q);
}

} // verus!
