//! Rules written as text: `START:END = LEVEL, LEVEL, ...` for a sequence and
//! `START:END > LEVEL, ...` for a set, several joined by `&`; and the check
//! that no two rules claim the same position or level.
use vstd::prelude::*;
use bit_set::BitSet;
use crate::bitset::{
    bitset_view, bitset_len, bitset_capacity, bitset_with_capacity, bitset_insert, bitset_elements, ascending,
    lemma_ascending, lemma_enumeration_len,
};
use crate::error::{FinderError, Failure, reports};
use crate::levels::{LevelData, lookup_outcome, lookup_name, lemma_lookup_in_rush};
use crate::rules::{Rule, RuleShape, shapes};
use crate::text::{
    split_first, split_once, pieces, is_char, texts, trimmed, trim, decimal_i32, parse_i32, split_on,
    string_from, chars_of, joined, join_with_space, text_of,
};

verus! {

/// Where the index `i` points in a rush of `n` levels: from the front when it
/// is not negative, from the back when it is; outside the rush it is refused.
pub open spec fn index_outcome(i: int, n: int) -> Result<usize, Failure> {
    if i < 0 {
        if i >= -n {
            Ok((i + n) as usize)
        } else {
            Err(Failure::IndexOutOfRange { value: i })
        }
    } else if i < n {
        Ok(i as usize)
    } else {
        Err(Failure::IndexOutOfRange { value: i })
    }
}

/// The level (its position in the rush) that a piece of a level list names:
/// an index if the trimmed piece is a number, else a level name.
pub open spec fn id_outcome(piece: Seq<char>, s: Set<usize>, data: LevelData) -> Result<usize, Failure> {
    let t = trimmed(piece);
    match decimal_i32(t) {
        Some(i) => index_outcome(i, s.len() as int),
        None => lookup_outcome(t, s, data),
    }
}

/// The levels that the pieces name, in order, or the first piece's failure.
pub open spec fn ids_outcome(ps: Seq<Seq<char>>, s: Set<usize>, data: LevelData) -> Result<Seq<usize>, Failure>
    decreases ps.len(),
{
    if ps.len() == 0 {
        Ok(Seq::empty())
    } else {
        match ids_outcome(ps.drop_last(), s, data) {
            Err(f) => Err(f),
            Ok(v) => match id_outcome(ps.last(), s, data) {
                Err(f) => Err(f),
                Ok(x) => Ok(v.push(x)),
            },
        }
    }
}

/// A range bound: `default` when the trimmed text is empty, else an index.
pub open spec fn bound_outcome(t: Seq<char>, default: int, n: int) -> Result<usize, Failure> {
    if t.len() == 0 {
        Ok(default as usize)
    } else {
        match decimal_i32(t) {
            Some(i) => slice_bound_outcome(i, n),
            None => Err(Failure::UnparsableIndex { text: t }),
        }
    }
}

/// Where a range bound `i` falls in a rush of `n` levels, as a Python slice
/// bound: from the front when it is not negative, from the back when it is,
/// anywhere from the start to the end of the rush (both included); outside
/// that it is refused.
pub open spec fn slice_bound_outcome(i: int, n: int) -> Result<usize, Failure> {
    if i < 0 {
        if i >= -n {
            Ok((i + n) as usize)
        } else {
            Err(Failure::IndexOutOfRange { value: i })
        }
    } else if i <= n {
        Ok(i as usize)
    } else {
        Err(Failure::IndexOutOfRange { value: i })
    }
}

/// The text after the `:` split at the relation: at the first `=` (a
/// sequence) if there is one, else at the first `>` (a set).
pub open spec fn relation_split(rest: Seq<char>) -> Option<(Seq<char>, Seq<char>, bool)> {
    match split_first(rest, '=') {
        Some((b, l)) => Some((b, l, true)),
        None => match split_first(rest, '>') {
            Some((b, l)) => Some((b, l, false)),
            None => None,
        },
    }
}

/// The positions `a..b` fitted to `count` levels: a range too small is
/// refused; a sequence's range that is too large is shortened at an end left
/// open (the end first), and refused when both ends were given.
pub open spec fn placed(a: int, b: int, count: int, is_seq: bool, a_text: Seq<char>, b_text: Seq<char>) -> Result<(int, int), Failure> {
    if b <= a || b - a < count {
        Err(Failure::RangeTooSmall { start: a_text, end: b_text })
    } else if is_seq && b - a > count {
        if b_text.len() == 0 {
            Ok((a, a + count))
        } else if a_text.len() == 0 {
            Ok((b - count, b))
        } else {
            Err(Failure::RangeTooLarge { start: a_text, end: b_text })
        }
    } else {
        Ok((a, b))
    }
}

/// The levels as the bytes of a sequence rule.
pub open spec fn level_bytes(ids: Seq<usize>) -> Seq<u8> {
    ids.map_values(|x: usize| x as u8)
}

/// The rule that the description states for the rush `s`, or why there is none.
pub open spec fn rule_outcome(d: Seq<char>, s: Set<usize>, data: LevelData) -> Result<RuleShape, Failure> {
    let n = s.len() as int;
    match split_first(d, ':') {
        None => Err(Failure::MissingColon { description: d }),
        Some((a_part, rest)) => match relation_split(rest) {
            None => Err(Failure::MissingRelation { description: d }),
            Some((b_part, list, is_seq)) => match ids_outcome(pieces(list, is_char(',')), s, data) {
                Err(f) => Err(f),
                Ok(ids) => {
                    let count = if is_seq { ids.len() as int } else { ids.to_set().len() as int };
                    let a_text = trimmed(a_part);
                    let b_text = trimmed(b_part);
                    if count == 0 {
                        Err(Failure::EmptyLevelList { description: d })
                    } else {
                        match bound_outcome(a_text, 0, n) {
                            Err(f) => Err(f),
                            Ok(a) => match bound_outcome(b_text, n, n) {
                                Err(f) => Err(f),
                                Ok(b) => match placed(a as int, b as int, count, is_seq, a_text, b_text) {
                                    Err(f) => Err(f),
                                    Ok((start, end)) => Ok(
                                        if is_seq {
                                            RuleShape::Sequence { start, end, levels: level_bytes(ids) }
                                        } else {
                                            RuleShape::Subset { start, end, members: ids.to_set() }
                                        },
                                    ),
                                },
                            },
                        }
                    }
                },
            },
        },
    }
}

/// `r` reports the outcome `o`: a rule that states the same, or the same failure.
pub open spec fn reports_rule(r: Result<Rule, FinderError>, o: Result<RuleShape, Failure>) -> bool {
    match (r, o) {
        (Ok(x), Ok(y)) => x.shape() == y,
        (Err(e), Err(f)) => e.describes(f),
        _ => false,
    }
}

/// The index that `t` spells, if it is a number (see [`index_outcome`]).
fn parse_index(t: &[char], n: usize) -> (r: Result<Option<usize>, FinderError>)
    requires
        n <= i32::MAX,
    ensures
        match decimal_i32(t@) {
            None => r == Ok::<Option<usize>, FinderError>(None),
            Some(i) => match (r, index_outcome(i, n as int)) {
                (Ok(Some(v)), Ok(w)) => v == w && v < n,
                (Err(e), Err(f)) => e.describes(f),
                _ => false,
            },
        },
{
    match parse_i32(t) {
        None => Ok(None),
        Some(i) => {
            let len = n as i32;
            if i < 0 {
                if i >= -len {
                    Ok(Some((i + len) as usize))
                } else {
                    Err(FinderError::IndexOutOfRange { value: i })
                }
            } else if i < len {
                Ok(Some(i as usize))
            } else {
                Err(FinderError::IndexOutOfRange { value: i })
            }
        },
    }
}

/// The level that a piece of a level list names (see [`id_outcome`]).
fn resolve_id(piece: &[char], level_set: &BitSet, n: usize, data: &LevelData) -> (r: Result<usize, FinderError>)
    requires
        n == bitset_view(*level_set).len(),
        n <= i32::MAX,
    ensures
        reports(r, id_outcome(piece@, bitset_view(*level_set), *data)),
        r matches Ok(v) ==> v < n,
{
    let t = trim(piece);
    match parse_index(t.as_slice(), n) {
        Err(e) => Err(e),
        Ok(Some(i)) => Ok(i),
        Ok(None) => {
            let name = string_from(t.as_slice());
            lookup_name(name.as_str(), level_set, data)
        },
    }
}

/// A range bound (see [`bound_outcome`]).
fn guess_bound(t: &[char], default: usize, n: usize) -> (r: Result<usize, FinderError>)
    requires
        n <= i32::MAX,
        default <= n,
    ensures
        reports(r, bound_outcome(t@, default as int, n as int)),
        r matches Ok(v) ==> v <= n,
{
    if t.len() == 0 {
        return Ok(default);
    }
    match parse_i32(t) {
        None => Err(FinderError::UnparsableIndex { text: string_from(t) }),
        Some(i) => {
            let len = n as i32;
            if i < 0 {
                if i >= -len {
                    Ok((i + len) as usize)
                } else {
                    Err(FinderError::IndexOutOfRange { value: i })
                }
            } else if i <= len {
                Ok(i as usize)
            } else {
                Err(FinderError::IndexOutOfRange { value: i })
            }
        },
    }
}

/// Once a prefix of the pieces fails, so do all of them, with the same failure.
proof fn lemma_ids_failure_stays(ps: Seq<Seq<char>>, k: int, s: Set<usize>, data: LevelData)
    requires
        0 <= k <= ps.len(),
        ids_outcome(ps.take(k), s, data) is Err,
    ensures
        ids_outcome(ps, s, data) == ids_outcome(ps.take(k), s, data),
    decreases ps.len() - k,
{
    if k < ps.len() {
        assert(ps.take(k + 1).drop_last() =~= ps.take(k));
        lemma_ids_failure_stays(ps, k + 1, s, data);
    } else {
        assert(ps.take(k) =~= ps);
    }
}

/// The rule that `description` states for the rush `level_set` (see [`rule_outcome`]).
pub fn guess_rule_once(description: &str, level_set: &BitSet, data: &LevelData) -> (r: Result<Rule, FinderError>)
    requires
        bitset_view(*level_set).len() <= i32::MAX,
    ensures
        reports_rule(r, rule_outcome(description@, bitset_view(*level_set), *data)),
        r matches Ok(rule) ==> shape_fits(rule.shape(), bitset_view(*level_set).len() as int),
{
    let ghost s = bitset_view(*level_set);
    let ghost d = description@;
    let chars = chars_of(description);
    let (a_part, rest) = match split_once(chars.as_slice(), ':') {
        Some(parts) => parts,
        None => {
            return Err(FinderError::MissingColon { description: description.to_owned() });
        },
    };
    let (b_part, list, is_seq) = match split_once(rest.as_slice(), '=') {
        Some((b, l)) => (b, l, true),
        None => match split_once(rest.as_slice(), '>') {
            Some((b, l)) => (b, l, false),
            None => {
                return Err(FinderError::MissingRelation { description: description.to_owned() });
            },
        },
    };
    assert(relation_split(rest@) == Some((b_part@, list@, is_seq)));
    let n = bitset_len(level_set);
    let parts = split_on(list.as_slice(), ',');
    let ghost ps = pieces(list@, is_char(','));
    assert(texts(parts@) == ps);
    let mut ids: Vec<usize> = Vec::new();
    let mut k: usize = 0;
    while k < parts.len()
        invariant
            k <= parts.len(),
            texts(parts@) == ps,
            n == s.len(),
            n <= i32::MAX,
            s == bitset_view(*level_set),
            ids_outcome(ps.take(k as int), s, *data) == Ok::<Seq<usize>, Failure>(ids@),
            forall|j: int| 0 <= j < ids@.len() ==> #[trigger] ids@[j] < n,
            d == description@,
            split_first(d, ':') == Some((a_part@, rest@)),
            relation_split(rest@) == Some((b_part@, list@, is_seq)),
            ps == pieces(list@, is_char(',')),
        decreases parts.len() - k,
    {
        proof {
            assert(ps.take(k + 1).drop_last() =~= ps.take(k as int));
            assert(ps.take(k + 1).last() == parts@[k as int]@);
        }
        match resolve_id(parts[k].as_slice(), level_set, n, data) {
            Err(e) => {
                proof {
                    lemma_ids_failure_stays(ps, k + 1, s, *data);
                }
                return Err(e);
            },
            Ok(x) => {
                ids.push(x);
            },
        }
        k = k + 1;
    }
    assert(ps.take(parts.len() as int) =~= ps);
    let ids_done = ids;
    let ghost idv = ids_done@;
    assert(ids_outcome(ps, s, *data) == Ok::<Seq<usize>, Failure>(idv));
    let a_text = trim(a_part.as_slice());
    let b_text = trim(b_part.as_slice());
    // The rule's levels, before its positions are known.
    let mut levels_seq: Vec<u8> = Vec::new();
    let mut levels_set = bitset_with_capacity(bitset_capacity(level_set));
    let count = if is_seq {
        let mut j: usize = 0;
        while j < ids_done.len()
            invariant
                j <= ids_done.len(),
                ids_done@ == idv,
                levels_seq@ == level_bytes(idv.take(j as int)),
            decreases ids_done.len() - j,
        {
            levels_seq.push(#[verifier::truncate] (ids_done[j] as u8));
            j = j + 1;
            assert(levels_seq@ =~= level_bytes(idv.take(j as int)));
        }
        assert(idv.take(idv.len() as int) =~= idv);
        levels_seq.len()
    } else {
        let mut j: usize = 0;
        while j < ids_done.len()
            invariant
                j <= ids_done.len(),
                ids_done@ == idv,
                n <= i32::MAX,
                forall|t: int| 0 <= t < idv.len() ==> #[trigger] idv[t] < n,
                bitset_view(levels_set) == idv.take(j as int).to_set(),
            decreases ids_done.len() - j,
        {
            assert(idv[j as int] < n);
            bitset_insert(&mut levels_set, ids_done[j]);
            proof {
                assert(idv.take(j + 1) =~= idv.take(j as int).push(idv[j as int]));
                idv.take(j as int).lemma_push_to_set_commute(idv[j as int]);
            }
            j = j + 1;
        }
        assert(idv.take(idv.len() as int) =~= idv);
        bitset_len(&levels_set)
    };
    if count == 0 {
        return Err(FinderError::EmptyLevelList { description: description.to_owned() });
    }
    let a = match guess_bound(a_text.as_slice(), 0, n) {
        Ok(v) => v,
        Err(e) => {
            return Err(e);
        },
    };
    let b = match guess_bound(b_text.as_slice(), n, n) {
        Ok(v) => v,
        Err(e) => {
            return Err(e);
        },
    };
    if b <= a || b - a < count {
        return Err(
            FinderError::RangeTooSmall { start: string_from(a_text.as_slice()), end: string_from(b_text.as_slice()) },
        );
    }
    let mut start = a;
    let mut end = b;
    if is_seq && b - a > count {
        if b_text.len() == 0 {
            end = b - ((b - a) - count);
        } else if a_text.len() == 0 {
            start = a + ((b - a) - count);
        } else {
            return Err(
                FinderError::RangeTooLarge { start: string_from(a_text.as_slice()), end: string_from(b_text.as_slice()) },
            );
        }
    }
    proof {
        lemma_levels_fit(idv, n as int);
    }
    if is_seq {
        Ok(Rule::Sequence(start, end, levels_seq))
    } else {
        Ok(Rule::Subset(start, end, levels_set))
    }
}

/// A claim that the overlap check meets: rule `rule` constrains position
/// `value` of the order (`on_level` false) or names level `value` of the rush
/// (its position in the rush; `on_level` true).
pub ghost struct Claim {
    pub on_level: bool,
    pub rule: int,
    pub value: int,
}

/// The claim of position `start + t` by rule `i`.
pub open spec fn position_claim(i: int, start: int) -> spec_fn(int) -> Claim {
    |t: int| Claim { on_level: false, rule: i, value: start + t }
}

/// The claim of level `x` by rule `i`.
pub open spec fn level_claim(i: int) -> spec_fn(usize) -> Claim {
    |x: usize| Claim { on_level: true, rule: i, value: x as int }
}

/// The number of positions `start..end` (none when `end <= start`).
pub open spec fn span(r: RuleShape) -> nat {
    if r.end() > r.start() {
        (r.end() - r.start()) as nat
    } else {
        0
    }
}

/// The claims of rule `i`: its positions in order, then its levels in order.
pub open spec fn rule_claims(i: int, r: RuleShape) -> Seq<Claim> {
    Seq::new(span(r), position_claim(i, r.start())) + r.codomain().map_values(level_claim(i))
}

/// The claims of all the rules, rule by rule.
pub open spec fn claims(rules: Seq<RuleShape>) -> Seq<Claim>
    decreases rules.len(),
{
    if rules.len() == 0 {
        Seq::empty()
    } else {
        claims(rules.drop_last()) + rule_claims(rules.len() - 1, rules.last())
    }
}

/// The state of the overlap check: the positions and levels claimed so far,
/// each with the rule that claimed it; or the first overlap; or a claim
/// outside the rush (which the check cannot record).
pub ghost enum Scan {
    Clear { positions: Map<int, int>, levels: Map<int, int> },
    Overlap { failure: Failure },
    OutOfRange,
}

/// The check after one more claim, in a rush with the levels `s`.
pub open spec fn scan_step(st: Scan, c: Claim, s: Set<usize>) -> Scan {
    match st {
        Scan::Clear { positions, levels } => if !(0 <= c.value < s.len()) {
            Scan::OutOfRange
        } else if !c.on_level {
            if positions.contains_key(c.value) {
                Scan::Overlap {
                    failure: Failure::DomainOverlap { first: positions[c.value], second: c.rule, position: c.value },
                }
            } else {
                Scan::Clear { positions: positions.insert(c.value, c.rule), levels }
            }
        } else {
            if levels.contains_key(c.value) {
                Scan::Overlap {
                    failure: Failure::CodomainOverlap {
                        first: levels[c.value],
                        second: c.rule,
                        index: c.value,
                        level: ascending(s)[c.value] as int,
                    },
                }
            } else {
                Scan::Clear { positions, levels: levels.insert(c.value, c.rule) }
            }
        },
        _ => st,
    }
}

/// The check after the claims `cs`, in order.
pub open spec fn scan(cs: Seq<Claim>, s: Set<usize>) -> Scan
    decreases cs.len(),
{
    if cs.len() == 0 {
        Scan::Clear { positions: Map::empty(), levels: Map::empty() }
    } else {
        scan_step(scan(cs.drop_last(), s), cs.last(), s)
    }
}

/// The first overlap among the rules, if any.
pub open spec fn overlap_outcome(rules: Seq<RuleShape>, s: Set<usize>) -> Result<(), Failure> {
    match scan(claims(rules), s) {
        Scan::Overlap { failure } => Err(failure),
        _ => Ok(()),
    }
}

/// Once the check has stopped, further claims change nothing.
pub proof fn lemma_scan_stops(a: Seq<Claim>, b: Seq<Claim>, s: Set<usize>)
    requires
        !(scan(a, s) is Clear),
    ensures
        scan(a + b, s) == scan(a, s),
    decreases b.len(),
{
    if b.len() == 0 {
        assert(a + b =~= a);
    } else {
        lemma_scan_stops(a, b.drop_last(), s);
        assert((a + b).drop_last() =~= a + b.drop_last());
    }
}

/// The claims of the first `i` rules begin the claims of all of them, and
/// rule `i` adds its own after them.
proof fn lemma_claims_prefix(rules: Seq<RuleShape>, i: int)
    requires
        0 <= i < rules.len(),
    ensures
        claims(rules.take(i + 1)) == claims(rules.take(i)) + rule_claims(i, rules[i]),
        claims(rules.take(i + 1)).len() <= claims(rules).len(),
        claims(rules).take(claims(rules.take(i + 1)).len() as int) == claims(rules.take(i + 1)),
    decreases rules.len() - i,
{
    assert(rules.take(i + 1).drop_last() =~= rules.take(i));
    if i + 1 == rules.len() {
        assert(rules.take(i + 1) =~= rules);
        assert(claims(rules).take(claims(rules).len() as int) =~= claims(rules));
    } else {
        lemma_claims_prefix(rules, i + 1);
        let c1 = claims(rules.take(i + 1));
        let c2 = claims(rules.take(i + 2));
        assert(c2 == c1 + rule_claims(i + 1, rules[i + 1]));
        assert(claims(rules).take(c1.len() as int) =~= c2.take(c1.len() as int));
        assert(c2.take(c1.len() as int) =~= c1);
    }
}

/// `v` records the map `m` for the indices `0..n`.
pub open spec fn records(v: Seq<Option<usize>>, m: Map<int, int>, n: int, count: int) -> bool {
    &&& v.len() == n
    &&& forall|j: int| 0 <= j < n ==> #[trigger] v[j] == if m.contains_key(j) {
        Some(m[j] as usize)
    } else {
        None::<usize>
    }
    &&& forall|j: int| #[trigger] m.contains_key(j) ==> 0 <= j < n && 0 <= m[j] < count
}

/// `n` empty slots.
fn empty_slots(n: usize) -> (r: Vec<Option<usize>>)
    ensures
        r@.len() == n,
        forall|j: int| 0 <= j < n ==> #[trigger] r@[j] == None::<usize>,
{
    let mut out: Vec<Option<usize>> = Vec::new();
    let mut k: usize = 0;
    while k < n
        invariant
            k <= n,
            out@.len() == k,
            forall|j: int| 0 <= j < k ==> #[trigger] out@[j] == None::<usize>,
        decreases n - k,
    {
        out.push(None);
        k = k + 1;
    }
    out
}

/// Whether two rules claim the same position of the order or the same level
/// of the rush (see [`overlap_outcome`]): the first such overlap, in the order
/// in which rule after rule claims its positions and then its levels.
pub fn check_rules(rules: &[Rule], level_set: &BitSet) -> (r: Result<(), FinderError>)
    requires
        !(scan(claims(shapes(rules@)), bitset_view(*level_set)) is OutOfRange),
    ensures
        reports(r, overlap_outcome(shapes(rules@), bitset_view(*level_set))),
{
    let ghost s = bitset_view(*level_set);
    let ghost sh = shapes(rules@);
    let ghost all = claims(sh);
    let n = bitset_len(level_set);
    let members = bitset_elements(level_set);
    proof {
        lemma_ascending(members@, s);
        lemma_enumeration_len(members@, s);
    }
    let mut domains = empty_slots(n);
    let mut codomains = empty_slots(n);
    let ghost mut done: Seq<Claim> = Seq::empty();
    let ghost mut positions: Map<int, int> = Map::empty();
    let ghost mut levels: Map<int, int> = Map::empty();
    let mut i: usize = 0;
    assert(sh.take(0) =~= Seq::<RuleShape>::empty());
    while i < rules.len()
        invariant
            i <= rules.len(),
            n == s.len(),
            s == bitset_view(*level_set),
            members@ == ascending(s),
            members@.len() == n,
            sh == shapes(rules@),
            all == claims(sh),
            !(scan(all, s) is OutOfRange),
            done == claims(sh.take(i as int)),
            done.len() <= all.len(),
            all.take(done.len() as int) == done,
            scan(done, s) == (Scan::Clear { positions, levels }),
            records(domains@, positions, n as int, i as int),
            records(codomains@, levels, n as int, i as int),
        decreases rules.len() - i,
    {
        let rule = &rules[i];
        let ghost shape = rule.shape();
        assert(shape == sh[i as int]);
        proof {
            lemma_claims_prefix(sh, i as int);
        }
        let ghost base = done;
        let ghost own = rule_claims(i as int, shape);
        let ghost next = claims(sh.take(i + 1));
        assert(next == base + own);
        let range = rule.iter_domain();
        let mut j = range.start;
        while j < range.end
            invariant
                i < rules.len(),
                range.start == shape.start(),
                range.end == shape.end(),
                range.start <= j <= range.end || (range.end <= range.start && j == range.start),
                n == s.len(),
                members@ == ascending(s),
                members@.len() == n,
                sh == shapes(rules@),
                s == bitset_view(*level_set),
                all == claims(sh),
                !(scan(all, s) is OutOfRange),
                own == rule_claims(i as int, shape),
                next == base + own,
                next.len() <= all.len(),
                all.take(next.len() as int) == next,
                done == base + own.take(j - range.start),
                scan(done, s) == (Scan::Clear { positions, levels }),
                records(domains@, positions, n as int, i + 1),
                records(codomains@, levels, n as int, i + 1),
            decreases range.end - j,
        {
            let c = Ghost(Claim { on_level: false, rule: i as int, value: j as int });
            proof {
                assert(own[j - range.start] == c@);
                assert(own.take(j - range.start + 1) =~= own.take(j - range.start).push(c@));
                assert(all.take(done.len() + 1int) =~= done.push(c@)) by {
                    assert(all.take(next.len() as int)[done.len() as int] == next[done.len() as int]);
                }
                assert(done.push(c@).drop_last() =~= done);
                lemma_stop_check(all, done.push(c@), s);
            }
            if j >= n {
                proof {
                    assert(scan(done.push(c@), s) is OutOfRange);
                }
                return Ok(());
            }
            match domains[j] {
                Some(first) => {
                    proof {
                        assert(domains@[j as int] == Some(first));
                        assert(positions.contains_key(j as int));
                        assert(first as int == positions[j as int]);
                        assert(scan(done.push(c@), s) == (Scan::Overlap {
                            failure: Failure::DomainOverlap { first: first as int, second: i as int, position: j as int },
                        }));
                    }
                    return Err(FinderError::DomainOverlap { first, second: i, position: j });
                },
                None => {
                    domains.set(j, Some(i));
                    proof {
                        positions = positions.insert(j as int, i as int);
                        done = done.push(c@);
                    }
                },
            }
            j = j + 1;
        }
        let levels_of = rule.iter_codomain();
        let ghost pos_part = own.take(span(shape) as int);
        assert(done == base + pos_part) by {
            if range.end <= range.start {
                assert(span(shape) == 0);
            }
        }
        let mut k: usize = 0;
        while k < levels_of.len()
            invariant
                i < rules.len(),
                levels_of@ == shape.codomain(),
                n == s.len(),
                members@ == ascending(s),
                members@.len() == n,
                sh == shapes(rules@),
                s == bitset_view(*level_set),
                all == claims(sh),
                !(scan(all, s) is OutOfRange),
                own == rule_claims(i as int, shape),
                next == base + own,
                next.len() <= all.len(),
                all.take(next.len() as int) == next,
                done == base + own.take(span(shape) + k),
                k <= levels_of.len(),
                scan(done, s) == (Scan::Clear { positions, levels }),
                records(domains@, positions, n as int, i + 1),
                records(codomains@, levels, n as int, i + 1),
            decreases levels_of.len() - k,
        {
            let x = levels_of[k];
            let c = Ghost(Claim { on_level: true, rule: i as int, value: x as int });
            proof {
                assert(own[span(shape) + k] == c@);
                assert(own.take(span(shape) + k + 1) =~= own.take(span(shape) + k).push(c@));
                assert(all.take(done.len() + 1int) =~= done.push(c@)) by {
                    assert(all.take(next.len() as int)[done.len() as int] == next[done.len() as int]);
                }
                assert(done.push(c@).drop_last() =~= done);
                lemma_stop_check(all, done.push(c@), s);
            }
            if x >= n {
                proof {
                    assert(scan(done.push(c@), s) is OutOfRange);
                }
                return Ok(());
            }
            match codomains[x] {
                Some(first) => {
                    proof {
                        assert(codomains@[x as int] == Some(first));
                        assert(levels.contains_key(x as int));
                        assert(first as int == levels[x as int]);
                        assert(scan(done.push(c@), s) == (Scan::Overlap {
                            failure: Failure::CodomainOverlap {
                                first: first as int,
                                second: i as int,
                                index: x as int,
                                level: members@[x as int] as int,
                            },
                        }));
                    }
                    return Err(FinderError::CodomainOverlap { first, second: i, index: x, level: members[x] });
                },
                None => {
                    codomains.set(x, Some(i));
                    proof {
                        levels = levels.insert(x as int, i as int);
                        done = done.push(c@);
                    }
                },
            }
            k = k + 1;
        }
        proof {
            assert(own.take(span(shape) + k) =~= own);
        }
        i = i + 1;
    }
    assert(sh.take(rules.len() as int) =~= sh);
    Ok(())
}

/// A prefix `p` of the claims on which the check has stopped decides the whole check.
proof fn lemma_stop_check(all: Seq<Claim>, p: Seq<Claim>, s: Set<usize>)
    requires
        p.len() <= all.len(),
        all.take(p.len() as int) == p,
    ensures
        !(scan(p, s) is Clear) ==> scan(all, s) == scan(p, s),
{
    if !(scan(p, s) is Clear) {
        lemma_scan_stops(p, all.skip(p.len() as int), s);
        assert(p + all.skip(p.len() as int) =~= all);
    }
}

/// The rule lies within a rush of `n` levels: its positions are a range of
/// `0..n`, its levels are levels of the rush, and it has room for them (a
/// sequence exactly one position per level).
pub open spec fn shape_fits(sh: RuleShape, n: int) -> bool {
    &&& 0 <= sh.start() <= sh.end() <= n
    &&& match sh {
        RuleShape::Sequence { start, end, levels } => levels.len() == end - start
            && forall|k: int| 0 <= k < levels.len() ==> #[trigger] levels[k] < n,
        RuleShape::Subset { start, end, members } => members.finite() && members.len() <= end - start
            && forall|x: usize| #[trigger] members.contains(x) ==> x < n,
    }
}

/// Every level that a level list names is a position within the rush.
proof fn lemma_ids_in_rush(ps: Seq<Seq<char>>, s: Set<usize>, data: LevelData)
    requires
        s.finite(),
        data.all_levels@.len() <= usize::MAX,
    ensures
        ids_outcome(ps, s, data) matches Ok(ids) ==> forall|k: int| 0 <= k < ids.len() ==> #[trigger] ids[k] < s.len(),
    decreases ps.len(),
{
    if ps.len() > 0 {
        lemma_ids_in_rush(ps.drop_last(), s, data);
        let t = trimmed(ps.last());
        lemma_lookup_in_rush(t, s, data);
    }
}

/// Levels of the rush stay levels of it as the bytes of a sequence rule and as a set.
proof fn lemma_levels_fit(ids: Seq<usize>, n: int)
    requires
        forall|k: int| 0 <= k < ids.len() ==> #[trigger] ids[k] < n,
    ensures
        forall|k: int| 0 <= k < level_bytes(ids).len() ==> #[trigger] level_bytes(ids)[k] < n,
        ids.to_set().finite(),
        forall|x: usize| #[trigger] ids.to_set().contains(x) ==> x < n,
{
    assert forall|k: int| 0 <= k < level_bytes(ids).len() implies #[trigger] level_bytes(ids)[k] < n by {
        assert(ids[k] < n);
        if ids[k] < 256 {
            assert(level_bytes(ids)[k] == ids[k]);
        }
    }
    vstd::seq_lib::seq_to_set_is_finite(ids);
    assert forall|x: usize| #[trigger] ids.to_set().contains(x) implies x < n by {
        let k = choose|k: int| 0 <= k < ids.len() && ids[k] == x;
        assert(ids[k] < n);
    }
}

/// A rule read from a description lies within the rush (see [`shape_fits`]).
pub proof fn lemma_rule_fits(d: Seq<char>, s: Set<usize>, data: LevelData)
    requires
        s.finite(),
        s.len() <= i32::MAX,
        data.all_levels@.len() <= usize::MAX,
    ensures
        rule_outcome(d, s, data) matches Ok(sh) ==> shape_fits(sh, s.len() as int),
{
    let n = s.len() as int;
    if let Some((a_part, rest)) = split_first(d, ':') {
        if let Some((b_part, list, is_seq)) = relation_split(rest) {
            let ps = pieces(list, is_char(','));
            lemma_ids_in_rush(ps, s, data);
            if let Ok(ids) = ids_outcome(ps, s, data) {
                lemma_levels_fit(ids, n);
            }
        }
    }
}

/// Every claim of rules that lie within a rush of `n` levels is a position or level of it.
proof fn lemma_claims_in_rush(rules: Seq<RuleShape>, n: int)
    requires
        forall|k: int| 0 <= k < rules.len() ==> #[trigger] shape_fits(rules[k], n),
    ensures
        forall|k: int| 0 <= k < claims(rules).len() ==> 0 <= #[trigger] claims(rules)[k].value < n,
    decreases rules.len(),
{
    if rules.len() > 0 {
        let init = rules.drop_last();
        assert forall|k: int| 0 <= k < init.len() implies #[trigger] shape_fits(init[k], n) by {
            assert(init[k] == rules[k]);
        }
        lemma_claims_in_rush(init, n);
        let r = rules.last();
        assert(shape_fits(r, n));
        let own = rule_claims(rules.len() - 1, r);
        let m = span(r) as int;
        if let RuleShape::Subset { members, .. } = r {
            crate::bitset::lemma_ascending_enumerates(members);
        }
        assert forall|k: int| 0 <= k < own.len() implies 0 <= #[trigger] own[k].value < n by {
            if k >= m {
                let x = r.codomain()[k - m];
                match r {
                    RuleShape::Sequence { levels, .. } => {
                        assert(x == levels[k - m] as usize);
                    },
                    RuleShape::Subset { members, .. } => {
                        assert(ascending(members).contains(x));
                        assert(members.contains(x));
                    },
                }
            }
        }
        let all = claims(rules);
        assert(all == claims(init) + own);
        assert forall|k: int| 0 <= k < all.len() implies 0 <= #[trigger] all[k].value < n by {
            if k < claims(init).len() {
                assert(all[k] == claims(init)[k]);
            } else {
                assert(all[k] == own[k - claims(init).len()]);
            }
        }
    }
}

/// With every claim within the rush, the check never meets one outside it.
proof fn lemma_scan_in_rush(cs: Seq<Claim>, s: Set<usize>)
    requires
        forall|k: int| 0 <= k < cs.len() ==> 0 <= #[trigger] cs[k].value < s.len(),
    ensures
        !(scan(cs, s) is OutOfRange),
    decreases cs.len(),
{
    if cs.len() > 0 {
        assert forall|k: int| 0 <= k < cs.drop_last().len() implies 0 <= #[trigger] cs.drop_last()[k].value < s.len() by {
            assert(cs.drop_last()[k] == cs[k]);
        }
        lemma_scan_in_rush(cs.drop_last(), s);
        assert(0 <= cs[cs.len() - 1].value < s.len());
    }
}

/// The overlap check of rules that lie within the rush always decides (it never
/// meets a position or level outside the rush).
pub proof fn lemma_fitting_rules_decide(rules: Seq<RuleShape>, s: Set<usize>)
    requires
        forall|k: int| 0 <= k < rules.len() ==> #[trigger] shape_fits(rules[k], s.len() as int),
    ensures
        !(scan(claims(rules), s) is OutOfRange),
{
    lemma_claims_in_rush(rules, s.len() as int);
    lemma_scan_in_rush(claims(rules), s);
}

/// The rules that the pieces state, in order, or the first piece's failure.
pub open spec fn rules_outcome(ps: Seq<Seq<char>>, s: Set<usize>, data: LevelData) -> Result<Seq<RuleShape>, Failure>
    decreases ps.len(),
{
    if ps.len() == 0 {
        Ok(Seq::empty())
    } else {
        match rules_outcome(ps.drop_last(), s, data) {
            Err(f) => Err(f),
            Ok(v) => match rule_outcome(ps.last(), s, data) {
                Err(f) => Err(f),
                Ok(x) => Ok(v.push(x)),
            },
        }
    }
}

/// The rules that the words of a description state for the rush `s`: the
/// words joined with spaces, split at every `&`, each piece read as a rule;
/// the first piece that fails decides, and then the rules must not overlap.
pub open spec fn description_outcome(words: Seq<String>, s: Set<usize>, data: LevelData) -> Result<Seq<RuleShape>, Failure> {
    let d = joined(words.map_values(text_of()), seq![' ']);
    match rules_outcome(pieces(d, is_char('&')), s, data) {
        Err(f) => Err(f),
        Ok(rs) => match overlap_outcome(rs, s) {
            Err(f) => Err(f),
            Ok(_) => Ok(rs),
        },
    }
}

/// Once a prefix of the pieces fails, so do all of them, with the same failure.
pub(crate) proof fn lemma_rules_failure_stays(ps: Seq<Seq<char>>, k: int, s: Set<usize>, data: LevelData)
    requires
        0 <= k <= ps.len(),
        rules_outcome(ps.take(k), s, data) is Err,
    ensures
        rules_outcome(ps, s, data) == rules_outcome(ps.take(k), s, data),
    decreases ps.len() - k,
{
    if k < ps.len() {
        assert(ps.take(k + 1).drop_last() =~= ps.take(k));
        lemma_rules_failure_stays(ps, k + 1, s, data);
    } else {
        assert(ps.take(k) =~= ps);
    }
}

/// The characters of each word.
fn word_chars(words: &[String]) -> (r: Vec<Vec<char>>)
    ensures
        texts(r@) == words@.map_values(text_of()),
{
    let mut out: Vec<Vec<char>> = Vec::new();
    let mut k: usize = 0;
    while k < words.len()
        invariant
            k <= words.len(),
            texts(out@) == words@.take(k as int).map_values(text_of()),
        decreases words.len() - k,
    {
        let part = chars_of(words[k].as_str());
        let ghost before = out@;
        out.push(part);
        proof {
            assert(words@.take(k + 1) =~= words@.take(k as int).push(words@[k as int]));
            assert(texts(out@) =~= texts(before).push(part@));
            assert(words@.take(k + 1).map_values(text_of()) =~= words@.take(k as int).map_values(text_of()).push(
                text_of()(words@[k as int]),
            ));
        }
        k = k + 1;
    }
    assert(words@.take(words.len() as int) =~= words@);
    out
}

/// The rules that the words of `description` state for the rush `level_set`
/// (see [`description_outcome`]).
pub fn guess_rules_from_description(description: &[String], level_set: &BitSet, data: &LevelData) -> (r: Result<
    Vec<Rule>,
    FinderError,
>)
    requires
        bitset_view(*level_set).len() <= i32::MAX,
    ensures
        match (r, description_outcome(description@, bitset_view(*level_set), *data)) {
            (Ok(v), Ok(rs)) => shapes(v@) == rs,
            (Err(e), Err(f)) => e.describes(f),
            _ => false,
        },
        r matches Ok(v) ==> forall|k: int| 0 <= k < v@.len() ==> #[trigger] shape_fits(
            v@[k].shape(),
            bitset_view(*level_set).len() as int,
        ),
{
    let ghost s = bitset_view(*level_set);
    let words = word_chars(description);
    let joined_text = join_with_space(words.as_slice());
    let ghost d = joined_text@;
    assert(d == joined(description@.map_values(text_of()), seq![' ']));
    let parts = split_on(joined_text.as_slice(), '&');
    let ghost ps = pieces(d, is_char('&'));
    assert(texts(parts@) == ps);
    let mut rules: Vec<Rule> = Vec::new();
    let mut k: usize = 0;
    assert(ps.take(0) =~= Seq::<Seq<char>>::empty());
    assert(shapes(rules@) =~= Seq::<RuleShape>::empty());
    while k < parts.len()
        invariant
            k <= parts.len(),
            texts(parts@) == ps,
            ps == pieces(d, is_char('&')),
            d == joined(description@.map_values(text_of()), seq![' ']),
            s == bitset_view(*level_set),
            s.len() <= i32::MAX,
            rules_outcome(ps.take(k as int), s, *data) == Ok::<Seq<RuleShape>, Failure>(shapes(rules@)),
            forall|j: int| 0 <= j < rules@.len() ==> #[trigger] shape_fits(rules@[j].shape(), s.len() as int),
        decreases parts.len() - k,
    {
        proof {
            assert(ps.take(k + 1).drop_last() =~= ps.take(k as int));
            assert(ps.take(k + 1).last() == parts@[k as int]@);
        }
        let piece = string_from(parts[k].as_slice());
        match guess_rule_once(piece.as_str(), level_set, data) {
            Err(e) => {
                proof {
                    lemma_rules_failure_stays(ps, k + 1, s, *data);
                }
                return Err(e);
            },
            Ok(rule) => {
                let ghost before = rules@;
                rules.push(rule);
                assert(shapes(rules@) =~= shapes(before).push(rule.shape()));
            },
        }
        k = k + 1;
    }
    assert(ps.take(parts.len() as int) =~= ps);
    proof {
        assert forall|j: int| 0 <= j < shapes(rules@).len() implies #[trigger] shape_fits(shapes(rules@)[j], s.len() as int) by {
            assert(shape_fits(rules@[j].shape(), s.len() as int));
        }
        lemma_fitting_rules_decide(shapes(rules@), s);
    }
    match check_rules(rules.as_slice(), level_set) {
        Err(e) => Err(e),
        Ok(()) => Ok(rules),
    }
}

/// No position and no level is claimed twice.
pub open spec fn claimed_once(cs: Seq<Claim>) -> bool {
    forall|p: int, q: int|
        #![trigger cs[p], cs[q]]
        0 <= p < q < cs.len() && cs[p].on_level == cs[q].on_level ==> cs[p].value != cs[q].value
}

/// Some claim of the kind `on_level` is of `v`.
pub open spec fn is_claimed(cs: Seq<Claim>, on_level: bool, v: int) -> bool {
    exists|k: int| 0 <= k < cs.len() && #[trigger] cs[k].on_level == on_level && cs[k].value == v
}

/// While the check runs clear, it records exactly what has been claimed, and
/// it runs clear exactly as long as nothing has been claimed twice.
proof fn lemma_scan_records(cs: Seq<Claim>, s: Set<usize>)
    requires
        forall|k: int| 0 <= k < cs.len() ==> 0 <= #[trigger] cs[k].value < s.len(),
    ensures
        (scan(cs, s) is Clear) == claimed_once(cs),
        scan(cs, s) matches Scan::Clear { positions, levels } ==> (forall|v: int|
            #[trigger] positions.contains_key(v) <==> is_claimed(cs, false, v)) && (forall|v: int|
            #[trigger] levels.contains_key(v) <==> is_claimed(cs, true, v)),
    decreases cs.len(),
{
    if cs.len() == 0 {
        assert(claimed_once(cs));
    } else {
        let init = cs.drop_last();
        let c = cs.last();
        let last = cs.len() - 1;
        assert forall|k: int| 0 <= k < init.len() implies 0 <= #[trigger] init[k].value < s.len() by {
            assert(init[k] == cs[k]);
        }
        lemma_scan_records(init, s);
        assert(0 <= cs[last].value < s.len());
        assert forall|b: bool, v: int| #[trigger] is_claimed(cs, b, v) <==> is_claimed(init, b, v) || (c.on_level == b && c.value
            == v) by {
            if is_claimed(cs, b, v) {
                let k = choose|k: int| 0 <= k < cs.len() && #[trigger] cs[k].on_level == b && cs[k].value == v;
                if k < last {
                    assert(init[k] == cs[k]);
                }
            }
            if is_claimed(init, b, v) {
                let k = choose|k: int| 0 <= k < init.len() && #[trigger] init[k].on_level == b && init[k].value == v;
                assert(cs[k] == init[k]);
            }
            if c.on_level == b && c.value == v {
                assert(cs[last].on_level == b && cs[last].value == v);
            }
        }
        if claimed_once(init) {
            if is_claimed(init, c.on_level, c.value) {
                let k = choose|k: int| 0 <= k < init.len() && #[trigger] init[k].on_level == c.on_level && init[k].value
                    == c.value;
                assert(cs[k] == init[k]);
                assert(!claimed_once(cs));
            } else {
                assert forall|p: int, q: int| 0 <= p < q < cs.len() && cs[p].on_level == cs[q].on_level implies cs[p].value
                    != cs[q].value by {
                    if q < last {
                        assert(cs[p] == init[p] && cs[q] == init[q]);
                    } else {
                        assert(cs[p] == init[p]);
                        if cs[p].value == cs[q].value {
                            assert(init[p].on_level == c.on_level && init[p].value == c.value);
                            assert(is_claimed(init, c.on_level, c.value));
                        }
                    }
                }
            }
        } else {
            let (p, q) = choose|p: int, q: int|
                #![trigger init[p], init[q]]
                0 <= p < q < init.len() && init[p].on_level == init[q].on_level && init[p].value == init[q].value;
            assert(cs[p] == init[p] && cs[q] == init[q]);
        }
    }
}

/// The overlap check accepts exactly the rules, lying within the rush, of
/// which no two claim the same position or the same level (a rule that names
/// a level twice claims it twice).
pub proof fn lemma_overlap_check_exact(rules: Seq<RuleShape>, s: Set<usize>)
    requires
        forall|k: int| 0 <= k < rules.len() ==> #[trigger] shape_fits(rules[k], s.len() as int),
    ensures
        overlap_outcome(rules, s) is Ok <==> claimed_once(claims(rules)),
{
    lemma_claims_in_rush(rules, s.len() as int);
    lemma_scan_in_rush(claims(rules), s);
    lemma_scan_records(claims(rules), s);
}

/// The levels of a list that reads come one per piece.
proof fn lemma_ids_one_per_piece(ps: Seq<Seq<char>>, s: Set<usize>, data: LevelData)
    ensures
        ids_outcome(ps, s, data) matches Ok(ids) ==> ids.len() == ps.len(),
        ids_outcome(ps, s, data) matches Err(f) ==> !(f is EmptyLevelList),
    decreases ps.len(),
{
    if ps.len() > 0 {
        lemma_ids_one_per_piece(ps.drop_last(), s, data);
    }
}

/// A rule's level list is never empty: splitting at `,` always leaves a
/// piece, and each piece names a level or fails.
pub proof fn lemma_level_list_nonempty(d: Seq<char>, s: Set<usize>, data: LevelData)
    ensures
        !(rule_outcome(d, s, data) matches Err(Failure::EmptyLevelList { .. })),
{
    if let Some((a_part, rest)) = split_first(d, ':') {
        if let Some((b_part, list, is_seq)) = relation_split(rest) {
            let ps = pieces(list, is_char(','));
            crate::text::lemma_pieces_nonempty(list, is_char(','));
            lemma_ids_one_per_piece(ps, s, data);
            if let Ok(ids) = ids_outcome(ps, s, data) {
                assert(ids.len() >= 1);
                ids.lemma_cardinality_of_empty_set_is_0();
                vstd::seq_lib::seq_to_set_is_finite(ids);
                assert(ids.to_set().len() != 0);
            }
        }
    }
}

/// A set rule keeps the range it was given, whatever the number of levels it
/// lists: its start is the bound before the `:` (0 when omitted) and its end
/// the bound between the `:` and the `>` (the rush's length when omitted),
/// each counted from the back of the rush when negative.  Only sequence rules
/// are shortened to their levels.
pub proof fn lemma_set_rule_keeps_range(d: Seq<char>, s: Set<usize>, data: LevelData)
    requires
        s.len() <= i32::MAX,
    ensures
        rule_outcome(d, s, data) matches Ok(RuleShape::Subset { start, end, members }) ==> {
            let (a_part, rest) = split_first(d, ':').unwrap();
            let (b_part, list) = split_first(rest, '>').unwrap();
            &&& split_first(d, ':') is Some
            &&& split_first(rest, '=') is None
            &&& split_first(rest, '>') is Some
            &&& (trimmed(a_part).len() == 0 ==> start == 0)
            &&& (trimmed(b_part).len() == 0 ==> end == s.len())
            &&& (decimal_i32(trimmed(a_part)) matches Some(i) ==> start == if i < 0 { i + s.len() } else { i })
            &&& (decimal_i32(trimmed(b_part)) matches Some(i) ==> end == if i < 0 { i + s.len() } else { i })
        },
{
    let n = s.len() as int;
    if let Ok(RuleShape::Subset { start, end, members }) = rule_outcome(d, s, data) {
        let (a_part, rest) = split_first(d, ':').unwrap();
        let (b_part, list, is_seq) = relation_split(rest).unwrap();
        assert(!is_seq);
        assert(split_first(rest, '=') is None);
        assert(split_first(rest, '>') == Some((b_part, list)));
        let ids = ids_outcome(pieces(list, is_char(',')), s, data)->Ok_0;
        let count = ids.to_set().len() as int;
        let a_text = trimmed(a_part);
        let b_text = trimmed(b_part);
        let a = bound_outcome(a_text, 0, n)->Ok_0;
        let b = bound_outcome(b_text, n, n)->Ok_0;
        assert(placed(a as int, b as int, count, false, a_text, b_text) == Ok::<(int, int), Failure>((a as int, b as int)));
        assert(start == a && end == b);
    }
}

/// A sequence rule covers exactly as many positions as it lists levels, inside
/// the rush.  A bound that the description gives is kept (counted from the
/// back when negative); only an omitted bound moves: with the start omitted
/// and the end omitted too, the rule starts at position 0.
pub proof fn lemma_sequence_rule_range(d: Seq<char>, s: Set<usize>, data: LevelData)
    requires
        s.len() <= i32::MAX,
    ensures
        rule_outcome(d, s, data) matches Ok(RuleShape::Sequence { start, end, levels }) ==> {
            let (a_part, rest) = split_first(d, ':').unwrap();
            let (b_part, list) = split_first(rest, '=').unwrap();
            let a_given = decimal_i32(trimmed(a_part));
            let b_given = decimal_i32(trimmed(b_part));
            &&& split_first(d, ':') is Some
            &&& split_first(rest, '=') is Some
            &&& end - start == levels.len()
            &&& 0 <= start <= end <= s.len()
            &&& (trimmed(a_part).len() == 0 && trimmed(b_part).len() == 0 ==> start == 0)
            &&& (a_given matches Some(i) ==> start == if i < 0 { i + s.len() } else { i })
            &&& (b_given matches Some(i) ==> end == if i < 0 { i + s.len() } else { i })
        },
{
    let n = s.len() as int;
    if let Ok(RuleShape::Sequence { start, end, levels }) = rule_outcome(d, s, data) {
        let (a_part, rest) = split_first(d, ':').unwrap();
        let (b_part, list, is_seq) = relation_split(rest).unwrap();
        assert(is_seq);
        assert(split_first(rest, '=') == Some((b_part, list)));
        let ids = ids_outcome(pieces(list, is_char(',')), s, data)->Ok_0;
        let count = ids.len() as int;
        let a_text = trimmed(a_part);
        let b_text = trimmed(b_part);
        let a = bound_outcome(a_text, 0, n)->Ok_0;
        let b = bound_outcome(b_text, n, n)->Ok_0;
        assert(a <= n && b <= n);
        assert(levels == level_bytes(ids));
    }
}

} // verus!
