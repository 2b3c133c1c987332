//! The levels of the game and its rushes, and how names and abbreviations select them.
use vstd::prelude::*;
use bit_set::BitSet;
use crate::bitset::{
    bitset_view, ascending, bitset_contains, bitset_elements, bitset_len, lemma_ascending,
    lemma_ascending_enumerates, lemma_enumeration_len,
};
use crate::error::{FinderError, Failure, reports};
use crate::text::{
    abbreviates, words, lowercase, is_abbreviation, to_lowercase, chars_of, string_from, joined,
    join_with_space, texts, unspaced, remove_whitespace, decimal_i32, parse_i32, trimmed, trim,
};

verus! {

/// The game's level data: every level's name (a level is its index here), the
/// alternate names that also select a level, and the rushes, each a name and
/// the set of its levels.
#[derive(Debug)]
pub struct LevelData {
    pub all_levels: Vec<String>,
    pub alternate_names: Vec<(String, usize)>,
    pub level_sets: Vec<(String, BitSet)>,
}

/// The 16 rushes that a number selects, by number: 0 is White's rush, 1 to 12
/// the chapter rushes, 13 to 15 the side quest rushes.
pub open spec fn rush_key(i: int) -> Seq<char> {
    if i == 0 {
        "White"@
    } else if i == 1 {
        "Rebirth"@
    } else if i == 2 {
        "Killer Inside"@
    } else if i == 3 {
        "Only Shallow"@
    } else if i == 4 {
        "The Old City"@
    } else if i == 5 {
        "The Burn That Cures"@
    } else if i == 6 {
        "Covenant"@
    } else if i == 7 {
        "Reckoning"@
    } else if i == 8 {
        "Benediction"@
    } else if i == 9 {
        "Apocrypha"@
    } else if i == 10 {
        "The Third Temple"@
    } else if i == 11 {
        "Thousand Pound Butterfly"@
    } else if i == 12 {
        "Hand of God"@
    } else if i == 13 {
        "Red"@
    } else if i == 14 {
        "Violet"@
    } else {
        "Yellow"@
    }
}

/// The name of the rush that the number `i` (below 16) selects.
pub fn rush_key_name(i: usize) -> (r: &'static str)
    requires
        i < 16,
    ensures
        r@ == rush_key(i as int),
{
    match i {
        0 => "White",
        1 => "Rebirth",
        2 => "Killer Inside",
        3 => "Only Shallow",
        4 => "The Old City",
        5 => "The Burn That Cures",
        6 => "Covenant",
        7 => "Reckoning",
        8 => "Benediction",
        9 => "Apocrypha",
        10 => "The Third Temple",
        11 => "Thousand Pound Butterfly",
        12 => "Hand of God",
        13 => "Red",
        14 => "Violet",
        _ => "Yellow",
    }
}

impl LevelData {
    /// The name of level `i`.
    pub open spec fn level_name(self, i: int) -> Seq<char> {
        self.all_levels@[i]@
    }

    /// The name of rush `k`.
    pub open spec fn rush_name(self, k: int) -> Seq<char> {
        self.level_sets@[k].0@
    }

    /// The levels of rush `k`.
    pub open spec fn rush_levels(self, k: int) -> Set<usize> {
        bitset_view(self.level_sets@[k].1)
    }

    /// The first rush named `name`, if any.
    pub open spec fn rush_named(self, name: Seq<char>) -> Option<int> {
        let hits = range_seq(self.level_sets@.len() as int).filter(named(self, name));
        if hits.len() == 0 {
            None
        } else {
            Some(hits[0])
        }
    }

    /// Every alternate name selects a listed level, every rush that a
    /// number selects is listed, and no rush has more levels than an `i32` counts.
    pub open spec fn wf(self) -> bool {
        &&& forall|k: int| 0 <= k < self.alternate_names@.len() ==> #[trigger] self.alternate_names@[k].1 < self.all_levels@.len()
        &&& forall|i: int| 0 <= i < 16 ==> #[trigger] self.rush_named(rush_key(i)) is Some
        &&& forall|k: int| 0 <= k < self.level_sets@.len() ==> #[trigger] self.rush_levels(k).len() <= i32::MAX
    }
}

/// Rush `k` is named `name`.
pub open spec fn named(data: LevelData, name: Seq<char>) -> spec_fn(int) -> bool {
    |k: int| data.rush_name(k) == name
}

/// The lowercase form of a text.
pub open spec fn lower_text() -> spec_fn(String) -> Seq<char> {
    |a: String| lowercase(a@)
}

/// The joined arguments, each lowercased, with a space between each two.
pub open spec fn lowered_words(args: Seq<String>) -> Seq<char> {
    joined(args.map_values(lower_text()), seq![' '])
}

/// The rushes (by position) whose name the text abbreviates, in order.
pub open spec fn rush_hits(data: LevelData, abbreviation: Seq<char>) -> Seq<int> {
    range_seq(data.level_sets@.len() as int).filter(rush_hit(data, abbreviation))
}

/// The text abbreviates the name of rush `k`.
pub open spec fn rush_hit(data: LevelData, abbreviation: Seq<char>) -> spec_fn(int) -> bool {
    |k: int| abbreviates(abbreviation, lowercase(data.rush_name(k)))
}

/// Which rush the (lowercased, joined) abbreviation selects: with no text,
/// White's rush; a number from 0 to 15 (whitespace ignored), the rush it keys;
/// 1000, Thousand Pound Butterfly; else the rushes whose names the trimmed text
/// abbreviates: one is the answer, two are ambiguous.
pub open spec fn rush_outcome(cleaned: Seq<char>, data: LevelData) -> Result<usize, Failure> {
    let number = decimal_i32(unspaced(cleaned));
    let hits = rush_hits(data, trimmed(cleaned));
    if trimmed(cleaned).len() == 0 {
        Ok(data.rush_named(rush_key(0)).unwrap() as usize)
    } else if number is Some && 0 <= number.unwrap() < 16 {
        Ok(data.rush_named(rush_key(number.unwrap())).unwrap() as usize)
    } else if number == Some(1000int) {
        Ok(data.rush_named(rush_key(11)).unwrap() as usize)
    } else if hits.len() >= 2 {
        Err(Failure::AmbiguousRush { abbreviation: cleaned, first: hits[0], second: hits[1] })
    } else if hits.len() == 1 {
        Ok(hits[0] as usize)
    } else {
        Err(Failure::UnknownRush { abbreviation: cleaned })
    }
}

/// `0, 1, ..., n - 1`.
pub open spec fn range_seq(n: int) -> Seq<int> {
    Seq::new(n as nat, |i: int| i)
}

/// A level name with digits spelled as roman numerals: `1` becomes `i`, `2` becomes `ii`.
pub open spec fn cleaned_name(s: Seq<char>) -> Seq<char>
    decreases s.len(),
{
    if s.len() == 0 {
        s
    } else {
        let c = s.last();
        cleaned_name(s.drop_last()) + if c == '1' {
            seq!['i']
        } else if c == '2' {
            seq!['i', 'i']
        } else {
            seq![c]
        }
    }
}

/// Cleaning works character by character: the cleaned form of two texts
/// joined is the two cleaned forms joined.
pub proof fn lemma_cleaned_name_concat(a: Seq<char>, b: Seq<char>)
    ensures
        cleaned_name(a + b) == cleaned_name(a) + cleaned_name(b),
    decreases b.len(),
{
    if b.len() == 0 {
        assert(a + b =~= a);
        assert(cleaned_name(a) + cleaned_name(b) =~= cleaned_name(a));
    } else {
        lemma_cleaned_name_concat(a, b.drop_last());
        assert((a + b).drop_last() =~= a + b.drop_last());
        assert((a + b).last() == b.last());
        let c = b.last();
        let t = if c == '1' { seq!['i'] } else if c == '2' { seq!['i', 'i'] } else { seq![c] };
        assert(cleaned_name(a) + cleaned_name(b.drop_last()) + t =~= cleaned_name(a) + (cleaned_name(b.drop_last()) + t));
    }
}

/// In a cleaned name the digits 1 and 2 are spelled as the numerals `i` and
/// `ii`: no `1` or `2` is left, every other character is kept, and each `2`
/// adds one character, so the cleaned form is as long as the name plus its
/// number of `2`s; a name holding neither digit is its own cleaned form.
pub proof fn lemma_cleaned_name_numerals(s: Seq<char>)
    ensures
        cleaned_name(s).len() == s.len() + s.filter(|c: char| c == '2').len(),
        forall|k: int| 0 <= k < cleaned_name(s).len() ==> #[trigger] cleaned_name(s)[k] != '1' && cleaned_name(s)[k] != '2',
        (forall|k: int| 0 <= k < s.len() ==> #[trigger] s[k] != '1' && s[k] != '2') ==> cleaned_name(s) == s,
        cleaned_name(s.push('2')) == cleaned_name(s) + seq!['i', 'i'],
        cleaned_name(s.push('1')) == cleaned_name(s) + seq!['i'],
    decreases s.len(),
{
    let p = s.push('2');
    assert(p.drop_last() =~= s);
    let q = s.push('1');
    assert(q.drop_last() =~= s);
    if s.len() == 0 {
        assert(s.filter(|c: char| c == '2') =~= Seq::<char>::empty()) by {
            s.lemma_filter_len(|c: char| c == '2');
        }
    } else {
        let t = s.drop_last();
        let c = s.last();
        lemma_cleaned_name_numerals(t);
        assert(s =~= t.push(c));
        t.lemma_filter_push(c, |c: char| c == '2');
        let piece = if c == '1' { seq!['i'] } else if c == '2' { seq!['i', 'i'] } else { seq![c] };
        assert(cleaned_name(s) == cleaned_name(t) + piece);
        assert forall|k: int| 0 <= k < cleaned_name(s).len() implies #[trigger] cleaned_name(s)[k] != '1'
            && cleaned_name(s)[k] != '2' by {
            if k >= cleaned_name(t).len() {
                assert(cleaned_name(s)[k] == piece[k - cleaned_name(t).len()]);
            } else {
                assert(cleaned_name(s)[k] == cleaned_name(t)[k]);
            }
        }
        if forall|k: int| 0 <= k < s.len() ==> #[trigger] s[k] != '1' && s[k] != '2' {
            assert forall|k: int| 0 <= k < t.len() implies #[trigger] t[k] != '1' && t[k] != '2' by {
                assert(t[k] == s[k]);
            }
            assert(s[s.len() - 1] == c);
            assert(cleaned_name(s) =~= s);
        }
    }
}

/// The levels of the rush (listed ones) whose name the cleaned name abbreviates, in order.
pub open spec fn level_hits(data: LevelData, s: Set<usize>, cleaned: Seq<char>) -> Seq<int> {
    range_seq(data.all_levels@.len() as int).filter(level_hit(data, s, cleaned))
}

/// Level `i` is in the rush and the cleaned name abbreviates its name.
pub open spec fn level_hit(data: LevelData, s: Set<usize>, cleaned: Seq<char>) -> spec_fn(int) -> bool {
    |i: int| s.contains(i as usize) && abbreviates(cleaned, lowercase(data.level_name(i)))
}

/// The alternate names (by position in the list) that the cleaned name
/// abbreviates and that select a level of the rush, in order.
pub open spec fn alternate_hits(data: LevelData, s: Set<usize>, cleaned: Seq<char>) -> Seq<int> {
    range_seq(data.alternate_names@.len() as int).filter(alternate_hit(data, s, cleaned))
}

/// Alternate name `k` selects a level of the rush and the cleaned name abbreviates it.
pub open spec fn alternate_hit(data: LevelData, s: Set<usize>, cleaned: Seq<char>) -> spec_fn(int) -> bool {
    |k: int| s.contains(data.alternate_names@[k].1) && abbreviates(cleaned, lowercase(data.alternate_names@[k].0@))
}

/// Below `x`.
pub open spec fn below(x: int) -> spec_fn(usize) -> bool {
    |y: usize| (y as int) < x
}

/// The number of levels of the rush `s` below level `x`: the position of `x` within the rush.
pub open spec fn rank(s: Set<usize>, x: int) -> nat {
    ascending(s).filter(below(x)).len()
}

/// Which level of the rush `s` the name selects, as its position within the
/// rush: the levels whose name the (lowercased, digits-as-numerals) name
/// abbreviates; one is the answer, two are ambiguous; with none, the same with
/// the alternate names.
pub open spec fn lookup_outcome(name: Seq<char>, s: Set<usize>, data: LevelData) -> Result<usize, Failure> {
    let cleaned = cleaned_name(lowercase(name));
    let hits = level_hits(data, s, cleaned);
    let alts = alternate_hits(data, s, cleaned);
    if hits.len() >= 2 {
        Err(Failure::AmbiguousLevel { name, first: hits[0], second: hits[1] })
    } else if hits.len() == 1 {
        Ok(rank(s, hits[0]) as usize)
    } else if alts.len() >= 2 {
        Err(
            Failure::AmbiguousAlternate {
                name,
                first: data.alternate_names@[alts[0]].1 as int,
                second: data.alternate_names@[alts[1]].1 as int,
            },
        )
    } else if alts.len() == 1 {
        Ok(rank(s, data.alternate_names@[alts[0]].1 as int) as usize)
    } else {
        Err(Failure::UnknownLevel { name })
    }
}

/// The name with `1` spelled `i` and `2` spelled `ii`.
fn clean_digits(s: &[char]) -> (r: Vec<char>)
    ensures
        r@ == cleaned_name(s@),
{
    let mut out: Vec<char> = Vec::new();
    let mut k: usize = 0;
    while k < s.len()
        invariant
            k <= s.len(),
            out@ == cleaned_name(s@.take(k as int)),
        decreases s.len() - k,
    {
        let c = s[k];
        proof {
            assert(s@.take(k + 1).drop_last() =~= s@.take(k as int));
            assert(s@.take(k + 1).last() == c);
        }
        let ghost before = out@;
        if c == '1' {
            out.push('i');
            assert(out@ =~= before + seq!['i']);
        } else if c == '2' {
            out.push('i');
            out.push('i');
            assert(out@ =~= before + seq!['i', 'i']);
        } else {
            out.push(c);
            assert(out@ =~= before + seq![c]);
        }
        k = k + 1;
    }
    assert(s@.take(s.len() as int) =~= s@);
    out
}

/// The position of level `x` within the rush `s`.
fn rank_in(s: &BitSet, x: usize) -> (r: usize)
    ensures
        r == rank(bitset_view(*s), x as int),
        bitset_view(*s).contains(x) ==> r < bitset_view(*s).len(),
{
    let members = bitset_elements(s);
    proof {
        lemma_ascending(members@, bitset_view(*s));
        lemma_enumeration_len(members@, bitset_view(*s));
        if bitset_view(*s).contains(x) {
            lemma_rank_below(bitset_view(*s), x);
        }
    }
    let mut count: usize = 0;
    let mut k: usize = 0;
    while k < members.len()
        invariant
            k <= members.len(),
            count == members@.take(k as int).filter(below(x as int)).len(),
            count <= k,
        decreases members.len() - k,
    {
        proof {
            assert(members@.take(k + 1) =~= members@.take(k as int).push(members@[k as int]));
            members@.take(k as int).lemma_filter_push(members@[k as int], below(x as int));
        }
        if members[k] < x {
            count = count + 1;
        }
        k = k + 1;
    }
    assert(members@.take(members.len() as int) =~= members@);
    count
}

/// Filtering `0..n + 1` is filtering `0..n` and then testing `n`.
pub proof fn lemma_range_filter_push(n: int, p: spec_fn(int) -> bool)
    requires
        0 <= n,
    ensures
        range_seq(n + 1).filter(p) == if p(n) { range_seq(n).filter(p).push(n) } else { range_seq(n).filter(p) },
{
    assert(range_seq(n + 1) =~= range_seq(n).push(n));
    range_seq(n).lemma_filter_push(n, p);
}

/// What a filter of `0..m` keeps from `0..n` (`n <= m`) comes first in it.
pub proof fn lemma_range_filter_prefix(n: int, m: int, p: spec_fn(int) -> bool)
    requires
        0 <= n <= m,
    ensures
        range_seq(n).filter(p).len() <= range_seq(m).filter(p).len(),
        forall|j: int| 0 <= j < range_seq(n).filter(p).len() ==> #[trigger] range_seq(m).filter(p)[j] == range_seq(n).filter(p)[j],
    decreases m - n,
{
    if n < m {
        lemma_range_filter_prefix(n, m - 1, p);
        lemma_range_filter_push(m - 1, p);
    }
}

/// What a filter of `0..n` keeps lies in `0..n` and meets the filter.
pub proof fn lemma_range_filter_members(n: int, p: spec_fn(int) -> bool)
    requires
        0 <= n,
    ensures
        forall|j: int| 0 <= j < range_seq(n).filter(p).len() ==> 0 <= #[trigger] range_seq(n).filter(p)[j] < n
            && p(range_seq(n).filter(p)[j]),
    decreases n,
{
    if n > 0 {
        lemma_range_filter_members(n - 1, p);
        lemma_range_filter_push(n - 1, p);
    } else {
        assert(range_seq(0) =~= Seq::<int>::empty());
        assert(range_seq(0).filter(p) =~= Seq::<int>::empty()) by {
            reveal(Seq::filter);
        }
    }
}

/// Leaving out an entry that fails the filter makes the filtered sequence shorter.
proof fn lemma_filter_shorter(q: Seq<usize>, p: spec_fn(usize) -> bool, k: int)
    requires
        0 <= k < q.len(),
        !p(q[k]),
    ensures
        q.filter(p).len() < q.len(),
    decreases q.len(),
{
    let init = q.drop_last();
    assert(init.push(q.last()) =~= q);
    init.lemma_filter_push(q.last(), p);
    if k == q.len() - 1 {
        init.lemma_filter_len(p);
    } else {
        assert(init[k] == q[k]);
        lemma_filter_shorter(init, p, k);
    }
}

/// A level of the rush has a position below the rush's size.
pub proof fn lemma_rank_below(s: Set<usize>, x: usize)
    requires
        s.finite(),
        s.contains(x),
    ensures
        rank(s, x as int) < s.len(),
{
    lemma_ascending_enumerates(s);
    let q = ascending(s);
    lemma_enumeration_len(q, s);
    assert(q.contains(x));
    let k = choose|k: int| 0 <= k < q.len() && q[k] == x;
    lemma_filter_shorter(q, below(x as int), k);
}

/// A name selects a position within the rush.
pub proof fn lemma_lookup_in_rush(name: Seq<char>, s: Set<usize>, data: LevelData)
    requires
        s.finite(),
        data.all_levels@.len() <= usize::MAX,
    ensures
        lookup_outcome(name, s, data) matches Ok(v) ==> v < s.len(),
{
    let cleaned = cleaned_name(lowercase(name));
    let hits = level_hits(data, s, cleaned);
    let alts = alternate_hits(data, s, cleaned);
    lemma_range_filter_members(data.all_levels@.len() as int, level_hit(data, s, cleaned));
    lemma_range_filter_members(data.alternate_names@.len() as int, alternate_hit(data, s, cleaned));
    if hits.len() == 1 {
        assert(level_hit(data, s, cleaned)(hits[0]));
        lemma_rank_below(s, hits[0] as usize);
    } else if hits.len() == 0 && alts.len() == 1 {
        assert(alternate_hit(data, s, cleaned)(alts[0]));
        lemma_rank_below(s, data.alternate_names@[alts[0]].1);
    }
}

/// Which level of the rush `level_set` the name selects, as its position
/// within the rush (see [`lookup_outcome`]).
pub fn lookup_name(name: &str, level_set: &BitSet, data: &LevelData) -> (r: Result<usize, FinderError>)
    ensures
        reports(r, lookup_outcome(name@, bitset_view(*level_set), *data)),
        r matches Ok(v) ==> v < bitset_view(*level_set).len(),
{
    let s = Ghost(bitset_view(*level_set));
    let lowered = to_lowercase(name);
    let lowered_chars = chars_of(lowered.as_str());
    let cleaned_chars = clean_digits(lowered_chars.as_slice());
    let cleaned = string_from(cleaned_chars.as_slice());
    let ghost cl = cleaned@;
    assert(cl == cleaned_name(lowercase(name@)));
    let ghost pred = level_hit(*data, s@, cl);
    let mut found: Option<usize> = None;
    let mut i: usize = 0;
    while i < data.all_levels.len()
        invariant
            i <= data.all_levels.len(),
            pred == level_hit(*data, s@, cl),
            s@ == bitset_view(*level_set),
            cleaned@ == cl,
            cl == cleaned_name(lowercase(name@)),
            range_seq(i as int).filter(pred).len() <= 1,
            found == if range_seq(i as int).filter(pred).len() == 1 {
                Some(range_seq(i as int).filter(pred)[0] as usize)
            } else {
                None::<usize>
            },
            forall|j: int| 0 <= j < range_seq(i as int).filter(pred).len() ==> 0 <= #[trigger] range_seq(i as int).filter(pred)[j] < i,
            found matches Some(f) ==> s@.contains(f),
        decreases data.all_levels.len() - i,
    {
        proof {
            lemma_range_filter_push(i as int, pred);
        }
        let hit = bitset_contains(level_set, i) && is_abbreviation(cleaned.as_str(), data.all_levels[i].as_str());
        assert(hit == pred(i as int));
        if hit {
            match found {
                Some(first) => {
                    proof {
                        lemma_range_filter_prefix(i + 1, data.all_levels@.len() as int, pred);
                        let full = range_seq(data.all_levels@.len() as int).filter(pred);
                        let pre = range_seq(i + 1).filter(pred);
                        assert(pre.len() == 2);
                        assert(full[0] == pre[0]);
                        assert(full[1] == pre[1]);
                        assert(full == level_hits(*data, s@, cl));
                    }
                    return Err(FinderError::AmbiguousLevel { name: name.to_owned(), first, second: i });
                },
                None => {
                    found = Some(i);
                },
            }
        }
        i = i + 1;
    }
    assert(range_seq(data.all_levels@.len() as int).filter(pred) == level_hits(*data, s@, cl));
    if let Some(level) = found {
        return Ok(rank_in(level_set, level));
    }
    let ghost apred = alternate_hit(*data, s@, cl);
    let mut afound: Option<usize> = None;
    let mut k: usize = 0;
    while k < data.alternate_names.len()
        invariant
            k <= data.alternate_names.len(),
            apred == alternate_hit(*data, s@, cl),
            s@ == bitset_view(*level_set),
            cleaned@ == cl,
            cl == cleaned_name(lowercase(name@)),
            level_hits(*data, s@, cl).len() == 0,
            range_seq(k as int).filter(apred).len() <= 1,
            afound == if range_seq(k as int).filter(apred).len() == 1 {
                Some(data.alternate_names@[range_seq(k as int).filter(apred)[0]].1)
            } else {
                None::<usize>
            },
            forall|j: int| 0 <= j < range_seq(k as int).filter(apred).len() ==> 0 <= #[trigger] range_seq(k as int).filter(apred)[j] < k,
            afound matches Some(f) ==> s@.contains(f),
        decreases data.alternate_names.len() - k,
    {
        proof {
            lemma_range_filter_push(k as int, apred);
        }
        let target = data.alternate_names[k].1;
        let hit = bitset_contains(level_set, target) && is_abbreviation(cleaned.as_str(), data.alternate_names[k].0.as_str());
        assert(hit == apred(k as int));
        if hit {
            match afound {
                Some(first) => {
                    proof {
                        lemma_range_filter_prefix(k + 1, data.alternate_names@.len() as int, apred);
                        let full = range_seq(data.alternate_names@.len() as int).filter(apred);
                        let pre = range_seq(k + 1).filter(apred);
                        assert(pre.len() == 2);
                        assert(full[0] == pre[0]);
                        assert(full[1] == pre[1]);
                        assert(full == alternate_hits(*data, s@, cl));
                    }
                    return Err(FinderError::AmbiguousAlternate { name: name.to_owned(), first, second: target });
                },
                None => {
                    afound = Some(target);
                },
            }
        }
        k = k + 1;
    }
    assert(range_seq(data.alternate_names@.len() as int).filter(apred) == alternate_hits(*data, s@, cl));
    match afound {
        Some(level) => Ok(rank_in(level_set, level)),
        None => Err(FinderError::UnknownLevel { name: name.to_owned() }),
    }
}

/// The position of the first rush named `name`.
pub(crate) fn find_rush(name: &String, data: &LevelData) -> (r: usize)
    requires
        data.rush_named(name@) is Some,
    ensures
        r as int == data.rush_named(name@).unwrap(),
        r < data.level_sets@.len(),
{
    let ghost pred = named(*data, name@);
    let ghost n = data.level_sets@.len() as int;
    let mut k: usize = 0;
    while k < data.level_sets.len()
        invariant
            k <= data.level_sets.len(),
            n == data.level_sets@.len(),
            pred == named(*data, name@),
            data.rush_named(name@) is Some,
            range_seq(k as int).filter(pred).len() == 0,
        decreases data.level_sets.len() - k,
    {
        proof {
            lemma_range_filter_push(k as int, pred);
        }
        if data.level_sets[k].0 == *name {
            proof {
                lemma_range_filter_prefix(k + 1, n, pred);
                assert(range_seq(k + 1).filter(pred)[0] == k);
            }
            return k;
        }
        k = k + 1;
    }
    k
}

/// The lowercase forms of the arguments, as characters.
fn lowered_args(args: &[String]) -> (r: Vec<Vec<char>>)
    ensures
        texts(r@) == args@.map_values(lower_text()),
{
    let mut out: Vec<Vec<char>> = Vec::new();
    let mut k: usize = 0;
    while k < args.len()
        invariant
            k <= args.len(),
            texts(out@) == args@.take(k as int).map_values(lower_text()),
        decreases args.len() - k,
    {
        let lowered = to_lowercase(args[k].as_str());
        let part = chars_of(lowered.as_str());
        assert(part@ == lower_text()(args@[k as int]));
        let ghost before = out@;
        out.push(part);
        proof {
            assert(out@ == before.push(part));
            assert(args@.take(k + 1) =~= args@.take(k as int).push(args@[k as int]));
            assert(texts(out@) =~= texts(before).push(part@));
            assert(args@.take(k + 1).map_values(lower_text()) =~= args@.take(k as int).map_values(lower_text()).push(
                lower_text()(args@[k as int]),
            ));
        }
        k = k + 1;
    }
    assert(args@.take(args.len() as int) =~= args@);
    out
}

/// Which rush the words of `rush_abbr` select, as its position in the rush
/// list (see [`rush_outcome`]).
pub fn guess_rush_from_abbr(rush_abbr: &[String], data: &LevelData) -> (r: Result<usize, FinderError>)
    requires
        data.wf(),
    ensures
        reports(r, rush_outcome(lowered_words(rush_abbr@), *data)),
        r matches Ok(k) ==> k < data.level_sets@.len(),
{
    let parts = lowered_args(rush_abbr);
    let cleaned = join_with_space(parts.as_slice());
    let ghost cl = cleaned@;
    assert(cl == lowered_words(rush_abbr@));
    let trimmed_chars = trim(cleaned.as_slice());
    if trimmed_chars.len() == 0 {
        assert(data.rush_named(rush_key(0)) is Some);
        let key = rush_key_name(0).to_owned();
        return Ok(find_rush(&key, data));
    }
    let compact = remove_whitespace(cleaned.as_slice());
    match parse_i32(compact.as_slice()) {
        Some(idx) => {
            if 0 <= idx && idx < 16 {
                assert(data.rush_named(rush_key(idx as int)) is Some);
                let key = rush_key_name(idx as usize).to_owned();
                return Ok(find_rush(&key, data));
            }
            if idx == 1000 {
                assert(data.rush_named(rush_key(11)) is Some);
                let key = rush_key_name(11).to_owned();
                return Ok(find_rush(&key, data));
            }
        },
        None => {},
    }
    let abbreviation = string_from(trimmed_chars.as_slice());
    let ghost pred = rush_hit(*data, trimmed(cl));
    let ghost n = data.level_sets@.len() as int;
    let mut found: Option<usize> = None;
    let mut k: usize = 0;
    while k < data.level_sets.len()
        invariant
            k <= data.level_sets.len(),
            n == data.level_sets@.len(),
            pred == rush_hit(*data, trimmed(cl)),
            abbreviation@ == trimmed(cl),
            cleaned@ == cl,
            cl == lowered_words(rush_abbr@),
            trimmed(cl).len() != 0,
            !(decimal_i32(unspaced(cl)) is Some && 0 <= decimal_i32(unspaced(cl)).unwrap() < 16),
            decimal_i32(unspaced(cl)) != Some(1000int),
            range_seq(k as int).filter(pred).len() <= 1,
            found == if range_seq(k as int).filter(pred).len() == 1 {
                Some(range_seq(k as int).filter(pred)[0] as usize)
            } else {
                None::<usize>
            },
            forall|j: int| 0 <= j < range_seq(k as int).filter(pred).len() ==> 0 <= #[trigger] range_seq(k as int).filter(pred)[j] < k,
            found matches Some(f) ==> f < data.level_sets@.len(),
        decreases data.level_sets.len() - k,
    {
        proof {
            lemma_range_filter_push(k as int, pred);
        }
        let hit = is_abbreviation(abbreviation.as_str(), data.level_sets[k].0.as_str());
        assert(hit == pred(k as int));
        if hit {
            match found {
                Some(first) => {
                    proof {
                        lemma_range_filter_prefix(k + 1, n, pred);
                        let full = range_seq(n).filter(pred);
                        let pre = range_seq(k + 1).filter(pred);
                        assert(pre.len() == 2);
                        assert(full[0] == pre[0]);
                        assert(full[1] == pre[1]);
                        assert(full == rush_hits(*data, trimmed(cl)));
                    }
                    return Err(FinderError::AmbiguousRush { abbreviation: string_from(cleaned.as_slice()), first, second: k });
                },
                None => {
                    found = Some(k);
                },
            }
        }
        k = k + 1;
    }
    assert(range_seq(n).filter(pred) == rush_hits(*data, trimmed(cl)));
    match found {
        Some(k) => Ok(k),
        None => Err(FinderError::UnknownRush { abbreviation: string_from(cleaned.as_slice()) }),
    }
}

/// Whether some rush is named `name` (see [`LevelData::rush_named`]).
fn has_rush(name: &String, data: &LevelData) -> (r: bool)
    ensures
        r == data.rush_named(name@) is Some,
{
    let ghost pred = named(*data, name@);
    let ghost n = data.level_sets@.len() as int;
    let mut k: usize = 0;
    while k < data.level_sets.len()
        invariant
            k <= data.level_sets.len(),
            n == data.level_sets@.len(),
            pred == named(*data, name@),
            range_seq(k as int).filter(pred).len() == 0,
        decreases data.level_sets.len() - k,
    {
        proof {
            lemma_range_filter_push(k as int, pred);
        }
        if data.level_sets[k].0 == *name {
            proof {
                lemma_range_filter_prefix(k + 1, n, pred);
            }
            return true;
        }
        k = k + 1;
    }
    false
}

/// Whether the level data is well formed (see [`LevelData::wf`]).
pub fn check_level_data(data: &LevelData) -> (r: bool)
    ensures
        r == data.wf(),
{
    let mut k: usize = 0;
    while k < data.alternate_names.len()
        invariant
            k <= data.alternate_names.len(),
            forall|j: int| 0 <= j < k ==> #[trigger] data.alternate_names@[j].1 < data.all_levels@.len(),
        decreases data.alternate_names.len() - k,
    {
        if data.alternate_names[k].1 >= data.all_levels.len() {
            assert(!(data.alternate_names@[k as int].1 < data.all_levels@.len()));
            return false;
        }
        k = k + 1;
    }
    let mut i: usize = 0;
    while i < 16
        invariant
            i <= 16,
            forall|j: int| 0 <= j < k ==> #[trigger] data.alternate_names@[j].1 < data.all_levels@.len(),
            k == data.alternate_names@.len(),
            forall|j: int| 0 <= j < i ==> #[trigger] data.rush_named(rush_key(j)) is Some,
        decreases 16 - i,
    {
        let key = rush_key_name(i).to_owned();
        if !has_rush(&key, data) {
            assert(!(data.rush_named(rush_key(i as int)) is Some));
            return false;
        }
        i = i + 1;
    }
    let mut m: usize = 0;
    while m < data.level_sets.len()
        invariant
            m <= data.level_sets.len(),
            forall|j: int| 0 <= j < k ==> #[trigger] data.alternate_names@[j].1 < data.all_levels@.len(),
            k == data.alternate_names@.len(),
            forall|j: int| 0 <= j < 16 ==> #[trigger] data.rush_named(rush_key(j)) is Some,
            forall|j: int| 0 <= j < m ==> #[trigger] data.rush_levels(j).len() <= i32::MAX,
        decreases data.level_sets.len() - m,
    {
        if bitset_len(&data.level_sets[m].1) > 2147483647 {
            assert(!(data.rush_levels(m as int).len() <= i32::MAX));
            return false;
        }
        m = m + 1;
    }
    true
}

} // verus!
