//! The decisions of the graphical interface: what each edit, button and
//! search request does to the state of the window.  Drawing the window,
//! running the search and timing it are left to the caller.
use vstd::prelude::*;
use bit_set::BitSet;
use crate::bitset::{bitset_view, bitset_len, bitset_elements, lemma_ascending};
use crate::cli::{parse_seed, seed_outcome, ordered_levels};
use crate::error::{FinderError, Failure, reports};
use crate::frontend::{guess_rule_once, check_rules, rule_outcome, rules_outcome, overlap_outcome, shape_fits};
use crate::levels::{LevelData, rush_outcome, lowered_words, guess_rush_from_abbr, rush_key, find_rush};
use crate::rules::{Rule, RuleShape, shapes};
use crate::shuffle::{linear_shuffle, get_shuffled_idxs};
use crate::text::{text_of, trimmed, trim, decimal_usize, parse_usize, chars_of, string_from};

verus! {

/// The two pages of the window.
#[derive(Debug, Clone, Copy, PartialEq, Eq)]
pub enum Tab {
    Find,
    Simulate,
}

/// The line at the bottom of the window.
#[derive(Debug)]
pub enum Status {
    Ready,
    /// The last input could not be used.
    Warning(FinderError),
    /// A rule was edited while the rush is unknown.
    RuleNotChecked,
    /// A search was asked for with the same inputs as the last one.
    InputsUnchanged,
    /// A search was asked for while one runs.
    SearchInProgress,
    /// A message that the caller composed.
    Note(String),
}

/// The state of the window: the page shown, the inputs as typed, the rush
/// they last selected, whether the inputs changed since the last search,
/// whether a search runs, and the results.
#[derive(Debug)]
pub struct GuiState {
    pub tab: Tab,
    pub rush_type: String,
    pub level_set: Option<usize>,
    pub result_count: String,
    pub rule_descriptions: Vec<String>,
    pub find_inputs_changed: bool,
    pub searching: bool,
    pub find_results: String,
    pub sim_seed: String,
    /// The simulated orders, as indices into the level list, one after the other.
    pub sim_results: Vec<usize>,
    pub status: Status,
}

/// What a request to search leads to.
#[derive(Debug)]
pub enum StartFind {
    /// Nothing changed since the last search.
    Unchanged,
    /// A search already runs.
    Busy,
    /// Search the rush for up to `count` seeds that meet the rules.
    Search { rush: usize, count: usize, rules: Vec<Rule> },
}

/// The status after an attempt: ready when it succeeded, its failure as a
/// warning otherwise.
pub fn update_status<T>(status: &mut Status, result: Result<T, FinderError>)
    ensures
        match result {
            Ok(_) => *final(status) is Ready,
            Err(e) => *final(status) == Status::Warning(e),
        },
{
    match result {
        Err(e) => {
            *status = Status::Warning(e);
        },
        Ok(_) => {
            *status = Status::Ready;
        },
    }
}

/// The subset rule that the button adds.
pub open spec fn new_subset_rule() -> Seq<char> {
    "0:3 > ttt"@
}

/// The sequence rule that the button adds.
pub open spec fn new_sequence_rule() -> Seq<char> {
    "0:1 = ttt"@
}

/// The count of seeds to keep as typed: 1 when the trimmed text is empty,
/// else a `usize` of at least 1.
pub open spec fn count_outcome(text: Seq<char>) -> Result<usize, Failure> {
    let t = trimmed(text);
    if t.len() == 0 {
        Ok(1)
    } else {
        match decimal_usize(t) {
            None => Err(Failure::UnparsableCount { text: t }),
            Some(v) => if v < 1 {
                Err(Failure::CountTooSmall { count: v })
            } else {
                Ok(v as usize)
            },
        }
    }
}

/// The rules that the descriptions state, in order, if they do not overlap;
/// the first failure otherwise.
pub open spec fn plan_outcome(descriptions: Seq<String>, s: Set<usize>, data: LevelData) -> Result<Seq<RuleShape>, Failure> {
    match rules_outcome(descriptions.map_values(text_of()), s, data) {
        Err(f) => Err(f),
        Ok(rs) => match overlap_outcome(rs, s) {
            Err(f) => Err(f),
            Ok(_) => Ok(rs),
        },
    }
}

/// The entries of `items` from position `i` on that the walk over the
/// positions `marked` keeps: position `i` goes when it is the next marked
/// position, and the walk then moves to the following mark.
pub open spec fn kept_from<A>(items: Seq<A>, marked: Seq<usize>, i: int) -> Seq<A>
    decreases items.len() - i,
{
    if i >= items.len() || i < 0 {
        Seq::empty()
    } else if marked.len() > 0 && marked[0] == i {
        kept_from(items, marked.drop_first(), i + 1)
    } else {
        seq![items[i]] + kept_from(items, marked, i + 1)
    }
}

/// The rules that the descriptions state for the rush `level_set`, in order,
/// or the first description's failure.
fn read_rules(descriptions: &[String], level_set: &BitSet, data: &LevelData) -> (r: Result<Vec<Rule>, FinderError>)
    requires
        bitset_view(*level_set).len() <= i32::MAX,
    ensures
        match (r, rules_outcome(descriptions@.map_values(text_of()), bitset_view(*level_set), *data)) {
            (Ok(v), Ok(rs)) => shapes(v@) == rs,
            (Err(e), Err(f)) => e.describes(f),
            _ => false,
        },
        r matches Ok(v) ==> forall|j: int| 0 <= j < v@.len() ==> #[trigger] shape_fits(
            v@[j].shape(),
            bitset_view(*level_set).len() as int,
        ),
{
    let ghost s = bitset_view(*level_set);
    let ghost descs = descriptions@.map_values(text_of());
    let mut rules: Vec<Rule> = Vec::new();
    let mut k: usize = 0;
    assert(descs.take(0) =~= Seq::<Seq<char>>::empty());
    assert(shapes(rules@) =~= Seq::<RuleShape>::empty());
    while k < descriptions.len()
        invariant
            k <= descriptions.len(),
            descs == descriptions@.map_values(text_of()),
            s == bitset_view(*level_set),
            s.len() <= i32::MAX,
            rules_outcome(descs.take(k as int), s, *data) == Ok::<Seq<RuleShape>, Failure>(shapes(rules@)),
            forall|j: int| 0 <= j < rules@.len() ==> #[trigger] shape_fits(rules@[j].shape(), s.len() as int),
        decreases descriptions.len() - k,
    {
        proof {
            assert(descs.take(k + 1).drop_last() =~= descs.take(k as int));
            assert(descs.take(k + 1).last() == descriptions@[k as int]@);
        }
        match guess_rule_once(descriptions[k].as_str(), level_set, data) {
            Err(e) => {
                proof {
                    crate::frontend::lemma_rules_failure_stays(descs, k + 1, s, *data);
                }
                return Err(e);
            },
            Ok(rule) => {
                let ghost before = rules@;
                rules.push(rule);
                assert(shapes(rules@) =~= shapes(before).push(rule.shape()));
            },
        }
        k = k + 1;
    }
    assert(descs.take(descriptions.len() as int) =~= descs);
    Ok(rules)
}

impl GuiState {
    /// The selected rush, if any, is one of the data.
    pub open spec fn wf(self, data: LevelData) -> bool {
        self.level_set matches Some(k) ==> k < data.level_sets@.len()
    }

    /// The rush that the typed rush name selects.
    pub open spec fn rush_choice(self, data: LevelData) -> Result<usize, Failure> {
        rush_outcome(lowered_words(seq![self.rush_type]), data)
    }

    /// A new window: the Find page, White's rush, one seed to keep, no rules,
    /// seed 0 to simulate.
    pub fn new(data: &LevelData) -> (r: GuiState)
        requires
            data.wf(),
        ensures
            r.wf(*data),
            r.tab == Tab::Find,
            r.rush_type@ == "White"@,
            r.level_set == Some(data.rush_named(rush_key(0)).unwrap() as usize),
            r.result_count@ == "1"@,
            r.rule_descriptions@.len() == 0,
            !r.find_inputs_changed,
            !r.searching,
            r.find_results@.len() == 0,
            r.sim_seed@ == "0"@,
            r.sim_results@.len() == 0,
            r.status is Ready,
    {
        proof {
            reveal_strlit("White");
        }
        assert(data.rush_named(rush_key(0)) is Some);
        let white = "White".to_owned();
        let k = find_rush(&white, data);
        GuiState {
            tab: Tab::Find,
            rush_type: white,
            level_set: Some(k),
            result_count: "1".to_owned(),
            rule_descriptions: Vec::new(),
            find_inputs_changed: false,
            searching: false,
            find_results: String::new(),
            sim_seed: "0".to_owned(),
            sim_results: Vec::new(),
            status: Status::Ready,
        }
    }

    /// Reads the typed rush name: the inputs count as changed, and a rush
    /// that it selects becomes the rush (under its full name).
    pub fn parse_rush_abbr(&mut self, data: &LevelData) -> (r: Result<(), FinderError>)
        requires
            old(self).wf(*data),
            data.wf(),
        ensures
            final(self).wf(*data),
            final(self).find_inputs_changed,
            final(self).tab == old(self).tab,
            final(self).result_count == old(self).result_count,
            final(self).rule_descriptions == old(self).rule_descriptions,
            final(self).searching == old(self).searching,
            final(self).find_results == old(self).find_results,
            final(self).sim_seed == old(self).sim_seed,
            final(self).sim_results == old(self).sim_results,
            final(self).status == old(self).status,
            match old(self).rush_choice(*data) {
                Ok(k) => r is Ok && final(self).rush_type@ == data.rush_name(k as int) && final(self).level_set
                    == Some(k),
                Err(f) => r matches Err(e) && e.describes(f) && final(self).rush_type == old(self).rush_type
                    && final(self).level_set == old(self).level_set,
            },
    {
        self.find_inputs_changed = true;
        let words = vec![self.rush_type.clone()];
        assert(words@ =~= seq![old(self).rush_type]);
        match guess_rush_from_abbr(words.as_slice(), data) {
            Ok(k) => {
                self.rush_type = data.level_sets[k].0.clone();
                self.level_set = Some(k);
                Ok(())
            },
            Err(e) => Err(e),
        }
    }

    /// Reads the typed seed (see [`seed_outcome`]).
    pub fn parse_sim_seed(&self) -> (r: Result<i32, FinderError>)
        ensures
            reports(r, seed_outcome(self.sim_seed@)),
            r matches Ok(v) ==> v >= 0,
    {
        parse_seed(self.sim_seed.as_str())
    }

    /// Reads the typed count of seeds to keep (see [`count_outcome`]); the
    /// inputs count as changed.
    pub fn parse_result_count(&mut self) -> (r: Result<usize, FinderError>)
        ensures
            reports(r, count_outcome(old(self).result_count@)),
            final(self).find_inputs_changed,
            final(self).tab == old(self).tab,
            final(self).rush_type == old(self).rush_type,
            final(self).level_set == old(self).level_set,
            final(self).result_count == old(self).result_count,
            final(self).rule_descriptions == old(self).rule_descriptions,
            final(self).searching == old(self).searching,
            final(self).find_results == old(self).find_results,
            final(self).sim_seed == old(self).sim_seed,
            final(self).sim_results == old(self).sim_results,
            final(self).status == old(self).status,
    {
        self.find_inputs_changed = true;
        let text = chars_of(self.result_count.as_str());
        let t = trim(text.as_slice());
        if t.len() == 0 {
            return Ok(1);
        }
        match parse_usize(t.as_slice()) {
            None => Err(FinderError::UnparsableCount { text: string_from(t.as_slice()) }),
            Some(v) => if v < 1 {
                Err(FinderError::CountTooSmall { count: 0 })
            } else {
                Ok(v)
            },
        }
    }

    /// Simulates the typed seed on the typed rush: the find results are
    /// cleared, the rush is read, then the seed, and the rush's levels in the
    /// seed's order are added after the earlier simulated orders.
    pub fn run_simulate(&mut self, data: &LevelData) -> (r: Result<(), FinderError>)
        requires
            old(self).wf(*data),
            data.wf(),
        ensures
            final(self).wf(*data),
            final(self).find_results@.len() == 0,
            final(self).find_inputs_changed,
            final(self).tab == old(self).tab,
            final(self).result_count == old(self).result_count,
            final(self).rule_descriptions == old(self).rule_descriptions,
            final(self).searching == old(self).searching,
            final(self).sim_seed == old(self).sim_seed,
            final(self).status == old(self).status,
            match old(self).rush_choice(*data) {
                Err(f) => r matches Err(e) && e.describes(f) && final(self).rush_type == old(self).rush_type
                    && final(self).level_set == old(self).level_set && final(self).sim_results
                    == old(self).sim_results,
                Ok(k) => final(self).rush_type@ == data.rush_name(k as int) && final(self).level_set == Some(k)
                    && match seed_outcome(old(self).sim_seed@) {
                    Err(f) => r matches Err(e) && e.describes(f) && final(self).sim_results == old(self).sim_results,
                    Ok(seed) => r is Ok && final(self).sim_results@ == old(self).sim_results@ + ordered_levels(
                        data.rush_levels(k as int),
                        linear_shuffle(data.rush_levels(k as int).len() as u8 as nat, seed as int),
                    ),
                },
            },
    {
        self.find_results = String::new();
        match self.parse_rush_abbr(data) {
            Ok(()) => {},
            Err(e) => {
                return Err(e);
            },
        }
        let rush = match self.level_set {
            Some(k) => k,
            None => {
                return Ok(());
            },
        };
        let seed = match self.parse_sim_seed() {
            Ok(v) => v,
            Err(e) => {
                return Err(e);
            },
        };
        let level_set = &data.level_sets[rush].1;
        let ghost s = bitset_view(*level_set);
        let n = bitset_len(level_set);
        let mut order: Vec<u8> = Vec::new();
        get_shuffled_idxs(#[verifier::truncate] (n as u8), seed, &mut order);
        let members = bitset_elements(level_set);
        proof {
            lemma_ascending(members@, s);
            crate::bitset::lemma_enumeration_len(members@, s);
            crate::rules::lemma_shuffle_levels(n as u8 as nat, seed as int);
        }
        let mut results: Vec<usize> = Vec::new();
        std::mem::swap(&mut results, &mut self.sim_results);
        let ghost before = results@;
        let mut k: usize = 0;
        while k < order.len()
            invariant
                k <= order.len(),
                members@ == crate::bitset::ascending(s),
                members@.len() == n,
                n == s.len(),
                order@ == linear_shuffle(n as u8 as nat, seed as int),
                forall|p: int| 0 <= p < order@.len() ==> #[trigger] order@[p] < n as u8,
                results@ == before + ordered_levels(s, order@.take(k as int)),
            decreases order.len() - k,
        {
            let i = order[k] as usize;
            assert(i < n) by {
                assert(order@[k as int] < n as u8);
                assert((n as u8) as int <= n) by (bit_vector);
            }
            results.push(members[i]);
            k = k + 1;
            assert(results@ =~= before + ordered_levels(s, order@.take(k as int)));
        }
        assert(order@.take(order.len() as int) =~= order@);
        self.sim_results = results;
        Ok(())
    }

    /// A rule was edited: the inputs count as changed, and the status tells
    /// whether the rule reads for the selected rush.
    pub fn edit_rule(&mut self, i: usize, data: &LevelData)
        requires
            old(self).wf(*data),
            i < old(self).rule_descriptions@.len(),
            data.wf(),
        ensures
            final(self).wf(*data),
            final(self).find_inputs_changed,
            final(self).tab == old(self).tab,
            final(self).rush_type == old(self).rush_type,
            final(self).level_set == old(self).level_set,
            final(self).result_count == old(self).result_count,
            final(self).rule_descriptions == old(self).rule_descriptions,
            final(self).searching == old(self).searching,
            final(self).find_results == old(self).find_results,
            final(self).sim_seed == old(self).sim_seed,
            final(self).sim_results == old(self).sim_results,
            match old(self).level_set {
                None => final(self).status is RuleNotChecked,
                Some(k) => match rule_outcome(old(self).rule_descriptions@[i as int]@, data.rush_levels(k as int), *data) {
                    Ok(_) => final(self).status is Ready,
                    Err(f) => final(self).status matches Status::Warning(e) && e.describes(f),
                },
            },
    {
        self.find_inputs_changed = true;
        match self.level_set {
            None => {
                self.status = Status::RuleNotChecked;
            },
            Some(k) => {
                let level_set = &data.level_sets[k].1;
                assert(data.rush_levels(k as int).len() <= i32::MAX);
                let checked = guess_rule_once(self.rule_descriptions[i].as_str(), level_set, data);
                update_status(&mut self.status, checked);
            },
        }
    }

    /// Adds the subset rule `0:3 > ttt`; the inputs count as changed.
    pub fn add_subset_rule(&mut self)
        ensures
            final(self).rule_descriptions@.len() == old(self).rule_descriptions@.len() + 1,
            forall|j: int| 0 <= j < old(self).rule_descriptions@.len() ==> #[trigger] final(self).rule_descriptions@[j]
                == old(self).rule_descriptions@[j],
            final(self).rule_descriptions@.last()@ == new_subset_rule(),
            final(self).find_inputs_changed,
            final(self).tab == old(self).tab,
            final(self).rush_type == old(self).rush_type,
            final(self).level_set == old(self).level_set,
            final(self).result_count == old(self).result_count,
            final(self).searching == old(self).searching,
            final(self).find_results == old(self).find_results,
            final(self).sim_seed == old(self).sim_seed,
            final(self).sim_results == old(self).sim_results,
            final(self).status == old(self).status,
    {
        proof {
            reveal_strlit("0:3 > ttt");
        }
        self.rule_descriptions.push("0:3 > ttt".to_owned());
        self.find_inputs_changed = true;
    }

    /// Adds the sequence rule `0:1 = ttt`; the inputs count as changed.
    pub fn add_sequence_rule(&mut self)
        ensures
            final(self).rule_descriptions@.len() == old(self).rule_descriptions@.len() + 1,
            forall|j: int| 0 <= j < old(self).rule_descriptions@.len() ==> #[trigger] final(self).rule_descriptions@[j]
                == old(self).rule_descriptions@[j],
            final(self).rule_descriptions@.last()@ == new_sequence_rule(),
            final(self).find_inputs_changed,
            final(self).tab == old(self).tab,
            final(self).rush_type == old(self).rush_type,
            final(self).level_set == old(self).level_set,
            final(self).result_count == old(self).result_count,
            final(self).searching == old(self).searching,
            final(self).find_results == old(self).find_results,
            final(self).sim_seed == old(self).sim_seed,
            final(self).sim_results == old(self).sim_results,
            final(self).status == old(self).status,
    {
        proof {
            reveal_strlit("0:1 = ttt");
        }
        self.rule_descriptions.push("0:1 = ttt".to_owned());
        self.find_inputs_changed = true;
    }

    /// Deletes the rules at the marked positions (see [`kept_from`]); when
    /// some are marked, the inputs count as changed.
    pub fn remove_rules(&mut self, marked: &[usize])
        ensures
            marked@.len() == 0 ==> final(self).rule_descriptions == old(self).rule_descriptions
                && final(self).find_inputs_changed == old(self).find_inputs_changed,
            marked@.len() > 0 ==> final(self).rule_descriptions@ == kept_from(old(self).rule_descriptions@, marked@, 0)
                && final(self).find_inputs_changed,
            final(self).tab == old(self).tab,
            final(self).rush_type == old(self).rush_type,
            final(self).level_set == old(self).level_set,
            final(self).result_count == old(self).result_count,
            final(self).searching == old(self).searching,
            final(self).find_results == old(self).find_results,
            final(self).sim_seed == old(self).sim_seed,
            final(self).sim_results == old(self).sim_results,
            final(self).status == old(self).status,
    {
        if marked.len() == 0 {
            return;
        }
        self.find_inputs_changed = true;
        let mut old_rules: Vec<String> = Vec::new();
        std::mem::swap(&mut old_rules, &mut self.rule_descriptions);
        let ghost items = old_rules@;
        let mut kept: Vec<String> = Vec::new();
        let mut p: usize = 0;
        let mut i: usize = 0;
        assert(marked@.skip(0) =~= marked@);
        assert(kept@ + kept_from(items, marked@.skip(0), 0) =~= kept_from(items, marked@, 0));
        while i < old_rules.len()
            invariant
                i <= old_rules.len(),
                p <= marked.len(),
                items == old_rules@,
                kept@ + kept_from(items, marked@.skip(p as int), i as int) == kept_from(items, marked@, 0),
            decreases old_rules.len() - i,
        {
            let ghost rest = marked@.skip(p as int);
            if p < marked.len() && marked[p] == i {
                assert(rest.drop_first() =~= marked@.skip(p + 1));
                p = p + 1;
            } else {
                assert(rest.len() > 0 ==> rest[0] == marked@[p as int]);
                kept.push(old_rules[i].clone());
                assert(kept_from(items, rest, i as int) =~= seq![items[i as int]] + kept_from(items, rest, i + 1));
            }
            i = i + 1;
        }
        assert(kept@ =~= kept_from(items, marked@, 0));
        self.rule_descriptions = kept;
    }

    /// A request to search: nothing happens when the inputs did not change or
    /// a search runs (the status says so); otherwise the find results are
    /// cleared and the rush, the count and the rules are read, in that order,
    /// and the rules must not overlap.
    pub fn start_find(&mut self, data: &LevelData) -> (r: Result<StartFind, FinderError>)
        requires
            old(self).wf(*data),
            data.wf(),
        ensures
            final(self).wf(*data),
            final(self).tab == old(self).tab,
            final(self).result_count == old(self).result_count,
            final(self).rule_descriptions == old(self).rule_descriptions,
            final(self).searching == old(self).searching,
            final(self).sim_seed == old(self).sim_seed,
            final(self).sim_results == old(self).sim_results,
            !old(self).find_inputs_changed ==> {
                &&& r matches Ok(StartFind::Unchanged)
                &&& final(self).status is InputsUnchanged
                &&& final(self).rush_type == old(self).rush_type
                &&& final(self).level_set == old(self).level_set
                &&& final(self).find_results == old(self).find_results
                &&& !final(self).find_inputs_changed
            },
            old(self).find_inputs_changed && old(self).searching ==> {
                &&& r matches Ok(StartFind::Busy)
                &&& final(self).status is SearchInProgress
                &&& final(self).rush_type == old(self).rush_type
                &&& final(self).level_set == old(self).level_set
                &&& final(self).find_results == old(self).find_results
                &&& final(self).find_inputs_changed
            },
            old(self).find_inputs_changed && !old(self).searching ==> {
                &&& final(self).find_results@.len() == 0
                &&& final(self).find_inputs_changed
                &&& final(self).status == old(self).status
                &&& match old(self).rush_choice(*data) {
                    Err(f) => r matches Err(e) && e.describes(f) && final(self).rush_type == old(self).rush_type
                        && final(self).level_set == old(self).level_set,
                    Ok(k) => final(self).rush_type@ == data.rush_name(k as int) && final(self).level_set == Some(k)
                        && match count_outcome(old(self).result_count@) {
                        Err(f) => r matches Err(e) && e.describes(f),
                        Ok(count) => match plan_outcome(old(self).rule_descriptions@, data.rush_levels(k as int), *data) {
                            Err(f) => r matches Err(e) && e.describes(f),
                            Ok(rs) => r matches Ok(StartFind::Search { rush, count: c, rules }) && rush == k && c
                                == count && shapes(rules@) == rs,
                        },
                    },
                }
            },
    {
        if !self.find_inputs_changed {
            self.status = Status::InputsUnchanged;
            return Ok(StartFind::Unchanged);
        }
        if self.searching {
            self.status = Status::SearchInProgress;
            return Ok(StartFind::Busy);
        }
        self.find_inputs_changed = false;
        self.find_results = String::new();
        match self.parse_rush_abbr(data) {
            Ok(()) => {},
            Err(e) => {
                return Err(e);
            },
        }
        let rush = match self.level_set {
            Some(k) => k,
            None => {
                return Ok(StartFind::Unchanged);
            },
        };
        let count = match self.parse_result_count() {
            Ok(c) => c,
            Err(e) => {
                return Err(e);
            },
        };
        let level_set = &data.level_sets[rush].1;
        assert(data.rush_levels(rush as int).len() <= i32::MAX);
        let rules = match read_rules(self.rule_descriptions.as_slice(), level_set, data) {
            Ok(v) => v,
            Err(e) => {
                return Err(e);
            },
        };
        proof {
            let s = bitset_view(*level_set);
            assert forall|j: int| 0 <= j < shapes(rules@).len() implies #[trigger] shape_fits(
                shapes(rules@)[j],
                s.len() as int,
            ) by {
                assert(shape_fits(rules@[j].shape(), s.len() as int));
            }
            crate::frontend::lemma_fitting_rules_decide(shapes(rules@), s);
        }
        match check_rules(rules.as_slice(), level_set) {
            Err(e) => Err(e),
            Ok(()) => Ok(StartFind::Search { rush, count, rules }),
        }
    }
}

/// The positions `i..n` that are not marked, in order.
pub open spec fn unmarked(n: int, marked: Seq<usize>, i: int) -> Seq<int> {
    Seq::new(if n > i { (n - i) as nat } else { 0 }, |t: int| i + t).filter(not_marked(marked))
}

/// The position is not marked.
pub open spec fn not_marked(marked: Seq<usize>) -> spec_fn(int) -> bool {
    |j: int| !marked.contains(j as usize)
}

/// Filtering by two tests that agree on every entry gives the same result.
proof fn lemma_filter_agree(q: Seq<int>, p1: spec_fn(int) -> bool, p2: spec_fn(int) -> bool)
    requires
        forall|k: int| 0 <= k < q.len() ==> p1(#[trigger] q[k]) == p2(q[k]),
    ensures
        q.filter(p1) == q.filter(p2),
    decreases q.len(),
{
    if q.len() == 0 {
        assert(q.filter(p1) =~= q.filter(p2)) by {
            reveal(Seq::filter);
        }
    } else {
        let init = q.drop_last();
        assert forall|k: int| 0 <= k < init.len() implies p1(#[trigger] init[k]) == p2(init[k]) by {
            assert(init[k] == q[k]);
        }
        lemma_filter_agree(init, p1, p2);
        assert(init.push(q.last()) =~= q);
        init.lemma_filter_push(q.last(), p1);
        init.lemma_filter_push(q.last(), p2);
    }
}

/// With increasing marks, deleting keeps exactly the entries at unmarked
/// positions, in order.
pub proof fn lemma_remove_marked(items: Seq<String>, marked: Seq<usize>, i: int)
    requires
        0 <= i <= items.len(),
        items.len() <= usize::MAX,
        forall|a: int, b: int| 0 <= a < b < marked.len() ==> #[trigger] marked[a] < #[trigger] marked[b],
        forall|a: int| 0 <= a < marked.len() ==> #[trigger] marked[a] >= i,
    ensures
        kept_from(items, marked, i) == unmarked(items.len() as int, marked, i).map_values(|j: int| items[j]),
    decreases items.len() - i,
{
    let n = items.len() as int;
    let positions = Seq::new(if n > i { (n - i) as nat } else { 0 }, |t: int| i + t);
    if i == n {
        assert(positions =~= Seq::<int>::empty());
        assert(positions.filter(not_marked(marked)) =~= Seq::<int>::empty()) by {
            reveal(Seq::filter);
        }
        assert(kept_from(items, marked, i) =~= Seq::<String>::empty());
    } else {
        let rest = Seq::new((n - (i + 1)) as nat, |t: int| i + 1 + t);
        assert(positions =~= seq![i] + rest);
        rest.lemma_filter_prepend(i, not_marked(marked));
        if marked.len() > 0 && marked[0] == i {
            let tail = marked.drop_first();
            assert forall|a: int, b: int| 0 <= a < b < tail.len() implies #[trigger] tail[a] < #[trigger] tail[b] by {
                assert(marked[a + 1] < marked[b + 1]);
            }
            assert forall|a: int| 0 <= a < tail.len() implies #[trigger] tail[a] >= i + 1 by {
                assert(marked[0] < marked[a + 1]);
            }
            lemma_remove_marked(items, tail, i + 1);
            assert(marked.contains(i as usize)) by {
                assert(marked[0] == i as usize);
            }
            assert forall|k: int| 0 <= k < rest.len() implies (not_marked(marked))(#[trigger] rest[k]) == (not_marked(tail))(
                rest[k],
            ) by {
                let j = rest[k];
                if marked.contains(j as usize) {
                    let a = choose|a: int| 0 <= a < marked.len() && marked[a] == j as usize;
                    assert(a != 0);
                    assert(tail[a - 1] == j as usize);
                }
                if tail.contains(j as usize) {
                    let a = choose|a: int| 0 <= a < tail.len() && tail[a] == j as usize;
                    assert(marked[a + 1] == j as usize);
                }
            }
            lemma_filter_agree(rest, not_marked(marked), not_marked(tail));
            assert(unmarked(n, tail, i + 1) =~= rest.filter(not_marked(tail)));
        } else {
            assert(!marked.contains(i as usize)) by {
                if marked.contains(i as usize) {
                    let a = choose|a: int| 0 <= a < marked.len() && marked[a] == i as usize;
                    if a > 0 {
                        assert(marked[0] < marked[a]);
                    }
                }
            }
            lemma_remove_marked(items, marked, i + 1);
            assert(unmarked(n, marked, i + 1) =~= rest.filter(not_marked(marked)));
            assert(kept_from(items, marked, i) =~= seq![items[i]] + kept_from(items, marked, i + 1));
            assert(unmarked(n, marked, i).map_values(|j: int| items[j]) =~= seq![items[i]] + unmarked(
                n,
                marked,
                i + 1,
            ).map_values(|j: int| items[j]));
        }
    }
}

} // verus!
