//! The decisions of the command line: which subcommand the arguments ask for,
//! how they group into a rush, a seed, a count and a description, and what
//! simulating a seed or preparing a search yields.
use vstd::prelude::*;
use crate::bitset::{bitset_view, bitset_len, bitset_elements, ascending, lemma_ascending};
use crate::error::{FinderError, Failure, reports};
use crate::frontend::{description_outcome, guess_rules_from_description};
use crate::levels::{LevelData, rush_outcome, lowered_words, guess_rush_from_abbr};
use crate::rules::{Rule, RuleShape, shapes};
use crate::shuffle::{linear_shuffle, get_shuffled_idxs};
use crate::text::{text_of, decimal_i32, parse_i32, chars_of};

verus! {

/// What the command line asks for.
#[derive(Debug, Clone, Copy, PartialEq, Eq)]
pub enum Command {
    /// Find seeds that meet a description.
    Find,
    /// Find the best seeds for a stats file.
    Best,
    /// Print the usage.
    Help,
    /// No arguments at all.
    Interactive,
    /// Show the order of a seed.
    Simulate,
}

/// The texts of the arguments.
pub open spec fn arg_texts(args: Seq<String>) -> Seq<Seq<char>> {
    args.map_values(text_of())
}

/// Some argument after the program's name holds `c`.
pub open spec fn some_arg_holds(args: Seq<Seq<char>>, c: char) -> bool {
    exists|k: int| 1 <= k < args.len() && #[trigger] args[k].contains(c)
}

/// The subcommand the arguments ask for: a `:` in some argument is a
/// description to find; else a `.` is a stats file; else a lone prefix of
/// `help` asks for help; no argument at all is the interactive case; anything
/// else is a seed to simulate.
pub open spec fn command_for(args: Seq<Seq<char>>) -> Command {
    if some_arg_holds(args, ':') {
        Command::Find
    } else if some_arg_holds(args, '.') {
        Command::Best
    } else if args.len() == 2 && args[1].is_prefix_of("help"@) {
        Command::Help
    } else if args.len() == 1 {
        Command::Interactive
    } else {
        Command::Simulate
    }
}

/// Whether `p` is a prefix of `s`.
pub fn is_prefix(p: &[char], s: &[char]) -> (r: bool)
    ensures
        r == p@.is_prefix_of(s@),
{
    if p.len() > s.len() {
        return false;
    }
    let mut k: usize = 0;
    while k < p.len()
        invariant
            k <= p.len() <= s.len(),
            forall|i: int| 0 <= i < k ==> #[trigger] p@[i] == s@[i],
        decreases p.len() - k,
    {
        if p[k] != s[k] {
            assert(s@.take(p.len() as int)[k as int] != p@[k as int]);
            return false;
        }
        k = k + 1;
    }
    assert(s@.take(p.len() as int) =~= p@);
    true
}

/// Whether `c` occurs in `s`.
fn holds_char(s: &[char], c: char) -> (r: bool)
    ensures
        r == s@.contains(c),
{
    let mut k: usize = 0;
    while k < s.len()
        invariant
            k <= s.len(),
            forall|i: int| 0 <= i < k ==> #[trigger] s@[i] != c,
        decreases s.len() - k,
    {
        if s[k] == c {
            return true;
        }
        k = k + 1;
    }
    false
}

/// Whether some argument after the first holds `c`.
fn any_arg_holds(args: &[String], c: char) -> (r: bool)
    ensures
        r == some_arg_holds(arg_texts(args@), c),
{
    let mut k: usize = 1;
    while k < args.len()
        invariant
            1 <= k,
            forall|i: int| 1 <= i < k && i < args@.len() ==> !(#[trigger] arg_texts(args@)[i]).contains(c),
        decreases args.len() - k,
    {
        let text = chars_of(args[k].as_str());
        if holds_char(text.as_slice(), c) {
            assert(arg_texts(args@)[k as int] == text@);
            return true;
        }
        assert(arg_texts(args@)[k as int] == text@);
        k = k + 1;
    }
    false
}

/// The subcommand that the arguments ask for (see [`command_for`]).
pub fn choose_command(args: &[String]) -> (r: Command)
    ensures
        r == command_for(arg_texts(args@)),
{
    let mut asks_help = false;
    if args.len() == 2 {
        let first = chars_of(args[1].as_str());
        let help = chars_of("help");
        proof {
            reveal_strlit("help");
        }
        assert(arg_texts(args@)[1] == first@);
        asks_help = is_prefix(first.as_slice(), help.as_slice());
    }
    if any_arg_holds(args, ':') {
        Command::Find
    } else if any_arg_holds(args, '.') {
        Command::Best
    } else if args.len() == 2 && asks_help {
        Command::Help
    } else if args.len() == 1 {
        Command::Interactive
    } else {
        Command::Simulate
    }
}

/// The first of `names` that `arg` begins, if any (an argument that is a
/// prefix of another subcommand's name).
pub open spec fn other_subcommand(arg: Seq<char>, names: Seq<Seq<char>>) -> Option<Seq<char>>
    decreases names.len(),
{
    if names.len() == 0 {
        None
    } else if arg.is_prefix_of(names[0]) {
        Some(names[0])
    } else {
        other_subcommand(arg, names.drop_first())
    }
}

/// The subcommands other than `simulate`.
pub open spec fn not_simulate() -> Seq<Seq<char>> {
    seq!["help"@, "find"@, "best"@]
}

/// The subcommands other than `find`.
pub open spec fn not_find() -> Seq<Seq<char>> {
    seq!["help"@, "simulate"@, "best"@]
}

/// The first of the three names that `arg` begins, if any.
fn first_prefixed(arg: &[char], first: &str, second: &str, third: &str) -> (r: Option<String>)
    ensures
        match other_subcommand(arg@, seq![first@, second@, third@]) {
            None => r is None,
            Some(name) => r matches Some(t) && t@ == name,
        },
{
    let ghost names = seq![first@, second@, third@];
    proof {
        let rest1 = seq![second@, third@];
        let rest2 = seq![third@];
        assert(names.drop_first() =~= rest1);
        assert(rest1.drop_first() =~= rest2);
        assert(rest2.drop_first() =~= Seq::<Seq<char>>::empty());
        assert(other_subcommand(arg@, rest2) == if arg@.is_prefix_of(third@) {
            Some(third@)
        } else {
            other_subcommand(arg@, Seq::<Seq<char>>::empty())
        });
        assert(other_subcommand(arg@, rest1) == if arg@.is_prefix_of(second@) {
            Some(second@)
        } else {
            other_subcommand(arg@, rest2)
        });
        assert(other_subcommand(arg@, names) == if arg@.is_prefix_of(first@) {
            Some(first@)
        } else {
            other_subcommand(arg@, rest1)
        });
    }
    let a = chars_of(first);
    if is_prefix(arg, a.as_slice()) {
        return Some(first.to_owned());
    }
    let b = chars_of(second);
    if is_prefix(arg, b.as_slice()) {
        return Some(second.to_owned());
    }
    let c = chars_of(third);
    if is_prefix(arg, c.as_slice()) {
        return Some(third.to_owned());
    }
    None
}

/// The arguments of a simulation: the words of the rush, and the seed.
#[derive(Debug)]
pub struct SimulateArgs {
    pub rush_words: Vec<String>,
    pub seed_text: String,
}

/// How the arguments of a simulation group: the rush's words are the
/// arguments from the second up to `end`, the seed is argument `seed`. With
/// two arguments the seed is the second; otherwise it is the last, and the one
/// before it is a prefix of `simulate` (left out of the rush) or of no other
/// subcommand.
pub open spec fn simulate_layout(args: Seq<Seq<char>>) -> Result<(int, int), Failure> {
    let len = args.len() as int;
    if len == 2 {
        Ok((1, 1))
    } else {
        match other_subcommand(args[len - 2], not_simulate()) {
            Some(name) => Err(Failure::WrongSubcommand { expected: "simulate"@, found: name }),
            None => if args[len - 2].is_prefix_of("simulate"@) {
                Ok((len - 2, len - 1))
            } else {
                Ok((len - 1, len - 1))
            },
        }
    }
}

/// The arguments `args[a..b]`.
fn copy_args(args: &[String], a: usize, b: usize) -> (r: Vec<String>)
    requires
        a <= b <= args.len(),
    ensures
        r@ == args@.subrange(a as int, b as int),
{
    let mut out: Vec<String> = Vec::new();
    let mut k: usize = a;
    while k < b
        invariant
            a <= k <= b <= args.len(),
            out@ == args@.subrange(a as int, k as int),
        decreases b - k,
    {
        out.push(args[k].clone());
        k = k + 1;
        assert(out@ =~= args@.subrange(a as int, k as int));
    }
    out
}

/// Groups the arguments of a simulation (see [`simulate_layout`]).
pub fn simulate_arguments(args: &[String]) -> (r: Result<SimulateArgs, FinderError>)
    requires
        args.len() >= 2,
    ensures
        match (r, simulate_layout(arg_texts(args@))) {
            (Ok(v), Ok((end, seed))) => v.rush_words@ == args@.subrange(1, end) && v.seed_text == args@[seed],
            (Err(e), Err(f)) => e.describes(f),
            _ => false,
        },
{
    let len = args.len();
    if len == 2 {
        return Ok(SimulateArgs { rush_words: Vec::new(), seed_text: args[1].clone() });
    }
    let before = chars_of(args[len - 2].as_str());
    assert(arg_texts(args@)[len - 2] == before@);
    proof {
        reveal_strlit("help");
        reveal_strlit("find");
        reveal_strlit("best");
        reveal_strlit("simulate");
    }
    match first_prefixed(before.as_slice(), "help", "find", "best") {
        Some(name) => {
            return Err(FinderError::WrongSubcommand { expected: "simulate".to_owned(), found: name });
        },
        None => {},
    }
    let simulate = chars_of("simulate");
    let end = if is_prefix(before.as_slice(), simulate.as_slice()) { len - 2 } else { len - 1 };
    Ok(SimulateArgs { rush_words: copy_args(args, 1, end), seed_text: args[len - 1].clone() })
}

/// What a seed argument gives: a number that is not negative.
pub open spec fn seed_outcome(text: Seq<char>) -> Result<i32, Failure> {
    match decimal_i32(text) {
        None => Err(Failure::UnparsableSeed { text }),
        Some(v) => if v < 0 {
            Err(Failure::NegativeSeed)
        } else {
            Ok(v as i32)
        },
    }
}

/// The seed that `text` spells (see [`seed_outcome`]).
pub fn parse_seed(text: &str) -> (r: Result<i32, FinderError>)
    ensures
        reports(r, seed_outcome(text@)),
        r matches Ok(v) ==> v >= 0,
{
    let t = chars_of(text);
    match parse_i32(t.as_slice()) {
        None => Err(FinderError::UnparsableSeed { text: text.to_owned() }),
        Some(v) => if v < 0 {
            Err(FinderError::NegativeSeed)
        } else {
            Ok(v)
        },
    }
}

/// A simulated rush: which rush, the seed, the order as positions in the
/// rush, and the order as indices into the level list.
#[derive(Debug)]
pub struct Simulation {
    pub rush: usize,
    pub seed: i32,
    pub order: Vec<u8>,
    pub levels: Vec<usize>,
}

/// The rush's levels, in the order the positions `order` give.
pub open spec fn ordered_levels(s: Set<usize>, order: Seq<u8>) -> Seq<usize> {
    order.map_values(|i: u8| ascending(s)[i as int])
}

/// The rush that the words select, and the seed; the first failure otherwise.
pub open spec fn simulate_outcome(rush_words: Seq<String>, seed_text: Seq<char>, data: LevelData) -> Result<(usize, i32), Failure> {
    match rush_outcome(lowered_words(rush_words), data) {
        Err(f) => Err(f),
        Ok(k) => match seed_outcome(seed_text) {
            Err(f) => Err(f),
            Ok(seed) => Ok((k, seed)),
        },
    }
}

/// Simulates the seed on the rush that the words select: the order of its
/// levels (its size taken as a byte, as the shuffle takes it).
pub fn simulate(rush_words: &[String], seed_text: &str, data: &LevelData) -> (r: Result<Simulation, FinderError>)
    requires
        data.wf(),
    ensures
        match (r, simulate_outcome(rush_words@, seed_text@, *data)) {
            (Ok(v), Ok((k, seed))) => {
                &&& v.rush == k
                &&& v.seed == seed
                &&& k < data.level_sets@.len()
                &&& v.order@ == linear_shuffle(data.rush_levels(k as int).len() as u8 as nat, seed as int)
                &&& v.levels@ == ordered_levels(data.rush_levels(k as int), v.order@)
            },
            (Err(e), Err(f)) => e.describes(f),
            _ => false,
        },
{
    let rush = match guess_rush_from_abbr(rush_words, data) {
        Ok(k) => k,
        Err(e) => {
            return Err(e);
        },
    };
    let seed = match parse_seed(seed_text) {
        Ok(v) => v,
        Err(e) => {
            return Err(e);
        },
    };
    let level_set = &data.level_sets[rush].1;
    let ghost s = bitset_view(*level_set);
    let n = bitset_len(level_set);
    let mut order: Vec<u8> = Vec::new();
    get_shuffled_idxs(#[verifier::truncate] (n as u8), seed, &mut order);
    let members = bitset_elements(level_set);
    proof {
        lemma_ascending(members@, s);
        crate::bitset::lemma_enumeration_len(members@, s);
        crate::rules::lemma_shuffle_levels(n as u8 as nat, seed as int);
    }
    let mut levels: Vec<usize> = Vec::new();
    let mut k: usize = 0;
    while k < order.len()
        invariant
            k <= order.len(),
            members@ == ascending(s),
            members@.len() == n,
            n == s.len(),
            order@ == linear_shuffle(n as u8 as nat, seed as int),
            forall|p: int| 0 <= p < order@.len() ==> #[trigger] order@[p] < n as u8,
            levels@ == ordered_levels(s, order@.take(k as int)),
        decreases order.len() - k,
    {
        let i = order[k] as usize;
        assert(i < n) by {
            assert(order@[k as int] < n as u8);
            assert((n as u8) as int <= n) by (bit_vector);
        }
        levels.push(members[i]);
        k = k + 1;
        assert(levels@ =~= ordered_levels(s, order@.take(k as int)));
    }
    assert(order@.take(order.len() as int) =~= order@);
    Ok(Simulation { rush, seed, order, levels })
}

/// Groups the arguments of a simulation, then simulates (see [`simulate`]).
pub fn try_simulate(args: &[String], data: &LevelData) -> (r: Result<Simulation, FinderError>)
    requires
        args.len() >= 2,
        data.wf(),
    ensures
        match simulate_layout(arg_texts(args@)) {
            Err(f) => r matches Err(e) && e.describes(f),
            Ok((end, seed)) => match (r, simulate_outcome(args@.subrange(1, end), args@[seed]@, *data)) {
                (Ok(v), Ok((k, s))) => {
                    &&& v.rush == k
                    &&& v.seed == s
                    &&& v.order@ == linear_shuffle(data.rush_levels(k as int).len() as u8 as nat, s as int)
                    &&& v.levels@ == ordered_levels(data.rush_levels(k as int), v.order@)
                },
                (Err(e), Err(f)) => e.describes(f),
                _ => false,
            },
        },
{
    let grouped = match simulate_arguments(args) {
        Ok(g) => g,
        Err(e) => {
            return Err(e);
        },
    };
    simulate(grouped.rush_words.as_slice(), grouped.seed_text.as_str(), data)
}

/// The first index from `k` on whose argument holds a `:`, or the end.
pub open spec fn colon_from(args: Seq<Seq<char>>, k: int) -> int
    decreases args.len() - k,
{
    if k >= args.len() {
        k
    } else if args[k].contains(':') {
        k
    } else {
        colon_from(args, k + 1)
    }
}

/// How the arguments of a search group: the description starts at the first
/// argument (after the program's name) that holds a `:`; the argument before
/// it, if it is a number, is the count (else the count is 1); the one before
/// that (or before the description) is a prefix of `find` (left out) or of no
/// other subcommand; the rest, from the second argument on, are the rush's
/// words. Yields the end of the rush's words, the count and the start of the
/// description.
pub open spec fn find_layout(args: Seq<Seq<char>>) -> Result<(int, int, int), Failure> {
    let idx = colon_from(args, 1);
    let have_count = idx > 1 && decimal_i32(args[idx - 1]) is Some;
    let count = if have_count { decimal_i32(args[idx - 1]).unwrap() } else { 1 };
    if idx > 1 {
        let i = if have_count { idx - 2 } else { idx - 1 };
        match other_subcommand(args[i], not_find()) {
            Some(name) => Err(Failure::WrongSubcommand { expected: "find"@, found: name }),
            None => {
                let have_subcommand = args[i].is_prefix_of("find"@);
                Ok(
                    (
                        idx - (if have_count { 1int } else { 0 }) - (if have_subcommand { 1int } else { 0 }),
                        count,
                        idx,
                    ),
                )
            },
        }
    } else {
        Ok((idx, count, idx))
    }
}

/// The grouping leaves the rush's words a range that starts at the second
/// argument (the one grouping that does not: a count right after the
/// program's name, whose name is itself a prefix of `find`).
pub open spec fn find_layout_valid(args: Seq<Seq<char>>) -> bool {
    args.len() >= 1 && (find_layout(args) matches Ok((end, _, _)) ==> end >= 1)
}

/// The arguments of a search: the words of the rush, the count, and the words
/// of the description.
#[derive(Debug)]
pub struct FindArgs {
    pub rush_words: Vec<String>,
    pub count: i32,
    pub description: Vec<String>,
}

/// The first argument from the second on that holds a `:` (or the end).
fn first_colon(args: &[String]) -> (r: usize)
    requires
        args.len() >= 1,
    ensures
        r as int == colon_from(arg_texts(args@), 1),
        1 <= r <= args.len(),
{
    let mut k: usize = 1;
    while k < args.len()
        invariant
            1 <= k <= args.len(),
            colon_from(arg_texts(args@), k as int) == colon_from(arg_texts(args@), 1),
        decreases args.len() - k,
    {
        let text = chars_of(args[k].as_str());
        assert(arg_texts(args@)[k as int] == text@);
        if holds_char(text.as_slice(), ':') {
            return k;
        }
        k = k + 1;
    }
    k
}

/// Whether the arguments of a search group (see [`find_layout_valid`]).
pub fn find_arguments_fit(args: &[String]) -> (r: bool)
    ensures
        r == find_layout_valid(arg_texts(args@)),
{
    if args.len() == 0 {
        return false;
    }
    let ghost texts = arg_texts(args@);
    let idx = first_colon(args);
    if idx != 2 {
        return true;
    }
    let count_word = chars_of(args[1].as_str());
    assert(texts[1] == count_word@);
    if parse_i32(count_word.as_slice()).is_none() {
        return true;
    }
    let name = chars_of(args[0].as_str());
    assert(texts[0] == name@);
    proof {
        reveal_strlit("help");
        reveal_strlit("simulate");
        reveal_strlit("best");
        reveal_strlit("find");
    }
    if first_prefixed(name.as_slice(), "help", "simulate", "best").is_some() {
        return true;
    }
    let find = chars_of("find");
    !is_prefix(name.as_slice(), find.as_slice())
}

/// Groups the arguments of a search (see [`find_layout`]).
pub fn find_arguments(args: &[String]) -> (r: Result<FindArgs, FinderError>)
    requires
        find_layout_valid(arg_texts(args@)),
    ensures
        match (r, find_layout(arg_texts(args@))) {
            (Ok(v), Ok((end, count, start))) => {
                &&& v.rush_words@ == args@.subrange(1, end)
                &&& v.count == count
                &&& v.description@ == args@.subrange(start, args@.len() as int)
            },
            (Err(e), Err(f)) => e.describes(f),
            _ => false,
        },
{
    let ghost texts = arg_texts(args@);
    let idx = first_colon(args);
    let mut count: i32 = 1;
    let mut have_count = false;
    if idx > 1 {
        let before = chars_of(args[idx - 1].as_str());
        assert(texts[idx - 1] == before@);
        match parse_i32(before.as_slice()) {
            Some(v) => {
                count = v;
                have_count = true;
            },
            None => {},
        }
    }
    let mut have_subcommand = false;
    if idx > 1 {
        let i = if have_count { idx - 2 } else { idx - 1 };
        let word = chars_of(args[i].as_str());
        assert(texts[i as int] == word@);
        proof {
            reveal_strlit("help");
            reveal_strlit("simulate");
            reveal_strlit("best");
            reveal_strlit("find");
        }
        match first_prefixed(word.as_slice(), "help", "simulate", "best") {
            Some(name) => {
                return Err(FinderError::WrongSubcommand { expected: "find".to_owned(), found: name });
            },
            None => {},
        }
        let find = chars_of("find");
        have_subcommand = is_prefix(word.as_slice(), find.as_slice());
    }
    let end = idx - (if have_count { 1 } else { 0 }) - (if have_subcommand { 1 } else { 0 });
    Ok(FindArgs { rush_words: copy_args(args, 1, end), count, description: copy_args(args, idx, args.len()) })
}

/// A prepared search: the rush (its position in the rush list), how many
/// seeds to keep, and the rules.
#[derive(Debug)]
pub struct FindRequest {
    pub rush: usize,
    pub count: i32,
    pub rules: Vec<Rule>,
}

/// What a search asks for, once grouped: a count of at least 1, the rush that
/// the words select, and the rules that the description states for it; the
/// first failure otherwise.
pub open spec fn request_outcome(rush_words: Seq<String>, count: int, description: Seq<String>, data: LevelData) -> Result<(usize, Seq<RuleShape>), Failure> {
    if count < 1 {
        Err(Failure::CountTooSmall { count })
    } else {
        match rush_outcome(lowered_words(rush_words), data) {
            Err(f) => Err(f),
            Ok(k) => match description_outcome(description, data.rush_levels(k as int), data) {
                Err(f) => Err(f),
                Ok(rules) => Ok((k, rules)),
            },
        }
    }
}

/// Prepares a search from grouped arguments (see [`request_outcome`]).
pub fn prepare_find(found: &FindArgs, data: &LevelData) -> (r: Result<FindRequest, FinderError>)
    requires
        data.wf(),
    ensures
        match (r, request_outcome(found.rush_words@, found.count as int, found.description@, *data)) {
            (Ok(v), Ok((k, rules))) => v.rush == k && v.count == found.count && shapes(v.rules@) == rules
                && k < data.level_sets@.len(),
            (Err(e), Err(f)) => e.describes(f),
            _ => false,
        },
{
    if found.count < 1 {
        return Err(FinderError::CountTooSmall { count: found.count });
    }
    let rush = match guess_rush_from_abbr(found.rush_words.as_slice(), data) {
        Ok(k) => k,
        Err(e) => {
            return Err(e);
        },
    };
    let level_set = &data.level_sets[rush].1;
    assert(data.rush_levels(rush as int).len() <= i32::MAX);
    match guess_rules_from_description(found.description.as_slice(), level_set, data) {
        Ok(rules) => Ok(FindRequest { rush, count: found.count, rules }),
        Err(e) => Err(e),
    }
}

/// Groups the arguments of a search and prepares it (see [`find_arguments`]
/// and [`prepare_find`]).
pub fn try_find(args: &[String], data: &LevelData) -> (r: Result<FindRequest, FinderError>)
    requires
        find_layout_valid(arg_texts(args@)),
        data.wf(),
    ensures
        match find_layout(arg_texts(args@)) {
            Err(f) => r matches Err(e) && e.describes(f),
            Ok((end, count, start)) => match (
                r,
                request_outcome(args@.subrange(1, end), count, args@.subrange(start, args@.len() as int), *data),
            ) {
                (Ok(v), Ok((k, rules))) => v.rush == k && v.count == count && shapes(v.rules@) == rules,
                (Err(e), Err(f)) => e.describes(f),
                _ => false,
            },
        },
{
    let found = match find_arguments(args) {
        Ok(v) => v,
        Err(e) => {
            return Err(e);
        },
    };
    prepare_find(&found, data)
}

/// Finding the best seeds for a stats file is not implemented: every call
/// reports so.
pub fn try_best(args: &[String]) -> (r: Result<(), FinderError>)
    ensures
        r matches Err(e) && e.describes(Failure::BestNotImplemented),
{
    Err(FinderError::BestNotImplemented)
}

/// A `:` in any argument after the program's name asks for a search,
/// wherever that argument stands; with no `:` anywhere there is no search.
pub proof fn lemma_colon_asks_find(args: Seq<Seq<char>>)
    ensures
        forall|k: int| 1 <= k < args.len() && #[trigger] args[k].contains(':') ==> command_for(args) == Command::Find,
        (forall|k: int| 1 <= k < args.len() ==> !#[trigger] args[k].contains(':')) ==> command_for(args) != Command::Find,
{
    assert forall|k: int| 1 <= k < args.len() && #[trigger] args[k].contains(':') implies command_for(args)
        == Command::Find by {
        assert(some_arg_holds(args, ':'));
    }
}

/// Which of three names `w` begins first, if any.
proof fn lemma_other_subcommand_three(w: Seq<char>, a: Seq<char>, b: Seq<char>, c: Seq<char>)
    ensures
        other_subcommand(w, seq![a, b, c]) == if w.is_prefix_of(a) {
            Some(a)
        } else if w.is_prefix_of(b) {
            Some(b)
        } else if w.is_prefix_of(c) {
            Some(c)
        } else {
            None::<Seq<char>>
        },
{
    let names = seq![a, b, c];
    assert(names.drop_first() =~= seq![b, c]);
    assert(seq![b, c].drop_first() =~= seq![c]);
    assert(seq![c].drop_first() =~= Seq::<Seq<char>>::empty());
    reveal_with_fuel(other_subcommand, 4);
}

/// The search from `k` on for an argument holding a `:` finds the first one.
proof fn lemma_colon_from_first(args: Seq<Seq<char>>, k: int, idx: int)
    requires
        1 <= k <= idx < args.len(),
        args[idx].contains(':'),
        forall|j: int| 1 <= j < idx ==> !#[trigger] args[j].contains(':'),
    ensures
        colon_from(args, k) == idx,
    decreases idx - k,
{
    if k < idx {
        lemma_colon_from_first(args, k + 1, idx);
    }
}

/// Reading the arguments of a search: the description starts at the first
/// argument after the program's name that holds a `:` (at `idx`).  The
/// argument just before it is the count when it is a number (else the count
/// is 1); the argument before that (or just before the description when there
/// is no count) is left out of the rush's words when it begins `find` and no
/// other subcommand, and kept when it begins none.  The rush's words are the
/// arguments from the second one up to what is left out.
pub proof fn lemma_find_words(args: Seq<Seq<char>>, idx: int)
    requires
        2 <= idx < args.len(),
        args[idx].contains(':'),
        forall|j: int| 1 <= j < idx ==> !#[trigger] args[j].contains(':'),
    ensures
        find_layout(args) matches Ok((end, count, start)) ==> start == idx,
        decimal_i32(args[idx - 1]) is None && args[idx - 1].is_prefix_of("find"@) && !args[idx - 1].is_prefix_of("help"@) && !args[idx - 1].is_prefix_of("simulate"@) && !args[idx - 1].is_prefix_of("best"@)
            ==> find_layout(args) == Ok::<(int, int, int), Failure>((idx - 1, 1, idx)),
        decimal_i32(args[idx - 1]) is None && !args[idx - 1].is_prefix_of("help"@) && !args[idx - 1].is_prefix_of("simulate"@)
            && !args[idx - 1].is_prefix_of("find"@) && !args[idx - 1].is_prefix_of("best"@)
            ==> find_layout(args) == Ok::<(int, int, int), Failure>((idx, 1, idx)),
        decimal_i32(args[idx - 1]) matches Some(c) ==> (args[idx - 2].is_prefix_of("find"@) && !args[idx - 2].is_prefix_of("help"@) && !args[idx - 2].is_prefix_of("simulate"@) && !args[idx - 2].is_prefix_of("best"@)
            ==> find_layout(args) == Ok::<(int, int, int), Failure>((idx - 2, c, idx))),
        decimal_i32(args[idx - 1]) matches Some(c) ==> (!args[idx - 2].is_prefix_of("help"@)
            && !args[idx - 2].is_prefix_of("simulate"@) && !args[idx - 2].is_prefix_of("find"@)
            && !args[idx - 2].is_prefix_of("best"@)
            ==> find_layout(args) == Ok::<(int, int, int), Failure>((idx - 1, c, idx))),
{
    lemma_colon_from_first(args, 1, idx);
    lemma_other_subcommand_three(args[idx - 1], "help"@, "simulate"@, "best"@);
    lemma_other_subcommand_three(args[idx - 2], "help"@, "simulate"@, "best"@);
}

/// Reading the arguments of a simulation: the seed is the last argument;
/// with two arguments there are no rush words (White's rush); with more, the
/// argument before the seed is left out of the rush's words exactly when it
/// begins `simulate`, so the rush's words are the arguments strictly between
/// the program's name and it, or else all the arguments between the
/// program's name and the seed.
pub proof fn lemma_simulate_words(args: Seq<Seq<char>>)
    requires
        args.len() >= 2,
    ensures
        simulate_layout(args) matches Ok((end, seed)) ==> {
            &&& seed == args.len() - 1
            &&& (args.len() == 2 ==> end == 1)
            &&& (args.len() >= 3 ==> (end == args.len() - 2 <==> args[args.len() - 2].is_prefix_of("simulate"@)))
            &&& (args.len() >= 3 && !args[args.len() - 2].is_prefix_of("simulate"@) ==> end == args.len() - 1)
        },
        args.len() >= 3 && args[args.len() - 2].is_prefix_of("simulate"@) && !args[args.len() - 2].is_prefix_of("help"@) && !args[args.len() - 2].is_prefix_of("find"@) && !args[args.len() - 2].is_prefix_of("best"@)
            ==> simulate_layout(args) == Ok::<(int, int), Failure>((args.len() - 2, args.len() - 1)),
        args.len() >= 3 && !args[args.len() - 2].is_prefix_of("help"@) && !args[args.len() - 2].is_prefix_of("simulate"@)
            && !args[args.len() - 2].is_prefix_of("find"@) && !args[args.len() - 2].is_prefix_of("best"@)
            ==> simulate_layout(args) == Ok::<(int, int), Failure>((args.len() - 1, args.len() - 1)),
{
    if args.len() >= 3 {
        lemma_other_subcommand_three(args[args.len() - 2], "help"@, "find"@, "best"@);
    }
}

} // verus!
