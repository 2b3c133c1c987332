//! Text handling on sequences of characters: whitespace, splitting, trimming,
//! decimal numbers, lowercasing and the abbreviation match of names.
use vstd::prelude::*;

verus! {

/// The Unicode `White_Space` characters (what `char::is_whitespace` tests).
pub open spec fn is_white_space(c: char) -> bool {
    let v = c as u32;
    ||| 0x09 <= v <= 0x0D
    ||| v == 0x20
    ||| v == 0x85
    ||| v == 0xA0
    ||| v == 0x1680
    ||| 0x2000 <= v <= 0x200A
    ||| v == 0x2028
    ||| v == 0x2029
    ||| v == 0x202F
    ||| v == 0x205F
    ||| v == 0x3000
}

/// Whether `c` is a Unicode whitespace character.
pub fn is_whitespace(c: char) -> (r: bool)
    ensures
        r == is_white_space(c),
{
    let v = c as u32;
    (0x09 <= v && v <= 0x0D) || v == 0x20 || v == 0x85 || v == 0xA0 || v == 0x1680 || (0x2000 <= v && v
        <= 0x200A) || v == 0x2028 || v == 0x2029 || v == 0x202F || v == 0x205F || v == 0x3000
}

/// The pieces of `s` between the characters that `sep` marks, empty pieces
/// included (`n` separators give `n + 1` pieces), as `str::split` gives them.
pub open spec fn pieces(s: Seq<char>, sep: spec_fn(char) -> bool) -> Seq<Seq<char>>
    decreases s.len(),
{
    if s.len() == 0 {
        seq![Seq::empty()]
    } else {
        let p = pieces(s.drop_last(), sep);
        if sep(s.last()) {
            p.push(Seq::empty())
        } else {
            p.update(p.len() - 1, p.last().push(s.last()))
        }
    }
}

/// `c` as a separator.
pub open spec fn is_char(c: char) -> spec_fn(char) -> bool {
    |x: char| x == c
}

/// Whitespace as a separator.
pub open spec fn white() -> spec_fn(char) -> bool {
    |x: char| is_white_space(x)
}

/// The words of `s`: its maximal runs of non-whitespace characters, as `str::split_whitespace` gives them.
pub open spec fn words(s: Seq<char>) -> Seq<Seq<char>> {
    pieces(s, white()).filter(nonempty())
}

/// A piece with at least one character.
pub open spec fn nonempty() -> spec_fn(Seq<char>) -> bool {
    |w: Seq<char>| w.len() > 0
}

/// The deep view of a vector of character vectors.
pub open spec fn texts(v: Seq<Vec<char>>) -> Seq<Seq<char>> {
    v.map_values(|w: Vec<char>| w@)
}

/// Splitting always leaves at least one piece.
pub proof fn lemma_pieces_nonempty(s: Seq<char>, sep: spec_fn(char) -> bool)
    ensures
        pieces(s, sep).len() >= 1,
    decreases s.len(),
{
    if s.len() > 0 {
        lemma_pieces_nonempty(s.drop_last(), sep);
    }
}

/// Splits `s` at every occurrence of `sep`.
pub fn split_on(s: &[char], sep: char) -> (r: Vec<Vec<char>>)
    ensures
        texts(r@) == pieces(s@, is_char(sep)),
{
    let mut out: Vec<Vec<char>> = Vec::new();
    let mut cur: Vec<char> = Vec::new();
    let mut k: usize = 0;
    assert(s@.take(0) =~= Seq::<char>::empty());
    while k < s.len()
        invariant
            k <= s.len(),
            texts(out@).push(cur@) == pieces(s@.take(k as int), is_char(sep)),
        decreases s.len() - k,
    {
        let c = s[k];
        proof {
            assert(s@.take(k + 1).drop_last() =~= s@.take(k as int));
            assert(s@.take(k + 1).last() == c);
            lemma_pieces_nonempty(s@.take(k as int), is_char(sep));
        }
        let ghost before = texts(out@).push(cur@);
        if c == sep {
            let finished = cur;
            out.push(finished);
            cur = Vec::new();
            assert(texts(out@).push(cur@) =~= before.push(Seq::empty()));
        } else {
            cur.push(c);
            assert(texts(out@).push(cur@) =~= before.update(before.len() - 1, before.last().push(c)));
        }
        k = k + 1;
    }
    assert(s@.take(s.len() as int) =~= s@);
    out.push(cur);
    out
}

/// Splits `s` into its words.
pub fn split_whitespace(s: &[char]) -> (r: Vec<Vec<char>>)
    ensures
        texts(r@) == words(s@),
{
    let mut out: Vec<Vec<char>> = Vec::new();
    let mut cur: Vec<char> = Vec::new();
    let mut k: usize = 0;
    assert(s@.take(0) =~= Seq::<char>::empty());
    assert(texts(out@) =~= pieces(s@.take(0), white()).drop_last().filter(nonempty()));
    while k < s.len()
        invariant
            k <= s.len(),
            pieces(s@.take(k as int), white()).last() == cur@,
            texts(out@) == pieces(s@.take(k as int), white()).drop_last().filter(nonempty()),
        decreases s.len() - k,
    {
        let c = s[k];
        let ghost prev = s@.take(k as int);
        proof {
            assert(s@.take(k + 1).drop_last() =~= prev);
            assert(s@.take(k + 1).last() == c);
            lemma_pieces_nonempty(prev, white());
        }
        let ghost p = pieces(prev, white());
        if is_whitespace(c) {
            let ghost done = cur@;
            let finished = cur;
            if finished.len() > 0 {
                out.push(finished);
            }
            cur = Vec::new();
            proof {
                let np = pieces(s@.take(k + 1), white());
                assert(np == p.push(Seq::empty()));
                assert(np.drop_last() =~= p);
                assert(p =~= p.drop_last().push(p.last()));
                p.drop_last().lemma_filter_push(p.last(), nonempty());
                assert(texts(out@) =~= if done.len() > 0 {
                    p.drop_last().filter(nonempty()).push(done)
                } else {
                    p.drop_last().filter(nonempty())
                });
            }
        } else {
            cur.push(c);
            proof {
                let np = pieces(s@.take(k + 1), white());
                assert(np == p.update(p.len() - 1, p.last().push(c)));
                assert(np.drop_last() =~= p.drop_last());
            }
        }
        k = k + 1;
    }
    assert(s@.take(s.len() as int) =~= s@);
    let ghost done = cur@;
    proof {
        let p = pieces(s@, white());
        lemma_pieces_nonempty(s@, white());
        assert(p =~= p.drop_last().push(p.last()));
        p.drop_last().lemma_filter_push(p.last(), nonempty());
    }
    if cur.len() > 0 {
        out.push(cur);
    }
    proof {
        let p = pieces(s@, white());
        assert(texts(out@) =~= if done.len() > 0 {
            p.drop_last().filter(nonempty()).push(done)
        } else {
            p.drop_last().filter(nonempty())
        });
    }
    out
}

/// The number of whitespace characters that `s` starts with.
pub open spec fn leading_white(s: Seq<char>) -> nat
    decreases s.len(),
{
    if s.len() > 0 && is_white_space(s[0]) {
        1 + leading_white(s.drop_first())
    } else {
        0
    }
}

/// The number of whitespace characters that `s` ends with.
pub open spec fn trailing_white(s: Seq<char>) -> nat
    decreases s.len(),
{
    if s.len() > 0 && is_white_space(s.last()) {
        1 + trailing_white(s.drop_last())
    } else {
        0
    }
}

/// `s` without its leading and trailing whitespace, as `str::trim` gives it.
pub open spec fn trimmed(s: Seq<char>) -> Seq<char> {
    if leading_white(s) == s.len() {
        Seq::empty()
    } else {
        s.subrange(leading_white(s) as int, s.len() - trailing_white(s))
    }
}

/// The leading whitespace is whitespace, and what follows it is not.
proof fn lemma_leading_white(s: Seq<char>)
    ensures
        leading_white(s) <= s.len(),
        forall|i: int| 0 <= i < leading_white(s) ==> #[trigger] is_white_space(s[i]),
        leading_white(s) < s.len() ==> !is_white_space(s[leading_white(s) as int]),
    decreases s.len(),
{
    if s.len() > 0 && is_white_space(s[0]) {
        lemma_leading_white(s.drop_first());
        assert forall|i: int| 0 <= i < leading_white(s) implies #[trigger] is_white_space(s[i]) by {
            if i > 0 {
                assert(s[i] == s.drop_first()[i - 1]);
            }
        }
    }
}

/// The trailing whitespace is whitespace, and what precedes it is not.
proof fn lemma_trailing_white(s: Seq<char>)
    ensures
        trailing_white(s) <= s.len(),
        forall|i: int| s.len() - trailing_white(s) <= i < s.len() ==> #[trigger] is_white_space(s[i]),
        trailing_white(s) < s.len() ==> !is_white_space(s[s.len() - trailing_white(s) - 1]),
    decreases s.len(),
{
    if s.len() > 0 && is_white_space(s.last()) {
        lemma_trailing_white(s.drop_last());
        assert forall|i: int| s.len() - trailing_white(s) <= i < s.len() implies #[trigger] is_white_space(s[i]) by {
            if i < s.len() - 1 {
                assert(s[i] == s.drop_last()[i]);
            }
        }
    }
}

/// `s` without its leading and trailing whitespace.
pub fn trim(s: &[char]) -> (r: Vec<char>)
    ensures
        r@ == trimmed(s@),
{
    proof {
        lemma_leading_white(s@);
        lemma_trailing_white(s@);
    }
    let mut a: usize = 0;
    while a < s.len() && is_whitespace(s[a])
        invariant
            a <= s.len(),
            a <= leading_white(s@),
            forall|i: int| 0 <= i < leading_white(s@) ==> #[trigger] is_white_space(s@[i]),
            leading_white(s@) < s@.len() ==> !is_white_space(s@[leading_white(s@) as int]),
            leading_white(s@) <= s@.len(),
        decreases s.len() - a,
    {
        a = a + 1;
    }
    assert(a == leading_white(s@));
    let mut out: Vec<char> = Vec::new();
    if a == s.len() {
        assert(out@ =~= trimmed(s@));
        return out;
    }
    let mut b: usize = s.len();
    while b > a && is_whitespace(s[b - 1])
        invariant
            a < b <= s.len(),
            a == leading_white(s@),
            !is_white_space(s@[a as int]),
            s.len() - b <= trailing_white(s@),
            forall|i: int| s.len() - trailing_white(s@) <= i < s.len() ==> #[trigger] is_white_space(s@[i]),
            trailing_white(s@) < s@.len() ==> !is_white_space(s@[s.len() - trailing_white(s@) - 1]),
            trailing_white(s@) <= s@.len(),
        decreases b,
    {
        b = b - 1;
        assert(b > a);
    }
    assert(b == s.len() - trailing_white(s@));
    let mut k = a;
    while k < b
        invariant
            a <= k <= b <= s.len(),
            out@ == s@.subrange(a as int, k as int),
        decreases b - k,
    {
        out.push(s[k]);
        k = k + 1;
        assert(out@ =~= s@.subrange(a as int, k as int));
    }
    out
}

/// `s` split at its first `c` into the part before and the part after, or
/// nothing when `s` holds no `c` (as `str::split_once` splits it).
pub open spec fn split_first(s: Seq<char>, c: char) -> Option<(Seq<char>, Seq<char>)>
    decreases s.len(),
{
    if s.len() == 0 {
        None
    } else if s[0] == c {
        Some((Seq::empty(), s.drop_first()))
    } else {
        match split_first(s.drop_first(), c) {
            Some((a, b)) => Some((seq![s[0]] + a, b)),
            None => None,
        }
    }
}

/// A split at the first `c` is what [`split_first`] gives.
proof fn lemma_split_first_found(s: Seq<char>, c: char, before: Seq<char>, after: Seq<char>)
    requires
        s == before + seq![c] + after,
        !before.contains(c),
    ensures
        split_first(s, c) == Some((before, after)),
    decreases before.len(),
{
    if before.len() == 0 {
        assert(s[0] == c);
        assert(s.drop_first() =~= after);
        assert(before =~= Seq::<char>::empty());
    } else {
        assert(s[0] == before[0]);
        assert(before.contains(before[0]));
        assert(s.drop_first() =~= before.drop_first() + seq![c] + after);
        assert(!before.drop_first().contains(c)) by {
            if before.drop_first().contains(c) {
                let k = choose|k: int| 0 <= k < before.drop_first().len() && before.drop_first()[k] == c;
                assert(before[k + 1] == c);
            }
        }
        lemma_split_first_found(s.drop_first(), c, before.drop_first(), after);
        assert(seq![s[0]] + before.drop_first() =~= before);
    }
}

/// Without a `c` there is nothing to split at.
proof fn lemma_split_first_none(s: Seq<char>, c: char)
    requires
        !s.contains(c),
    ensures
        split_first(s, c) is None,
    decreases s.len(),
{
    if s.len() > 0 {
        assert(s.contains(s[0]));
        assert(!s.drop_first().contains(c)) by {
            if s.drop_first().contains(c) {
                let k = choose|k: int| 0 <= k < s.drop_first().len() && s.drop_first()[k] == c;
                assert(s[k + 1] == c);
            }
        }
        lemma_split_first_none(s.drop_first(), c);
    }
}

/// Splits `s` at the first `c` (see [`split_first`]).
pub fn split_once(s: &[char], c: char) -> (r: Option<(Vec<char>, Vec<char>)>)
    ensures
        match r {
            None => split_first(s@, c) is None,
            Some((before, after)) => split_first(s@, c) == Some((before@, after@)),
        },
{
    let mut k: usize = 0;
    while k < s.len() && s[k] != c
        invariant
            k <= s.len(),
            forall|i: int| 0 <= i < k ==> #[trigger] s@[i] != c,
        decreases s.len() - k,
    {
        k = k + 1;
    }
    if k == s.len() {
        assert(!s@.contains(c));
        proof {
            lemma_split_first_none(s@, c);
        }
        return None;
    }
    let mut before: Vec<char> = Vec::new();
    let mut i: usize = 0;
    while i < k
        invariant
            i <= k < s.len(),
            before@ == s@.take(i as int),
        decreases k - i,
    {
        before.push(s[i]);
        i = i + 1;
        assert(before@ =~= s@.take(i as int));
    }
    let mut after: Vec<char> = Vec::new();
    let mut j: usize = k + 1;
    while j < s.len()
        invariant
            k < j <= s.len(),
            after@ == s@.subrange(k + 1, j as int),
        decreases s.len() - j,
    {
        after.push(s[j]);
        j = j + 1;
        assert(after@ =~= s@.subrange(k + 1, j as int));
    }
    assert(s@ =~= before@ + seq![c] + after@);
    assert(!before@.contains(c)) by {
        if before@.contains(c) {
            let w = choose|w: int| 0 <= w < before@.len() && before@[w] == c;
            assert(s@[w] == c);
        }
    }
    proof {
        lemma_split_first_found(s@, c, before@, after@);
    }
    Some((before, after))
}

/// An ASCII decimal digit.
pub open spec fn is_digit(c: char) -> bool {
    48 <= (c as u32) <= 57
}

/// The value of a string of decimal digits.
pub open spec fn digits_value(d: Seq<char>) -> int
    decreases d.len(),
{
    if d.len() == 0 {
        0
    } else {
        digits_value(d.drop_last()) * 10 + ((d.last() as u32) - 48)
    }
}

/// Every character of `d` is an ASCII digit.
pub open spec fn all_digits(d: Seq<char>) -> bool {
    forall|i: int| 0 <= i < d.len() ==> #[trigger] is_digit(d[i])
}

/// `s` without a leading sign.
pub open spec fn unsigned_part(s: Seq<char>) -> Seq<char> {
    if s.len() > 0 && (s[0] == '-' || s[0] == '+') {
        s.drop_first()
    } else {
        s
    }
}

/// The `i32` that `s` spells in decimal, as `i32::from_str_radix(s, 10)` reads
/// it: an optional `+` or `-`, then one or more ASCII digits, with a value in
/// the range of `i32`; anything else is no number.
pub open spec fn decimal_i32(s: Seq<char>) -> Option<int> {
    if s.len() == 0 {
        None
    } else {
        let d = unsigned_part(s);
        if d.len() == 0 || !all_digits(d) {
            None
        } else {
            let v = if s[0] == '-' { -digits_value(d) } else { digits_value(d) };
            if i32::MIN <= v <= i32::MAX {
                Some(v)
            } else {
                None
            }
        }
    }
}

/// The value of a prefix of a digit string is at most the value of the string.
proof fn lemma_digits_grow(d: Seq<char>, k: int)
    requires
        0 <= k <= d.len(),
        forall|i: int| 0 <= i < d.len() ==> #[trigger] is_digit(d[i]),
    ensures
        0 <= digits_value(d.take(k)) <= digits_value(d),
    decreases d.len() - k,
{
    if k < d.len() {
        lemma_digits_grow(d, k + 1);
        assert(d.take(k + 1).drop_last() =~= d.take(k));
        assert(is_digit(d[k]));
    } else {
        assert(d.take(k) =~= d);
    }
    lemma_digits_nonneg(d.take(k));
}

/// A digit string has a value of at least 0.
proof fn lemma_digits_nonneg(d: Seq<char>)
    requires
        forall|i: int| 0 <= i < d.len() ==> #[trigger] is_digit(d[i]),
    ensures
        0 <= digits_value(d),
    decreases d.len(),
{
    if d.len() > 0 {
        assert forall|i: int| 0 <= i < d.drop_last().len() implies #[trigger] is_digit(d.drop_last()[i]) by {
            assert(d.drop_last()[i] == d[i]);
        }
        lemma_digits_nonneg(d.drop_last());
        assert(is_digit(d[d.len() - 1]));
    }
}

/// The `i32` that `s` spells in decimal, if any.
pub fn parse_i32(s: &[char]) -> (r: Option<i32>)
    ensures
        match decimal_i32(s@) {
            Some(v) => r == Some(v as i32),
            None => r is None,
        },
{
    if s.len() == 0 {
        return None;
    }
    let neg = s[0] == '-';
    let start: usize = if s[0] == '-' || s[0] == '+' { 1 } else { 0 };
    let ghost d = if start == 1 { s@.drop_first() } else { s@ };
    assert(d =~= s@.skip(start as int));
    if start == s.len() {
        return None;
    }
    let mut acc: i64 = 0;
    let mut k: usize = start;
    while k < s.len()
        invariant
            start <= k <= s.len(),
            start <= 1,
            s.len() > 0,
            start < s.len(),
            start == (if s@[0] == '-' || s@[0] == '+' { 1int } else { 0int }),
            neg == (s@[0] == '-'),
            d == s@.skip(start as int),
            d == unsigned_part(s@),
            forall|i: int| 0 <= i < k - start ==> #[trigger] is_digit(d[i]),
            acc == digits_value(d.take(k - start)),
            0 <= acc <= 2147483648,
        decreases s.len() - k,
    {
        let c = s[k];
        let v = c as u32;
        assert(v == c as u32);
        if v < 48 || v > 57 {
            assert(!is_digit(d[k - start]));
            assert(!all_digits(d));
            return None;
        }
        proof {
            assert(d.take(k - start + 1).drop_last() =~= d.take(k - start));
            assert(d.take(k - start + 1).last() == c);
        }
        acc = acc * 10 + (v - 48) as i64;
        k = k + 1;
        if acc > 2147483648 {
            proof {
                if all_digits(d) {
                    lemma_digits_grow(d, k - start);
                }
            }
            return None;
        }
    }
    assert(d.take(d.len() as int) =~= d);
    let value: i64 = if neg { -acc } else { acc };
    if value > 2147483647 {
        return None;
    }
    Some(value as i32)
}

/// The `usize` that `s` spells in decimal, as `usize::from_str_radix(s, 10)`
/// reads it: an optional `+`, then one or more ASCII digits, with a value that
/// fits; anything else is no number.
pub open spec fn decimal_usize(s: Seq<char>) -> Option<int> {
    let d = if s.len() > 0 && s[0] == '+' { s.drop_first() } else { s };
    if d.len() == 0 || !all_digits(d) {
        None
    } else if digits_value(d) <= usize::MAX {
        Some(digits_value(d))
    } else {
        None
    }
}

/// The `usize` that `s` spells in decimal, if any.
pub fn parse_usize(s: &[char]) -> (r: Option<usize>)
    ensures
        match r {
            Some(v) => decimal_usize(s@) == Some(v as int),
            None => decimal_usize(s@) is None,
        },
{
    let start: usize = if s.len() > 0 && s[0] == '+' { 1 } else { 0 };
    let ghost d = if s@.len() > 0 && s@[0] == '+' { s@.drop_first() } else { s@ };
    assert(d =~= s@.skip(start as int));
    if start == s.len() {
        return None;
    }
    let mut acc: u128 = 0;
    let mut k: usize = start;
    while k < s.len()
        invariant
            start <= k <= s.len(),
            start <= 1,
            start < s.len(),
            d == s@.skip(start as int),
            d == (if s@.len() > 0 && s@[0] == '+' { s@.drop_first() } else { s@ }),
            forall|i: int| 0 <= i < k - start ==> #[trigger] is_digit(d[i]),
            acc == digits_value(d.take(k - start)),
            acc <= usize::MAX,
        decreases s.len() - k,
    {
        let c = s[k];
        let v = c as u32;
        if v < 48 || v > 57 {
            assert(!is_digit(d[k - start]));
            assert(!all_digits(d));
            return None;
        }
        proof {
            assert(d.take(k - start + 1).drop_last() =~= d.take(k - start));
            assert(d.take(k - start + 1).last() == c);
        }
        acc = acc * 10 + (v - 48) as u128;
        k = k + 1;
        if acc > usize::MAX as u128 {
            proof {
                if all_digits(d) {
                    lemma_digits_grow(d, k - start);
                }
            }
            return None;
        }
    }
    assert(d.take(d.len() as int) =~= d);
    Some(acc as usize)
}

/// The lowercase form of a text, as `str::to_lowercase` gives it (full Unicode case mapping).
pub uninterp spec fn lowercase(s: Seq<char>) -> Seq<char>;

/// Every character is ASCII.
pub open spec fn is_ascii_text(s: Seq<char>) -> bool {
    forall|i: int| 0 <= i < s.len() ==> (#[trigger] s[i] as u32) < 128
}

/// ASCII uppercase letters mapped to lowercase, everything else kept.
pub open spec fn ascii_lower(s: Seq<char>) -> Seq<char> {
    s.map_values(|c: char| if 65 <= (c as u32) <= 90 { ((c as u32) + 32) as char } else { c })
}

/// `str::to_lowercase`: the lowercase form of `s`; for ASCII text, the ASCII
/// letters lowered and every other character kept.
#[verifier::external_body]
pub(crate) fn to_lowercase(s: &str) -> (r: String)
    ensures
        r@ == lowercase(s@),
        is_ascii_text(s@) ==> r@ == ascii_lower(s@),
{
    s.to_lowercase()
}

/// The characters of `s`, in order.
pub(crate) fn chars_of(s: &str) -> (r: Vec<char>)
    ensures
        r@ == s@,
{
    let mut out: Vec<char> = Vec::new();
    for c in it: s.chars()
        invariant
            out@ == it.seq().take(it.index() as int),
            it.seq() == s@,
    {
        proof {
            assert(it.seq().take(it.index() + 1) =~= it.seq().take(it.index() as int).push(c));
        }
        out.push(c);
    }
    assert(s@.take(s@.len() as int) =~= s@);
    out
}

/// `String::from_iter` over characters: the text of `v`.
#[verifier::external_body]
pub(crate) fn string_from(v: &[char]) -> (r: String)
    ensures
        r@ == v@,
{
    v.iter().collect()
}

/// The text of a string.
pub open spec fn text_of() -> spec_fn(String) -> Seq<char> {
    |w: String| w@
}

/// The texts `parts` joined, with `sep` between each two (as `join` on a slice gives it).
pub open spec fn joined(parts: Seq<Seq<char>>, sep: Seq<char>) -> Seq<char>
    decreases parts.len(),
{
    if parts.len() == 0 {
        Seq::empty()
    } else if parts.len() == 1 {
        parts[0]
    } else {
        joined(parts.drop_last(), sep) + sep + parts.last()
    }
}

/// The texts `parts` joined with a space between each two.
pub fn join_with_space(parts: &[Vec<char>]) -> (r: Vec<char>)
    ensures
        r@ == joined(texts(parts@), seq![' ']),
{
    let mut out: Vec<char> = Vec::new();
    let mut k: usize = 0;
    while k < parts.len()
        invariant
            k <= parts.len(),
            out@ == joined(texts(parts@.take(k as int)), seq![' ']),
        decreases parts.len() - k,
    {
        let ghost before = out@;
        proof {
            assert(texts(parts@.take(k + 1)).drop_last() =~= texts(parts@.take(k as int)));
            assert(texts(parts@.take(k + 1)).last() == parts@[k as int]@);
        }
        if k > 0 {
            out.push(' ');
        }
        let part = &parts[k];
        let mut j: usize = 0;
        let ghost mid = out@;
        while j < part.len()
            invariant
                j <= part.len(),
                out@ == mid + part@.take(j as int),
            decreases part.len() - j,
        {
            out.push(part[j]);
            j = j + 1;
            assert(out@ =~= mid + part@.take(j as int));
        }
        assert(part@.take(part.len() as int) =~= part@);
        if k == 0 {
            assert(texts(parts@.take(1)).len() == 1);
            assert(out@ =~= joined(texts(parts@.take(1)), seq![' ']));
        } else {
            assert(out@ =~= before + seq![' '] + part@);
        }
        k = k + 1;
    }
    assert(parts@.take(parts.len() as int) =~= parts@);
    out
}

/// The characters of `s` that are not whitespace, in order.
pub open spec fn unspaced(s: Seq<char>) -> Seq<char> {
    s.filter(|c: char| !is_white_space(c))
}

/// `s` with every whitespace character removed.
pub fn remove_whitespace(s: &[char]) -> (r: Vec<char>)
    ensures
        r@ == unspaced(s@),
{
    let mut out: Vec<char> = Vec::new();
    let mut k: usize = 0;
    while k < s.len()
        invariant
            k <= s.len(),
            out@ == unspaced(s@.take(k as int)),
        decreases s.len() - k,
    {
        proof {
            assert(s@.take(k + 1) =~= s@.take(k as int).push(s@[k as int]));
            s@.take(k as int).lemma_filter_push(s@[k as int], |c: char| !is_white_space(c));
        }
        if !is_whitespace(s[k]) {
            out.push(s[k]);
        }
        k = k + 1;
    }
    assert(s@.take(s.len() as int) =~= s@);
    out
}

/// The last `k` characters of `c` are the first `k` of the word `w`.
pub open spec fn ends_with_prefix(c: Seq<char>, w: Seq<char>, k: int) -> bool {
    &&& 0 <= k <= w.len()
    &&& k <= c.len()
    &&& c.subrange(c.len() - k, c.len() as int) == w.take(k)
}

/// The text `c` is spelled by the words `ws`: it is a prefix (possibly empty)
/// of the first word, followed by a prefix of the second, and so on, in order.
pub open spec fn spelled_by(c: Seq<char>, ws: Seq<Seq<char>>) -> bool
    decreases ws.len(),
{
    if ws.len() == 0 {
        c.len() == 0
    } else {
        exists|k: int| #[trigger] ends_with_prefix(c, ws.last(), k) && spelled_by(c.take(c.len() - k), ws.drop_last())
    }
}

/// The cleaned name abbreviates a lowercase name: with all its whitespace
/// removed, it is spelled by prefixes of the name's words, in order.
pub open spec fn abbreviates(cleaned: Seq<char>, full_lower: Seq<char>) -> bool {
    spelled_by(unspaced(cleaned), words(full_lower))
}

/// Whether `c[start..start + k]` is the first `k` characters of `w`.
fn segment_is_prefix(c: &[char], start: usize, w: &[char], k: usize) -> (r: bool)
    requires
        start + k <= c.len(),
        k <= w.len(),
    ensures
        r == (c@.subrange(start as int, start + k) == w@.take(k as int)),
{
    let mut t: usize = 0;
    while t < k
        invariant
            t <= k,
            start + k <= c.len(),
            k <= w.len(),
            forall|u: int| 0 <= u < t ==> c@[start + u] == #[trigger] w@[u],
        decreases k - t,
    {
        if c[start + t] != w[t] {
            assert(c@.subrange(start as int, start + k)[t as int] != w@.take(k as int)[t as int]);
            return false;
        }
        t = t + 1;
    }
    assert(c@.subrange(start as int, start + k) =~= w@.take(k as int));
    true
}

/// The empty text is spelled by any words (taking nothing from each).
pub proof fn lemma_empty_spelled(ws: Seq<Seq<char>>)
    ensures
        spelled_by(Seq::empty(), ws),
    decreases ws.len(),
{
    if ws.len() > 0 {
        lemma_empty_spelled(ws.drop_last());
        let e = Seq::<char>::empty();
        assert(e.subrange(0, 0) =~= ws.last().take(0));
        assert(e.take(0) =~= e);
        assert(ends_with_prefix(e, ws.last(), 0));
    }
}

/// Whether `c` is spelled by the words `ws` (see [`spelled_by`]): for each
/// word in turn, the positions of `c` up to which the words so far spell it.
pub fn spelled(c: &[char], ws: &[Vec<char>]) -> (r: bool)
    ensures
        r == spelled_by(c@, texts(ws@)),
{
    let ghost tws = texts(ws@);
    let n = c.len();
    // reach[q - 1]: the first q characters (q >= 1) are spelled by the words so far;
    // the empty start is always spelled
    let mut reach: Vec<bool> = Vec::new();
    let mut q: usize = 0;
    while q < n
        invariant
            q <= n,
            n == c.len(),
            reach@.len() == q,
            forall|t: int| 0 <= t < q ==> #[trigger] reach@[t] == spelled_by(c@.take(t + 1), tws.take(0)),
        decreases n - q,
    {
        assert(tws.take(0).len() == 0);
        assert(c@.take(q + 1).len() == q + 1);
        assert(!spelled_by(c@.take(q + 1), tws.take(0)));
        reach.push(false);
        q = q + 1;
    }
    let mut i: usize = 0;
    while i < ws.len()
        invariant
            i <= ws.len(),
            tws == texts(ws@),
            n == c.len(),
            reach@.len() == n,
            forall|t: int| 0 <= t < n ==> #[trigger] reach@[t] == spelled_by(c@.take(t + 1), tws.take(i as int)),
        decreases ws.len() - i,
    {
        let w = &ws[i];
        let ghost prev = tws.take(i as int);
        let ghost upto = tws.take(i + 1);
        assert(upto.drop_last() =~= prev);
        assert(upto.last() == w@);
        proof {
            lemma_empty_spelled(prev);
        }
        let mut next: Vec<bool> = Vec::new();
        let mut p: usize = 0;
        while p < n
            invariant
                p <= n,
                n == c.len(),
                reach@.len() == n,
                forall|t: int| 0 <= t < n ==> #[trigger] reach@[t] == spelled_by(c@.take(t + 1), prev),
                spelled_by(Seq::empty(), prev),
                upto.drop_last() == prev,
                upto.last() == w@,
                upto.len() > 0,
                next@.len() == p,
                forall|t: int| 0 <= t < p ==> #[trigger] next@[t] == spelled_by(c@.take(t + 1), upto),
            decreases n - p,
        {
            let pos = p + 1;
            let ghost cp = c@.take(pos as int);
            let limit = if pos < w.len() { pos } else { w.len() };
            let mut found = false;
            let mut done = false;
            let mut k: usize = 0;
            while !done
                invariant
                    k <= limit,
                    limit <= pos,
                    limit <= w.len(),
                    pos == p + 1,
                    p < n,
                    n == c.len(),
                    reach@.len() == n,
                    forall|t: int| 0 <= t < n ==> #[trigger] reach@[t] == spelled_by(c@.take(t + 1), prev),
                    spelled_by(Seq::empty(), prev),
                    cp == c@.take(pos as int),
                    found ==> done,
                    found ==> exists|k2: int| #[trigger] ends_with_prefix(cp, w@, k2) && spelled_by(cp.take(cp.len() - k2), prev),
                    !found ==> forall|k2: int| 0 <= k2 < k ==> !(#[trigger] ends_with_prefix(cp, w@, k2) && spelled_by(cp.take(cp.len() - k2), prev)),
                    !found && done ==> k == limit && !(ends_with_prefix(cp, w@, k as int) && spelled_by(cp.take(cp.len() - k), prev)),
                decreases limit - k + (if done { 0int } else { 1int }),
            {
                let start = pos - k;
                let before_ok = if start == 0 { true } else { reach[start - 1] };
                proof {
                    assert(cp.subrange(cp.len() - k, cp.len() as int) =~= c@.subrange(start as int, pos as int));
                    assert(cp.take(cp.len() - k) =~= c@.take(start as int));
                    if start == 0 {
                        assert(c@.take(0) =~= Seq::<char>::empty());
                    }
                }
                let here = before_ok && segment_is_prefix(c, start, w.as_slice(), k);
                if here {
                    assert(ends_with_prefix(cp, w@, k as int));
                    found = true;
                    done = true;
                } else if k == limit {
                    done = true;
                } else {
                    k = k + 1;
                }
            }
            proof {
                if !found {
                    assert forall|k2: int| !(#[trigger] ends_with_prefix(cp, w@, k2) && spelled_by(cp.take(cp.len() - k2), prev)) by {
                        if ends_with_prefix(cp, w@, k2) {
                            assert(k2 <= limit);
                        }
                    }
                }
                assert(spelled_by(cp, upto) == exists|k2: int| #[trigger] ends_with_prefix(cp, upto.last(), k2) && spelled_by(cp.take(cp.len() - k2), upto.drop_last()));
            }
            next.push(found);
            p = p + 1;
        }
        reach = next;
        i = i + 1;
    }
    assert(tws.take(ws.len() as int) =~= tws);
    if n == 0 {
        assert(c@ =~= Seq::<char>::empty());
        proof {
            lemma_empty_spelled(tws);
        }
        return true;
    }
    assert(c@.take(n as int) =~= c@);
    reach[n - 1]
}

/// Whether the cleaned name abbreviates the lowercase name (see [`abbreviates`]).
pub fn matches_words(cleaned: &[char], full_lower: &[char]) -> (r: bool)
    ensures
        r == abbreviates(cleaned@, full_lower@),
{
    let compact = remove_whitespace(cleaned);
    let fw = split_whitespace(full_lower);
    spelled(compact.as_slice(), fw.as_slice())
}

/// Whether `cleanedname` abbreviates `fullname`: with its whitespace removed,
/// `cleanedname` is a prefix (possibly empty) of the first word of the
/// lowercase of `fullname`, followed by a prefix of the second word, and so
/// on (see [`abbreviates`]).
pub fn is_abbreviation(cleanedname: &str, fullname: &str) -> (r: bool)
    ensures
        r == abbreviates(cleanedname@, lowercase(fullname@)),
        is_ascii_text(fullname@) ==> r == abbreviates(cleanedname@, ascii_lower(fullname@)),
{
    let full = to_lowercase(fullname);
    let full_chars = chars_of(full.as_str());
    let cleaned = chars_of(cleanedname);
    matches_words(cleaned.as_slice(), full_chars.as_slice())
}

/// The words `ws` stuck together, in order.
pub open spec fn concat(ws: Seq<Seq<char>>) -> Seq<char>
    decreases ws.len(),
{
    if ws.len() == 0 {
        Seq::empty()
    } else {
        concat(ws.drop_last()) + ws.last()
    }
}

/// Every prefix of a text spelled by `ws` is spelled by `ws` too.
pub proof fn lemma_spelled_prefix(c: Seq<char>, ws: Seq<Seq<char>>, j: int)
    requires
        spelled_by(c, ws),
        0 <= j <= c.len(),
    ensures
        spelled_by(c.take(j), ws),
    decreases ws.len(),
{
    let cj = c.take(j);
    if ws.len() == 0 {
        assert(cj.len() == 0);
    } else {
        let w = ws.last();
        let init = ws.drop_last();
        let k = choose|k: int| #[trigger] ends_with_prefix(c, w, k) && spelled_by(c.take(c.len() - k), init);
        let rest = c.take(c.len() - k);
        if j >= c.len() - k {
            let k2 = j - (c.len() - k);
            assert(cj.subrange(cj.len() - k2, cj.len() as int) =~= w.take(k2)) by {
                assert forall|t: int| 0 <= t < k2 implies #[trigger] cj.subrange(cj.len() - k2, cj.len() as int)[t]
                    == w.take(k2)[t] by {
                    assert(c.subrange(c.len() - k, c.len() as int)[t] == w.take(k)[t]);
                }
            }
            assert(cj.take(cj.len() - k2) =~= rest);
            assert(ends_with_prefix(cj, w, k2));
        } else {
            lemma_spelled_prefix(rest, init, j);
            assert(rest.take(j) =~= cj);
            assert(cj.subrange(cj.len() - 0, cj.len() as int) =~= w.take(0));
            assert(cj.take(cj.len() - 0) =~= cj);
            assert(ends_with_prefix(cj, w, 0));
        }
    }
}

/// The words stuck together are spelled by the words (each taken whole).
pub proof fn lemma_concat_spelled(ws: Seq<Seq<char>>)
    ensures
        spelled_by(concat(ws), ws),
    decreases ws.len(),
{
    if ws.len() > 0 {
        let w = ws.last();
        let init = ws.drop_last();
        lemma_concat_spelled(init);
        let c = concat(ws);
        assert(c.subrange(c.len() - w.len(), c.len() as int) =~= w.take(w.len() as int));
        assert(c.take(c.len() - w.len()) =~= concat(init));
        assert(ends_with_prefix(c, w, w.len() as int));
    }
}

/// The pieces between whitespace, stuck together, are the text without its whitespace.
proof fn lemma_concat_pieces(s: Seq<char>)
    ensures
        concat(pieces(s, white())) == unspaced(s),
    decreases s.len(),
{
    if s.len() == 0 {
        let e = Seq::<char>::empty();
        assert(seq![e].drop_last() =~= Seq::<Seq<char>>::empty());
        s.lemma_filter_len(|c: char| !is_white_space(c));
        assert(unspaced(s) =~= e);
        assert(pieces(s, white()) == seq![e]);
        assert(concat(Seq::<Seq<char>>::empty()) == e);
        assert(concat(seq![e]) =~= e);
    } else {
        let t = s.drop_last();
        let c = s.last();
        lemma_concat_pieces(t);
        lemma_pieces_nonempty(t, white());
        assert(s =~= t.push(c));
        t.lemma_filter_push(c, |x: char| !is_white_space(x));
        let p = pieces(t, white());
        if is_white_space(c) {
            assert(pieces(s, white()) == p.push(Seq::empty()));
            assert(p.push(Seq::empty()).drop_last() =~= p);
            assert(concat(p.push(Seq::empty())) =~= concat(p));
            assert(unspaced(s) == unspaced(t));
        } else {
            let q = p.update(p.len() - 1, p.last().push(c));
            assert(pieces(s, white()) == q);
            assert(q.drop_last() =~= p.drop_last());
            assert(concat(q) =~= concat(p.drop_last()) + p.last().push(c));
            assert(concat(q) =~= concat(p).push(c));
            assert(unspaced(s) == unspaced(t).push(c));
        }
        assert(concat(pieces(s, white())) == unspaced(s));
    }
}

/// Dropping the empty pieces changes nothing once they are stuck together.
proof fn lemma_concat_nonempty(ps: Seq<Seq<char>>)
    ensures
        concat(ps.filter(nonempty())) == concat(ps),
    decreases ps.len(),
{
    if ps.len() > 0 {
        let init = ps.drop_last();
        let w = ps.last();
        lemma_concat_nonempty(init);
        assert(ps =~= init.push(w));
        init.lemma_filter_push(w, nonempty());
        let f = init.filter(nonempty());
        if w.len() == 0 {
            assert(concat(ps) =~= concat(init));
        } else {
            assert(f.push(w).drop_last() =~= f);
        }
    }
}

/// Removing whitespace from a prefix gives a prefix of the text without whitespace.
proof fn lemma_unspaced_take(c: Seq<char>, j: int)
    requires
        0 <= j <= c.len(),
    ensures
        unspaced(c.take(j)).len() <= unspaced(c).len(),
        unspaced(c.take(j)) == unspaced(c).take(unspaced(c.take(j)).len() as int),
    decreases c.len(),
{
    if j == c.len() {
        assert(c.take(j) =~= c);
    } else {
        let t = c.drop_last();
        let x = c.last();
        lemma_unspaced_take(t, j);
        assert(c.take(j) =~= t.take(j));
        assert(c =~= t.push(x));
        t.lemma_filter_push(x, |y: char| !is_white_space(y));
        let m = unspaced(c.take(j)).len() as int;
        assert(unspaced(c).take(m) =~= unspaced(t).take(m));
    }
}

/// A text without whitespace is left as it is by removing whitespace.
proof fn lemma_unspaced_twice(c: Seq<char>)
    ensures
        unspaced(unspaced(c)) == unspaced(c),
    decreases c.len(),
{
    if c.len() > 0 {
        let t = c.drop_last();
        let x = c.last();
        lemma_unspaced_twice(t);
        assert(c =~= t.push(x));
        t.lemma_filter_push(x, |y: char| !is_white_space(y));
        unspaced(t).lemma_filter_push(x, |y: char| !is_white_space(y));
    }
}

/// A lowercase name abbreviates itself, with its spaces or without them.
pub proof fn lemma_name_abbreviates_itself(f: Seq<char>)
    ensures
        abbreviates(f, f),
        abbreviates(unspaced(f), f),
{
    lemma_concat_pieces(f);
    lemma_concat_nonempty(pieces(f, white()));
    lemma_concat_spelled(words(f));
    lemma_unspaced_twice(f);
}

/// Every prefix of an abbreviation of a name is again an abbreviation of it.
pub proof fn lemma_abbreviation_prefix(c: Seq<char>, f: Seq<char>, j: int)
    requires
        abbreviates(c, f),
        0 <= j <= c.len(),
    ensures
        abbreviates(c.take(j), f),
{
    lemma_unspaced_take(c, j);
    lemma_spelled_prefix(unspaced(c), words(f), unspaced(c.take(j)).len() as int);
}

/// ASCII lowercase letters mapped to uppercase, everything else kept.
pub open spec fn ascii_upper(s: Seq<char>) -> Seq<char> {
    s.map_values(|c: char| if 97 <= (c as u32) <= 122 { ((c as u32) - 32) as char } else { c })
}

/// The case of an ASCII name's letters does not matter: the name, written in
/// upper case or in lower case, is abbreviated by the same texts.
pub proof fn lemma_abbreviation_ignores_case(c: Seq<char>, f: Seq<char>)
    requires
        is_ascii_text(f),
    ensures
        is_ascii_text(ascii_upper(f)),
        is_ascii_text(ascii_lower(f)),
        abbreviates(c, ascii_lower(ascii_upper(f))) == abbreviates(c, ascii_lower(f)),
        abbreviates(c, ascii_lower(ascii_lower(f))) == abbreviates(c, ascii_lower(f)),
{
    assert forall|i: int| 0 <= i < f.len() implies #[trigger] ascii_lower(ascii_upper(f))[i] == ascii_lower(f)[i]
        && ascii_lower(ascii_lower(f))[i] == ascii_lower(f)[i] by {
        let x = f[i];
        let v = x as u32;
        assert(v < 128);
        vstd::utf8::char_u32_cast(x, v);
        if 97 <= v <= 122 {
            let u = (v - 32) as char;
            assert(u as u32 == v - 32);
        } else if 65 <= v <= 90 {
            let l = (v + 32) as char;
            assert(l as u32 == v + 32);
        }
    }
    assert(ascii_lower(ascii_upper(f)) =~= ascii_lower(f));
    assert(ascii_lower(ascii_lower(f)) =~= ascii_lower(f));
}

} // verus!
