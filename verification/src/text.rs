//! Text as sequences of characters: searching, splitting, trimming, and
//! reading integers.

use vstd::prelude::*;
use vstd::slice::slice_subrange;
use vstd::slice::slice_to_vec;
use crate::ops::Value;

verus! {

/// The texts that a vector of character vectors holds.
pub open spec fn texts(items: Seq<Vec<char>>) -> Seq<Seq<char>> {
    Seq::new(items.len(), |i: int| items[i]@)
}

/// The first index at or after `from` at which `s` holds `c`, or the length
/// of `s` where there is none.
pub open spec fn next_index(s: Seq<char>, c: char, from: nat) -> nat
    decreases s.len() - from,
{
    if from >= s.len() {
        s.len()
    } else if s[from as int] == c {
        from
    } else {
        next_index(s, c, from + 1)
    }
}

/// `next_index` lies between `from` and the length, points at `c` unless it
/// is the length, and passes over no `c`.
pub proof fn lemma_next_index_bounds(s: Seq<char>, c: char, from: nat)
    requires
        from <= s.len(),
    ensures
        from <= next_index(s, c, from) <= s.len(),
        next_index(s, c, from) < s.len() ==> s[next_index(s, c, from) as int] == c,
        forall|j: int| from <= j < next_index(s, c, from) ==> s[j] != c,
    decreases s.len() - from,
{
    if from < s.len() && s[from as int] != c {
        lemma_next_index_bounds(s, c, from + 1);
    }
}

/// An index that points at `c`, or is the length, with no `c` between `from`
/// and it, is `next_index`.
pub proof fn lemma_next_index_is(s: Seq<char>, c: char, from: nat, at: nat)
    requires
        from <= at <= s.len(),
        forall|j: int| from <= j < at ==> s[j] != c,
        at == s.len() || s[at as int] == c,
    ensures
        next_index(s, c, from) == at,
    decreases at - from,
{
    if from < at {
        lemma_next_index_is(s, c, from + 1, at);
    }
}

/// The fields of `s` from index `from` on: the stretches between
/// occurrences of `sep`.  There is always at least one, and a field may be
/// empty.
pub open spec fn fields_from(s: Seq<char>, sep: char, from: nat) -> Seq<Seq<char>>
    recommends
        from <= s.len(),
    decreases s.len() - from,
{
    let end = next_index(s, sep, from);
    if end >= s.len() {
        seq![s.subrange(from as int, s.len() as int)]
    } else {
        proof {
            lemma_next_index_bounds(s, sep, from);
        }
        seq![s.subrange(from as int, end as int)] + fields_from(s, sep, end + 1)
    }
}

/// The fields of `s`: what lies between the occurrences of `sep`.
pub open spec fn fields(s: Seq<char>, sep: char) -> Seq<Seq<char>> {
    fields_from(s, sep, 0)
}

/// `parts` written one after the other with `sep` between neighbours.
pub open spec fn join(parts: Seq<Seq<char>>, sep: char) -> Seq<char>
    decreases parts.len(),
{
    if parts.len() == 0 {
        Seq::empty()
    } else if parts.len() == 1 {
        parts[0]
    } else {
        join(parts.drop_last(), sep) + seq![sep] + parts.last()
    }
}

/// Whether `c` is white space: the characters with Unicode's `White_Space`
/// property.
pub open spec fn is_whitespace(c: char) -> bool {
    let u = c as u32;
    ||| 0x09 <= u <= 0x0D
    ||| u == 0x20
    ||| u == 0x85
    ||| u == 0xA0
    ||| u == 0x1680
    ||| 0x2000 <= u <= 0x200A
    ||| u == 0x2028
    ||| u == 0x2029
    ||| u == 0x202F
    ||| u == 0x205F
    ||| u == 0x3000
}

/// The index of the first character at or after `from` that is not white
/// space, or the length of `s`.
pub open spec fn leading(s: Seq<char>, from: nat) -> nat
    decreases s.len() - from,
{
    if from < s.len() && is_whitespace(s[from as int]) {
        leading(s, from + 1)
    } else {
        from
    }
}

/// The index just past the last character before `to` that is not white
/// space, and not below `from`.
pub open spec fn trailing(s: Seq<char>, from: nat, to: nat) -> nat
    decreases to,
{
    if from < to <= s.len() && is_whitespace(s[to - 1]) {
        trailing(s, from, (to - 1) as nat)
    } else {
        to
    }
}

/// `s` without the white space at its two ends.
pub open spec fn trimmed(s: Seq<char>) -> Seq<char> {
    let from = leading(s, 0);
    s.subrange(from as int, trailing(s, from, s.len()) as int)
}

/// Whether `c` is one of the ten decimal digits.
pub open spec fn is_digit(c: char) -> bool {
    0x30 <= c as u32 <= 0x39
}

/// The number that a text of decimal digits writes.
pub open spec fn decimal(digits: Seq<char>) -> int
    decreases digits.len(),
{
    if digits.len() == 0 {
        0
    } else {
        decimal(digits.drop_last()) * 10 + (digits.last() as u32 - 0x30)
    }
}

/// Whether `s` holds decimal digits only.
pub open spec fn all_digits(s: Seq<char>) -> bool {
    forall|i: int| 0 <= i < s.len() ==> is_digit(#[trigger] s[i])
}

/// The integer that a token writes: an optional sign, then one decimal digit
/// or more, the whole within `Value`'s range.  Any other text writes none.
pub open spec fn integer(s: Seq<char>) -> Option<Value> {
    let negative = s.len() > 0 && s[0] == '-';
    let signed = negative || (s.len() > 0 && s[0] == '+');
    let digits = s.subrange(
        if signed {
            1
        } else {
            0
        },
        s.len() as int,
    );
    let value = if negative {
        -decimal(digits)
    } else {
        decimal(digits)
    };
    if digits.len() > 0 && all_digits(digits) && Value::MIN <= value <= Value::MAX {
        Some(value as Value)
    } else {
        None
    }
}

/// The lower-case form of a text, as `str::to_lowercase` of the standard
/// library gives it.
pub uninterp spec fn lowercase(text: Seq<char>) -> Seq<char>;

/// Calls `str::to_lowercase` on the text that `text` holds.  The contract
/// gives the result its name and claims nothing else of it.
#[verifier::external_body]
pub(crate) fn to_lowercase(text: &[char]) -> (lower: Vec<char>)
    ensures
        lower@ == lowercase(text@),
{
    let owned: String = text.iter().collect();
    owned.to_lowercase().chars().collect()
}

/// The characters of a string.
pub fn to_chars(text: &str) -> (chars: Vec<char>)
    ensures
        chars@ == text@,
{
    let mut chars: Vec<char> = Vec::new();
    for c in it: text.chars()
        invariant
            chars@ == it.seq().take(it.index() as int),
            it.seq() == text@,
    {
        chars.push(c);
    }
    chars
}

/// Whether two texts are the same.
pub fn same(a: &[char], b: &[char]) -> (equal: bool)
    ensures
        equal == (a@ == b@),
{
    if a.len() != b.len() {
        return false;
    }
    let mut i: usize = 0;
    while i < a.len()
        invariant
            a@.len() == b@.len(),
            i <= a@.len(),
            forall|j: int| 0 <= j < i ==> a@[j] == b@[j],
        decreases a@.len() - i,
    {
        if a[i] != b[i] {
            return false;
        }
        i += 1;
    }
    assert(a@ =~= b@);
    true
}

/// The first index at or after `from` at which `s` holds `c`, or the length
/// of `s`.
pub fn find(s: &[char], c: char, from: usize) -> (at: usize)
    requires
        from <= s@.len(),
    ensures
        at == next_index(s@, c, from as nat),
        from <= at <= s@.len(),
{
    let mut at: usize = from;
    while at < s.len() && s[at] != c
        invariant
            from <= at <= s@.len(),
            forall|j: int| from <= j < at ==> s@[j] != c,
        decreases s@.len() - at,
    {
        at += 1;
    }
    proof {
        lemma_next_index_is(s@, c, from as nat, at as nat);
    }
    at
}

/// A copy of the characters of `s` from `from` up to `to`.
pub fn copy_range(s: &[char], from: usize, to: usize) -> (piece: Vec<char>)
    requires
        from <= to <= s@.len(),
    ensures
        piece@ == s@.subrange(from as int, to as int),
{
    slice_to_vec(slice_subrange(s, from, to))
}

/// Splits `s` at every `sep`.
pub fn split(s: &[char], sep: char) -> (parts: Vec<Vec<char>>)
    ensures
        texts(parts@) == fields(s@, sep),
{
    let mut parts: Vec<Vec<char>> = Vec::new();
    let mut from: usize = 0;
    let mut end: usize = find(s, sep, from);
    while end < s.len()
        invariant
            from <= end <= s@.len(),
            end == next_index(s@, sep, from as nat),
            texts(parts@) + fields_from(s@, sep, from as nat) == fields(s@, sep),
        decreases s@.len() - from,
    {
        let piece = copy_range(s, from, end);
        let ghost before = parts@;
        parts.push(piece);
        assert(texts(parts@) + fields_from(s@, sep, (end + 1) as nat) =~= texts(before)
            + fields_from(s@, sep, from as nat));
        from = end + 1;
        end = find(s, sep, from);
    }
    parts.push(copy_range(s, from, s.len()));
    parts
}

/// Whether `c` is white space.
pub fn whitespace(c: char) -> (white: bool)
    ensures
        white == is_whitespace(c),
{
    let u: u32 = c as u32;
    (0x09 <= u && u <= 0x0D) || u == 0x20 || u == 0x85 || u == 0xA0 || u == 0x1680 || (0x2000 <= u
        && u <= 0x200A) || u == 0x2028 || u == 0x2029 || u == 0x202F || u == 0x205F || u == 0x3000
}

/// `s` without the white space at its two ends.
pub fn trim(s: &[char]) -> (inner: Vec<char>)
    ensures
        inner@ == trimmed(s@),
{
    let mut from: usize = 0;
    while from < s.len() && whitespace(s[from])
        invariant
            from <= s@.len(),
            leading(s@, from as nat) == leading(s@, 0),
        decreases s@.len() - from,
    {
        from += 1;
    }
    let mut to: usize = s.len();
    while from < to && whitespace(s[to - 1])
        invariant
            from <= to <= s@.len(),
            trailing(s@, from as nat, to as nat) == trailing(s@, from as nat, s@.len()),
        decreases to,
    {
        to -= 1;
    }
    copy_range(s, from, to)
}

/// Reads a token as an integer.
pub fn parse_int(s: &[char]) -> (value: Option<Value>)
    ensures
        value == integer(s@),
{
    let n: usize = s.len();
    if n == 0 {
        return None;
    }
    let negative: bool = s[0] == '-';
    let start: usize = if negative || s[0] == '+' {
        1
    } else {
        0
    };
    if start == n {
        return None;
    }
    let ghost digits = s@.subrange(start as int, n as int);
    // The number read so far, held at 2^31 + 1 once it has passed 2^31.
    let mut seen: i64 = 0;
    let mut i: usize = start;
    while i < n
        invariant
            start <= i <= n,
            n == s@.len(),
            start == 0 || start == 1,
            start == 1 <==> s@[0] == '-' || s@[0] == '+',
            digits == s@.subrange(start as int, n as int),
            forall|j: int| 0 <= j < i - start ==> is_digit(#[trigger] digits[j]),
            0 <= seen <= 0x8000_0001,
            seen == vstd::math::min(decimal(digits.take(i - start)), 0x8000_0001),
        decreases n - i,
    {
        let u: u32 = s[i] as u32;
        if u < 0x30 || u > 0x39 {
            assert(!is_digit(digits[i - start]));
            return None;
        }
        assert(digits.take(i - start + 1).drop_last() =~= digits.take(i - start));
        seen = seen * 10 + (u - 0x30) as i64;
        if seen > 0x8000_0001 {
            seen = 0x8000_0001;
        }
        i += 1;
    }
    assert(digits.take(n - start) =~= digits);
    if negative {
        if seen > 0x8000_0000 {
            None
        } else {
            Some((-seen) as Value)
        }
    } else {
        if seen > 0x7FFF_FFFF {
            None
        } else {
            Some(seen as Value)
        }
    }
}

} // verus!
