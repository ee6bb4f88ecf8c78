//! Character classes and the small text operations that file names are read
//! and written with: runs of one class of characters, the first occurrence of
//! a marker, trimming, and decimal numbers.
//!
//! Every operation has a mathematical definition over `Seq<char>` and an
//! executable counterpart over a vector of characters that is proved to
//! compute it.

use vstd::prelude::*;
use vstd::string::*;

verus! {

/// An ASCII decimal digit, `0` to `9`.
pub open spec fn is_digit(c: char) -> bool {
    '0' <= c && c <= '9'
}

/// A space or a horizontal tab.
pub open spec fn is_blank(c: char) -> bool {
    c == ' ' || c == '\t'
}

/// A character with the Unicode property `White_Space`.
pub open spec fn is_space(c: char) -> bool {
    ||| ('\u{9}' <= c && c <= '\u{d}')
    ||| c == ' '
    ||| c == '\u{85}'
    ||| c == '\u{a0}'
    ||| c == '\u{1680}'
    ||| ('\u{2000}' <= c && c <= '\u{200a}')
    ||| c == '\u{2028}'
    ||| c == '\u{2029}'
    ||| c == '\u{202f}'
    ||| c == '\u{205f}'
    ||| c == '\u{3000}'
}

/// The classes of characters that the file-name grammar is made of.
#[derive(Clone, Copy, Debug)]
pub enum CharClass {
    /// ASCII decimal digits.
    Digit,
    /// Spaces and tabs.
    Blank,
    /// Unicode white space.
    Space,
    /// Every character but the full stop.
    NotDot,
}

impl CharClass {
    /// Whether `c` belongs to the class.
    pub open spec fn holds(self, c: char) -> bool {
        match self {
            CharClass::Digit => is_digit(c),
            CharClass::Blank => is_blank(c),
            CharClass::Space => is_space(c),
            CharClass::NotDot => c != '.',
        }
    }

    /// Tests whether `c` belongs to the class.
    pub fn test(self, c: char) -> (b: bool)
        ensures
            b == self.holds(c),
    {
        match self {
            CharClass::Digit => '0' <= c && c <= '9',
            CharClass::Blank => c == ' ' || c == '\t',
            CharClass::Space => {
                ('\u{9}' <= c && c <= '\u{d}') || c == ' ' || c == '\u{85}' || c == '\u{a0}'
                    || c == '\u{1680}' || ('\u{2000}' <= c && c <= '\u{200a}') || c == '\u{2028}'
                    || c == '\u{2029}' || c == '\u{202f}' || c == '\u{205f}' || c == '\u{3000}'
            },
            CharClass::NotDot => c != '.',
        }
    }
}

/// The end of the longest run of characters of `class` that starts at `from`:
/// the least index `k >= from` such that `k` is the length of `s` or `s[k]` is
/// not in the class. For a `from` outside of `s` this is `from` itself.
pub open spec fn run_end(s: Seq<char>, class: CharClass, from: int) -> int
    decreases s.len() - from,
{
    if 0 <= from < s.len() && class.holds(s[from]) {
        run_end(s, class, from + 1)
    } else {
        from
    }
}

/// The start of the longest run of characters of `class` that ends before
/// `to`: the greatest index `k <= to` such that `k` is 0 or `s[k - 1]` is not
/// in the class. For a `to` outside of `s` this is `to` itself.
pub open spec fn run_start(s: Seq<char>, class: CharClass, to: int) -> int
    decreases to,
{
    if 0 < to <= s.len() && class.holds(s[to - 1]) {
        run_start(s, class, to - 1)
    } else {
        to
    }
}

/// What `run_end` is: everything from `from` up to it is in the class, and
/// the character at it, if there is one, is not.
pub proof fn lemma_run_end(s: Seq<char>, class: CharClass, from: int)
    requires
        0 <= from <= s.len(),
    ensures
        from <= run_end(s, class, from) <= s.len(),
        forall|j: int| from <= j < run_end(s, class, from) ==> class.holds(#[trigger] s[j]),
        run_end(s, class, from) < s.len() ==> !class.holds(s[run_end(s, class, from)]),
    decreases s.len() - from,
{
    if from < s.len() && class.holds(s[from]) {
        lemma_run_end(s, class, from + 1);
    }
}

/// An index of which both of these hold is `run_end`.
pub proof fn lemma_run_end_is(s: Seq<char>, class: CharClass, from: int, k: int)
    requires
        0 <= from <= k <= s.len(),
        forall|j: int| from <= j < k ==> class.holds(#[trigger] s[j]),
        k < s.len() ==> !class.holds(s[k]),
    ensures
        run_end(s, class, from) == k,
    decreases k - from,
{
    if from < k {
        assert(class.holds(s[from]));
        lemma_run_end_is(s, class, from + 1, k);
    }
}

/// What `run_start` is: everything from it up to `to` is in the class, and
/// the character before it, if there is one, is not.
pub proof fn lemma_run_start(s: Seq<char>, class: CharClass, to: int)
    requires
        0 <= to <= s.len(),
    ensures
        0 <= run_start(s, class, to) <= to,
        forall|j: int| run_start(s, class, to) <= j < to ==> class.holds(#[trigger] s[j]),
        0 < run_start(s, class, to) ==> !class.holds(s[run_start(s, class, to) - 1]),
    decreases to,
{
    if 0 < to && class.holds(s[to - 1]) {
        lemma_run_start(s, class, to - 1);
    }
}

/// An index of which both of these hold is `run_start`.
pub proof fn lemma_run_start_is(s: Seq<char>, class: CharClass, to: int, k: int)
    requires
        0 <= k <= to <= s.len(),
        forall|j: int| k <= j < to ==> class.holds(#[trigger] s[j]),
        0 < k ==> !class.holds(s[k - 1]),
    ensures
        run_start(s, class, to) == k,
    decreases to - k,
{
    if k < to {
        assert(class.holds(s[to - 1]));
        lemma_run_start_is(s, class, to - 1, k);
    }
}

/// Computes `run_end`.
pub fn scan_run(cs: &Vec<char>, class: CharClass, from: usize) -> (k: usize)
    ensures
        k == run_end(cs@, class, from as int),
{
    let mut k: usize = from;
    while k < cs.len() && class.test(cs[k])
        invariant
            from <= k,
            run_end(cs@, class, from as int) == run_end(cs@, class, k as int),
        decreases cs.len() - k,
    {
        k = k + 1;
    }
    k
}

/// Computes `run_start`.
pub fn scan_run_back(cs: &Vec<char>, class: CharClass, to: usize) -> (k: usize)
    ensures
        k == run_start(cs@, class, to as int),
{
    let mut k: usize = to;
    while 0 < k && k <= cs.len() && class.test(cs[k - 1])
        invariant
            k <= to,
            run_start(cs@, class, to as int) == run_start(cs@, class, k as int),
        decreases k,
    {
        k = k - 1;
    }
    k
}

/// `pat` stands in `s` at index `i`.
pub open spec fn occurs_at(s: Seq<char>, pat: Seq<char>, i: int) -> bool {
    &&& 0 <= i
    &&& i + pat.len() <= s.len()
    &&& s.subrange(i, i + pat.len()) =~= pat
}

/// `i` is the least index at which `pat` stands in `s`.
pub open spec fn is_first_occurrence(s: Seq<char>, pat: Seq<char>, i: int) -> bool {
    &&& occurs_at(s, pat, i)
    &&& forall|j: int| 0 <= j < i ==> !occurs_at(s, pat, j)
}

/// The least index at which `pat` stands in `s`, if it stands in it at all.
pub open spec fn first_occurrence(s: Seq<char>, pat: Seq<char>) -> Option<int> {
    if exists|i: int| is_first_occurrence(s, pat, i) {
        Some(choose|i: int| is_first_occurrence(s, pat, i))
    } else {
        None
    }
}

/// There is one least index at most.
pub proof fn lemma_first_occurrence_is(s: Seq<char>, pat: Seq<char>, i: int)
    requires
        is_first_occurrence(s, pat, i),
    ensures
        first_occurrence(s, pat) == Some(i),
{
    let c = choose|c: int| is_first_occurrence(s, pat, c);
    if c < i {
        assert(!occurs_at(s, pat, c));
    } else if i < c {
        assert(!occurs_at(s, pat, i));
    }
}

/// The first occurrence, where there is one, is an occurrence, and the
/// first.
pub proof fn lemma_first_occurrence(s: Seq<char>, pat: Seq<char>)
    ensures
        first_occurrence(s, pat) matches Some(i) ==> is_first_occurrence(s, pat, i),
{
}

/// Where `pat` stands nowhere in `s`, there is no first occurrence.
pub proof fn lemma_first_occurrence_none(s: Seq<char>, pat: Seq<char>)
    requires
        forall|j: int| !occurs_at(s, pat, j),
    ensures
        first_occurrence(s, pat) is None,
{
}

/// Whether `pat` stands in `cs` at index `i`.
pub fn matches_at(cs: &Vec<char>, pat: &Vec<char>, i: usize) -> (b: bool)
    ensures
        b == occurs_at(cs@, pat@, i as int),
{
    if pat.len() > cs.len() || i > cs.len() - pat.len() {
        return false;
    }
    let mut n: usize = 0;
    while n < pat.len()
        invariant
            n <= pat.len(),
            i + pat.len() <= cs.len(),
            forall|m: int| 0 <= m < n ==> cs@[i + m] == pat@[m],
        decreases pat.len() - n,
    {
        if cs[i + n] != pat[n] {
            proof {
                let sub = cs@.subrange(i as int, i + pat.len());
                assert(sub[n as int] == cs@[i + n]);
            }
            return false;
        }
        n = n + 1;
    }
    true
}

/// Computes `first_occurrence`.
pub fn find(cs: &Vec<char>, pat: &Vec<char>) -> (r: Option<usize>)
    ensures
        r matches Some(i) ==> first_occurrence(cs@, pat@) == Some(i as int),
        r matches Some(i) ==> i + pat@.len() <= cs@.len(),
        r is None ==> first_occurrence(cs@, pat@) is None,
{
    let mut i: usize = 0;
    while i < cs.len()
        invariant
            i <= cs.len(),
            forall|j: int| 0 <= j < i ==> !occurs_at(cs@, pat@, j),
        decreases cs.len() - i,
    {
        if matches_at(cs, pat, i) {
            proof {
                lemma_first_occurrence_is(cs@, pat@, i as int);
            }
            return Some(i);
        }
        i = i + 1;
    }
    if matches_at(cs, pat, i) {
        proof {
            lemma_first_occurrence_is(cs@, pat@, i as int);
        }
        return Some(i);
    }
    proof {
        lemma_first_occurrence_none(cs@, pat@);
    }
    None
}

/// `s` without the white space at its two ends.
pub open spec fn trim(s: Seq<char>) -> Seq<char> {
    let a = run_end(s, CharClass::Space, 0);
    let b = run_start(s, CharClass::Space, s.len() as int);
    if a < b {
        s.subrange(a, b)
    } else {
        Seq::empty()
    }
}

/// Trimming takes away a run of white space at each end and nothing else:
/// where `s[a..b]` has white space before it and behind it only, and none at
/// its own two ends, it is `trim(s)`.
pub proof fn lemma_trim_is(s: Seq<char>, a: int, b: int)
    requires
        0 <= a <= b <= s.len(),
        forall|j: int| 0 <= j < a ==> is_space(#[trigger] s[j]),
        forall|j: int| b <= j < s.len() ==> is_space(#[trigger] s[j]),
        a < b ==> !is_space(s[a]) && !is_space(s[b - 1]),
    ensures
        trim(s) == s.subrange(a, b),
{
    if a < b {
        lemma_run_end_is(s, CharClass::Space, 0, a);
        lemma_run_start_is(s, CharClass::Space, s.len() as int, b);
    } else {
        assert forall|j: int| 0 <= j < s.len() implies CharClass::Space.holds(#[trigger] s[j]) by {
            assert(is_space(s[j]));
        }
        lemma_run_end_is(s, CharClass::Space, 0, s.len() as int);
        lemma_run_start_is(s, CharClass::Space, s.len() as int, 0);
        assert(s.subrange(a, b) =~= Seq::<char>::empty());
    }
}

/// What is left after trimming is a part of the string, and has no white
/// space at its two ends.
pub proof fn lemma_trim(s: Seq<char>)
    ensures
        exists|a: int, b: int| 0 <= a <= b <= s.len() && trim(s) == #[trigger] s.subrange(a, b),
        trim(s).len() > 0 ==> !is_space(trim(s).first()) && !is_space(trim(s).last()),
{
    let a = run_end(s, CharClass::Space, 0);
    let b = run_start(s, CharClass::Space, s.len() as int);
    lemma_run_end(s, CharClass::Space, 0);
    lemma_run_start(s, CharClass::Space, s.len() as int);
    if a < b {
        assert(trim(s) == s.subrange(a, b));
        assert(s.subrange(a, b).first() == s[a]);
        assert(s.subrange(a, b).last() == s[b - 1]);
    } else {
        assert(trim(s) =~= s.subrange(0, 0));
    }
}

/// The number that the digit `c` stands for.
pub open spec fn digit_value(c: char) -> int {
    c as int - '0' as int
}

/// The number that the string of digits `ds` is the decimal notation of;
/// the empty string stands for 0.
pub open spec fn decimal_value(ds: Seq<char>) -> int
    decreases ds.len(),
{
    if ds.len() == 0 {
        0
    } else {
        10 * decimal_value(ds.drop_last()) + digit_value(ds.last())
    }
}

/// Whether every character of `s` is a decimal digit.
pub open spec fn all_digits(s: Seq<char>) -> bool {
    forall|j: int| 0 <= j < s.len() ==> is_digit(#[trigger] s[j])
}

/// A string of digits stands for a natural number.
pub proof fn lemma_decimal_value_nonnegative(ds: Seq<char>)
    requires
        all_digits(ds),
    ensures
        0 <= decimal_value(ds),
    decreases ds.len(),
{
    if ds.len() > 0 {
        lemma_decimal_value_nonnegative(ds.drop_last());
        assert(is_digit(ds.last()));
    }
}

/// A string of digits stands for no less than each of its prefixes.
pub proof fn lemma_decimal_value_prefix(ds: Seq<char>, k: int)
    requires
        all_digits(ds),
        0 <= k <= ds.len(),
    ensures
        0 <= decimal_value(ds.take(k)) <= decimal_value(ds),
    decreases ds.len() - k,
{
    if k == ds.len() {
        assert(ds.take(k) =~= ds);
        lemma_decimal_value_nonnegative(ds);
    } else {
        lemma_decimal_value_prefix(ds, k + 1);
        let longer = ds.take(k + 1);
        assert(longer.drop_last() =~= ds.take(k));
        assert(is_digit(ds[k]));
        assert(longer.last() == ds[k]);
        lemma_decimal_value_nonnegative(ds.take(k));
    }
}

/// The number that `s[from..to]` stands for, where that is a part of `s`,
/// made of digits, and the number fits `i32`.
pub open spec fn decimal_in_i32(s: Seq<char>, from: int, to: int) -> Option<int> {
    if 0 <= from <= to <= s.len() && all_digits(s.subrange(from, to)) && decimal_value(
        s.subrange(from, to),
    ) <= i32::MAX {
        Some(decimal_value(s.subrange(from, to)))
    } else {
        None
    }
}

/// Reads `cs[from..to]` as a decimal number. Returns `None` where that is no
/// part of `cs`, holds anything but digits, or stands for a number greater
/// than `i32::MAX`.
pub fn read_decimal(cs: &Vec<char>, from: usize, to: usize) -> (r: Option<i32>)
    ensures
        match r {
            Some(n) => decimal_in_i32(cs@, from as int, to as int) == Some(n as int),
            None => decimal_in_i32(cs@, from as int, to as int) is None,
        },
{
    if from > to || to > cs.len() {
        return None;
    }
    let ghost ds = cs@.subrange(from as int, to as int);
    let mut acc: i64 = 0;
    let mut k: usize = from;
    while k < to
        invariant
            from <= k <= to <= cs.len(),
            ds == cs@.subrange(from as int, to as int),
            all_digits(ds.take(k - from)),
            acc == decimal_value(ds.take(k - from)),
            0 <= acc <= i32::MAX,
        decreases to - k,
    {
        let c = cs[k];
        assert(ds[k - from] == c);
        if !CharClass::Digit.test(c) {
            return None;
        }
        proof {
            let longer = ds.take(k - from + 1);
            assert(longer.drop_last() =~= ds.take(k - from));
            assert(longer.last() == c);
            assert forall|j: int| 0 <= j < longer.len() implies is_digit(#[trigger] longer[j]) by {
                if j < k - from {
                    assert(longer[j] == ds.take(k - from)[j]);
                }
            }
        }
        let d: i64 = (c as u32 - '0' as u32) as i64;
        let next: i64 = 10 * acc + d;
        if next > 2147483647 {
            proof {
                if all_digits(ds) {
                    lemma_decimal_value_prefix(ds, k - from + 1);
                }
            }
            return None;
        }
        acc = next;
        k = k + 1;
    }
    proof {
        assert(ds.take(to - from) =~= ds);
    }
    Some(acc as i32)
}

/// The digit character for `d`.
pub open spec fn digit_char(d: int) -> char
    recommends
        0 <= d < 10,
{
    seq!['0', '1', '2', '3', '4', '5', '6', '7', '8', '9'][d]
}

/// The decimal notation of a natural number, without leading zeros.
pub open spec fn decimal(n: nat) -> Seq<char>
    decreases n,
{
    if n < 10 {
        seq![digit_char(n as int)]
    } else {
        decimal(n / 10).push(digit_char((n % 10) as int))
    }
}

/// The decimal notation of an integer: a minus sign for a negative one, then
/// the digits.
pub open spec fn signed_decimal(n: int) -> Seq<char> {
    if n < 0 {
        seq!['-'] + decimal((-n) as nat)
    } else {
        decimal(n as nat)
    }
}

/// The notation of an integer in a field of at least two characters, filled
/// with zeros from the left: `5` gives `05`, `-5` gives `-5`, `123` gives
/// `123`.
pub open spec fn padded(n: int) -> Seq<char> {
    if 0 <= n < 10 {
        seq!['0'] + decimal(n as nat)
    } else {
        signed_decimal(n)
    }
}

/// The notation of a natural number is made of digits and stands for that
/// number.
pub proof fn lemma_decimal(n: nat)
    ensures
        decimal(n).len() > 0,
        all_digits(decimal(n)),
        decimal_value(decimal(n)) == n,
    decreases n,
{
    if n < 10 {
        let ds = decimal(n);
        assert(ds.len() == 1);
        assert(ds[0] == digit_char(n as int));
        assert(ds.drop_last() =~= Seq::<char>::empty());
        assert(decimal_value(ds.drop_last()) == 0);
        assert(digit_value(digit_char(n as int)) == n);
    } else {
        lemma_decimal(n / 10);
        let ds = decimal(n);
        let d = digit_char((n % 10) as int);
        assert(ds.drop_last() =~= decimal(n / 10));
        assert(ds.last() == d);
        assert(is_digit(d));
        assert(digit_value(d) == n % 10);
        assert forall|j: int| 0 <= j < ds.len() implies is_digit(#[trigger] ds[j]) by {
            if j < ds.len() - 1 {
                assert(ds[j] == decimal(n / 10)[j]);
            }
        }
    }
}

/// A zero in front of a string of digits does not change what it stands for.
pub proof fn lemma_decimal_value_leading_zero(ds: Seq<char>)
    ensures
        decimal_value(seq!['0'] + ds) == decimal_value(ds),
    decreases ds.len(),
{
    let zs = seq!['0'] + ds;
    if ds.len() == 0 {
        assert(zs.drop_last() =~= Seq::<char>::empty());
        assert(zs.last() == '0');
        assert(decimal_value(zs.drop_last()) == 0);
    } else {
        lemma_decimal_value_leading_zero(ds.drop_last());
        assert(zs.drop_last() =~= seq!['0'] + ds.drop_last());
        assert(zs.last() == ds.last());
    }
}

/// The padded notation of a natural number has two digits at least, digits
/// only, and stands for that number.
pub proof fn lemma_padded_natural(n: int)
    requires
        0 <= n,
    ensures
        padded(n).len() >= 2,
        all_digits(padded(n)),
        decimal_value(padded(n)) == n,
{
    lemma_decimal(n as nat);
    if n < 10 {
        lemma_decimal_value_leading_zero(decimal(n as nat));
        let ps = padded(n);
        assert forall|j: int| 0 <= j < ps.len() implies is_digit(#[trigger] ps[j]) by {
            if j > 0 {
                assert(ps[j] == decimal(n as nat)[j - 1]);
            }
        }
    } else {
        lemma_decimal((n / 10) as nat);
    }
}

/// The padded notation of an integer has two characters at least, each of
/// them a digit or the minus sign.
pub proof fn lemma_padded_characters(n: int)
    ensures
        padded(n).len() >= 2,
        forall|j: int|
            0 <= j < padded(n).len() ==> is_digit(#[trigger] padded(n)[j]) || padded(n)[j] == '-',
{
    if n >= 0 {
        lemma_padded_natural(n);
    } else {
        lemma_decimal((-n) as nat);
        let ps = padded(n);
        assert forall|j: int| 0 <= j < ps.len() implies is_digit(#[trigger] ps[j]) || ps[j]
            == '-' by {
            if j > 0 {
                assert(ps[j] == decimal((-n) as nat)[j - 1]);
            }
        }
    }
}

/// The characters of `s`, in a vector.
pub fn to_chars(s: &str) -> (v: Vec<char>)
    ensures
        v@ == s@,
{
    let mut v: Vec<char> = Vec::new();
    for c in it: s.chars()
        invariant
            v@ == it.seq().take(it.index()),
            it.seq() == s@,
    {
        v.push(c);
    }
    v
}

/// Appends the decimal notation of `n` to `out`.
pub fn push_decimal(out: &mut String, n: u64)
    ensures
        final(out)@ == old(out)@ + decimal(n as nat),
    decreases n,
{
    if n >= 10 {
        push_decimal(out, n / 10);
    }
    let d: usize = (n % 10) as usize;
    proof {
        reveal_strlit("0123456789");
    }
    let digit = "0123456789".substring_char(d, d + 1);
    assert(digit@ =~= seq![digit_char(d as int)]);
    out.append(digit);
    assert(out@ =~= old(out)@ + decimal(n as nat));
}

/// Appends the decimal notation of `n`, with its sign, to `out`.
pub fn push_signed(out: &mut String, n: i64)
    ensures
        final(out)@ == old(out)@ + signed_decimal(n as int),
{
    if n < 0 {
        out.append("-");
        proof {
            reveal_strlit("-");
        }
        let magnitude: u64 = (-(n + 1)) as u64 + 1;
        push_decimal(out, magnitude);
        assert(out@ =~= old(out)@ + signed_decimal(n as int));
    } else {
        push_decimal(out, n as u64);
    }
}

/// Appends `n` to `out` in a field of at least two characters, filled with
/// zeros from the left.
pub fn push_padded(out: &mut String, n: i64)
    ensures
        final(out)@ == old(out)@ + padded(n as int),
{
    if 0 <= n && n < 10 {
        out.append("0");
        proof {
            reveal_strlit("0");
        }
        push_decimal(out, n as u64);
        assert(out@ =~= old(out)@ + padded(n as int));
    } else {
        push_signed(out, n);
    }
}

} // verus!
