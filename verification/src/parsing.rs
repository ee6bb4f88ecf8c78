//! Reading an episode number and a title out of a file name.
//!
//! Two forms of name are known. The verbose form holds the word `Episode`,
//! then spaces or tabs, then the number: `Show - Episode 12 The Title.mkv`.
//! The compact form holds the letter `E` immediately followed by the number:
//! `S01E12 The Title.mkv`. In both, what stands between the number and the
//! next full stop is the title, and a name without a full stop after the
//! number is not an episode.
//!
//! The word is looked for once, from the left: where the first `Episode` is
//! not followed by spaces or tabs and a number, the verbose form does not
//! match, whatever comes later in the name. The letter counts wherever a
//! digit follows it: the compact form starts at the first `E` of the name
//! that has a digit behind it, so `The Expanse E05.mp4` is episode 5.

use vstd::prelude::*;
use vstd::string::*;
use crate::text::{
    all_digits, decimal_value, find, first_occurrence, is_blank, is_digit, is_space,
    lemma_decimal_value_nonnegative, lemma_first_occurrence, lemma_first_occurrence_is,
    lemma_run_end, lemma_run_end_is, lemma_run_start_is, lemma_trim, occurs_at, read_decimal,
    run_end, scan_run, to_chars, trim, CharClass,
};

verus! {

/// An episode number and a title, as read from a file name.
#[derive(Debug)]
pub struct ParsedEpisode {
    /// The number, before any offset is applied.
    pub episode_number: i32,
    /// The title, without white space at its ends; empty where the name
    /// holds none.
    pub title: String,
}

/// The mathematical value of a `ParsedEpisode`.
pub struct EpisodeModel {
    pub episode_number: int,
    pub title: Seq<char>,
}

impl View for ParsedEpisode {
    type V = EpisodeModel;

    open spec fn view(&self) -> EpisodeModel {
        EpisodeModel { episode_number: self.episode_number as int, title: self.title@ }
    }
}

/// Why a file name is not an episode.
#[derive(Debug)]
pub enum ParseError {
    /// The name does not have the form of an episode.
    PatternNotFound { filename: String },
    /// The name has the form, but its number is greater than `i32::MAX`.
    InvalidNumber { filename: String },
}

/// The mathematical value of a `ParseError`.
pub enum ParseFailure {
    PatternNotFound { filename: Seq<char> },
    InvalidNumber { filename: Seq<char> },
}

impl View for ParseError {
    type V = ParseFailure;

    open spec fn view(&self) -> ParseFailure {
        match self {
            ParseError::PatternNotFound { filename } => ParseFailure::PatternNotFound {
                filename: filename@,
            },
            ParseError::InvalidNumber { filename } => ParseFailure::InvalidNumber {
                filename: filename@,
            },
        }
    }
}

impl ParseFailure {
    /// The name that was not an episode.
    pub open spec fn filename(self) -> Seq<char> {
        match self {
            ParseFailure::PatternNotFound { filename } => filename,
            ParseFailure::InvalidNumber { filename } => filename,
        }
    }

    /// The sentence that reports the failure.
    pub open spec fn message(self) -> Seq<char> {
        match self {
            ParseFailure::PatternNotFound { filename } => "no episode number found in: "@
                + filename,
            ParseFailure::InvalidNumber { filename } => "episode number out of range in: "@
                + filename,
        }
    }
}

impl ParseError {
    /// The sentence that reports the failure.
    pub fn message(&self) -> (m: String)
        ensures
            m@ == self@.message(),
    {
        match self {
            ParseError::PatternNotFound { filename } => {
                let mut m = String::from_str("no episode number found in: ");
                m.append(filename.as_str());
                m
            },
            ParseError::InvalidNumber { filename } => {
                let mut m = String::from_str("episode number out of range in: ");
                m.append(filename.as_str());
                m
            },
        }
    }
}

/// The mathematical value of what a parser returns.
pub open spec fn result_view(r: Result<ParsedEpisode, ParseError>) -> Result<
    EpisodeModel,
    ParseFailure,
> {
    match r {
        Ok(episode) => Ok(episode@),
        Err(error) => Err(error@),
    }
}

/// The word that announces the number in the verbose form.
pub open spec fn episode_word() -> Seq<char> {
    seq!['E', 'p', 'i', 's', 'o', 'd', 'e']
}

/// The letter that announces the number in the compact form.
pub open spec fn episode_letter() -> Seq<char> {
    seq!['E']
}

/// What both forms have after their marker, from index `at` of `s` on: the
/// longest run of digits, which is not empty and stands for a number that
/// fits `i32`; then the title, which is everything up to the next full stop,
/// trimmed; then that full stop.
pub open spec fn number_and_title(s: Seq<char>, at: int) -> Result<EpisodeModel, ParseFailure> {
    let k = run_end(s, CharClass::Digit, at);
    let d = run_end(s, CharClass::NotDot, k);
    if k == at {
        Err(ParseFailure::PatternNotFound { filename: s })
    } else if decimal_value(s.subrange(at, k)) > i32::MAX {
        Err(ParseFailure::InvalidNumber { filename: s })
    } else if d >= s.len() {
        Err(ParseFailure::PatternNotFound { filename: s })
    } else {
        Ok(
            EpisodeModel {
                episode_number: decimal_value(s.subrange(at, k)),
                title: trim(s.subrange(k, d)),
            },
        )
    }
}

/// The verbose form: the first `Episode` of `s`, at least one space or tab,
/// then number and title.
pub open spec fn verbose_form(s: Seq<char>) -> Result<EpisodeModel, ParseFailure> {
    match first_occurrence(s, episode_word()) {
        None => Err(ParseFailure::PatternNotFound { filename: s }),
        Some(i) => {
            let j = run_end(s, CharClass::Blank, i + 7);
            if j == i + 7 {
                Err(ParseFailure::PatternNotFound { filename: s })
            } else {
                number_and_title(s, j)
            }
        },
    }
}

/// The letter `E` stands in `s` at index `i`, and a digit directly behind it.
pub open spec fn numbered_letter_at(s: Seq<char>, i: int) -> bool {
    &&& 0 <= i
    &&& i + 1 < s.len()
    &&& s[i] == 'E'
    &&& is_digit(s[i + 1])
}

/// `i` is the least index at which an `E` with a digit behind it stands in
/// `s`.
pub open spec fn is_first_numbered_letter(s: Seq<char>, i: int) -> bool {
    &&& numbered_letter_at(s, i)
    &&& forall|j: int| 0 <= j < i ==> !numbered_letter_at(s, j)
}

/// The least index at which an `E` with a digit behind it stands in `s`, if
/// there is one.
pub open spec fn first_numbered_letter(s: Seq<char>) -> Option<int> {
    if exists|i: int| is_first_numbered_letter(s, i) {
        Some(choose|i: int| is_first_numbered_letter(s, i))
    } else {
        None
    }
}

/// There is one least index at most.
pub proof fn lemma_first_numbered_letter_is(s: Seq<char>, i: int)
    requires
        is_first_numbered_letter(s, i),
    ensures
        first_numbered_letter(s) == Some(i),
{
    let c = choose|c: int| is_first_numbered_letter(s, c);
    if c < i {
        assert(!numbered_letter_at(s, c));
    } else if i < c {
        assert(!numbered_letter_at(s, i));
    }
}

/// The compact form: the first `E` of `s` that has a digit behind it, then
/// number and title.
pub open spec fn compact_form(s: Seq<char>) -> Result<EpisodeModel, ParseFailure> {
    match first_numbered_letter(s) {
        None => Err(ParseFailure::PatternNotFound { filename: s }),
        Some(i) => number_and_title(s, i + 1),
    }
}

/// Either form, the verbose one first. Where neither matches, the name has an
/// invalid number if one of the two forms found a number that is out of
/// range, and no pattern otherwise.
pub open spec fn episode_form(s: Seq<char>) -> Result<EpisodeModel, ParseFailure> {
    match verbose_form(s) {
        Ok(episode) => Ok(episode),
        Err(first) => match compact_form(s) {
            Ok(episode) => Ok(episode),
            Err(second) => if first is InvalidNumber {
                Err(first)
            } else {
                Err(second)
            },
        },
    }
}

/// Whether `title` can be the title of an episode: it has no full stop, and
/// no white space at its two ends.
pub open spec fn is_title(title: Seq<char>) -> bool {
    &&& forall|j: int| 0 <= j < title.len() ==> #[trigger] title[j] != '.'
    &&& title.len() > 0 ==> !is_space(title.first()) && !is_space(title.last())
}

/// What is read from index `at` on, if anything, is a number from 0 to
/// `i32::MAX` and a title.
pub proof fn lemma_number_and_title_read(s: Seq<char>, at: int)
    requires
        0 <= at <= s.len(),
    ensures
        number_and_title(s, at) matches Ok(episode) ==> 0 <= episode.episode_number <= i32::MAX
            && is_title(episode.title),
{
    if let Ok(episode) = number_and_title(s, at) {
        let k = run_end(s, CharClass::Digit, at);
        let d = run_end(s, CharClass::NotDot, k);
        lemma_run_end(s, CharClass::Digit, at);
        lemma_run_end(s, CharClass::NotDot, k);
        let ds = s.subrange(at, k);
        assert forall|j: int| 0 <= j < ds.len() implies is_digit(#[trigger] ds[j]) by {
            assert(CharClass::Digit.holds(s[at + j]));
        }
        lemma_decimal_value_nonnegative(ds);
        let part = s.subrange(k, d);
        lemma_trim(part);
        let (a, b) = choose|a: int, b: int|
            0 <= a <= b <= part.len() && trim(part) == #[trigger] part.subrange(a, b);
        assert forall|j: int| 0 <= j < trim(part).len() implies #[trigger] trim(part)[j]
            != '.' by {
            assert(trim(part)[j] == part[a + j]);
            assert(CharClass::NotDot.holds(s[k + a + j]));
        }
    }
}

/// What is read from a name, if anything, is a number from 0 to `i32::MAX`
/// and a title.
pub proof fn lemma_episode_form_read(file: Seq<char>)
    ensures
        verbose_form(file) matches Ok(episode) ==> 0 <= episode.episode_number <= i32::MAX
            && is_title(episode.title),
        compact_form(file) matches Ok(episode) ==> 0 <= episode.episode_number <= i32::MAX
            && is_title(episode.title),
        episode_form(file) matches Ok(episode) ==> 0 <= episode.episode_number <= i32::MAX
            && is_title(episode.title),
{
    lemma_first_occurrence(file, episode_word());
    if let Some(i) = first_occurrence(file, episode_word()) {
        assert(episode_word().len() == 7);
        lemma_run_end(file, CharClass::Blank, i + 7);
        lemma_number_and_title_read(file, run_end(file, CharClass::Blank, i + 7));
    }
    if let Some(i) = first_numbered_letter(file) {
        assert(is_first_numbered_letter(file, i));
        lemma_number_and_title_read(file, i + 1);
    }
}

/// A number, a title and a full stop are read as such: where `s` holds, from
/// index `at` on, the digits `digits` of a number that fits `i32`, then
/// `title`, which has no full stop and does not go on with a digit, and then
/// a full stop, the number is the one that the digits stand for and the title
/// is `title`, trimmed.
pub proof fn lemma_number_and_title(s: Seq<char>, at: int, digits: Seq<char>, title: Seq<char>)
    requires
        0 <= at,
        at + digits.len() + title.len() < s.len(),
        s.subrange(at, at + digits.len()) == digits,
        s.subrange(at + digits.len(), at + digits.len() + title.len()) == title,
        s[at + digits.len() + title.len()] == '.',
        digits.len() > 0,
        all_digits(digits),
        decimal_value(digits) <= i32::MAX,
        forall|j: int| 0 <= j < title.len() ==> #[trigger] title[j] != '.',
        title.len() > 0 ==> !is_digit(title[0]),
    ensures
        number_and_title(s, at) == Ok::<EpisodeModel, ParseFailure>(
            EpisodeModel { episode_number: decimal_value(digits), title: trim(title) },
        ),
{
    let k = at + digits.len();
    let d = k + title.len();
    assert forall|j: int| at <= j < k implies CharClass::Digit.holds(#[trigger] s[j]) by {
        assert(s[j] == digits[j - at]);
        assert(is_digit(digits[j - at]));
    }
    if title.len() > 0 {
        assert(s[k] == title[0]);
    }
    lemma_run_end_is(s, CharClass::Digit, at, k);
    assert forall|j: int| k <= j < d implies CharClass::NotDot.holds(#[trigger] s[j]) by {
        assert(s[j] == title[j - k]);
    }
    lemma_run_end_is(s, CharClass::NotDot, k, d);
}

/// A name with the word `Episode`, spaces or tabs, a number, a title and a
/// full stop is read in the verbose form, whatever stands before the word
/// and after the full stop, as long as the word does not stand in the name
/// earlier.
///
/// `file` is `prefix`, `Episode`, `blanks`, `digits`, `title`, a full stop and
/// `rest`.
pub proof fn lemma_verbose_name(
    file: Seq<char>,
    prefix: Seq<char>,
    blanks: Seq<char>,
    digits: Seq<char>,
    title: Seq<char>,
    rest: Seq<char>,
)
    requires
        file == prefix + episode_word() + blanks + digits + title + seq!['.'] + rest,
        forall|j: int| 0 <= j < prefix.len() ==> !occurs_at(file, episode_word(), j),
        blanks.len() > 0,
        forall|j: int| 0 <= j < blanks.len() ==> is_blank(#[trigger] blanks[j]),
        digits.len() > 0,
        all_digits(digits),
        decimal_value(digits) <= i32::MAX,
        forall|j: int| 0 <= j < title.len() ==> #[trigger] title[j] != '.',
        title.len() > 0 ==> !is_digit(title[0]),
    ensures
        verbose_form(file) == Ok::<EpisodeModel, ParseFailure>(
            EpisodeModel { episode_number: decimal_value(digits), title: trim(title) },
        ),
        episode_form(file) == verbose_form(file),
{
    let i = prefix.len() as int;
    let j = i + 7 + blanks.len();
    assert(episode_word().len() == 7);
    assert(file.subrange(i, i + 7) =~= episode_word());
    lemma_first_occurrence_is(file, episode_word(), i);
    assert forall|m: int| i + 7 <= m < j implies CharClass::Blank.holds(#[trigger] file[m]) by {
        assert(file[m] == blanks[m - i - 7]);
    }
    assert(file[j] == digits[0]);
    assert(is_digit(digits[0]));
    lemma_run_end_is(file, CharClass::Blank, i + 7, j);
    assert(file.subrange(j, j + digits.len()) =~= digits);
    assert(file.subrange(j + digits.len(), j + digits.len() + title.len()) =~= title);
    lemma_number_and_title(file, j, digits, title);
}

/// A name with the letter `E`, a number, a title and a full stop is read in
/// the compact form, whatever stands before the letter and after the full
/// stop, as long as no `E` with a digit behind it stands in the name earlier
/// and the name is not one of the verbose form.
///
/// `file` is `prefix`, `E`, `digits`, `title`, a full stop and `rest`.
pub proof fn lemma_compact_name(
    file: Seq<char>,
    prefix: Seq<char>,
    digits: Seq<char>,
    title: Seq<char>,
    rest: Seq<char>,
)
    requires
        file == prefix + episode_letter() + digits + title + seq!['.'] + rest,
        forall|j: int| 0 <= j < prefix.len() ==> !numbered_letter_at(file, j),
        verbose_form(file) is Err,
        digits.len() > 0,
        all_digits(digits),
        decimal_value(digits) <= i32::MAX,
        forall|j: int| 0 <= j < title.len() ==> #[trigger] title[j] != '.',
        title.len() > 0 ==> !is_digit(title[0]),
    ensures
        compact_form(file) == Ok::<EpisodeModel, ParseFailure>(
            EpisodeModel { episode_number: decimal_value(digits), title: trim(title) },
        ),
        episode_form(file) == compact_form(file),
{
    let i = prefix.len() as int;
    assert(episode_letter().len() == 1);
    assert(file[i] == episode_letter()[0]);
    assert(file[i + 1] == digits[0]);
    assert(is_digit(digits[0]));
    lemma_first_numbered_letter_is(file, i);
    assert(file.subrange(i + 1, i + 1 + digits.len()) =~= digits);
    assert(file.subrange(i + 1 + digits.len(), i + 1 + digits.len() + title.len()) =~= title);
    lemma_number_and_title(file, i + 1, digits, title);
}

/// The bounds of `cs[from..to]` without the white space at its two ends.
fn trim_bounds(cs: &Vec<char>, from: usize, to: usize) -> (r: (usize, usize))
    requires
        from <= to <= cs.len(),
    ensures
        from <= r.0 <= r.1 <= to,
        cs@.subrange(r.0 as int, r.1 as int) == trim(cs@.subrange(from as int, to as int)),
{
    let ghost part = cs@.subrange(from as int, to as int);
    let mut a: usize = from;
    while a < to && CharClass::Space.test(cs[a])
        invariant
            from <= a <= to <= cs.len(),
            forall|j: int| from <= j < a ==> CharClass::Space.holds(#[trigger] cs@[j]),
        decreases to - a,
    {
        a = a + 1;
    }
    let mut b: usize = to;
    while a < b && CharClass::Space.test(cs[b - 1])
        invariant
            a <= b <= to <= cs.len(),
            forall|j: int| b <= j < to ==> CharClass::Space.holds(#[trigger] cs@[j]),
        decreases b,
    {
        b = b - 1;
    }
    proof {
        assert forall|j: int| 0 <= j < a - from implies CharClass::Space.holds(
            #[trigger] part[j],
        ) by {
            assert(part[j] == cs@[from + j]);
        }
        if a < to {
            assert(part[a - from] == cs@[a as int]);
        }
        lemma_run_end_is(part, CharClass::Space, 0, a - from);
        if a < b {
            assert forall|j: int| b - from <= j < part.len() implies CharClass::Space.holds(
                #[trigger] part[j],
            ) by {
                assert(part[j] == cs@[from + j]);
            }
            assert(part[b - from - 1] == cs@[b - 1]);
            lemma_run_start_is(part, CharClass::Space, part.len() as int, b - from);
            assert(part.subrange(a - from, b - from) =~= cs@.subrange(a as int, b as int));
        } else {
            assert forall|j: int| 0 <= j < part.len() implies CharClass::Space.holds(
                #[trigger] part[j],
            ) by {
                assert(part[j] == cs@[from + j]);
            }
            lemma_run_start_is(part, CharClass::Space, part.len() as int, 0);
            assert(cs@.subrange(a as int, b as int) =~= Seq::<char>::empty());
        }
    }
    (a, b)
}

/// Reads number and title from index `at` of `input` on; `cs` holds the
/// characters of `input`.
fn read_number_and_title(input: &str, cs: &Vec<char>, at: usize) -> (r: Result<
    ParsedEpisode,
    ParseError,
>)
    requires
        cs@ == input@,
        at <= cs.len(),
    ensures
        result_view(r) == number_and_title(input@, at as int),
{
    let k = scan_run(cs, CharClass::Digit, at);
    proof {
        lemma_run_end(cs@, CharClass::Digit, at as int);
    }
    if k == at {
        return Err(ParseError::PatternNotFound { filename: input.to_owned() });
    }
    proof {
        let ds = cs@.subrange(at as int, k as int);
        assert forall|j: int| 0 <= j < ds.len() implies is_digit(#[trigger] ds[j]) by {
            assert(ds[j] == cs@[at + j]);
            assert(CharClass::Digit.holds(cs@[at + j]));
        }
        assert(all_digits(ds));
    }
    let number = match read_decimal(cs, at, k) {
        Some(n) => n,
        None => {
            return Err(ParseError::InvalidNumber { filename: input.to_owned() });
        },
    };
    let d = scan_run(cs, CharClass::NotDot, k);
    proof {
        lemma_run_end(cs@, CharClass::NotDot, k as int);
    }
    if d >= cs.len() {
        return Err(ParseError::PatternNotFound { filename: input.to_owned() });
    }
    let (a, b) = trim_bounds(cs, k, d);
    let title = input.substring_char(a, b).to_owned();
    Ok(ParsedEpisode { episode_number: number, title })
}

/// The characters of the word `Episode`.
fn episode_word_chars() -> (w: Vec<char>)
    ensures
        w@ == episode_word(),
        w@.len() == 7,
{
    let w = vec!['E', 'p', 'i', 's', 'o', 'd', 'e'];
    assert(w@ =~= episode_word());
    w
}

/// The verbose form on the characters `cs` of `input`.
fn read_verbose(input: &str, cs: &Vec<char>) -> (r: Result<ParsedEpisode, ParseError>)
    requires
        cs@ == input@,
    ensures
        result_view(r) == verbose_form(input@),
{
    let word = episode_word_chars();
    match find(cs, &word) {
        None => Err(ParseError::PatternNotFound { filename: input.to_owned() }),
        Some(i) => {
            assert(i + 7 <= cs.len());
            let j = scan_run(cs, CharClass::Blank, i + 7);
            proof {
                lemma_run_end(cs@, CharClass::Blank, i + 7);
            }
            if j == i + 7 {
                Err(ParseError::PatternNotFound { filename: input.to_owned() })
            } else {
                read_number_and_title(input, cs, j)
            }
        },
    }
}

/// Computes `first_numbered_letter`.
fn find_numbered_letter(cs: &Vec<char>) -> (r: Option<usize>)
    ensures
        r matches Some(i) ==> first_numbered_letter(cs@) == Some(i as int) && i + 1 < cs.len(),
        r is None ==> first_numbered_letter(cs@) is None,
{
    let mut i: usize = 0;
    while i < cs.len()
        invariant
            i <= cs.len(),
            forall|j: int| 0 <= j < i ==> !numbered_letter_at(cs@, j),
        decreases cs.len() - i,
    {
        if cs[i] == 'E' && i < cs.len() - 1 && CharClass::Digit.test(cs[i + 1]) {
            proof {
                lemma_first_numbered_letter_is(cs@, i as int);
            }
            return Some(i);
        }
        i = i + 1;
    }
    assert(forall|j: int| !numbered_letter_at(cs@, j));
    None
}

/// The compact form on the characters `cs` of `input`.
fn read_compact(input: &str, cs: &Vec<char>) -> (r: Result<ParsedEpisode, ParseError>)
    requires
        cs@ == input@,
    ensures
        result_view(r) == compact_form(input@),
{
    match find_numbered_letter(cs) {
        None => Err(ParseError::PatternNotFound { filename: input.to_owned() }),
        Some(i) => read_number_and_title(input, cs, i + 1),
    }
}

/// Reads a name of the verbose form, such as `Episode 12 The Title.mkv`.
pub fn parse_new_episode(input: &str) -> (r: Result<ParsedEpisode, ParseError>)
    ensures
        result_view(r) == verbose_form(input@),
{
    let cs = to_chars(input);
    read_verbose(input, &cs)
}

/// Reads a name of the compact form, such as `S01E12 The Title.mkv`.
pub fn reparse_episode(input: &str) -> (r: Result<ParsedEpisode, ParseError>)
    ensures
        result_view(r) == compact_form(input@),
{
    let cs = to_chars(input);
    read_compact(input, &cs)
}

/// Reads a name of either form, trying the verbose form first.
pub fn parse_episode(input: &str) -> (r: Result<ParsedEpisode, ParseError>)
    ensures
        result_view(r) == episode_form(input@),
{
    let cs = to_chars(input);
    match read_verbose(input, &cs) {
        Ok(episode) => Ok(episode),
        Err(first) => match read_compact(input, &cs) {
            Ok(episode) => Ok(episode),
            Err(second) => match first {
                ParseError::InvalidNumber { filename } => Err(
                    ParseError::InvalidNumber { filename },
                ),
                ParseError::PatternNotFound { .. } => Err(second),
            },
        },
    }
}

} // verus!
