//! The work on a whole directory: which of its files are candidates, what is
//! to be done with each of them, and what the batch amounted to.
//!
//! Nothing here touches the file system. The caller lists the directory,
//! performs each `FileAction` and reports back how it went.

use vstd::prelude::*;
use vstd::string::*;
use crate::data::{planned, RenamePlan, SeasonData};
use crate::parsing::ParseFailure;
use crate::text::{decimal, push_decimal, push_signed, signed_decimal, to_chars};

verus! {

/// Why the candidates of a directory could not be told.
#[derive(Debug)]
pub enum DirectoryScanError {
    /// The directory could not be read.
    Unreadable { message: String },
    /// The pattern of candidate names was refused by the regex engine.
    Pattern { message: String },
}

impl DirectoryScanError {
    /// The sentence that reports the failure.
    pub open spec fn text(&self) -> Seq<char> {
        match self {
            DirectoryScanError::Unreadable { message } => message@,
            DirectoryScanError::Pattern { message } => message@,
        }
    }

    /// The sentence that reports the failure.
    pub fn message(&self) -> (m: String)
        ensures
            m@ == self.text(),
    {
        match self {
            DirectoryScanError::Unreadable { message } => message.clone(),
            DirectoryScanError::Pattern { message } => message.clone(),
        }
    }
}

/// `regex::Error`, the error of `regex::Regex::new`. It is carried from the
/// call to the place where its text is taken; nothing is known of what it
/// holds.
#[verifier::external_type_specification]
#[verifier::external_body]
pub struct ExRegexError(regex::Error);

/// Whether `regex::Regex::new` accepts `pattern`: whether it is a regular
/// expression in the syntax of the `regex` crate that compiles within the
/// default size limit.
pub uninterp spec fn regex_compiles(pattern: Seq<char>) -> bool;

/// Whether a regular expression compiled from `pattern` with the default
/// options of the `regex` crate has a match anywhere in `text`.
pub uninterp spec fn regex_matches(pattern: Seq<char>, text: Seq<char>) -> bool;

/// `regex::Regex::new` on `pattern`, once, then `regex::Regex::is_match` of
/// the compiled expression on each of `texts`. Whether the pattern compiles
/// depends on the pattern alone and is what `regex_compiles` names. Where it
/// compiles, there is one answer for each text, in the order of the texts,
/// and each answer is what `regex_matches` names; where it does not, the
/// error of `new` is handed on. Nothing is claimed about which patterns
/// compile.
#[verifier::external_body]
fn regex_match_each(pattern: &str, texts: &Vec<String>) -> (r: Result<Vec<bool>, regex::Error>)
    ensures
        r is Ok <==> regex_compiles(pattern@),
        r matches Ok(found) ==> found@.len() == texts@.len() && forall|i: int|
            0 <= i < texts@.len() ==> #[trigger] found@[i] == regex_matches(pattern@, texts@[i]@),
{
    let expression = regex::Regex::new(pattern)?;
    Ok(texts.iter().map(|text| expression.is_match(text)).collect())
}

/// The pattern that a candidate name has a match of: the word `Episode`, a
/// space and one to five digits, or the letter `E` and one to five digits.
pub const CANDIDATE_PATTERN: &'static str = "(Episode \\d{1,5}|E\\d{1,5})";

/// Whether a file of this name is a candidate for renaming.
pub open spec fn is_candidate(name: Seq<char>) -> bool {
    regex_matches(CANDIDATE_PATTERN@, name)
}

/// The values of a vector of names.
pub open spec fn views(names: Seq<String>) -> Seq<Seq<char>> {
    Seq::new(names.len(), |i: int| names[i]@)
}

/// `a` comes before `b`, or is `b`, in the lexicographic order of the code
/// points.
pub open spec fn lex_le(a: Seq<char>, b: Seq<char>) -> bool
    decreases a.len(),
{
    if a.len() == 0 {
        true
    } else if b.len() == 0 {
        false
    } else if a[0] != b[0] {
        a[0] < b[0]
    } else {
        lex_le(a.drop_first(), b.drop_first())
    }
}

/// Whether `names` ascends in the lexicographic order.
pub open spec fn is_sorted(names: Seq<Seq<char>>) -> bool {
    forall|i: int, j: int| 0 <= i <= j < names.len() ==> lex_le(names[i], names[j])
}

/// `<[String]>::sort`. The standard library documents that the slice is
/// put in ascending order, and that strings are ordered lexicographically by
/// their bytes, which is the order of their code points. So the names after
/// the call are the names before it, each as often as before, in ascending
/// order.
#[verifier::external_body]
fn sort_names(names: &mut Vec<String>)
    ensures
        views(final(names)@).to_multiset() == views(old(names)@).to_multiset(),
        is_sorted(views(final(names)@)),
{
    names.sort();
}

/// Two strings of which each comes before the other, or is it, are one
/// string.
pub proof fn lemma_lex_le_antisymmetric(a: Seq<char>, b: Seq<char>)
    requires
        lex_le(a, b),
        lex_le(b, a),
    ensures
        a == b,
    decreases a.len(),
{
    if a.len() == 0 {
        assert(a =~= b);
    } else {
        lemma_lex_le_antisymmetric(a.drop_first(), b.drop_first());
        assert(a =~= seq![a[0]] + a.drop_first());
        assert(b =~= seq![b[0]] + b.drop_first());
    }
}

/// There is one way to sort: two ascending sequences that hold the same
/// names, each as often as the other, are the same sequence. So to say of a
/// result that it ascends and which names it holds is to say what it is.
pub proof fn lemma_sorted_is_unique(a: Seq<Seq<char>>, b: Seq<Seq<char>>)
    requires
        is_sorted(a),
        is_sorted(b),
        a.to_multiset() == b.to_multiset(),
    ensures
        a == b,
    decreases a.len(),
{
    a.to_multiset_ensures();
    b.to_multiset_ensures();
    assert(a.len() == b.len());
    if a.len() == 0 {
        assert(a =~= b);
    } else {
        assert(a.contains(a[0]));
        assert(b.contains(b[0]));
        assert(b.to_multiset().count(a[0]) > 0);
        assert(a.to_multiset().count(b[0]) > 0);
        let j = choose|j: int| 0 <= j < b.len() && b[j] == a[0];
        let i = choose|i: int| 0 <= i < a.len() && a[i] == b[0];
        assert(lex_le(b[0], b[j]));
        assert(lex_le(a[0], a[i]));
        lemma_lex_le_antisymmetric(a[0], b[0]);
        let rest_a = a.remove(0);
        let rest_b = b.remove(0);
        assert forall|m: int, n: int| 0 <= m <= n < rest_a.len() implies lex_le(
            rest_a[m],
            rest_a[n],
        ) by {
            assert(lex_le(a[m + 1], a[n + 1]));
        }
        assert forall|m: int, n: int| 0 <= m <= n < rest_b.len() implies lex_le(
            rest_b[m],
            rest_b[n],
        ) by {
            assert(lex_le(b[m + 1], b[n + 1]));
        }
        assert(rest_a.to_multiset() == a.to_multiset().remove(a[0]));
        assert(rest_b.to_multiset() == b.to_multiset().remove(b[0]));
        lemma_sorted_is_unique(rest_a, rest_b);
        assert forall|m: int| 0 <= m < a.len() implies a[m] == b[m] by {
            if m > 0 {
                assert(a[m] == rest_a[m - 1]);
                assert(b[m] == rest_b[m - 1]);
            }
        }
        assert(a =~= b);
    }
}

/// The names that are flagged: `names[i]` for each `i` with `flags[i]`, in the
/// order of `names`; none where there is not one flag for each name.
pub open spec fn flagged(names: Seq<Seq<char>>, flags: Seq<bool>) -> Seq<Seq<char>>
    decreases names.len(),
{
    if names.len() == 0 || flags.len() != names.len() {
        Seq::empty()
    } else if flags.last() {
        flagged(names.drop_last(), flags.drop_last()).push(names.last())
    } else {
        flagged(names.drop_last(), flags.drop_last())
    }
}

/// Whether `name` is one of the names that are flagged.
pub open spec fn is_flagged(names: Seq<Seq<char>>, flags: Seq<bool>, name: Seq<char>) -> bool {
    exists|i: int| 0 <= i < names.len() && i < flags.len() && flags[i] && #[trigger] names[i] == name
}

/// What `flagged` holds: the names that are flagged, and no other.
pub proof fn lemma_flagged(names: Seq<Seq<char>>, flags: Seq<bool>)
    requires
        flags.len() == names.len(),
    ensures
        flagged(names, flags).len() <= names.len(),
        forall|name: Seq<char>| #[trigger]
            flagged(names, flags).contains(name) <==> is_flagged(names, flags, name),
    decreases names.len(),
{
    if names.len() > 0 {
        let shorter = names.drop_last();
        let fewer = flags.drop_last();
        let last = names.len() - 1;
        let kept = flagged(shorter, fewer);
        lemma_flagged(shorter, fewer);
        assert forall|name: Seq<char>| #[trigger]
            flagged(names, flags).contains(name) <==> is_flagged(names, flags, name) by {
            if flagged(names, flags).contains(name) {
                let at = choose|at: int|
                    0 <= at < flagged(names, flags).len() && flagged(names, flags)[at] == name;
                if flags[last] && at == kept.len() {
                    assert(names[last] == name);
                } else {
                    assert(kept[at] == name);
                    assert(kept.contains(name));
                    let i = choose|i: int|
                        0 <= i < shorter.len() && i < fewer.len() && fewer[i]
                            && #[trigger] shorter[i] == name;
                    assert(names[i] == name && flags[i]);
                }
            }
            if is_flagged(names, flags, name) {
                let i = choose|i: int|
                    0 <= i < names.len() && i < flags.len() && flags[i] && #[trigger] names[i]
                        == name;
                if i == last {
                    assert(flagged(names, flags)[kept.len() as int] == name);
                } else {
                    assert(shorter[i] == name && fewer[i]);
                    assert(kept.contains(name));
                    let at = choose|at: int| 0 <= at < kept.len() && kept[at] == name;
                    assert(flagged(names, flags)[at] == name);
                }
            }
        }
    }
}

/// Where no name is flagged, none is kept.
pub proof fn lemma_flagged_none(names: Seq<Seq<char>>, flags: Seq<bool>)
    requires
        forall|i: int| 0 <= i < flags.len() ==> !#[trigger] flags[i],
    ensures
        flagged(names, flags) == Seq::<Seq<char>>::empty(),
    decreases names.len(),
{
    if names.len() > 0 && flags.len() == names.len() {
        assert(!flags[flags.len() - 1]);
        lemma_flagged_none(names.drop_last(), flags.drop_last());
    }
}

/// For each name, whether it is a candidate.
pub open spec fn candidate_flags(names: Seq<Seq<char>>) -> Seq<bool> {
    Seq::new(names.len(), |i: int| is_candidate(names[i]))
}

/// The candidates among `names`, in the order of `names`.
pub open spec fn candidates(names: Seq<Seq<char>>) -> Seq<Seq<char>> {
    flagged(names, candidate_flags(names))
}

/// How often a name stands among the candidates: as often as among the
/// names where it is a candidate, and not at all where it is none.
pub proof fn lemma_candidates_count(names: Seq<Seq<char>>, name: Seq<char>)
    ensures
        candidates(names).to_multiset().count(name) == if is_candidate(name) {
            names.to_multiset().count(name)
        } else {
            0
        },
    decreases names.len(),
{
    if names.len() == 0 {
        assert(candidates(names) =~= Seq::<Seq<char>>::empty());
        assert(names =~= Seq::<Seq<char>>::empty());
        Seq::<Seq<char>>::empty().to_multiset_ensures();
        assert(Seq::<Seq<char>>::empty().to_multiset().len() == 0);
    } else {
        let shorter = names.drop_last();
        let last = names.last();
        lemma_candidates_count(shorter, name);
        assert(candidate_flags(names).drop_last() =~= candidate_flags(shorter));
        assert(candidate_flags(names).last() == is_candidate(last));
        assert(names =~= shorter.push(last));
        vstd::seq_lib::to_multiset_build(shorter, last);
        if is_candidate(last) {
            assert(candidates(names) == candidates(shorter).push(last));
            vstd::seq_lib::to_multiset_build(candidates(shorter), last);
        } else {
            assert(candidates(names) == candidates(shorter));
        }
    }
}

/// The candidates of a directory are the same in whatever order it is
/// listed: two listings that hold the same names, each as often as the other,
/// have the same candidates, and so the same sorted result.
pub proof fn lemma_candidates_ignore_order(
    first: Seq<Seq<char>>,
    second: Seq<Seq<char>>,
    found_first: Seq<Seq<char>>,
    found_second: Seq<Seq<char>>,
)
    requires
        first.to_multiset() == second.to_multiset(),
        found_first.to_multiset() == candidates(first).to_multiset(),
        found_second.to_multiset() == candidates(second).to_multiset(),
        is_sorted(found_first),
        is_sorted(found_second),
    ensures
        candidates(first).to_multiset() == candidates(second).to_multiset(),
        found_first == found_second,
{
    assert forall|name: Seq<char>|
        candidates(first).to_multiset().count(name) == candidates(second).to_multiset().count(
            name,
        ) by {
        lemma_candidates_count(first, name);
        lemma_candidates_count(second, name);
    }
    assert(candidates(first).to_multiset() =~= candidates(second).to_multiset());
    lemma_sorted_is_unique(found_first, found_second);
}

/// The flagged names, sorted: `names[i]` is kept where `flags[i]` holds, each
/// as often as it is flagged, and the result ascends. Flags that are not as
/// many as the names flag nothing.
pub fn select_candidates(names: &Vec<String>, flags: &Vec<bool>) -> (found: Vec<String>)
    ensures
        views(found@).to_multiset() == flagged(views(names@), flags@).to_multiset(),
        is_sorted(views(found@)),
        found@.len() == flagged(views(names@), flags@).len(),
        forall|k: int|
            0 <= k < found@.len() ==> is_flagged(views(names@), flags@, #[trigger] found@[k]@),
        (forall|i: int| 0 <= i < flags@.len() ==> !#[trigger] flags@[i]) ==> found@.len() == 0,
{
    let mut found: Vec<String> = Vec::new();
    if flags.len() != names.len() {
        assert(views(found@) =~= flagged(views(names@), flags@));
        return found;
    }
    let mut i: usize = 0;
    while i < names.len()
        invariant
            i <= names.len(),
            flags.len() == names.len(),
            views(found@) == flagged(views(names@).take(i as int), flags@.take(i as int)),
        decreases names.len() - i,
    {
        proof {
            let ns = views(names@).take(i + 1);
            let fs = flags@.take(i + 1);
            assert(ns.drop_last() =~= views(names@).take(i as int));
            assert(fs.drop_last() =~= flags@.take(i as int));
            assert(ns.last() == names@[i as int]@);
            assert(fs.last() == flags@[i as int]);
        }
        if flags[i] {
            let ghost before = found@;
            found.push(names[i].clone());
            assert(views(found@) =~= views(before).push(names@[i as int]@));
        }
        i = i + 1;
    }
    proof {
        assert(views(names@).take(i as int) =~= views(names@));
        assert(flags@.take(i as int) =~= flags@);
    }
    sort_names(&mut found);
    proof {
        let kept = flagged(views(names@), flags@);
        views(found@).to_multiset_ensures();
        kept.to_multiset_ensures();
        lemma_flagged(views(names@), flags@);
        assert forall|k: int| 0 <= k < found@.len() implies is_flagged(
            views(names@),
            flags@,
            #[trigger] found@[k]@,
        ) by {
            let name = found@[k]@;
            assert(views(found@)[k] == name);
            assert(views(found@).contains(name));
            assert(views(found@).to_multiset().count(name) > 0);
            assert(kept.to_multiset().count(name) > 0);
            assert(kept.contains(name));
        }
        if forall|i: int| 0 <= i < flags@.len() ==> !#[trigger] flags@[i] {
            lemma_flagged_none(views(names@), flags@);
        }
    }
    found
}

/// The candidates among the files of a directory, sorted.
///
/// `listing` is what reading the directory gave: the names of its files, or
/// the reason why it could not be read. A directory that could not be read
/// is `Unreadable`, with that reason. Otherwise the names are matched against
/// `CANDIDATE_PATTERN` by the regex engine. An empty list needs no matching
/// and is always answered; any other is answered exactly where the engine
/// accepts the pattern, whatever the names are and in whatever order they
/// come.
pub fn get_episodes(listing: Result<Vec<String>, String>) -> (r: Result<
    Vec<String>,
    DirectoryScanError,
>)
    ensures
        listing matches Err(reason) ==> r matches Err(error) && error is Unreadable
            && error.text() == reason@,
        listing matches Ok(names) ==> (r is Ok <==> names@.len() == 0 || regex_compiles(
            CANDIDATE_PATTERN@,
        )),
        listing matches Ok(names) ==> match r {
            Ok(found) => views(found@).to_multiset() == candidates(views(names@)).to_multiset()
                && is_sorted(views(found@)) && found@.len() == candidates(views(names@)).len(),
            Err(error) => error is Pattern && names@.len() > 0,
        },
        listing matches Ok(names) ==> r matches Ok(found) ==> forall|k: int|
            0 <= k < found@.len() ==> is_candidate(#[trigger] found@[k]@) && views(
                names@,
            ).contains(found@[k]@),
        listing matches Ok(names) ==> r matches Ok(found) ==> (forall|i: int|
            0 <= i < names@.len() ==> !is_candidate((#[trigger] names@[i])@)) ==> found@.len()
            == 0,
{
    let names = match listing {
        Ok(names) => names,
        Err(reason) => {
            return Err(DirectoryScanError::Unreadable { message: reason });
        },
    };
    if names.len() == 0 {
        let flags: Vec<bool> = Vec::new();
        assert(flags@ =~= candidate_flags(views(names@)));
        return Ok(select_candidates(&names, &flags));
    }
    match regex_match_each(CANDIDATE_PATTERN, &names) {
        Ok(flags) => {
            assert(flags@ =~= candidate_flags(views(names@)));
            let found = select_candidates(&names, &flags);
            assert forall|k: int| 0 <= k < found@.len() implies is_candidate(
                #[trigger] found@[k]@,
            ) && views(names@).contains(found@[k]@) by {
                let name = found@[k]@;
                assert(is_flagged(views(names@), flags@, name));
                let i = choose|i: int|
                    0 <= i < names@.len() && i < flags@.len() && flags@[i]
                        && #[trigger] views(names@)[i] == name;
                assert(flags@[i] == is_candidate(views(names@)[i]));
            }
            Ok(found)
        },
        Err(error) => Err(DirectoryScanError::Pattern { message: error.to_string() }),
    }
}

/// What is to be done with one file.
#[derive(Debug)]
pub enum FileAction {
    /// Nothing: `file` already has its canonical name.
    Skip { file: String },
    /// Show `line`, and leave `file` alone.
    Preview { file: String, line: String },
    /// Rename `old_path` to `new_path`, and show `line` if `echo` is set.
    Rename { file: String, old_path: String, new_path: String, line: String, echo: bool },
    /// Report `message`: the name of `file` is not an episode.
    Report { file: String, message: String },
}

/// The mathematical value of a `FileAction`.
pub enum ActionModel {
    Skip { file: Seq<char> },
    Preview { file: Seq<char>, line: Seq<char> },
    Rename {
        file: Seq<char>,
        old_path: Seq<char>,
        new_path: Seq<char>,
        line: Seq<char>,
        echo: bool,
    },
    Report { file: Seq<char>, message: Seq<char> },
}

impl ActionModel {
    /// The name of the file that the action is about.
    pub open spec fn file(self) -> Seq<char> {
        match self {
            ActionModel::Skip { file } => file,
            ActionModel::Preview { file, .. } => file,
            ActionModel::Rename { file, .. } => file,
            ActionModel::Report { file, .. } => file,
        }
    }
}

impl View for FileAction {
    type V = ActionModel;

    open spec fn view(&self) -> ActionModel {
        match self {
            FileAction::Skip { file } => ActionModel::Skip { file: file@ },
            FileAction::Preview { file, line } => ActionModel::Preview { file: file@, line: line@ },
            FileAction::Rename { file, old_path, new_path, line, echo } => ActionModel::Rename {
                file: file@,
                old_path: old_path@,
                new_path: new_path@,
                line: line@,
                echo: *echo,
            },
            FileAction::Report { file, message } => ActionModel::Report {
                file: file@,
                message: message@,
            },
        }
    }
}

/// What is to be done with the file `file` whose name was read with the
/// given outcome. A name that is no episode is reported. A file that has its
/// canonical name already is skipped. Any other is renamed, or, in a dry run,
/// only shown.
pub open spec fn action_of(
    outcome: Result<RenamePlan, ParseFailure>,
    file: Seq<char>,
    dry_run: bool,
    echo: bool,
) -> ActionModel {
    match outcome {
        Err(failure) => ActionModel::Report { file, message: failure.message() },
        Ok(plan) => if plan.target() == plan.old_path {
            ActionModel::Skip { file }
        } else if dry_run {
            ActionModel::Preview { file, line: plan.mapping_line(file) }
        } else {
            ActionModel::Rename {
                file,
                old_path: plan.old_path,
                new_path: plan.target(),
                line: plan.mapping_line(file),
                echo,
            }
        },
    }
}

/// What is to be done with the file `file` of the directory `base_path`.
pub open spec fn action_for(
    file: Seq<char>,
    season: int,
    base_path: Seq<char>,
    offset: int,
    dry_run: bool,
    echo: bool,
) -> ActionModel {
    action_of(planned(file, season, offset, base_path), file, dry_run, echo)
}

/// A dry run renames nothing: none of its actions is a rename, and none of
/// them, however it went, adds to the count of renamed files.
pub proof fn lemma_dry_run_renames_nothing(
    file: Seq<char>,
    season: int,
    base_path: Seq<char>,
    offset: int,
    echo: bool,
    before: BatchModel,
    outcome: PerformedModel,
)
    ensures
        !(action_for(file, season, base_path, offset, true, echo) is Rename),
        before.record(
            action_for(file, season, base_path, offset, true, echo),
            outcome,
        ).renamed_count == before.renamed_count,
{
}

/// The number of files from which on a batch no longer shows each rename.
pub const QUIET_BATCH: usize = 100;

/// Decides what is to be done with one file.
pub fn plan_file(
    file: &str,
    season: i32,
    base_path: &str,
    offset: i32,
    dryrun: bool,
    echo: bool,
) -> (action: FileAction)
    ensures
        action@ == action_for(file@, season as int, base_path@, offset as int, dryrun, echo),
{
    let data = SeasonData::new(file, season, base_path, offset);
    match data.process_episode() {
        Err(error) => FileAction::Report { file: file.to_owned(), message: error.message() },
        Ok(episode) => {
            if episode.is_renamed() {
                FileAction::Skip { file: file.to_owned() }
            } else if dryrun {
                FileAction::Preview { file: file.to_owned(), line: episode.mapping_line(file) }
            } else {
                let line = episode.mapping_line(file);
                let new_path = episode.create_new_path(episode.create_ext());
                FileAction::Rename {
                    file: file.to_owned(),
                    old_path: episode.old_path,
                    new_path,
                    line,
                    echo,
                }
            }
        },
    }
}

/// Decides, file by file and in the order given, what is to be done with the
/// files `files` of the directory `base_path`.
///
/// No name stops the batch: one that is no episode gives a `Report`. A dry
/// run gives no `Rename`. Renames are shown one by one in a batch of fewer
/// than `QUIET_BATCH` files; previews are always shown.
pub fn rename_episodes(
    files: Vec<String>,
    season: i32,
    base_path: String,
    offset: i32,
    dryrun: bool,
) -> (actions: Vec<FileAction>)
    ensures
        actions@.len() == files@.len(),
        forall|i: int|
            0 <= i < files@.len() ==> (#[trigger] actions@[i])@ == action_for(
                files@[i]@,
                season as int,
                base_path@,
                offset as int,
                dryrun,
                files@.len() < QUIET_BATCH,
            ),
        dryrun ==> forall|i: int|
            0 <= i < actions@.len() ==> !((#[trigger] actions@[i])@ is Rename),
{
    let echo = files.len() < QUIET_BATCH;
    let mut actions: Vec<FileAction> = Vec::new();
    let mut i: usize = 0;
    while i < files.len()
        invariant
            i <= files.len(),
            actions@.len() == i,
            echo == (files@.len() < QUIET_BATCH),
            forall|k: int|
                0 <= k < i ==> (#[trigger] actions@[k])@ == action_for(
                    files@[k]@,
                    season as int,
                    base_path@,
                    offset as int,
                    dryrun,
                    echo,
                ),
        decreases files.len() - i,
    {
        let action = plan_file(
            files[i].as_str(),
            season,
            base_path.as_str(),
            offset,
            dryrun,
            echo,
        );
        actions.push(action);
        i = i + 1;
    }
    actions
}

/// How performing a `FileAction` went.
#[derive(Debug)]
pub enum Performed {
    /// The action was carried out.
    Done,
    /// The file system refused the rename.
    Failed { message: String },
}

/// The mathematical value of a `Performed`.
pub enum PerformedModel {
    Done,
    Failed { message: Seq<char> },
}

impl View for Performed {
    type V = PerformedModel;

    open spec fn view(&self) -> PerformedModel {
        match self {
            Performed::Done => PerformedModel::Done,
            Performed::Failed { message } => PerformedModel::Failed { message: message@ },
        }
    }
}

/// What a batch amounted to.
#[derive(Debug)]
pub struct BatchResult {
    /// The number of files that were renamed.
    pub renamed_count: usize,
    /// The files that were not, each with the reason, in the order of the
    /// batch.
    pub errors: Vec<(String, String)>,
}

/// The mathematical value of a `BatchResult`.
pub struct BatchModel {
    pub renamed_count: nat,
    pub errors: Seq<(Seq<char>, Seq<char>)>,
}

impl View for BatchResult {
    type V = BatchModel;

    open spec fn view(&self) -> BatchModel {
        BatchModel {
            renamed_count: self.renamed_count as nat,
            errors: Seq::new(
                self.errors@.len(),
                |i: int| (self.errors@[i].0@, self.errors@[i].1@),
            ),
        }
    }
}

impl BatchModel {
    /// The result after `action` was performed with `outcome`. A rename that
    /// was carried out counts; one that failed, and a name that is no
    /// episode, is an error of that file; a skipped or previewed file changes
    /// nothing.
    pub open spec fn record(self, action: ActionModel, outcome: PerformedModel) -> BatchModel {
        match action {
            ActionModel::Skip { .. } => self,
            ActionModel::Preview { .. } => self,
            ActionModel::Report { file, message } => BatchModel {
                renamed_count: self.renamed_count,
                errors: self.errors.push((file, message)),
            },
            ActionModel::Rename { file, .. } => match outcome {
                PerformedModel::Done => BatchModel {
                    renamed_count: self.renamed_count + 1,
                    errors: self.errors,
                },
                PerformedModel::Failed { message } => BatchModel {
                    renamed_count: self.renamed_count,
                    errors: self.errors.push((file, message)),
                },
            },
        }
    }
}

impl BatchResult {
    /// The result of a batch in which nothing has happened yet.
    pub fn new() -> (result: BatchResult)
        ensures
            result@ == (BatchModel { renamed_count: 0, errors: Seq::empty() }),
    {
        let result = BatchResult { renamed_count: 0, errors: Vec::new() };
        assert(result@.errors =~= Seq::empty());
        result
    }

    /// Takes note of how `action` went.
    pub fn record(&mut self, action: &FileAction, outcome: Performed)
        requires
            old(self).renamed_count < usize::MAX,
        ensures
            final(self)@ == old(self)@.record(action@, outcome@),
    {
        match action {
            FileAction::Skip { .. } => {},
            FileAction::Preview { .. } => {},
            FileAction::Report { file, message } => {
                self.errors.push((file.clone(), message.clone()));
                assert(self@.errors =~= old(self)@.errors.push((file@, message@)));
            },
            FileAction::Rename { file, .. } => match outcome {
                Performed::Done => {
                    self.renamed_count = self.renamed_count + 1;
                    assert(self@.errors =~= old(self)@.errors);
                },
                Performed::Failed { message } => {
                    self.errors.push((file.clone(), message));
                    assert(self@.errors =~= old(self)@.errors.push((file@, message@)));
                },
            },
        }
    }
}

/// The headline of the notification that ends a batch.
pub open spec fn summary_text(season: int) -> Seq<char> {
    "Renaming Season "@ + signed_decimal(season) + " complete"@
}

/// The body of the notification that ends a batch.
pub open spec fn body_text(count: nat) -> Seq<char> {
    "A total of "@ + decimal(count) + " episodes renamed"@
}

/// Where the icon of the notification lies, below the home directory.
pub open spec fn icon_location() -> Seq<char> {
    ".config/notification_icons/anime.svg"@
}

/// The path of the icon for the home directory `home`: `icon_location`
/// inside `home`, with a separator between the two unless `home` is empty or
/// ends in one.
pub open spec fn icon_text(home: Seq<char>) -> Seq<char> {
    if home.len() == 0 || home.last() == '/' {
        home + icon_location()
    } else {
        home + seq!['/'] + icon_location()
    }
}

/// The headline of the notification that ends a batch.
pub fn notification_summary(season: i32) -> (text: String)
    ensures
        text@ == summary_text(season as int),
{
    let mut text = String::from_str("Renaming Season ");
    push_signed(&mut text, season as i64);
    text.append(" complete");
    text
}

/// The body of the notification that ends a batch.
pub fn notification_body(count: usize) -> (text: String)
    ensures
        text@ == body_text(count as nat),
{
    let mut text = String::from_str("A total of ");
    push_decimal(&mut text, count as u64);
    text.append(" episodes renamed");
    text
}

/// The path of the notification's icon for the home directory `home`.
pub fn icon_path(home: &str) -> (path: String)
    ensures
        path@ == icon_text(home@),
{
    let cs = to_chars(home);
    let mut path = home.to_owned();
    if cs.len() > 0 && cs[cs.len() - 1] != '/' {
        path.append("/");
        proof {
            reveal_strlit("/");
            assert("/"@ =~= seq!['/']);
        }
    }
    path.append(".config/notification_icons/anime.svg");
    path
}

/// `dirs::home_dir`: the home directory of the user, as the environment and
/// the user database give it. `None` where there is none, or where its path
/// is not valid Unicode. Nothing is known of the path itself.
#[verifier::external_body]
pub fn gen_home() -> Option<String> {
    dirs::home_dir().and_then(|home| home.into_os_string().into_string().ok())
}

} // verus!
