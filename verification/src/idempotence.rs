//! A batch with offset 0 can be run again: what it has renamed, the next run
//! leaves alone.

use vstd::prelude::*;
use crate::data::{extension, join, lemma_extension, lemma_extension_is, plan, planned, stem};
use crate::file_ops::{action_for, ActionModel};
use crate::parsing::{
    compact_form, episode_form, episode_letter, is_title, lemma_compact_name,
    lemma_episode_form_read, numbered_letter_at, verbose_form, EpisodeModel, ParseFailure,
};
use crate::text::{
    is_digit, lemma_padded_characters, lemma_padded_natural, lemma_trim_is, padded,
};

verus! {

/// The canonical name of an episode is read back as that episode: the
/// compact form finds in `S{season}E{number}[ title].{ext}` the number and
/// the title that it was made of.
pub proof fn lemma_canonical_name_read(season: int, episode: EpisodeModel, ext: Seq<char>)
    requires
        0 <= episode.episode_number <= i32::MAX,
        is_title(episode.title),
        verbose_form(stem(season, episode.episode_number, episode.title) + seq!['.'] + ext) is Err,
    ensures
        episode_form(stem(season, episode.episode_number, episode.title) + seq!['.'] + ext)
            == Ok::<EpisodeModel, ParseFailure>(episode),
{
    let number = episode.episode_number;
    let title = episode.title;
    let name = stem(season, number, title) + seq!['.'] + ext;
    let prefix = seq!['S'] + padded(season);
    let digits = padded(number);
    let spaced = if title.len() > 0 {
        seq![' '] + title
    } else {
        Seq::<char>::empty()
    };
    lemma_padded_characters(season);
    lemma_padded_natural(number);
    assert(name =~= prefix + episode_letter() + digits + spaced + seq!['.'] + ext);
    assert forall|j: int| 0 <= j < prefix.len() implies !numbered_letter_at(name, j) by {
        assert(name[j] == prefix[j]);
        if j > 0 {
            assert(prefix[j] == padded(season)[j - 1]);
        }
    }
    assert forall|j: int| 0 <= j < spaced.len() implies #[trigger] spaced[j] != '.' by {
        if j > 0 {
            assert(spaced[j] == title[j - 1]);
        }
    }
    if title.len() > 0 {
        assert(spaced[0] == ' ');
        assert(!is_digit(spaced[0]));
        assert(spaced[1] == title.first());
        assert(spaced[spaced.len() - 1] == title.last());
        lemma_trim_is(spaced, 1, spaced.len() as int);
        assert(spaced.subrange(1, spaced.len() as int) =~= title);
    } else {
        lemma_trim_is(spaced, 0, 0);
        assert(spaced.subrange(0, 0) =~= title);
    }
    lemma_compact_name(name, prefix, digits, spaced, ext);
    assert(compact_form(name) == Ok::<EpisodeModel, ParseFailure>(episode));
}

/// A file that has been renamed is skipped by the next batch of the same
/// season with offset 0.
///
/// `file` is any name that is an episode, and the name looked at is the one
/// that a batch with offset 0 gives it. The one case left out is a new name
/// that the verbose form matches, which is a name whose title holds the word
/// `Episode`, a number and no full stop: `Episode 1 Episode 2.mp4` becomes
/// `S01E01 Episode 2.mp4`, and that in turn `S01E02.mp4`.
pub proof fn lemma_renamed_file_is_skipped(
    file: Seq<char>,
    season: int,
    base_path: Seq<char>,
    dry_run: bool,
    echo: bool,
)
    requires
        planned(file, season, 0, base_path) matches Ok(first) && verbose_form(
            first.file_name(),
        ) is Err,
    ensures
        planned(file, season, 0, base_path) matches Ok(first) && action_for(
            first.file_name(),
            season,
            base_path,
            0,
            dry_run,
            echo,
        ) == (ActionModel::Skip { file: first.file_name() }),
{
    let episode = episode_form(file)->Ok_0;
    let first = plan(episode, season, 0, base_path, file);
    let name = first.file_name();
    lemma_episode_form_read(file);
    lemma_extension(file);
    lemma_canonical_name_read(season, episode, extension(file));
    lemma_extension_is(first.new_stem, extension(file));
    let second = plan(episode, season, 0, base_path, name);
    assert(second.new_stem == first.new_stem);
    assert(second.extension == first.extension);
    assert(second.target() =~= join(base_path, name));
}

/// The name that `file` has once a batch with offset 0 has gone through and
/// every rename was carried out: its canonical name where it is an episode,
/// and its own name where it is not.
pub open spec fn name_after(file: Seq<char>, season: int, base_path: Seq<char>) -> Seq<char> {
    match planned(file, season, 0, base_path) {
        Ok(first) => first.file_name(),
        Err(_) => file,
    }
}

/// A second batch of the same season with offset 0 renames nothing: a file
/// that the first batch has renamed or skipped is skipped, and one that it
/// has reported is reported again.
///
/// Left out are the files whose canonical name is of the verbose form, as in
/// `lemma_renamed_file_is_skipped`.
pub proof fn lemma_second_batch_renames_nothing(
    file: Seq<char>,
    season: int,
    base_path: Seq<char>,
    dry_run: bool,
    echo: bool,
)
    requires
        planned(file, season, 0, base_path) is Ok ==> verbose_form(
            name_after(file, season, base_path),
        ) is Err,
    ensures
        !(action_for(name_after(file, season, base_path), season, base_path, 0, dry_run, echo)
            is Rename),
        planned(file, season, 0, base_path) is Ok ==> action_for(
            name_after(file, season, base_path),
            season,
            base_path,
            0,
            dry_run,
            echo,
        ) is Skip,
        planned(file, season, 0, base_path) is Err ==> action_for(
            name_after(file, season, base_path),
            season,
            base_path,
            0,
            dry_run,
            echo,
        ) is Report,
{
    if planned(file, season, 0, base_path) is Ok {
        lemma_renamed_file_is_skipped(file, season, base_path, dry_run, echo);
    }
}

} // verus!
