//! The plan for one rename: from a file name, a season and an offset to the
//! old path and the canonical new one, `S{season}E{episode}[ title].{ext}`.

use vstd::prelude::*;
use vstd::string::*;
use crate::parsing::{
    episode_form, episode_letter, episode_word, lemma_compact_name, lemma_verbose_name,
    numbered_letter_at, parse_episode, verbose_form, EpisodeModel, ParseError, ParseFailure,
    ParsedEpisode,
};
use crate::text::{
    all_digits, decimal_value, is_blank, is_digit, lemma_run_start, lemma_run_start_is,
    occurs_at, padded, push_padded, run_start, scan_run_back, to_chars, trim, CharClass,
};

verus! {

/// `name` inside the directory `base`.
pub open spec fn join(base: Seq<char>, name: Seq<char>) -> Seq<char> {
    base + seq!['/'] + name
}

/// The canonical name of an episode, without extension: `S`, the season, `E`,
/// the episode, each in at least two characters, and then, where there is a
/// title, a space and the title.
pub open spec fn stem(season: int, episode: int, title: Seq<char>) -> Seq<char> {
    let numbers = seq!['S'] + padded(season) + seq!['E'] + padded(episode);
    if title.len() > 0 {
        numbers + seq![' '] + title
    } else {
        numbers
    }
}

/// The extension given to a file whose name has none.
pub open spec fn default_extension() -> Seq<char> {
    seq!['m', 'p', '4']
}

/// The extension of a file name: what follows its last full stop, or
/// `default_extension` where it has no full stop.
pub open spec fn extension(file: Seq<char>) -> Seq<char> {
    let start = run_start(file, CharClass::NotDot, file.len() as int);
    if start == 0 {
        default_extension()
    } else {
        file.subrange(start, file.len() as int)
    }
}

/// An extension has no full stop.
pub proof fn lemma_extension(file: Seq<char>)
    ensures
        forall|j: int| 0 <= j < extension(file).len() ==> #[trigger] extension(file)[j] != '.',
{
    let start = run_start(file, CharClass::NotDot, file.len() as int);
    lemma_run_start(file, CharClass::NotDot, file.len() as int);
    if start != 0 {
        assert forall|j: int| 0 <= j < extension(file).len() implies #[trigger] extension(
            file,
        )[j] != '.' by {
            assert(CharClass::NotDot.holds(file[start + j]));
        }
    }
}

/// The extension of a name that ends in a full stop and `ext`, where `ext`
/// has no full stop, is `ext`.
pub proof fn lemma_extension_is(name: Seq<char>, ext: Seq<char>)
    requires
        forall|j: int| 0 <= j < ext.len() ==> #[trigger] ext[j] != '.',
    ensures
        extension(name + seq!['.'] + ext) == ext,
{
    let file = name + seq!['.'] + ext;
    let start = (name.len() + 1) as int;
    assert forall|j: int| start <= j < file.len() implies CharClass::NotDot.holds(
        #[trigger] file[j],
    ) by {
        assert(file[j] == ext[j - start]);
    }
    assert(file[start - 1] == '.');
    lemma_run_start_is(file, CharClass::NotDot, file.len() as int, start);
    assert(file.subrange(start, file.len() as int) =~= ext);
}

/// The mathematical value of an `Episode`.
pub struct RenamePlan {
    pub old_path: Seq<char>,
    pub new_path: Seq<char>,
    pub new_stem: Seq<char>,
    pub extension: Seq<char>,
}

impl RenamePlan {
    /// The new name of the file, inside its directory.
    pub open spec fn file_name(self) -> Seq<char> {
        self.new_stem + seq!['.'] + self.extension
    }

    /// The path that the file is renamed to.
    pub open spec fn target(self) -> Seq<char> {
        self.new_path + seq!['.'] + self.extension
    }

    /// The line that shows the rename of `file`.
    pub open spec fn mapping_line(self, file: Seq<char>) -> Seq<char> {
        file + seq![' ', '=', '>', ' '] + self.file_name()
    }
}

/// The plan for the file `file` of the directory `base_path`, read as
/// `parsed`: the episode number is moved by `offset`, which may make it
/// negative.
pub open spec fn plan(
    parsed: EpisodeModel,
    season: int,
    offset: int,
    base_path: Seq<char>,
    file: Seq<char>,
) -> RenamePlan {
    let new_stem = stem(season, parsed.episode_number + offset, parsed.title);
    RenamePlan {
        old_path: join(base_path, file),
        new_path: join(base_path, new_stem),
        new_stem,
        extension: extension(file),
    }
}

/// The file is renamed to the path that it has exactly where it has its new
/// name already.
pub proof fn lemma_target_is_old_path(
    parsed: EpisodeModel,
    season: int,
    offset: int,
    base_path: Seq<char>,
    file: Seq<char>,
)
    ensures
        plan(parsed, season, offset, base_path, file).target() == plan(
            parsed,
            season,
            offset,
            base_path,
            file,
        ).old_path <==> plan(parsed, season, offset, base_path, file).file_name() == file,
{
    let planned = plan(parsed, season, offset, base_path, file);
    let start = (base_path.len() + 1) as int;
    assert(planned.target() =~= join(base_path, planned.file_name()));
    assert(join(base_path, planned.file_name()).subrange(
        start,
        join(base_path, planned.file_name()).len() as int,
    ) =~= planned.file_name());
    assert(join(base_path, file).subrange(start, join(base_path, file).len() as int) =~= file);
}

/// What is planned for the file `file` of the directory `base_path`: the
/// rename where its name is an episode, and why it is none where it is not.
pub open spec fn planned(file: Seq<char>, season: int, offset: int, base_path: Seq<char>) -> Result<
    RenamePlan,
    ParseFailure,
> {
    match episode_form(file) {
        Ok(parsed) => Ok(plan(parsed, season, offset, base_path, file)),
        Err(failure) => Err(failure),
    }
}

/// A file named in the verbose form gets the season and its number, moved by
/// the offset, for its new name, and keeps its title and its extension.
///
/// `file` is `prefix`, `Episode`, `blanks`, `digits`, `title`, a full stop and
/// `rest`, where the word `Episode` does not stand in `file` earlier, `digits`
/// stands for a number that fits `i32`, and `title` has no full stop and
/// does not go on with a digit.
pub proof fn lemma_verbose_plan(
    file: Seq<char>,
    prefix: Seq<char>,
    blanks: Seq<char>,
    digits: Seq<char>,
    title: Seq<char>,
    rest: Seq<char>,
    season: int,
    offset: int,
    base_path: Seq<char>,
)
    requires
        file == prefix + episode_word() + blanks + digits + title + seq!['.'] + rest,
        forall|j: int| 0 <= j < prefix.len() ==> !occurs_at(file, episode_word(), j),
        blanks.len() > 0,
        forall|j: int| 0 <= j < blanks.len() ==> is_blank(#[trigger] blanks[j]),
        digits.len() > 0,
        all_digits(digits),
        decimal_value(digits) <= i32::MAX,
        forall|j: int| 0 <= j < title.len() ==> #[trigger] title[j] != '.',
        title.len() > 0 ==> !is_digit(title[0]),
    ensures
        planned(file, season, offset, base_path) matches Ok(planned) && planned.file_name() == seq![
            'S',
        ] + padded(season) + seq!['E'] + padded(decimal_value(digits) + offset) + (if trim(
            title,
        ).len() > 0 {
            seq![' '] + trim(title)
        } else {
            Seq::empty()
        }) + seq!['.'] + extension(file),
{
    lemma_verbose_name(file, prefix, blanks, digits, title, rest);
    let planned = planned(file, season, offset, base_path)->Ok_0;
    assert(planned.file_name() =~= seq!['S'] + padded(season) + seq!['E'] + padded(
        decimal_value(digits) + offset,
    ) + (if trim(title).len() > 0 {
        seq![' '] + trim(title)
    } else {
        Seq::empty()
    }) + seq!['.'] + extension(file));
}

/// A file named in the compact form gets the season and its number, moved by
/// the offset, for its new name, and keeps its title and its extension.
///
/// `file` is `prefix`, `E`, `digits`, `title`, a full stop and `rest`, where
/// no `E` with a digit behind it stands in `file` earlier, `file` is not of
/// the verbose form, `digits` stands for a number that fits `i32`, and `title`
/// has no full stop and does not go on with a digit.
pub proof fn lemma_compact_plan(
    file: Seq<char>,
    prefix: Seq<char>,
    digits: Seq<char>,
    title: Seq<char>,
    rest: Seq<char>,
    season: int,
    offset: int,
    base_path: Seq<char>,
)
    requires
        file == prefix + episode_letter() + digits + title + seq!['.'] + rest,
        forall|j: int| 0 <= j < prefix.len() ==> !numbered_letter_at(file, j),
        verbose_form(file) is Err,
        digits.len() > 0,
        all_digits(digits),
        decimal_value(digits) <= i32::MAX,
        forall|j: int| 0 <= j < title.len() ==> #[trigger] title[j] != '.',
        title.len() > 0 ==> !is_digit(title[0]),
    ensures
        planned(file, season, offset, base_path) matches Ok(planned) && planned.file_name() == seq![
            'S',
        ] + padded(season) + seq!['E'] + padded(decimal_value(digits) + offset) + (if trim(
            title,
        ).len() > 0 {
            seq![' '] + trim(title)
        } else {
            Seq::empty()
        }) + seq!['.'] + extension(file),
{
    lemma_compact_name(file, prefix, digits, title, rest);
    let planned = planned(file, season, offset, base_path)->Ok_0;
    assert(planned.file_name() =~= seq!['S'] + padded(season) + seq!['E'] + padded(
        decimal_value(digits) + offset,
    ) + (if trim(title).len() > 0 {
        seq![' '] + trim(title)
    } else {
        Seq::empty()
    }) + seq!['.'] + extension(file));
}

/// One file to rename: where it is and what it is to be called.
#[derive(Debug)]
pub struct Episode {
    /// The path of the file as it is.
    pub old_path: String,
    /// The path of the file as it will be, without extension.
    pub new_path: String,
    /// The name of the file as it will be, without directory and extension.
    pub new_stem: String,
    /// The extension, which the file keeps.
    pub extension: String,
}

impl View for Episode {
    type V = RenamePlan;

    open spec fn view(&self) -> RenamePlan {
        RenamePlan {
            old_path: self.old_path@,
            new_path: self.new_path@,
            new_stem: self.new_stem@,
            extension: self.extension@,
        }
    }
}

impl Episode {
    /// A plan made of these four parts.
    pub fn new(old_path: String, new_path: String, new_stem: String, extension: String) -> (e:
        Episode)
        ensures
            e@ == (RenamePlan {
                old_path: old_path@,
                new_path: new_path@,
                new_stem: new_stem@,
                extension: extension@,
            }),
    {
        Episode { old_path, new_path, new_stem, extension }
    }

    /// The extension that the renamed file gets.
    pub fn create_ext(&self) -> (ext: String)
        ensures
            ext@ == self@.extension,
    {
        self.extension.clone()
    }

    /// The path that the file is renamed to, with `ext` for its extension.
    pub fn create_new_path(&self, ext: String) -> (path: String)
        ensures
            path@ == self@.new_path + seq!['.'] + ext@,
    {
        let mut path = self.new_path.clone();
        path.append(".");
        path.append(ext.as_str());
        proof {
            reveal_strlit(".");
            assert("."@ =~= seq!['.']);
        }
        path
    }

    /// The line that shows the rename of `file`: `{file} => {new name}`.
    pub fn mapping_line(&self, file: &str) -> (line: String)
        ensures
            line@ == self@.mapping_line(file@),
    {
        let mut line = file.to_owned();
        line.append(" => ");
        line.append(self.new_stem.as_str());
        line.append(".");
        line.append(self.extension.as_str());
        proof {
            reveal_strlit(" => ");
            reveal_strlit(".");
            assert(" => "@ =~= seq![' ', '=', '>', ' ']);
            assert("."@ =~= seq!['.']);
            assert(line@ =~= self@.mapping_line(file@));
        }
        line
    }

    /// Whether the file already has its new name.
    pub fn is_renamed(&self) -> (b: bool)
        ensures
            b == (self@.target() == self@.old_path),
    {
        let target = self.create_new_path(self.create_ext());
        target == self.old_path
    }
}

/// The extension of the file name `file`.
pub fn file_extension(file: &str) -> (ext: String)
    ensures
        ext@ == extension(file@),
{
    let cs = to_chars(file);
    let start = scan_run_back(&cs, CharClass::NotDot, cs.len());
    proof {
        lemma_run_start(cs@, CharClass::NotDot, cs.len() as int);
    }
    if start == 0 {
        proof {
            reveal_strlit("mp4");
            assert("mp4"@ =~= default_extension());
        }
        String::from_str("mp4")
    } else {
        file.substring_char(start, cs.len()).to_owned()
    }
}

/// `name` inside the directory `base`.
pub fn join_path(base: &str, name: &str) -> (path: String)
    ensures
        path@ == join(base@, name@),
{
    let mut path = base.to_owned();
    path.append("/");
    path.append(name);
    proof {
        reveal_strlit("/");
        assert("/"@ =~= seq!['/']);
    }
    path
}

/// The canonical name, without extension, of episode `episode` of season
/// `season`.
pub fn canonical_stem(season: i32, episode: i64, title: &str) -> (name: String)
    ensures
        name@ == stem(season as int, episode as int, title@),
{
    let mut name = String::from_str("S");
    push_padded(&mut name, season as i64);
    name.append("E");
    push_padded(&mut name, episode);
    proof {
        reveal_strlit("S");
        reveal_strlit("E");
        assert("S"@ =~= seq!['S']);
        assert("E"@ =~= seq!['E']);
    }
    if !title.is_empty() {
        name.append(" ");
        name.append(title);
        proof {
            reveal_strlit(" ");
            assert(" "@ =~= seq![' ']);
        }
    }
    name
}

/// Plans the rename of `filename`, a file of `base_path` that was
/// read as `parsed`.
pub fn build_plan(
    parsed: &ParsedEpisode,
    season: i32,
    offset: i32,
    base_path: &str,
    filename: &str,
) -> (episode: Episode)
    ensures
        episode@ == plan(
            parsed@,
            season as int,
            offset as int,
            base_path@,
            filename@,
        ),
{
    let adjusted: i64 = parsed.episode_number as i64 + offset as i64;
    let new_stem = canonical_stem(season, adjusted, parsed.title.as_str());
    let new_path = join_path(base_path, new_stem.as_str());
    let old_path = join_path(base_path, filename);
    Episode::new(old_path, new_path, new_stem, file_extension(filename))
}

/// One file of a season, before it is renamed.
#[derive(Debug)]
pub struct SeasonData<'a> {
    /// The name of the file.
    pub file: &'a str,
    /// The season that the file belongs to.
    pub season: i32,
    /// The directory that holds the file.
    pub base_path: &'a str,
    /// What is added to the episode number.
    pub offset: i32,
}

impl<'a> SeasonData<'a> {
    /// The file `file` of the directory `base_path`, as an episode of
    /// `season` whose number is to be moved by `offset`.
    pub fn new(file: &'a str, season: i32, base_path: &'a str, offset: i32) -> (data: SeasonData<
        'a,
    >)
        ensures
            data.file@ == file@,
            data.season == season,
            data.base_path@ == base_path@,
            data.offset == offset,
    {
        SeasonData { file, season, base_path, offset }
    }

    /// What `process_episode` returns: the plan where the name is an
    /// episode, and why it is none where it is not.
    pub open spec fn outcome(&self) -> Result<RenamePlan, ParseFailure> {
        planned(self.file@, self.season as int, self.offset as int, self.base_path@)
    }

    /// Reads the file name and plans the rename.
    pub fn process_episode(&self) -> (r: Result<Episode, ParseError>)
        ensures
            match r {
                Ok(episode) => self.outcome() == Ok::<RenamePlan, ParseFailure>(episode@),
                Err(error) => self.outcome() == Err::<RenamePlan, ParseFailure>(error@),
            },
    {
        match parse_episode(self.file) {
            Ok(parsed) => Ok(
                build_plan(&parsed, self.season, self.offset, self.base_path, self.file),
            ),
            Err(error) => Err(error),
        }
    }
}

} // verus!
