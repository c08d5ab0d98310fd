//! Where profiles are looked for.
use std::path::{Path, PathBuf};
use vstd::prelude::*;

verus! {

/// `std::path::Path`, taken as opaque: what it holds is named by [`path_text`].
#[verifier::external_type_specification]
#[verifier::external_body]
pub struct ExPath(std::path::Path);

/// `std::path::PathBuf`, taken as opaque: what it holds is named by
/// [`path_buf_text`].
#[verifier::external_type_specification]
#[verifier::external_body]
pub struct ExPathBuf(std::path::PathBuf);

/// The text of a borrowed path, in the encoding of the platform.
pub uninterp spec fn path_text(path: &Path) -> Seq<u8>;

/// The text of an owned path, in the encoding of the platform.
pub uninterp spec fn path_buf_text(path: &PathBuf) -> Seq<u8>;

/// The text of a path that another path was adjoined to, by the rules of the
/// platform that the library is built for. A relative path follows the
/// separator of that platform, and an absolute one replaces the base: which
/// character separates and which paths are absolute is left unsaid.
pub uninterp spec fn joined(base: Seq<u8>, name: Seq<char>) -> Seq<u8>;

/// Calls `std::path::Path::join`. The text of its result is a function of the
/// two texts, which [`joined`] names.
#[verifier::external_body]
fn join(base: &Path, name: &str) -> (path: PathBuf)
    ensures
        path_buf_text(&path) == joined(path_text(base), name@),
{
    base.join(name)
}

/// Calls `std::path::PathBuf::as_path`, which borrows the path: the text stays
/// the same.
#[verifier::external_body]
fn as_path(path: &PathBuf) -> (borrowed: &Path)
    ensures
        path_text(borrowed) == path_buf_text(path),
{
    path.as_path()
}

/// The text of a path that may be missing.
pub open spec fn optional_text(path: Option<&Path>) -> Option<Seq<u8>> {
    match path {
        Some(path) => Some(path_text(path)),
        None => None,
    }
}

/// The texts of some paths.
pub open spec fn texts(paths: Seq<PathBuf>) -> Seq<Seq<u8>> {
    Seq::new(paths.len(), |i: int| path_buf_text(&paths[i]))
}

/// The directories of profiles below those of the configuration and of the
/// data, where they are known.
pub open spec fn profile_dirs(config: Option<Seq<u8>>, data: Option<Seq<u8>>) -> Seq<Seq<u8>> {
    let first: Seq<Seq<u8>> = match config {
        Some(dir) => seq![joined(dir, "icc"@)],
        None => seq![],
    };
    let second: Seq<Seq<u8>> = match data {
        Some(dir) => seq![joined(dir, "icc"@)],
        None => seq![],
    };
    first + second
}

/// The file names that a profile can have, by number.
pub open spec fn file_name(stem: Seq<char>, extension: int) -> Seq<char> {
    if extension == 0 {
        stem + ".icc"@
    } else {
        stem + ".icm"@
    }
}

/// A profile's file names in each directory, directory by directory.
pub open spec fn files_in(dirs: Seq<Seq<u8>>, stem: Seq<char>) -> Seq<Seq<u8>> {
    Seq::new(2 * dirs.len(), |i: int| joined(dirs[i / 2], file_name(stem, i % 2)))
}

/// The candidate paths for an output.
pub open spec fn candidates(
    config: Option<Seq<u8>>,
    data: Option<Seq<u8>>,
    output: Seq<char>,
) -> Seq<Seq<u8>> {
    files_in(profile_dirs(config, data), output) + files_in(
        profile_dirs(config, data),
        "profile"@,
    )
}

/// One more directory adds its two file names.
proof fn lemma_next_files(dirs: Seq<Seq<u8>>, index: int, stem: Seq<char>)
    requires
        0 <= index < dirs.len(),
    ensures
        files_in(dirs.take(index + 1), stem) == files_in(dirs.take(index), stem).push(
            joined(dirs[index], file_name(stem, 0)),
        ).push(joined(dirs[index], file_name(stem, 1))),
{
    let longer: Seq<Seq<u8>> = files_in(dirs.take(index + 1), stem);
    let shorter: Seq<Seq<u8>> = files_in(dirs.take(index), stem);
    assert forall|i: int| 0 <= i < shorter.len() implies longer[i] == shorter[i] by {
        assert(dirs.take(index + 1)[i / 2] == dirs.take(index)[i / 2]);
    }
    assert(longer =~= shorter.push(joined(dirs[index], file_name(stem, 0))).push(
        joined(dirs[index], file_name(stem, 1)),
    ));
}

/// Two more paths add their texts.
proof fn lemma_texts_of_two(before: Seq<PathBuf>, after: Seq<PathBuf>)
    requires
        after.len() == before.len() + 2,
        after.take(before.len() as int) == before,
    ensures
        texts(after) == texts(before).push(path_buf_text(&after[before.len() as int])).push(
            path_buf_text(&after[before.len() as int + 1]),
        ),
{
    assert forall|i: int| 0 <= i < before.len() implies texts(after)[i] == texts(before)[i] by {
        assert(after.take(before.len() as int)[i] == after[i]);
    }
    assert(texts(after) =~= texts(before).push(path_buf_text(&after[before.len() as int])).push(
        path_buf_text(&after[before.len() as int + 1]),
    ));
}

fn with_extension(stem: &str, extension: &str) -> (name: String)
    ensures
        name@ == stem@ + extension@,
{
    let mut name: String = stem.to_owned();
    name.append(extension);
    name
}

fn icc_dirs(config_dir: Option<&Path>, data_dir: Option<&Path>) -> (dirs: Vec<PathBuf>)
    ensures
        texts(dirs@) == profile_dirs(optional_text(config_dir), optional_text(data_dir)),
        dirs@.len() <= 2,
{
    let mut dirs: Vec<PathBuf> = Vec::new();
    if let Some(dir) = config_dir {
        dirs.push(join(dir, "icc"));
    }
    if let Some(dir) = data_dir {
        dirs.push(join(dir, "icc"));
    }
    assert(texts(dirs@) =~= profile_dirs(optional_text(config_dir), optional_text(data_dir)));
    dirs
}

/// Candidate profile paths for an output, most specific first.
///
/// `~/.local/share/icc` is where colord, DisplayCAL and argyll actually install
/// profiles, so it is searched alongside our own `~/.config/icc` override dir.
/// An output-specific profile in either dir beats a generic one in either.
pub fn profile_candidates(
    config_dir: Option<&Path>,
    data_dir: Option<&Path>,
    output_name: &str,
) -> (paths: Vec<PathBuf>)
    ensures
        texts(paths@) == candidates(
            optional_text(config_dir),
            optional_text(data_dir),
            output_name@,
        ),
{
    let dirs: Vec<PathBuf> = icc_dirs(config_dir, data_dir);
    let ghost dir_texts: Seq<Seq<u8>> = texts(dirs@);
    let mut specific: Vec<PathBuf> = Vec::new();
    let mut generic: Vec<PathBuf> = Vec::new();
    let mut i: usize = 0;
    while i < dirs.len()
        invariant
            i <= dirs@.len() <= 2,
            dir_texts == texts(dirs@),
            texts(specific@) =~= files_in(dir_texts.take(i as int), output_name@),
            texts(generic@) =~= files_in(dir_texts.take(i as int), "profile"@),
        decreases dirs@.len() - i,
    {
        let dir: &Path = as_path(&dirs[i]);
        let ghost specific_before: Seq<PathBuf> = specific@;
        let ghost generic_before: Seq<PathBuf> = generic@;
        // Both extensions denote the same format; tools disagree on which to write.
        specific.push(join(dir, with_extension(output_name, ".icc").as_str()));
        generic.push(join(dir, with_extension("profile", ".icc").as_str()));
        specific.push(join(dir, with_extension(output_name, ".icm").as_str()));
        generic.push(join(dir, with_extension("profile", ".icm").as_str()));
        proof {
            lemma_next_files(dir_texts, i as int, output_name@);
            lemma_next_files(dir_texts, i as int, "profile"@);
            assert(specific@.take(specific_before.len() as int) =~= specific_before);
            assert(generic@.take(generic_before.len() as int) =~= generic_before);
            lemma_texts_of_two(specific_before, specific@);
            lemma_texts_of_two(generic_before, generic@);
        }
        i = i + 1;
    }
    assert(dir_texts.take(dirs@.len() as int) =~= dir_texts);
    let ghost front: Seq<PathBuf> = specific@;
    let ghost back: Seq<PathBuf> = generic@;
    // An output-specific profile in any dir beats a generic one anywhere.
    specific.append(&mut generic);
    assert(texts(specific@) =~= texts(front) + texts(back));
    specific
}

/// The base directory that the environment sets, or else one below the home
/// directory, if that is known.
pub open spec fn base_dir(
    set: Option<Seq<u8>>,
    home: Option<Seq<u8>>,
    below: Seq<char>,
) -> Option<Seq<u8>> {
    match set {
        Some(dir) => Some(dir),
        None => match home {
            Some(home) => Some(joined(home, below)),
            None => None,
        },
    }
}

/// The text of an owned path that may be missing.
pub open spec fn optional_buf_text(path: Option<PathBuf>) -> Option<Seq<u8>> {
    match path {
        Some(path) => Some(path_buf_text(&path)),
        None => None,
    }
}

fn set_or_below(set: Option<PathBuf>, home: Option<&Path>, below: &str) -> (dir: Option<PathBuf>)
    ensures
        optional_buf_text(dir) == base_dir(optional_buf_text(set), optional_text(home), below@),
{
    match set {
        Some(dir) => Some(dir),
        None => match home {
            Some(home) => Some(join(home, below)),
            None => None,
        },
    }
}

/// The configuration directory: `XDG_CONFIG_HOME` where it is set, else
/// `.config` in the home directory.
pub fn config_dir(set: Option<PathBuf>, home: Option<&Path>) -> (dir: Option<PathBuf>)
    ensures
        optional_buf_text(dir) == base_dir(
            optional_buf_text(set),
            optional_text(home),
            ".config"@,
        ),
{
    set_or_below(set, home, ".config")
}

/// The data directory: `XDG_DATA_HOME` where it is set, else `.local/share` in
/// the home directory.
pub fn data_dir(set: Option<PathBuf>, home: Option<&Path>) -> (dir: Option<PathBuf>)
    ensures
        optional_buf_text(dir) == base_dir(
            optional_buf_text(set),
            optional_text(home),
            ".local/share"@,
        ),
{
    set_or_below(set, home, ".local/share")
}

/// What to do next in a search through candidates.
#[derive(Debug, Clone, Copy, PartialEq, Eq, Structural)]
pub enum Step {
    /// See whether a candidate exists.
    Probe(usize),
    /// Read a candidate, which decides the search: there is no falling back
    /// from a profile that cannot be used.
    Read(usize),
    /// There is no profile.
    GiveUp,
}

/// The step that looks at a candidate, if there are so many.
pub open spec fn look_at(count: int, candidate: int) -> Step {
    if candidate < count {
        Step::Probe(candidate as usize)
    } else {
        Step::GiveUp
    }
}

/// The first step of a search.
pub fn first_step(count: usize) -> (step: Step)
    ensures
        step == look_at(count as int, 0),
{
    if count == 0 {
        Step::GiveUp
    } else {
        Step::Probe(0)
    }
}

/// The step after a candidate was probed.
pub open spec fn after_probe(count: int, probed: int, found: bool) -> Step {
    if found {
        Step::Read(probed as usize)
    } else {
        look_at(count, probed + 1)
    }
}

/// The step after a candidate was probed.
pub fn next_step(count: usize, probed: usize, found: bool) -> (step: Step)
    requires
        probed < count,
    ensures
        step == after_probe(count as int, probed as int, found),
{
    if found {
        Step::Read(probed)
    } else if probed + 1 < count {
        Step::Probe(probed + 1)
    } else {
        Step::GiveUp
    }
}

/// The last step of a search that goes on from a step, where it is known which
/// candidates exist.
pub open spec fn outcome(existing: Seq<bool>, step: Step) -> Step
    decreases
            match step {
                Step::Probe(i) => existing.len() - i,
                _ => 0,
            },
    when existing.len() <= usize::MAX
{
    match step {
        Step::Probe(i) => if i < existing.len() {
            outcome(existing, after_probe(existing.len() as int, i as int, existing[i as int]))
        } else {
            step
        },
        _ => step,
    }
}

/// A search reads the first candidate that exists, and no other. It gives up
/// where none does.
pub proof fn lemma_search_reads_first_existing(existing: Seq<bool>)
    requires
        existing.len() <= usize::MAX,
    ensures
        match outcome(existing, look_at(existing.len() as int, 0)) {
            Step::Read(i) => {
                &&& i < existing.len()
                &&& existing[i as int]
                &&& forall|j: int| 0 <= j < i ==> !existing[j]
            },
            Step::GiveUp => forall|j: int| 0 <= j < existing.len() ==> !existing[j],
            Step::Probe(_) => false,
        },
{
    lemma_search_from(existing, 0);
}

proof fn lemma_search_from(existing: Seq<bool>, start: int)
    requires
        0 <= start <= existing.len() <= usize::MAX,
        forall|j: int| 0 <= j < start ==> !existing[j],
    ensures
        match outcome(existing, look_at(existing.len() as int, start)) {
            Step::Read(i) => {
                &&& i < existing.len()
                &&& existing[i as int]
                &&& forall|j: int| 0 <= j < i ==> !existing[j]
            },
            Step::GiveUp => forall|j: int| 0 <= j < existing.len() ==> !existing[j],
            Step::Probe(_) => false,
        },
    decreases existing.len() - start,
{
    reveal_with_fuel(outcome, 2);
    if start < existing.len() && !existing[start] {
        lemma_search_from(existing, start + 1);
    }
}

/// An output-specific profile in any directory outranks a generic one in any:
/// the first half of the candidates are the output's own files, the second half
/// the generic ones, each directory by directory and in the same order.
pub proof fn lemma_specific_outranks_generic(
    config: Option<Seq<u8>>,
    data: Option<Seq<u8>>,
    output: Seq<char>,
)
    ensures
        ({
            let dirs: Seq<Seq<u8>> = profile_dirs(config, data);
            let all: Seq<Seq<u8>> = candidates(config, data, output);
            let half: int = 2 * dirs.len() as int;
            &&& all.len() == 2 * half
            &&& forall|i: int|
                0 <= i < half ==> #[trigger] all[i] == joined(
                    dirs[i / 2],
                    file_name(output, i % 2),
                )
            &&& forall|i: int|
                half <= i < 2 * half ==> #[trigger] all[i] == joined(
                    dirs[(i - half) / 2],
                    file_name("profile"@, (i - half) % 2),
                )
        }),
{
}

/// Every known directory is searched, for the output's own files and for the
/// generic ones, under both extensions. The configuration overrides the data:
/// its directory comes first.
pub proof fn lemma_known_dirs_are_searched(
    config: Option<Seq<u8>>,
    data: Option<Seq<u8>>,
    output: Seq<char>,
    extension: int,
)
    requires
        extension == 0 || extension == 1,
    ensures
        config matches Some(dir) ==> {
            let below: Seq<u8> = joined(dir, "icc"@);
            let all: Seq<Seq<u8>> = candidates(config, data, output);
            &&& profile_dirs(config, data)[0] == below
            &&& all.contains(joined(below, file_name(output, extension)))
            &&& all.contains(joined(below, file_name("profile"@, extension)))
        },
        data matches Some(dir) ==> {
            let below: Seq<u8> = joined(dir, "icc"@);
            let all: Seq<Seq<u8>> = candidates(config, data, output);
            &&& profile_dirs(config, data).last() == below
            &&& all.contains(joined(below, file_name(output, extension)))
            &&& all.contains(joined(below, file_name("profile"@, extension)))
        },
        config is None && data is None ==> candidates(config, data, output).len() == 0,
{
    let dirs: Seq<Seq<u8>> = profile_dirs(config, data);
    let all: Seq<Seq<u8>> = candidates(config, data, output);
    let half: int = 2 * dirs.len() as int;
    if config is Some {
        assert(all[extension] == joined(dirs[0], file_name(output, extension)));
        assert(all[half + extension] == joined(dirs[0], file_name("profile"@, extension)));
    }
    if data is Some {
        let last: int = dirs.len() - 1;
        assert(all[2 * last + extension] == joined(dirs[last], file_name(output, extension)));
        assert(all[half + 2 * last + extension] == joined(
            dirs[last],
            file_name("profile"@, extension),
        ));
    }
}

} // verus!
