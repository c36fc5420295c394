//! Artifacts: what identifies them and what is derived from their paths.

use vstd::prelude::*;
use crate::tree::SyntaxTree;

verus! {

/// The version of the compiler that produced an artifact.
#[derive(Clone, Copy, Debug, PartialEq, Eq)]
pub struct CompilerVersion {
    pub major: u64,
    pub minor: u64,
    pub patch: u64,
}

/// What identifies one compiled artifact.
#[derive(Debug, PartialEq, Eq)]
pub struct ArtifactIdentity {
    /// Where the artifact is cached.
    pub path: String,
    /// The name of the contract.
    pub name: String,
    /// The path of the source file that it was compiled from, as text.
    pub source: String,
    /// Whether `source` is the path itself. It is not where the path cannot
    /// be written as text: `source` then holds what can be shown of it, and
    /// no file can be looked up by it.
    pub source_is_text: bool,
    pub version: CompilerVersion,
}

/// One compiled contract: its identity and, where the compiler gave one, the
/// syntax tree of its source file.
#[derive(Debug)]
pub struct Artifact {
    pub identity: ArtifactIdentity,
    pub ast: Option<SyntaxTree>,
}

/// What findings are told of the file they were found in.
#[derive(Debug, PartialEq, Eq)]
pub struct Information {
    pub name: String,
    pub version: CompilerVersion,
}

/// The text by which an artifact is named in errors: the path of its source,
/// a colon, and the name of the contract.
pub open spec fn identifier_of(identity: ArtifactIdentity) -> Seq<char> {
    identity.source@ + seq![':'] + identity.name@
}

/// The ending of the names of source files.
pub open spec fn source_suffix() -> Seq<char> {
    seq!['.', 's', 'o', 'l']
}

/// The last characters of `text` are those of `suffix`.
pub open spec fn ends_with(text: Seq<char>, suffix: Seq<char>) -> bool {
    suffix.len() <= text.len() && text.subrange(text.len() - suffix.len(), text.len() as int)
        == suffix
}

/// The text of a string that may be missing.
pub open spec fn text_of(text: Option<String>) -> Option<Seq<char>> {
    match text {
        Some(full) => Some(full@),
        None => None,
    }
}

/// The short name of a source file with the file name `file_name`: the file
/// name without the ending of source files, taken off once. A path that has
/// no file name has no short name, nor has a file name without that ending.
pub open spec fn short_name_of(file_name: Option<Seq<char>>) -> Option<Seq<char>> {
    match file_name {
        Some(name) => if ends_with(name, source_suffix()) {
            Some(name.take(name.len() - source_suffix().len()))
        } else {
            None
        },
        None => None,
    }
}

/// The ending is taken off once and no more: a file name made of `stem` and
/// the ending has the short name `stem`, whatever `stem` ends with.
pub proof fn lemma_suffix_stripped_once(stem: Seq<char>)
    ensures
        short_name_of(Some(stem + source_suffix())) == Some(stem),
{
    let name = stem + source_suffix();
    assert(name.subrange(name.len() - source_suffix().len(), name.len() as int)
        =~= source_suffix());
    assert(name.take(name.len() - source_suffix().len()) =~= stem);
}

/// A file name has a short name only if it ends with the ending, and then
/// the short name followed by the ending is the file name.
pub proof fn lemma_short_name(name: Seq<char>)
    ensures
        short_name_of(Some(name)) is Some <==> ends_with(name, source_suffix()),
        short_name_of(Some(name)) matches Some(short) ==> short + source_suffix() == name,
{
    if ends_with(name, source_suffix()) {
        let cut = name.len() - source_suffix().len();
        assert(name.take(cut) + name.subrange(cut, name.len() as int) =~= name);
    }
}

/// `ethers_solc::ArtifactId::identifier`, on the artifact id with the fields
/// of `identity`. It formats the source path, a colon and the contract name;
/// the source path is made of a string here, so it is written out as that
/// string.
#[verifier::external_body]
pub(crate) fn artifact_identifier(identity: &ArtifactIdentity) -> (slug: String)
    ensures
        slug@ == identifier_of(*identity),
{
    let id = ethers_solc::ArtifactId {
        path: std::path::PathBuf::from(identity.path.as_str()),
        name: identity.name.clone(),
        source: std::path::PathBuf::from(identity.source.as_str()),
        version: semver::Version::new(
            identity.version.major,
            identity.version.minor,
            identity.version.patch,
        ),
    };
    id.identifier()
}

/// `name`, if there is one, is a part of `path` that is not empty: some
/// characters of `path` that stand side by side.
pub open spec fn part_of_path(path: Seq<char>, name: Option<Seq<char>>) -> bool {
    match name {
        Some(part) => part.len() > 0 && exists|at: int|
            0 <= at && at + part.len() <= path.len() && #[trigger] path.subrange(
                at,
                at + part.len(),
            ) == part,
        None => true,
    }
}

/// `std::path::Path::file_name`, on the path written in `path`. It gives the
/// last component of the path, if that is the name of a file or directory,
/// so what it gives is a part of the path and not empty. Which part counts
/// as the last component depends on the platform's separators, so no more
/// is claimed of it.
#[verifier::external_body]
pub(crate) fn path_file_name(path: &String) -> (name: Option<String>)
    ensures
        part_of_path(path@, text_of(name)),
{
    match std::path::Path::new(path.as_str()).file_name() {
        Some(last) => match last.to_str() {
            Some(text) => Some(text.to_string()),
            None => None,
        },
        None => None,
    }
}

/// `str::strip_suffix` with a string as the pattern: if `text` ends with
/// `suffix`, what stands before it; else `None`.
#[verifier::external_body]
pub(crate) fn strip_suffix(text: &String, suffix: &str) -> (stem: Option<String>)
    ensures
        match stem {
            Some(front) => text@ == front@ + suffix@,
            None => !ends_with(text@, suffix@),
        },
{
    match text.strip_suffix(suffix) {
        Some(front) => Some(front.to_string()),
        None => None,
    }
}

/// The short name of a source file, from the file name of its path.
pub fn short_name(file_name: &Option<String>) -> (short: Option<String>)
    ensures
        match short {
            Some(name) => short_name_of(text_of(*file_name)) == Some(name@),
            None => short_name_of(text_of(*file_name)) is None,
        },
{
    match file_name {
        Some(full) => {
            proof {
                reveal_strlit(".sol");
                assert(".sol"@ =~= source_suffix());
            }
            let stem = strip_suffix(full, ".sol");
            proof {
                if stem is Some {
                    let front = stem->0@;
                    let n = full@.len() - 4;
                    assert(front.len() == n);
                    assert(full@.subrange(n, full@.len() as int) =~= source_suffix());
                    assert(full@.take(n) =~= front);
                }
            }
            stem
        },
        None => None,
    }
}

impl ArtifactIdentity {
    /// The short name of the source file of a tree whose path has the file
    /// name `file_name`, with the version of this artifact's compiler.
    pub fn information(&self, file_name: &Option<String>) -> (info: Option<Information>)
        ensures
            match info {
                Some(i) => short_name_of(text_of(*file_name)) == Some(i.name@) && i.version
                    == self.version,
                None => short_name_of(text_of(*file_name)) is None,
            },
    {
        match short_name(file_name) {
            Some(name) => Some(Information { name, version: self.version }),
            None => None,
        }
    }
}

} // verus!
