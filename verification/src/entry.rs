//! The files that travel through the archiver, each with the decision
//! taken for it, and the name reserved for the compressed group.

use crate::container::{Member, MemberView};
use crate::path::{
    components, current_component, lemma_single_component, parent_component, plain_path,
};
use vstd::prelude::*;

verus! {

/// The decision taken for a file: compress it with the group, or store it
/// as it is.
#[derive(Debug, Clone, Copy, PartialEq, Eq, Structural)]
pub enum EntropyAnalysis {
    Compress,
    DontCompress,
}

/// A file of the archive together with its decision.
#[derive(Debug, Clone, PartialEq, Eq)]
pub struct FileEntry {
    pub member: Member,
    pub analysis: EntropyAnalysis,
}

/// What a file entry is, as a mathematical value.
pub struct FileEntryView {
    pub member: MemberView,
    pub analysis: EntropyAnalysis,
}

impl View for FileEntry {
    type V = FileEntryView;

    open spec fn view(&self) -> FileEntryView {
        FileEntryView { member: self.member@, analysis: self.analysis }
    }
}

/// The views of `entries`, in order.
pub open spec fn entry_views(entries: Seq<FileEntry>) -> Seq<FileEntryView> {
    entries.map_values(|e: FileEntry| e@)
}

/// The members of `entries` whose decision is `analysis`, in the order in
/// which `entries` holds them.
pub open spec fn routed(entries: Seq<FileEntryView>, analysis: EntropyAnalysis) -> Seq<MemberView>
    decreases entries.len(),
{
    if entries.len() == 0 {
        Seq::empty()
    } else if entries.last().analysis == analysis {
        routed(entries.drop_last(), analysis).push(entries.last().member)
    } else {
        routed(entries.drop_last(), analysis)
    }
}

/// `members`, each tagged with `analysis`.
pub open spec fn tagged(members: Seq<MemberView>, analysis: EntropyAnalysis) -> Seq<FileEntryView> {
    members.map_values(|m: MemberView| (FileEntryView { member: m, analysis }))
}

/// The name of the member of the outer container that holds the files
/// that were compressed.
pub const TTARE_COMPRESS_FILE_NAME: &'static str = ".ttare.tar.gz";

/// The path of the one outer member that holds the compressed group.
pub open spec fn reserved_path() -> Seq<char> {
    ".ttare.tar.gz"@
}

/// The mode of the reserved member: read-only for everyone.
pub const RESERVED_MODE: u32 = 0o444;

/// The reserved member that carries `blob`, written at time `now`.
pub open spec fn reserved_member(blob: Seq<u8>, now: u64) -> MemberView {
    MemberView { path: reserved_path(), content: blob, mode: RESERVED_MODE, mtime: now }
}

/// How many members of `members` bear the reserved name.
pub open spec fn reserved_count(members: Seq<MemberView>) -> nat
    decreases members.len(),
{
    if members.len() == 0 {
        0
    } else if members.last().path == reserved_path() {
        reserved_count(members.drop_last()) + 1
    } else {
        reserved_count(members.drop_last())
    }
}

/// The reserved name is a plain path of thirteen characters.
pub proof fn lemma_reserved_path_is_plain()
    ensures
        plain_path(reserved_path()),
        reserved_path().len() == 13,
{
    reveal_strlit(".ttare.tar.gz");
    let p = reserved_path();
    assert(p.len() == 13);
    lemma_single_component(p);
    assert(components(p).len() == 1);
    assert(components(p)[0] == p);
    assert(p[1] == 't');
    assert(p != current_component());
    assert(p != parent_component());
    assert forall|k: int| 0 <= k < components(p).len() implies components(p)[k] == p by {}
}

/// The reserved name.
pub fn reserved_name() -> (name: String)
    ensures
        name@ == reserved_path(),
{
    TTARE_COMPRESS_FILE_NAME.to_owned()
}

/// Whether `path` is the reserved name.
pub fn is_reserved(path: &String) -> (r: bool)
    ensures
        r == (path@ == reserved_path()),
{
    let name = reserved_name();
    *path == name
}

} // verus!
