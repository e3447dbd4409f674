//! Unpacking: the outer container is listed, the reserved member is
//! expanded into the members it holds, and every path is looked at before
//! anything is handed out for writing.

use crate::container::{
    ends_with_mark, error_text, has_end_mark, member_views, tar_listing, tar_read, Member,
    MemberView,
};
use crate::entry::{
    entry_views, is_reserved, reserved_count, reserved_path, tagged, EntropyAnalysis, FileEntry,
    FileEntryView,
};
use crate::gzip::{gunzip, gunzip_stream};
use crate::path::{escapes, path_escapes};
use vstd::prelude::*;

verus! {

/// What is wrong with a corrupt archive. Where the container's reader
/// found the fault, its words are handed on.
#[derive(Debug, Clone, PartialEq, Eq)]
pub enum Corruption {
    /// The archive does not end with the mark of a finished container: it
    /// was cut short.
    Truncated,
    /// The outer container cannot be read to its end.
    Unreadable(String),
    /// More than one member bears the reserved name.
    DuplicateReserved,
    /// The expanded reserved member does not end with the mark of a
    /// finished container.
    GroupTruncated,
    /// The expanded reserved member cannot be read as a container.
    GroupUnreadable(String),
}

/// The kinds of corruption, without the reader's words.
#[derive(Debug, Clone, Copy, PartialEq, Eq, Structural)]
pub enum CorruptionKind {
    Truncated,
    Unreadable,
    DuplicateReserved,
    GroupTruncated,
    GroupUnreadable,
}

impl View for Corruption {
    type V = CorruptionKind;

    open spec fn view(&self) -> CorruptionKind {
        match self {
            Corruption::Truncated => CorruptionKind::Truncated,
            Corruption::Unreadable(_) => CorruptionKind::Unreadable,
            Corruption::DuplicateReserved => CorruptionKind::DuplicateReserved,
            Corruption::GroupTruncated => CorruptionKind::GroupTruncated,
            Corruption::GroupUnreadable(_) => CorruptionKind::GroupUnreadable,
        }
    }
}

/// Why unpacking failed.
#[derive(Debug, Clone, PartialEq, Eq)]
pub enum UnpackError {
    /// The archive is malformed.
    CorruptArchive(Corruption),
    /// The reserved member does not expand; the words are the expander's.
    Decompression(String),
    /// The member with this path would be written outside the destination.
    PathTraversal(String),
}

/// An unpacking failure, as a mathematical value: the words of outside
/// errors are left out.
pub enum UnpackFailure {
    CorruptArchive(CorruptionKind),
    Decompression,
    PathTraversal(Seq<char>),
}

impl View for UnpackError {
    type V = UnpackFailure;

    open spec fn view(&self) -> UnpackFailure {
        match self {
            UnpackError::CorruptArchive(c) => UnpackFailure::CorruptArchive(c@),
            UnpackError::Decompression(_) => UnpackFailure::Decompression,
            UnpackError::PathTraversal(path) => UnpackFailure::PathTraversal(path@),
        }
    }
}

/// The member at `index` is the first whose path escapes.
pub open spec fn first_escaping(members: Seq<MemberView>, index: int) -> bool {
    &&& 0 <= index < members.len()
    &&& escapes(members[index].path)
    &&& forall|j: int| 0 <= j < index ==> !escapes(#[trigger] members[j].path)
}

/// `archive` is a finished container that lists a member with an
/// escaping path.
pub open spec fn lists_escaping_path(archive: Seq<u8>) -> bool {
    &&& ends_with_mark(archive)
    &&& tar_listing(archive) matches Some(outer) && exists|i: int|
        0 <= i < outer.len() && escapes(#[trigger] outer[i].path)
}

/// The member at `index` bears the reserved name.
pub open spec fn reserved_at(members: Seq<MemberView>, index: int) -> bool {
    0 <= index < members.len() && members[index].path == reserved_path()
}

/// The files restored from an outer container whose reserved member stands
/// at `index` and holds the members `inner`: those take the reserved
/// member's place.
pub open spec fn merged(outer: Seq<MemberView>, index: int, inner: Seq<MemberView>) -> Seq<
    FileEntryView,
> {
    tagged(outer.take(index), EntropyAnalysis::DontCompress) + tagged(
        inner,
        EntropyAnalysis::Compress,
    ) + tagged(outer.skip(index + 1), EntropyAnalysis::DontCompress)
}

/// What expanding the reserved member at `index` of `outer` gives.
pub open spec fn expand_outcome(outer: Seq<MemberView>, index: int) -> Result<
    Seq<FileEntryView>,
    UnpackFailure,
> {
    match gunzip_stream(outer[index].content) {
        None => Err(UnpackFailure::Decompression),
        Some(image) => if !ends_with_mark(image) {
            Err(UnpackFailure::CorruptArchive(CorruptionKind::GroupTruncated))
        } else {
            match tar_listing(image) {
                None => Err(UnpackFailure::CorruptArchive(CorruptionKind::GroupUnreadable)),
                Some(inner) => if exists|i: int| first_escaping(inner, i) {
                    Err(
                        UnpackFailure::PathTraversal(
                            inner[choose|i: int| first_escaping(inner, i)].path,
                        ),
                    )
                } else {
                    Ok(merged(outer, index, inner))
                },
            }
        },
    }
}

/// What unpacking `archive` gives: the files to restore, in the order of
/// the outer container, or the failure. What must hold is asked in this
/// order: the archive ends with the mark of a finished container; the
/// outer container is read; no outer path escapes; at most one member is
/// reserved; the reserved member expands; what it expands to ends with the
/// mark and is read as a container; no inner path escapes.
pub open spec fn unpack_outcome(archive: Seq<u8>) -> Result<Seq<FileEntryView>, UnpackFailure> {
    if !ends_with_mark(archive) {
        Err(UnpackFailure::CorruptArchive(CorruptionKind::Truncated))
    } else {
        match tar_listing(archive) {
            None => Err(UnpackFailure::CorruptArchive(CorruptionKind::Unreadable)),
            Some(outer) => if exists|i: int| first_escaping(outer, i) {
                Err(
                    UnpackFailure::PathTraversal(
                        outer[choose|i: int| first_escaping(outer, i)].path,
                    ),
                )
            } else if reserved_count(outer) == 0 {
                Ok(tagged(outer, EntropyAnalysis::DontCompress))
            } else if reserved_count(outer) > 1 {
                Err(UnpackFailure::CorruptArchive(CorruptionKind::DuplicateReserved))
            } else {
                expand_outcome(outer, choose|k: int| reserved_at(outer, k))
            },
        }
    }
}

/// The result of unpacking, as a mathematical value.
pub open spec fn unpack_result_view(r: Result<Vec<FileEntry>, UnpackError>) -> Result<
    Seq<FileEntryView>,
    UnpackFailure,
> {
    match r {
        Ok(entries) => Ok(entry_views(entries@)),
        Err(e) => Err(e@),
    }
}

/// Only one member can be the first that escapes.
pub proof fn lemma_first_escaping_unique(members: Seq<MemberView>, i: int, j: int)
    requires
        first_escaping(members, i),
        first_escaping(members, j),
    ensures
        i == j,
{
    if i < j {
        assert(!escapes(members[i].path));
    }
    if j < i {
        assert(!escapes(members[j].path));
    }
}

/// The reserved members of a prefix are counted among those of the whole,
/// and a member that is reserved is counted.
pub proof fn lemma_reserved_count_take(members: Seq<MemberView>, n: int)
    requires
        0 <= n <= members.len(),
    ensures
        reserved_count(members.take(n)) <= reserved_count(members),
        forall|k: int| n <= k < members.len() && reserved_at(members, k) ==> reserved_count(
            members.take(n),
        ) < reserved_count(members),
    decreases members.len(),
{
    if n == members.len() {
        assert(members.take(n) =~= members);
    } else {
        let init = members.drop_last();
        assert(init.take(n) =~= members.take(n));
        lemma_reserved_count_take(init, n);
        assert forall|k: int| n <= k < members.len() && reserved_at(members, k) implies reserved_count(
            members.take(n),
        ) < reserved_count(members) by {
            if k < init.len() {
                assert(reserved_at(init, k));
            }
        }
    }
}

/// Without a reserved member the count is zero, and with a count of one
/// the reserved member stands at one index only.
pub proof fn lemma_reserved_count(members: Seq<MemberView>)
    ensures
        reserved_count(members) == 0 <==> (forall|k: int| !reserved_at(members, k)),
        reserved_count(members) == 1 ==> (forall|i: int, j: int|
            reserved_at(members, i) && reserved_at(members, j) ==> i == j),
    decreases members.len(),
{
    if members.len() > 0 {
        let init = members.drop_last();
        lemma_reserved_count(init);
        let last = members.len() - 1;
        assert forall|k: int| reserved_at(init, k) implies reserved_at(members, k) by {}
        assert forall|k: int| reserved_at(members, k) && k != last implies reserved_at(init, k) by {}
        if members.last().path == reserved_path() {
            assert(reserved_at(members, last));
            if reserved_count(members) == 1 {
                assert forall|i: int, j: int|
                    reserved_at(members, i) && reserved_at(members, j) implies i == j by {
                    if i != last {
                        assert(reserved_at(init, i));
                    }
                    if j != last {
                        assert(reserved_at(init, j));
                    }
                }
            }
        } else {
            assert(!reserved_at(members, last));
            if reserved_count(members) == 0 {
                assert forall|k: int| !reserved_at(members, k) by {
                    if reserved_at(members, k) {
                        assert(reserved_at(init, k));
                    }
                }
            }
            if reserved_count(members) == 1 {
                assert forall|i: int, j: int|
                    reserved_at(members, i) && reserved_at(members, j) implies i == j by {
                    assert(reserved_at(init, i));
                    assert(reserved_at(init, j));
                }
            }
        }
    }
}

/// Tags every member of `members` with `analysis`.
fn tag_all(members: Vec<Member>, analysis: EntropyAnalysis) -> (entries: Vec<FileEntry>)
    ensures
        entry_views(entries@) == tagged(member_views(members@), analysis),
{
    let ghost all = member_views(members@);
    let mut entries: Vec<FileEntry> = Vec::new();
    for member in it: members
        invariant
            it.seq() == members@,
            all == member_views(members@),
            entry_views(entries@) == tagged(all.take(it.index() as int), analysis),
    {
        let ghost before = entry_views(entries@);
        entries.push(FileEntry { member, analysis });
        proof {
            let n = it.index() as int;
            assert(all[n] == member@);
            assert(entry_views(entries@) =~= before.push(
                (FileEntryView { member: member@, analysis }),
            ));
            assert(tagged(all.take(n + 1), analysis) =~= tagged(all.take(n), analysis).push(
                (FileEntryView { member: all[n], analysis }),
            ));
        }
    }
    proof {
        assert(all.take(members@.len() as int) =~= all);
    }
    entries
}

/// The index of the first member of `members` whose path escapes, if any.
fn find_escaping(members: &Vec<Member>) -> (found: Option<usize>)
    ensures
        match found {
            Some(i) => first_escaping(member_views(members@), i as int),
            None => forall|i: int| !first_escaping(member_views(members@), i),
        },
{
    let ghost all = member_views(members@);
    let mut i: usize = 0;
    while i < members.len()
        invariant
            0 <= i <= members.len(),
            all == member_views(members@),
            forall|j: int| 0 <= j < i ==> !escapes(#[trigger] all[j].path),
        decreases members.len() - i,
    {
        assert(all[i as int] == members@[i as int]@);
        if path_escapes(members[i].path.as_str()) {
            return Some(i);
        }
        i = i + 1;
    }
    proof {
        assert forall|k: int| !first_escaping(all, k) by {
            if 0 <= k < all.len() {
                assert(!escapes(all[k].path));
            }
        }
    }
    None
}

/// Where the reserved member of `members` stands: `Ok(None)` without one,
/// `Err` with more than one.
fn find_reserved(members: &Vec<Member>) -> (found: Result<Option<usize>, ()>)
    ensures
        match found {
            Ok(None) => reserved_count(member_views(members@)) == 0,
            Ok(Some(k)) => reserved_count(member_views(members@)) == 1 && reserved_at(
                member_views(members@),
                k as int,
            ),
            Err(_) => reserved_count(member_views(members@)) > 1,
        },
{
    let ghost all = member_views(members@);
    let mut found: Option<usize> = None;
    let mut i: usize = 0;
    while i < members.len()
        invariant
            0 <= i <= members.len(),
            all == member_views(members@),
            match found {
                None => reserved_count(all.take(i as int)) == 0,
                Some(k) => reserved_count(all.take(i as int)) == 1 && reserved_at(all, k as int),
            },
        decreases members.len() - i,
    {
        proof {
            assert(all[i as int] == members@[i as int]@);
            assert(all.take(i + 1).drop_last() =~= all.take(i as int));
            assert(all.take(i + 1).last() == all[i as int]);
        }
        if is_reserved(&members[i].path) {
            if found.is_some() {
                proof {
                    lemma_reserved_count_take(all, i + 1);
                }
                return Err(());
            }
            found = Some(i);
        }
        i = i + 1;
    }
    proof {
        assert(all.take(i as int) =~= all);
    }
    Ok(found)
}

/// Recovers the files of `archive`: the members of the outer container,
/// in order, with the members of the compressed group in the place of the
/// reserved member. Nothing is handed out unless every path stays below
/// the destination: an archive that lists an escaping path, in the outer
/// container or in the group, fails as a whole.
pub fn unpack(archive: &[u8]) -> (r: Result<Vec<FileEntry>, UnpackError>)
    ensures
        unpack_result_view(r) == unpack_outcome(archive@),
        lists_escaping_path(archive@) ==> (r matches Err(UnpackError::PathTraversal(path))
            && escapes(path@)),
        r matches Ok(entries) ==> forall|i: int|
            0 <= i < entries@.len() ==> !escapes(#[trigger] entries@[i].member.path@),
{
    if !has_end_mark(archive) {
        return Err(UnpackError::CorruptArchive(Corruption::Truncated));
    }
    let mut outer = match tar_read(archive) {
        Ok(outer) => outer,
        Err(e) => {
            return Err(UnpackError::CorruptArchive(Corruption::Unreadable(error_text(&e))));
        },
    };
    let ghost outer_all = member_views(outer@);
    match find_escaping(&outer) {
        Some(i) => {
            proof {
                let k = choose|k: int| first_escaping(outer_all, k);
                lemma_first_escaping_unique(outer_all, i as int, k);
                assert(outer_all[i as int] == outer@[i as int]@);
            }
            return Err(UnpackError::PathTraversal(outer[i].path.clone()));
        },
        None => {},
    }
    proof {
        assert forall|i: int| 0 <= i < outer_all.len() implies !escapes(
            #[trigger] outer_all[i].path,
        ) by {
            if escapes(outer_all[i].path) {
                lemma_some_escapes(outer_all, i);
            }
        }
    }
    let index = match find_reserved(&outer) {
        Err(_) => {
            return Err(UnpackError::CorruptArchive(Corruption::DuplicateReserved));
        },
        Ok(None) => {
            let entries = tag_all(outer, EntropyAnalysis::DontCompress);
            proof {
                assert forall|i: int| 0 <= i < entries@.len() implies !escapes(
                    #[trigger] entries@[i].member.path@,
                ) by {
                    let all = tagged(outer_all, EntropyAnalysis::DontCompress);
                    assert(entry_views(entries@).len() == entries@.len());
                    assert(all.len() == outer_all.len());
                    assert(entry_views(entries@)[i] == entries@[i]@);
                    assert(all[i].member == outer_all[i]);
                    assert(!escapes(outer_all[i].path));
                    assert(entries@[i]@.member.path == entries@[i].member.path@);
                }
            }
            return Ok(entries);
        },
        Ok(Some(k)) => k,
    };
    proof {
        lemma_reserved_count(outer_all);
        assert(outer_all.len() == outer@.len());
        assert(outer_all[index as int] == outer@[index as int]@);
    }
    assert(index < outer.len());
    let image = match gunzip(outer[index].content.as_slice()) {
        Ok(image) => image,
        Err(e) => {
            return Err(UnpackError::Decompression(error_text(&e)));
        },
    };
    if !has_end_mark(image.as_slice()) {
        return Err(UnpackError::CorruptArchive(Corruption::GroupTruncated));
    }
    let inner = match tar_read(image.as_slice()) {
        Ok(inner) => inner,
        Err(e) => {
            return Err(UnpackError::CorruptArchive(Corruption::GroupUnreadable(error_text(&e))));
        },
    };
    let ghost inner_all = member_views(inner@);
    match find_escaping(&inner) {
        Some(i) => {
            proof {
                let k = choose|k: int| first_escaping(inner_all, k);
                lemma_first_escaping_unique(inner_all, i as int, k);
                assert(inner_all[i as int] == inner@[i as int]@);
            }
            return Err(UnpackError::PathTraversal(inner[i].path.clone()));
        },
        None => {},
    }
    proof {
        assert forall|i: int| 0 <= i < inner_all.len() implies !escapes(
            #[trigger] inner_all[i].path,
        ) by {
            if escapes(inner_all[i].path) {
                lemma_some_escapes(inner_all, i);
            }
        }
    }
    let tail = outer.split_off(index + 1);
    let reserved = outer.pop();
    proof {
        assert(member_views(outer@) =~= outer_all.take(index as int));
        assert(member_views(tail@) =~= outer_all.skip(index + 1));
    }
    let mut entries = tag_all(outer, EntropyAnalysis::DontCompress);
    let mut from_inner = tag_all(inner, EntropyAnalysis::Compress);
    let mut from_tail = tag_all(tail, EntropyAnalysis::DontCompress);
    entries.append(&mut from_inner);
    entries.append(&mut from_tail);
    proof {
        let all = merged(outer_all, index as int, inner_all);
        assert(entry_views(entries@) =~= all);
        lemma_merged_paths(outer_all, index as int, inner_all);
        assert forall|i: int| 0 <= i < entries@.len() implies !escapes(
            #[trigger] entries@[i].member.path@,
        ) by {
            assert(entry_views(entries@).len() == entries@.len());
            assert(entry_views(entries@)[i] == entries@[i]@);
            assert(!escapes(all[i].member.path));
            assert(entries@[i]@.member.path == entries@[i].member.path@);
        }
    }
    Ok(entries)
}

/// Where some member escapes, there is a first one that does.
pub proof fn lemma_some_escapes(members: Seq<MemberView>, index: int)
    requires
        0 <= index < members.len(),
        escapes(members[index].path),
    ensures
        exists|i: int| first_escaping(members, i),
        escapes(members[choose|i: int| first_escaping(members, i)].path),
    decreases index,
{
    if forall|j: int| 0 <= j < index ==> !escapes(#[trigger] members[j].path) {
        assert(first_escaping(members, index));
    } else {
        let j = choose|j: int| 0 <= j < index && escapes(#[trigger] members[j].path);
        lemma_some_escapes(members, j);
    }
}

/// The files merged from containers without an escaping path have no
/// escaping path.
proof fn lemma_merged_paths(outer: Seq<MemberView>, index: int, inner: Seq<MemberView>)
    requires
        0 <= index < outer.len(),
        forall|i: int| 0 <= i < outer.len() ==> !escapes(#[trigger] outer[i].path),
        forall|i: int| 0 <= i < inner.len() ==> !escapes(#[trigger] inner[i].path),
    ensures
        forall|i: int|
            0 <= i < merged(outer, index, inner).len() ==> !escapes(
                (#[trigger] merged(outer, index, inner)[i]).member.path,
            ),
{
    let all = merged(outer, index, inner);
    let head = tagged(outer.take(index), EntropyAnalysis::DontCompress);
    let group = tagged(inner, EntropyAnalysis::Compress);
    let tail = tagged(outer.skip(index + 1), EntropyAnalysis::DontCompress);
    assert forall|i: int| 0 <= i < all.len() implies !escapes((#[trigger] all[i]).member.path) by {
        if i < head.len() {
            assert(all[i] == head[i]);
            assert(head[i].member == outer[i]);
        } else if i < head.len() + group.len() {
            assert(all[i] == group[i - head.len()]);
            assert(group[i - head.len()].member == inner[i - head.len()]);
        } else {
            let k = i - head.len() - group.len();
            assert(all[i] == tail[k]);
            assert(tail[k].member == outer[index + 1 + k]);
        }
    }
}

} // verus!
