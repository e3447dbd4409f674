//! Packing: the entries are routed by decision into two containers, the
//! container of the entries to compress is closed and compressed as a unit,
//! and the result is laid into the other container under the reserved name.
//!
//! An entry that an archive could not give back as it is handed in is
//! refused: one whose path is not plain, one whose mode does not fit a
//! header, and one that is to be stored raw under the reserved name.

use crate::container::{
    all_storable, ends_with_mark, error_text, storable, tar_append, tar_finish, tar_image,
    tar_listing, tar_members, tar_new, MemberView, TarBuilder, MAX_MODE,
};
use crate::entry::{
    entry_views, is_reserved, lemma_reserved_path_is_plain, reserved_count, reserved_member,
    reserved_name, reserved_path, routed, EntropyAnalysis, FileEntry, FileEntryView,
    RESERVED_MODE,
};
use crate::gzip::{gunzip_stream, gzip, gzip_stream};
use crate::laws::{lemma_reserved_member_in_archive, lemma_round_trip, restored};
use crate::path::{is_plain_path, plain_path};
use crate::unpack::{unpack_outcome, UnpackFailure};
use vstd::pervasive::unreached;
use vstd::prelude::*;

verus! {

/// Why an entry is refused.
#[derive(Debug, Clone, Copy, PartialEq, Eq, Structural)]
pub enum Refusal {
    /// Its path is not plain: an archive would not give it back letter for
    /// letter, or not on every system.
    Path,
    /// Its mode is above `MAX_MODE`.
    Mode,
    /// It is to be stored raw under the name reserved for the compressed
    /// group.
    ReservedName,
}

/// Why packing failed.
#[derive(Debug, Clone, PartialEq, Eq)]
pub enum PackError {
    /// The entry at `index` is refused.
    Refused { index: usize, refusal: Refusal },
    /// The nested container could not be compressed; the words are the
    /// compressor's.
    Compression(String),
}

/// A packing failure, as a mathematical value: the compressor's words are
/// left out.
pub enum PackFailure {
    Refused { index: usize, refusal: Refusal },
    Compression,
}

impl View for PackError {
    type V = PackFailure;

    open spec fn view(&self) -> PackFailure {
        match self {
            PackError::Refused { index, refusal } => PackFailure::Refused {
                index: *index,
                refusal: *refusal,
            },
            PackError::Compression(_) => PackFailure::Compression,
        }
    }
}

/// Why `entry` is refused, if it is.
pub open spec fn refusal_of(entry: FileEntryView) -> Option<Refusal> {
    if !plain_path(entry.member.path) {
        Some(Refusal::Path)
    } else if entry.member.mode > MAX_MODE {
        Some(Refusal::Mode)
    } else if entry.analysis == EntropyAnalysis::DontCompress && entry.member.path
        == reserved_path() {
        Some(Refusal::ReservedName)
    } else {
        None
    }
}

/// The entry at `index` is the first that is refused.
pub open spec fn first_refused(entries: Seq<FileEntryView>, index: int) -> bool {
    &&& 0 <= index < entries.len()
    &&& refusal_of(entries[index]) is Some
    &&& forall|j: int| 0 <= j < index ==> refusal_of(#[trigger] entries[j]) is None
}

/// No entry is refused.
pub open spec fn all_taken(entries: Seq<FileEntryView>) -> bool {
    forall|i: int| 0 <= i < entries.len() ==> refusal_of(#[trigger] entries[i]) is None
}

/// The members of the outer container: the entries stored raw, in input
/// order, followed by the reserved member where `blob` is given.
pub open spec fn outer_members(
    entries: Seq<FileEntryView>,
    blob: Option<Seq<u8>>,
    now: u64,
) -> Seq<MemberView> {
    let raw = routed(entries, EntropyAnalysis::DontCompress);
    match blob {
        Some(blob) => raw.push(reserved_member(blob, now)),
        None => raw,
    }
}

/// The members of the inner container: the entries to compress, in input
/// order.
pub open spec fn inner_members(entries: Seq<FileEntryView>) -> Seq<MemberView> {
    routed(entries, EntropyAnalysis::Compress)
}

/// What packing `entries` at time `now` gives: the bytes of the outer
/// container, or the failure. The first entry that is refused fails the
/// packing. The inner container is built and compressed only where an entry
/// is to be compressed; whether it compresses is the compressor's word.
pub open spec fn pack_outcome(entries: Seq<FileEntryView>, now: u64) -> Result<
    Seq<u8>,
    PackFailure,
> {
    if exists|i: int| first_refused(entries, i) {
        let index = choose|i: int| first_refused(entries, i);
        Err(PackFailure::Refused { index: index as usize, refusal: refusal_of(entries[index])->0 })
    } else if inner_members(entries).len() == 0 {
        Ok(tar_image(outer_members(entries, None, now)))
    } else {
        match gzip_stream(tar_image(inner_members(entries))) {
            None => Err(PackFailure::Compression),
            Some(blob) => Ok(tar_image(outer_members(entries, Some(blob), now))),
        }
    }
}

/// The archive `image`, packed at time `now` from the members `raw` and
/// the members `pending` that were compressed, reads back: both containers
/// end with their mark, the compressed group expands to the inner
/// container, and each container whose members are all storable lists
/// exactly these members.
pub open spec fn reads_back(
    raw: Seq<MemberView>,
    pending: Seq<MemberView>,
    now: u64,
    image: Seq<u8>,
) -> bool {
    &&& ends_with_mark(image)
    &&& if pending.len() == 0 {
        all_storable(raw) ==> tar_listing(image) == Some(raw)
    } else {
        gzip_stream(tar_image(pending)) matches Some(blob) && {
            &&& gunzip_stream(blob) == Some(tar_image(pending))
            &&& ends_with_mark(tar_image(pending))
            &&& all_storable(pending) ==> tar_listing(tar_image(pending)) == Some(pending)
            &&& all_storable(raw) ==> tar_listing(image) == Some(
                raw.push(reserved_member(blob, now)),
            )
        }
    }
}

/// `image` is an archive that packing `entries` at time `now` returns: it
/// is the outcome of packing them, and it reads back.
pub open spec fn archive_of(entries: Seq<FileEntryView>, now: u64, image: Seq<u8>) -> bool {
    &&& pack_outcome(entries, now) == Ok::<Seq<u8>, PackFailure>(image)
    &&& reads_back(
        routed(entries, EntropyAnalysis::DontCompress),
        routed(entries, EntropyAnalysis::Compress),
        now,
        image,
    )
}

/// The result of packing, as a mathematical value.
pub open spec fn pack_result_view(r: Result<Vec<u8>, PackError>) -> Result<Seq<u8>, PackFailure> {
    match r {
        Ok(image) => Ok(image@),
        Err(e) => Err(e@),
    }
}

/// Only one entry can be the first that is refused.
pub proof fn lemma_first_refused_unique(entries: Seq<FileEntryView>, i: int, j: int)
    requires
        first_refused(entries, i),
        first_refused(entries, j),
    ensures
        i == j,
{
    if i < j {
        assert(refusal_of(entries[i]) is None);
    }
    if j < i {
        assert(refusal_of(entries[j]) is None);
    }
}

/// Where an entry is refused, there is a first one that is.
pub proof fn lemma_some_refused(entries: Seq<FileEntryView>, index: int)
    requires
        0 <= index < entries.len(),
        refusal_of(entries[index]) is Some,
    ensures
        exists|i: int| first_refused(entries, i),
    decreases index,
{
    if forall|j: int| 0 <= j < index ==> refusal_of(#[trigger] entries[j]) is None {
        assert(first_refused(entries, index));
    } else {
        let j = choose|j: int| 0 <= j < index && refusal_of(#[trigger] entries[j]) is Some;
        lemma_some_refused(entries, j);
    }
}

/// Whether `entry` is refused, and why.
pub fn refusal(entry: &FileEntry) -> (r: Option<Refusal>)
    ensures
        r == refusal_of(entry@),
{
    if !is_plain_path(entry.member.path.as_str()) {
        Some(Refusal::Path)
    } else if entry.member.mode > MAX_MODE {
        Some(Refusal::Mode)
    } else {
        match entry.analysis {
            EntropyAnalysis::DontCompress => {
                if is_reserved(&entry.member.path) {
                    Some(Refusal::ReservedName)
                } else {
                    None
                }
            },
            EntropyAnalysis::Compress => None,
        }
    }
}

/// Builds the two streams of an archive and joins them.
pub struct DualStreamPacker {
    raw: TarBuilder,
    pending: TarBuilder,
    any_pending: bool,
}

impl DualStreamPacker {
    /// The members stored raw so far.
    spec fn raw_members(&self) -> Seq<MemberView> {
        tar_members(self.raw)
    }

    /// The members waiting to be compressed.
    spec fn pending_members(&self) -> Seq<MemberView> {
        tar_members(self.pending)
    }

    /// The packer knows whether anything waits to be compressed.
    spec fn wf(&self) -> bool {
        self.any_pending == (tar_members(self.pending).len() > 0)
    }

    fn new() -> (packer: Self)
        ensures
            packer.wf(),
            packer.raw_members() == Seq::<MemberView>::empty(),
            packer.pending_members() == Seq::<MemberView>::empty(),
    {
        DualStreamPacker { raw: tar_new(), pending: tar_new(), any_pending: false }
    }

    /// Adds `entry`, whose path is plain, to the stream that its decision
    /// names.
    fn route(&mut self, entry: &FileEntry)
        requires
            old(self).wf(),
            plain_path(entry@.member.path),
        ensures
            final(self).wf(),
            entry.analysis == EntropyAnalysis::Compress ==> {
                &&& final(self).pending_members() == old(self).pending_members().push(
                    entry@.member,
                )
                &&& final(self).raw_members() == old(self).raw_members()
            },
            entry.analysis == EntropyAnalysis::DontCompress ==> {
                &&& final(self).raw_members() == old(self).raw_members().push(entry@.member)
                &&& final(self).pending_members() == old(self).pending_members()
            },
    {
        let member = &entry.member;
        match entry.analysis {
            EntropyAnalysis::Compress => {
                let taken = tar_append(
                    &mut self.pending,
                    member.path.as_str(),
                    member.content.as_slice(),
                    member.mode,
                    member.mtime,
                );
                assert(taken is Ok);
                self.any_pending = true;
            },
            EntropyAnalysis::DontCompress => {
                let taken = tar_append(
                    &mut self.raw,
                    member.path.as_str(),
                    member.content.as_slice(),
                    member.mode,
                    member.mtime,
                );
                assert(taken is Ok);
            },
        }
    }

    /// Closes both streams and joins them: the compressed group, where
    /// there is one, becomes the last member of the outer container.
    fn seal(self, now: u64) -> (r: Result<Vec<u8>, PackError>)
        requires
            self.wf(),
        ensures
            pack_result_view(r) == if self.pending_members().len() == 0 {
                Ok::<Seq<u8>, PackFailure>(tar_image(self.raw_members()))
            } else {
                match gzip_stream(tar_image(self.pending_members())) {
                    None => Err(PackFailure::Compression),
                    Some(blob) => Ok(
                        tar_image(self.raw_members().push(reserved_member(blob, now))),
                    ),
                }
            },
            r matches Ok(image) ==> reads_back(
                self.raw_members(),
                self.pending_members(),
                now,
                image@,
            ),
    {
        let DualStreamPacker { raw, pending, any_pending } = self;
        let mut raw = raw;
        if any_pending {
            let inner = match tar_finish(pending) {
                Ok(inner) => inner,
                Err(_) => unreached(),
            };
            let blob = match gzip(inner.as_slice()) {
                Ok(blob) => blob,
                Err(e) => {
                    return Err(PackError::Compression(error_text(&e)));
                },
            };
            let name = reserved_name();
            proof {
                lemma_reserved_path_is_plain();
            }
            let ghost members = tar_members(raw);
            let taken = tar_append(&mut raw, name.as_str(), blob.as_slice(), RESERVED_MODE, now);
            assert(taken is Ok);
            proof {
                let outer = tar_members(raw);
                if all_storable(members) {
                    assert forall|i: int| 0 <= i < outer.len() implies storable(
                        #[trigger] outer[i],
                    ) by {
                        if i < members.len() {
                            assert(outer[i] == members[i]);
                        }
                    }
                }
            }
        }
        match tar_finish(raw) {
            Ok(image) => Ok(image),
            Err(_) => unreached(),
        }
    }

    /// Packs `entries` into one archive: the entries marked `DontCompress`
    /// become members of the outer container, in input order; those marked
    /// `Compress` become the members of an inner container, which is
    /// compressed as one stream and stored last, under the reserved name,
    /// with `now` as its modification time. Without an entry to compress no
    /// reserved member is written.
    ///
    /// The first entry that is refused fails the packing. Where none is,
    /// packing succeeds unless the compressor fails. Every archive that is
    /// returned has at most one reserved member, has one exactly where an
    /// entry was compressed, and unpacks to the entries it was packed from.
    pub fn pack(entries: &Vec<FileEntry>, now: u64) -> (r: Result<Vec<u8>, PackError>)
        ensures
            pack_result_view(r) == pack_outcome(entry_views(entries@), now),
            all_taken(entry_views(entries@)) ==> (r is Ok <==> inner_members(
                entry_views(entries@),
            ).len() == 0 || gzip_stream(tar_image(inner_members(entry_views(entries@)))) is Some),
            r is Ok ==> all_taken(entry_views(entries@)),
            r matches Ok(image) ==> archive_of(entry_views(entries@), now, image@),
            r matches Ok(image) ==> (tar_listing(image@) matches Some(listing) && {
                &&& reserved_count(listing) <= 1
                &&& reserved_count(listing) == 1 <==> inner_members(entry_views(entries@)).len()
                    > 0
            }),
            r matches Ok(image) ==> unpack_outcome(image@) == Ok::<
                Seq<FileEntryView>,
                UnpackFailure,
            >(restored(entry_views(entries@))),
    {
        let ghost views = entry_views(entries@);
        let mut packer = DualStreamPacker::new();
        let mut i: usize = 0;
        while i < entries.len()
            invariant
                0 <= i <= entries.len(),
                views == entry_views(entries@),
                packer.wf(),
                packer.raw_members() == routed(views.take(i as int), EntropyAnalysis::DontCompress),
                packer.pending_members() == routed(views.take(i as int), EntropyAnalysis::Compress),
                forall|j: int| 0 <= j < i ==> refusal_of(#[trigger] views[j]) is None,
            decreases entries.len() - i,
        {
            proof {
                assert(views[i as int] == entries[i as int]@);
                assert(views.take(i + 1).drop_last() =~= views.take(i as int));
                assert(views.take(i + 1).last() == views[i as int]);
            }
            match refusal(&entries[i]) {
                Some(refusal) => {
                    proof {
                        assert(first_refused(views, i as int));
                        let k = choose|k: int| first_refused(views, k);
                        lemma_first_refused_unique(views, i as int, k);
                    }
                    return Err(PackError::Refused { index: i, refusal });
                },
                None => {},
            }
            packer.route(&entries[i]);
            i = i + 1;
        }
        proof {
            assert(views.take(i as int) =~= views);
            assert forall|k: int| !first_refused(views, k) by {}
        }
        let r = packer.seal(now);
        proof {
            if r is Ok {
                lemma_round_trip(views, now, r->Ok_0@);
                lemma_reserved_member_in_archive(views, now, r->Ok_0@);
            }
        }
        r
    }
}

} // verus!
