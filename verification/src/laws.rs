//! What holds of packing and unpacking together.
//!
//! An archive enters these statements through `archive_of`, which is what
//! `pack` and `compress` state of every archive they return.

use crate::container::{
    all_storable, ends_with_mark, storable, tar_image, tar_listing, MemberView,
};
use crate::entry::{
    lemma_reserved_path_is_plain, reserved_count, reserved_member, reserved_path, routed, tagged,
    EntropyAnalysis, FileEntryView,
};
use crate::gzip::{gunzip_stream, gzip_stream};
use crate::pack::{
    all_taken, archive_of, first_refused, inner_members, lemma_some_refused, outer_members,
    refusal_of,
};
use crate::path::{escapes, lemma_plain_path_is_relative};
use crate::unpack::{
    first_escaping, lemma_reserved_count, lemma_some_escapes, merged, reserved_at, unpack_outcome,
    UnpackFailure,
};
use vstd::prelude::*;

verus! {

/// The files that an archive of `entries` restores: those stored raw, in
/// input order, then those that were compressed, in input order.
pub open spec fn restored(entries: Seq<FileEntryView>) -> Seq<FileEntryView> {
    tagged(routed(entries, EntropyAnalysis::DontCompress), EntropyAnalysis::DontCompress) + tagged(
        routed(entries, EntropyAnalysis::Compress),
        EntropyAnalysis::Compress,
    )
}

/// The members of `entries`, in order.
pub open spec fn members_of(entries: Seq<FileEntryView>) -> Seq<MemberView> {
    entries.map_values(|e: FileEntryView| e.member)
}

/// Every member routed out of `entries` is a member of `entries`.
pub proof fn lemma_routed_members(entries: Seq<FileEntryView>, analysis: EntropyAnalysis)
    ensures
        routed(entries, analysis).len() <= entries.len(),
        forall|k: int|
            0 <= k < routed(entries, analysis).len() ==> exists|i: int|
                0 <= i < entries.len() && (#[trigger] entries[i]).analysis == analysis
                    && entries[i].member == #[trigger] routed(entries, analysis)[k],
        (forall|i: int| 0 <= i < entries.len() ==> (#[trigger] entries[i]).analysis != analysis)
            <==> routed(entries, analysis).len() == 0,
    decreases entries.len(),
{
    if entries.len() > 0 {
        let init = entries.drop_last();
        lemma_routed_members(init, analysis);
        let out = routed(entries, analysis);
        assert forall|k: int| 0 <= k < out.len() implies exists|i: int|
            0 <= i < entries.len() && (#[trigger] entries[i]).analysis == analysis
                && entries[i].member == #[trigger] out[k] by {
            if k < routed(init, analysis).len() {
                let i = choose|i: int|
                    0 <= i < init.len() && (#[trigger] init[i]).analysis == analysis
                        && init[i].member == routed(init, analysis)[k];
                assert(entries[i] == init[i]);
            } else {
                assert(entries[entries.len() - 1].member == out[k]);
            }
        }
        if forall|i: int| 0 <= i < entries.len() ==> (#[trigger] entries[i]).analysis != analysis {
            assert forall|i: int| 0 <= i < init.len() implies (#[trigger] init[i]).analysis
                != analysis by {
                assert(init[i] == entries[i]);
            }
            assert(entries[entries.len() - 1].analysis != analysis);
        }
        if out.len() == 0 {
            assert forall|i: int| 0 <= i < entries.len() implies (#[trigger] entries[i]).analysis
                != analysis by {
                if i < init.len() {
                    assert(init[i] == entries[i]);
                }
            }
        }
    }
}

/// Members that are all storable: none escapes, and where none bears the
/// reserved name, none is counted as reserved.
proof fn lemma_storable_members(members: Seq<MemberView>)
    requires
        all_storable(members),
    ensures
        forall|i: int| !first_escaping(members, i),
        (forall|i: int| 0 <= i < members.len() ==> (#[trigger] members[i]).path != reserved_path())
            ==> reserved_count(members) == 0,
{
    assert forall|i: int| !first_escaping(members, i) by {
        if 0 <= i < members.len() {
            assert(storable(members[i]));
            lemma_plain_path_is_relative(members[i].path);
        }
    }
    lemma_reserved_count(members);
}

/// An archive is returned only where no entry is refused.
pub proof fn lemma_archive_entries_are_taken(entries: Seq<FileEntryView>, now: u64, image: Seq<u8>)
    requires
        archive_of(entries, now, image),
    ensures
        all_taken(entries),
{
    assert forall|i: int| 0 <= i < entries.len() implies refusal_of(#[trigger] entries[i])
        is None by {
        if refusal_of(entries[i]) is Some {
            lemma_some_refused(entries, i);
        }
    }
}

/// Where no entry is refused, both streams hold storable members only,
/// and no raw member bears the reserved name.
proof fn lemma_taken_streams(entries: Seq<FileEntryView>)
    requires
        all_taken(entries),
    ensures
        all_storable(routed(entries, EntropyAnalysis::DontCompress)),
        all_storable(routed(entries, EntropyAnalysis::Compress)),
        reserved_count(routed(entries, EntropyAnalysis::DontCompress)) == 0,
{
    let raw = routed(entries, EntropyAnalysis::DontCompress);
    let pending = routed(entries, EntropyAnalysis::Compress);
    lemma_routed_members(entries, EntropyAnalysis::DontCompress);
    lemma_routed_members(entries, EntropyAnalysis::Compress);
    assert forall|k: int| 0 <= k < raw.len() implies storable(#[trigger] raw[k]) && raw[k].path
        != reserved_path() by {
        let i = choose|i: int|
            0 <= i < entries.len() && (#[trigger] entries[i]).analysis
                == EntropyAnalysis::DontCompress && entries[i].member == raw[k];
        assert(refusal_of(entries[i]) is None);
    }
    assert forall|k: int| 0 <= k < pending.len() implies storable(#[trigger] pending[k]) by {
        let i = choose|i: int|
            0 <= i < entries.len() && (#[trigger] entries[i]).analysis == EntropyAnalysis::Compress
                && entries[i].member == pending[k];
        assert(refusal_of(entries[i]) is None);
    }
    lemma_storable_members(raw);
}

/// What an archive lists, and how many of its members are reserved. An
/// archive that packing returned lists the raw entries in input order,
/// followed by the reserved member where an entry was compressed. So it has
/// at most one reserved member, and has one exactly where an entry was
/// compressed: none where every entry is stored raw, and one, the archive's
/// only member, where every entry is compressed and there is one at least.
pub proof fn lemma_reserved_member_in_archive(
    entries: Seq<FileEntryView>,
    now: u64,
    image: Seq<u8>,
)
    requires
        archive_of(entries, now, image),
    ensures
        tar_listing(image) matches Some(listing) && {
            &&& inner_members(entries).len() == 0 ==> listing == outer_members(entries, None, now)
            &&& inner_members(entries).len() > 0 ==> listing.len() > 0 && listing.last().path
                == reserved_path() && listing.drop_last() == outer_members(entries, None, now)
            &&& reserved_count(listing) <= 1
            &&& reserved_count(listing) == 1 <==> inner_members(entries).len() > 0
            &&& (forall|i: int|
                0 <= i < entries.len() ==> (#[trigger] entries[i]).analysis
                    == EntropyAnalysis::DontCompress) ==> reserved_count(listing) == 0
            &&& entries.len() > 0 && (forall|i: int|
                0 <= i < entries.len() ==> (#[trigger] entries[i]).analysis
                    == EntropyAnalysis::Compress) ==> listing.len() == 1 && reserved_count(listing)
                == 1
        },
{
    let raw = routed(entries, EntropyAnalysis::DontCompress);
    let pending = routed(entries, EntropyAnalysis::Compress);
    lemma_archive_entries_are_taken(entries, now, image);
    lemma_taken_streams(entries);
    lemma_routed_members(entries, EntropyAnalysis::DontCompress);
    lemma_routed_members(entries, EntropyAnalysis::Compress);
    if pending.len() > 0 {
        let blob = gzip_stream(tar_image(pending))->0;
        let listing = raw.push(reserved_member(blob, now));
        assert(tar_listing(image) == Some(listing));
        assert(listing.drop_last() =~= raw);
        assert(reserved_count(listing) == 1);
        if entries.len() > 0 && (forall|i: int|
            0 <= i < entries.len() ==> (#[trigger] entries[i]).analysis
                == EntropyAnalysis::Compress) {
            assert(raw.len() == 0);
        }
    } else {
        assert(tar_listing(image) == Some(raw));
    }
}

/// The round trip. Every archive that packing returns unpacks to the
/// files it was packed from: the raw ones first, then the compressed ones,
/// each group in input order, with paths, contents, modes and times as
/// they were handed in.
pub proof fn lemma_round_trip(entries: Seq<FileEntryView>, now: u64, image: Seq<u8>)
    requires
        archive_of(entries, now, image),
    ensures
        unpack_outcome(image) == Ok::<Seq<FileEntryView>, UnpackFailure>(restored(entries)),
{
    let raw = routed(entries, EntropyAnalysis::DontCompress);
    let pending = routed(entries, EntropyAnalysis::Compress);
    lemma_archive_entries_are_taken(entries, now, image);
    lemma_taken_streams(entries);
    lemma_storable_members(raw);
    lemma_storable_members(pending);
    if pending.len() == 0 {
        assert(tar_listing(image) == Some(raw));
        assert(restored(entries) =~= tagged(raw, EntropyAnalysis::DontCompress));
    } else {
        let inner = tar_image(pending);
        let blob = gzip_stream(inner)->0;
        let outer = raw.push(reserved_member(blob, now));
        lemma_reserved_path_is_plain();
        assert(tar_listing(image) == Some(outer));
        assert(all_storable(outer)) by {
            assert forall|i: int| 0 <= i < outer.len() implies storable(#[trigger] outer[i]) by {
                if i < raw.len() {
                    assert(outer[i] == raw[i]);
                }
            }
        }
        lemma_storable_members(outer);
        assert(outer.drop_last() =~= raw);
        assert(reserved_count(outer) == 1);
        let at = raw.len() as int;
        assert(reserved_at(outer, at));
        lemma_reserved_count(outer);
        let k = choose|k: int| reserved_at(outer, k);
        assert(k == at);
        assert(outer.take(at) =~= raw);
        assert(outer.skip(at + 1) =~= Seq::<MemberView>::empty());
        assert(merged(outer, at, pending) =~= restored(entries));
    }
}

/// Packing the same entries at two times gives archives that unpack to
/// the same files. Only the reserved member's time differs between them.
pub proof fn lemma_repacking_restores_the_same(
    entries: Seq<FileEntryView>,
    now_a: u64,
    image_a: Seq<u8>,
    now_b: u64,
    image_b: Seq<u8>,
)
    requires
        archive_of(entries, now_a, image_a),
        archive_of(entries, now_b, image_b),
    ensures
        unpack_outcome(image_a) == unpack_outcome(image_b),
        unpack_outcome(image_a) is Ok,
{
    lemma_round_trip(entries, now_a, image_a);
    lemma_round_trip(entries, now_b, image_b);
}

/// Nothing is lost and nothing is made up: the files that an archive
/// restores are the entries it was packed from, each once and with its
/// decision, whatever the decisions are. Only their order may differ.
pub proof fn lemma_restored_is_a_rearrangement(entries: Seq<FileEntryView>)
    ensures
        restored(entries).len() == entries.len(),
        restored(entries).to_multiset() == entries.to_multiset(),
    decreases entries.len(),
{
    let raw = routed(entries, EntropyAnalysis::DontCompress);
    let pending = routed(entries, EntropyAnalysis::Compress);
    let left = tagged(raw, EntropyAnalysis::DontCompress);
    let right = tagged(pending, EntropyAnalysis::Compress);
    vstd::seq_lib::lemma_multiset_commutative(left, right);
    if entries.len() == 0 {
        assert(restored(entries) =~= entries);
    } else {
        let init = entries.drop_last();
        let last = entries.last();
        lemma_restored_is_a_rearrangement(init);
        let init_left = tagged(
            routed(init, EntropyAnalysis::DontCompress),
            EntropyAnalysis::DontCompress,
        );
        let init_right = tagged(routed(init, EntropyAnalysis::Compress), EntropyAnalysis::Compress);
        vstd::seq_lib::lemma_multiset_commutative(init_left, init_right);
        assert(entries =~= init.push(last));
        vstd::seq_lib::to_multiset_build(init, last);
        match last.analysis {
            EntropyAnalysis::DontCompress => {
                assert(left =~= init_left.push(last));
                assert(right =~= init_right);
                vstd::seq_lib::to_multiset_build(init_left, last);
            },
            EntropyAnalysis::Compress => {
                assert(left =~= init_left);
                assert(right =~= init_right.push(last));
                vstd::seq_lib::to_multiset_build(init_right, last);
            },
        }
        assert(restored(entries).to_multiset() =~= entries.to_multiset());
    }
}

/// An archive whose outer container lists a member with an escaping
/// path (one with a `..` component, an absolute one) is refused as a path
/// traversal, whatever else it holds, and no file is handed out.
pub proof fn lemma_outer_traversal_is_refused(archive: Seq<u8>, index: int)
    requires
        ends_with_mark(archive),
        tar_listing(archive) matches Some(outer) && 0 <= index < outer.len() && escapes(
            outer[index].path,
        ),
    ensures
        unpack_outcome(archive) matches Err(UnpackFailure::PathTraversal(path)) && escapes(path),
{
    let outer = tar_listing(archive)->0;
    lemma_some_escapes(outer, index);
}

/// An archive whose compressed group lists a member with an escaping path
/// is refused as a path traversal, where unpacking gets as far as that
/// group: the outer paths are harmless and the one reserved member expands
/// to a finished container.
pub proof fn lemma_inner_traversal_is_refused(archive: Seq<u8>, at: int, index: int)
    requires
        ends_with_mark(archive),
        tar_listing(archive) matches Some(outer) && {
            &&& forall|i: int| 0 <= i < outer.len() ==> !escapes(#[trigger] outer[i].path)
            &&& reserved_count(outer) == 1
            &&& reserved_at(outer, at)
            &&& gunzip_stream(outer[at].content) matches Some(image) && {
                &&& ends_with_mark(image)
                &&& tar_listing(image) matches Some(inner) && 0 <= index < inner.len()
                    && escapes(inner[index].path)
            }
        },
    ensures
        unpack_outcome(archive) matches Err(UnpackFailure::PathTraversal(path)) && escapes(path),
{
    let outer = tar_listing(archive)->0;
    assert forall|i: int| !first_escaping(outer, i) by {
        if 0 <= i < outer.len() {
            assert(!escapes(outer[i].path));
        }
    }
    lemma_reserved_count(outer);
    let k = choose|k: int| reserved_at(outer, k);
    assert(k == at);
    let image = gunzip_stream(outer[at].content)->0;
    let inner = tar_listing(image)->0;
    lemma_some_escapes(inner, index);
}

} // verus!
