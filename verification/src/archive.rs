//! Archiving a whole file set: `compress` decides for each file and packs.
//! The way back is `unpack`.

use crate::config::{ArchiveConfig, ConfigView};
use crate::container::{member_views, tar_image, tar_listing, Member, MemberView};
use crate::gzip::gzip_stream;
use crate::entropy::{analyze_entropy, file_analysis};
use crate::entry::{entry_views, reserved_count, FileEntry, FileEntryView};
use crate::laws::restored;
use crate::pack::{
    all_taken, archive_of, inner_members, pack_outcome, pack_result_view, DualStreamPacker,
    PackError,
};
use crate::unpack::{unpack_outcome, UnpackFailure};
use vstd::prelude::*;

verus! {

/// `files`, each with the decision that `config` takes for its content.
pub open spec fn analyzed(files: Seq<MemberView>, config: ConfigView) -> Seq<FileEntryView> {
    files.map_values(
        |m: MemberView| (FileEntryView { member: m, analysis: file_analysis(m.content, config) }),
    )
}

/// Decides for every file of `files` under `config`.
pub fn analyze_all(files: Vec<Member>, config: &ArchiveConfig) -> (entries: Vec<FileEntry>)
    ensures
        entry_views(entries@) == analyzed(member_views(files@), config@),
{
    let ghost all = member_views(files@);
    let mut entries: Vec<FileEntry> = Vec::new();
    for member in it: files
        invariant
            it.seq() == files@,
            all == member_views(files@),
            entry_views(entries@) == analyzed(all.take(it.index() as int), config@),
    {
        let ghost before = entry_views(entries@);
        let analysis = analyze_entropy(member.content.as_slice(), config);
        entries.push(FileEntry { member, analysis });
        proof {
            let n = it.index() as int;
            assert(all[n] == member@);
            assert(entry_views(entries@) =~= before.push(
                (FileEntryView { member: member@, analysis }),
            ));
            assert(analyzed(all.take(n + 1), config@) =~= analyzed(all.take(n), config@).push(
                (FileEntryView {
                    member: all[n],
                    analysis: file_analysis(all[n].content, config@),
                }),
            ));
        }
    }
    proof {
        assert(all.take(files@.len() as int) =~= all);
    }
    entries
}

/// Packs `files` into one archive at time `now`: each file is stored raw
/// or with the compressed group, as `config` decides for its content.
///
/// The first file that is refused fails the packing: one whose path is not
/// plain, one whose mode does not fit a header, one that is to be stored
/// raw under the reserved name. Where none is, packing succeeds unless the
/// compressor fails. Every archive that is returned has at most one
/// reserved member, has one exactly where a file was compressed, and
/// unpacks to the files it was packed from.
pub fn compress(files: Vec<Member>, config: &ArchiveConfig, now: u64) -> (r: Result<
    Vec<u8>,
    PackError,
>)
    ensures
        pack_result_view(r) == pack_outcome(analyzed(member_views(files@), config@), now),
        all_taken(analyzed(member_views(files@), config@)) ==> (r is Ok <==> inner_members(
            analyzed(member_views(files@), config@),
        ).len() == 0 || gzip_stream(
            tar_image(inner_members(analyzed(member_views(files@), config@))),
        ) is Some),
        r is Ok ==> all_taken(analyzed(member_views(files@), config@)),
        r matches Ok(image) ==> archive_of(analyzed(member_views(files@), config@), now, image@),
        r matches Ok(image) ==> (tar_listing(image@) matches Some(listing) && {
            &&& reserved_count(listing) <= 1
            &&& reserved_count(listing) == 1 <==> inner_members(
                analyzed(member_views(files@), config@),
            ).len() > 0
        }),
        r matches Ok(image) ==> unpack_outcome(image@) == Ok::<Seq<FileEntryView>, UnpackFailure>(
            restored(analyzed(member_views(files@), config@)),
        ),
{
    let entries = analyze_all(files, config);
    DualStreamPacker::pack(&entries, now)
}

} // verus!
