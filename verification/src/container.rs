//! The tar container. Writing and reading it is the `tar` crate's work;
//! this module states what the library relies on and proves nothing of it.
//!
//! A container is modelled by the members handed to it, in order. Only
//! members with a plain path are handed in, so what is claimed of `tar`
//! does not depend on how a system reads `\` or a drive letter.

use crate::path::plain_path;
use vstd::prelude::*;

verus! {

/// The largest mode a member's header can hold: seven octal digits.
pub const MAX_MODE: u32 = 0o7777777;

/// One member of a container: a file with the metadata that is restored
/// with it.
#[derive(Debug, Clone, PartialEq, Eq)]
pub struct Member {
    pub path: String,
    pub content: Vec<u8>,
    pub mode: u32,
    pub mtime: u64,
}

/// What a member is, as a mathematical value.
pub struct MemberView {
    pub path: Seq<char>,
    pub content: Seq<u8>,
    pub mode: u32,
    pub mtime: u64,
}

impl View for Member {
    type V = MemberView;

    open spec fn view(&self) -> MemberView {
        MemberView { path: self.path@, content: self.content@, mode: self.mode, mtime: self.mtime }
    }
}

/// The views of `members`, in order.
pub open spec fn member_views(members: Seq<Member>) -> Seq<MemberView> {
    members.map_values(|m: Member| m@)
}

/// A member that a container gives back exactly as it was handed in: its
/// path is plain and its mode fits the header.
pub open spec fn storable(m: MemberView) -> bool {
    plain_path(m.path) && m.mode <= MAX_MODE
}

/// Every member of `members` is storable.
pub open spec fn all_storable(members: Seq<MemberView>) -> bool {
    forall|i: int| 0 <= i < members.len() ==> storable(#[trigger] members[i])
}

/// The length of the mark that ends a container: two blocks of zeros.
pub const END_MARK: usize = 1024;

/// `image` ends as a finished container does: with `END_MARK` zero bytes.
pub open spec fn ends_with_mark(image: Seq<u8>) -> bool {
    &&& image.len() >= END_MARK
    &&& forall|i: int| image.len() - END_MARK <= i < image.len() ==> image[i] == 0
}

/// Whether `image` ends with the mark of a finished container.
pub fn has_end_mark(image: &[u8]) -> (r: bool)
    ensures
        r == ends_with_mark(image@),
{
    let len = image.len();
    if len < END_MARK {
        return false;
    }
    let start = len - END_MARK;
    let mut i = start;
    while i < len
        invariant
            len == image.len(),
            start == len - END_MARK,
            start <= i <= len,
            forall|k: int| start <= k < i ==> image[k] == 0,
        decreases len - i,
    {
        if image[i] != 0 {
            return false;
        }
        i = i + 1;
    }
    true
}

/// A container under construction, in memory: a `tar::Builder` that writes
/// into a `Vec<u8>`. Nothing of its inside is visible to the proofs; what
/// it holds is spoken of through `tar_members`.
#[verifier::external_body]
pub struct TarBuilder {
    inner: tar::Builder<Vec<u8>>,
}

/// `std::io::Error`, which the container and the compressor fail with.
#[verifier::external_type_specification]
#[verifier::external_body]
pub struct ExIoError(std::io::Error);

/// The members that `builder` has taken so far, as they were handed in.
pub uninterp spec fn tar_members(builder: TarBuilder) -> Seq<MemberView>;

/// The bytes of the finished container that holds `members`, as
/// `tar::Builder::into_inner` returns them.
pub uninterp spec fn tar_image(members: Seq<MemberView>) -> Seq<u8>;

/// The members that `tar::Archive::entries` reads from `image`; `None`
/// where reading fails.
pub uninterp spec fn tar_listing(image: Seq<u8>) -> Option<Seq<MemberView>>;

/// `tar::Builder::new` on an empty `Vec<u8>`: a container without members.
#[verifier::external_body]
pub(crate) fn tar_new() -> (builder: TarBuilder)
    ensures
        tar_members(builder) == Seq::<MemberView>::empty(),
{
    TarBuilder { inner: tar::Builder::new(Vec::new()) }
}

/// `tar::Builder::append_data` with a fresh GNU header that carries the
/// content's length, `mode` and `mtime`. Claimed of it: a plain path is
/// always taken, under a long-name entry where it does not fit the header,
/// since `tar` refuses a member only for its path and writing to memory
/// does not fail; a member that is taken is added behind the others; and
/// one that is refused leaves the container as it was, the path being
/// examined before anything is written.
#[verifier::external_body]
pub(crate) fn tar_append(
    builder: &mut TarBuilder,
    path: &str,
    content: &[u8],
    mode: u32,
    mtime: u64,
) -> (r: Result<(), std::io::Error>)
    ensures
        plain_path(path@) ==> r is Ok,
        r is Ok ==> tar_members(*final(builder)) == tar_members(*old(builder)).push(
            (MemberView { path: path@, content: content@, mode, mtime }),
        ),
        r is Err ==> tar_members(*final(builder)) == tar_members(*old(builder)),
{
    let mut header = tar::Header::new_gnu();
    header.set_size(content.len() as u64);
    header.set_mode(mode);
    header.set_mtime(mtime);
    header.set_cksum();
    builder.inner.append_data(&mut header, path, content)
}

/// `tar::Builder::into_inner`. Claimed of it: it succeeds, all that it does
/// being to write the end mark into memory; the bytes are a function of
/// the members that the container took, every header field being set from
/// them or left zero; they end with the mark of 1024 zero bytes; and where
/// all members are storable, what `tar::Archive::entries` reads from these
/// bytes is the same members. A plain path is written letter for letter,
/// and a mode of up to seven octal digits, any time and any length are
/// read back as written.
#[verifier::external_body]
pub(crate) fn tar_finish(builder: TarBuilder) -> (r: Result<Vec<u8>, std::io::Error>)
    ensures
        r is Ok,
        r matches Ok(image) ==> image@ == tar_image(tar_members(builder)),
        r matches Ok(image) ==> ends_with_mark(image@),
        r matches Ok(image) ==> all_storable(tar_members(builder)) ==> tar_listing(image@)
            == Some(tar_members(builder)),
{
    builder.inner.into_inner()
}

/// `std::io::Error::to_string`: the words of an error, to be handed on
/// with the failure they explain. Nothing is claimed of them.
#[verifier::external_body]
pub(crate) fn error_text(error: &std::io::Error) -> (text: String) {
    error.to_string()
}

/// `tar::Archive::entries` over `image`, each entry handed out with its
/// path, content, mode and modification time. Claimed of it: what is read
/// is a function of the bytes. A path that is not UTF-8 fails the reading,
/// as does any entry that `tar` cannot read.
#[verifier::external_body]
pub(crate) fn tar_read(image: &[u8]) -> (r: Result<Vec<Member>, std::io::Error>)
    ensures
        r matches Ok(members) ==> tar_listing(image@) == Some(member_views(members@)),
        r is Err ==> tar_listing(image@) is None,
{
    let mut members = Vec::new();
    let mut archive = tar::Archive::new(image);
    for entry in archive.entries()? {
        let mut entry = entry?;
        let path = String::from_utf8(entry.path_bytes().into_owned())
            .map_err(std::io::Error::other)?;
        let mode = entry.header().mode()?;
        let mtime = entry.header().mtime()?;
        let mut content = Vec::new();
        std::io::Read::read_to_end(&mut entry, &mut content)?;
        members.push(Member { path, content, mode, mtime });
    }
    Ok(members)
}

} // verus!
