use std::io::{Read, Write};
use ttare::archive::{analyze_all, compress};
use ttare::config::{ArchiveConfig, ENTROPY_THRESHOLD};
use ttare::container::{Member, MAX_MODE};
use ttare::entry::{is_reserved, reserved_name, EntropyAnalysis, FileEntry, RESERVED_MODE};
use ttare::fixed::ONE;
use ttare::pack::{refusal, DualStreamPacker, PackError, Refusal};
use ttare::unpack::{unpack, Corruption, UnpackError};

const RESERVED: &str = ".ttare.tar.gz";

fn noise(len: usize, seed: u64) -> Vec<u8> {
    let mut state = seed;
    let mut bytes = Vec::with_capacity(len);
    for _ in 0..len {
        state = state.wrapping_mul(6364136223846793005).wrapping_add(1442695040888963407);
        bytes.push((state >> 56) as u8);
    }
    bytes
}

fn member(path: &str, content: &[u8]) -> Member {
    Member { path: path.to_string(), content: content.to_vec(), mode: 0o644, mtime: 1_700_000_000 }
}

fn raw(path: &str, content: &[u8]) -> FileEntry {
    FileEntry { member: member(path, content), analysis: EntropyAnalysis::DontCompress }
}

fn packed(path: &str, content: &[u8]) -> FileEntry {
    FileEntry { member: member(path, content), analysis: EntropyAnalysis::Compress }
}

/// Lists a tar image with the `tar` crate itself.
fn list(image: &[u8]) -> Vec<(String, Vec<u8>, u32, u64)> {
    let mut archive = tar::Archive::new(image);
    let mut out = Vec::new();
    for entry in archive.entries().unwrap() {
        let mut entry = entry.unwrap();
        let path = entry.path().unwrap().to_str().unwrap().to_string();
        let mode = entry.header().mode().unwrap();
        let mtime = entry.header().mtime().unwrap();
        let mut content = Vec::new();
        entry.read_to_end(&mut content).unwrap();
        out.push((path, content, mode, mtime));
    }
    out
}

fn gunzip(stream: &[u8]) -> Vec<u8> {
    let mut out = Vec::new();
    flate2::read::GzDecoder::new(stream).read_to_end(&mut out).unwrap();
    out
}

fn gzip(data: &[u8]) -> Vec<u8> {
    let mut encoder = flate2::write::GzEncoder::new(Vec::new(), flate2::Compression::default());
    encoder.write_all(data).unwrap();
    encoder.finish().unwrap()
}

/// A tar image with the given members, written with the `tar` crate
/// itself; the path goes into the header as it is.
fn image_of(members: &[(&str, &[u8])]) -> Vec<u8> {
    let mut builder = tar::Builder::new(Vec::new());
    for (path, content) in members {
        let mut header = tar::Header::new_gnu();
        header.as_old_mut().name[..path.len()].copy_from_slice(path.as_bytes());
        header.set_size(content.len() as u64);
        header.set_mode(0o600);
        header.set_mtime(42);
        header.set_cksum();
        builder.append(&header, *content).unwrap();
    }
    builder.into_inner().unwrap()
}

#[test]
fn reserved_name_is_fixed() {
    assert_eq!(reserved_name(), RESERVED);
    assert!(is_reserved(&RESERVED.to_string()));
    assert!(!is_reserved(&"ttare.tar.gz".to_string()));
    assert!(!is_reserved(&"./.ttare.tar.gz".to_string()));
    assert!(!is_reserved(&String::new()));
    assert_eq!(RESERVED_MODE, 0o444);
}

#[test]
fn pack_of_nothing_is_an_empty_container() {
    let image = DualStreamPacker::pack(&Vec::new(), 0).unwrap();
    assert_eq!(image, vec![0u8; 1024]);
    assert_eq!(unpack(&image), Ok(Vec::new()));
}

#[test]
fn pack_raw_only_writes_no_reserved_member() {
    let entries = vec![raw("b.bin", &noise(700, 1)), raw("dir/c.bin", &noise(10, 2))];
    let image = DualStreamPacker::pack(&entries, 99).unwrap();
    let listing = list(&image);
    assert_eq!(listing.len(), 2);
    assert_eq!(listing[0], ("b.bin".to_string(), noise(700, 1), 0o644, 1_700_000_000));
    assert_eq!(listing[1], ("dir/c.bin".to_string(), noise(10, 2), 0o644, 1_700_000_000));
    assert!(listing.iter().all(|m| m.0 != RESERVED));
}

#[test]
fn pack_compressed_only_writes_exactly_the_reserved_member() {
    let entries = vec![packed("a.txt", b"aaaa"), packed("dir/b.txt", b"bbbbbbbb")];
    let image = DualStreamPacker::pack(&entries, 1234).unwrap();
    let listing = list(&image);
    assert_eq!(listing.len(), 1);
    assert_eq!(listing[0].0, RESERVED);
    assert_eq!(listing[0].2, 0o444);
    assert_eq!(listing[0].3, 1234);
    let inner = list(&gunzip(&listing[0].1));
    assert_eq!(inner.len(), 2);
    assert_eq!(inner[0], ("a.txt".to_string(), b"aaaa".to_vec(), 0o644, 1_700_000_000));
    assert_eq!(inner[1], ("dir/b.txt".to_string(), b"bbbbbbbb".to_vec(), 0o644, 1_700_000_000));
}

#[test]
fn pack_mixed_keeps_input_order_within_each_stream() {
    let entries = vec![
        packed("1.txt", b"one"),
        raw("2.bin", b"two"),
        packed("3.txt", b"three"),
        raw("4.bin", b"four"),
    ];
    let image = DualStreamPacker::pack(&entries, 5).unwrap();
    let listing = list(&image);
    let names: Vec<&str> = listing.iter().map(|m| m.0.as_str()).collect();
    assert_eq!(names, vec!["2.bin", "4.bin", RESERVED]);
    let inner = list(&gunzip(&listing[2].1));
    let names: Vec<&str> = inner.iter().map(|m| m.0.as_str()).collect();
    assert_eq!(names, vec!["1.txt", "3.txt"]);
}

#[test]
fn pack_compresses_the_group_as_one_gzip_stream() {
    let entries = vec![packed("a.txt", &vec![b'a'; 10_000]), packed("b.txt", &vec![b'a'; 10_000])];
    let image = DualStreamPacker::pack(&entries, 0).unwrap();
    let listing = list(&image);
    let blob = &listing[0].1;
    assert_eq!(&blob[..3], &[0x1f, 0x8b, 8]);
    assert!(blob.len() < 1000);
    assert_eq!(gunzip(blob).len() % 512, 0);
    assert!(gunzip(blob).len() > 20_000);
}

#[test]
fn pack_rejects_parent_directory_path() {
    let entries = vec![packed("a.txt", b"aaaa"), raw("../b.txt", b"bbbb"), raw("/c", b"cc")];
    assert_eq!(
        DualStreamPacker::pack(&entries, 0),
        Err(PackError::Refused { index: 1, refusal: Refusal::Path })
    );
}

#[test]
fn pack_rejects_absolute_path() {
    let entries = vec![packed("/etc/passwd", b"x")];
    assert_eq!(
        DualStreamPacker::pack(&entries, 0),
        Err(PackError::Refused { index: 0, refusal: Refusal::Path })
    );
}

#[test]
fn pack_rejects_empty_path() {
    let entries = vec![raw("ok", b"x"), raw("also/ok", b"y"), packed("", b"z")];
    assert_eq!(
        DualStreamPacker::pack(&entries, 0),
        Err(PackError::Refused { index: 2, refusal: Refusal::Path })
    );
}

#[test]
fn pack_takes_every_plain_path() {
    let long = format!("{}/{}", "d".repeat(120), "f".repeat(130));
    let dots = format!("{}..", "x".repeat(98));
    let paths = [
        "a",
        "a b/c d",
        "..a/b..",
        ".hidden",
        "...",
        "caf\u{e9}/na\u{ef}ve.txt",
        long.as_str(),
        dots.as_str(),
    ];
    for path in paths {
        let image = DualStreamPacker::pack(&vec![raw(path, b"x"), packed(path, b"y")], 0);
        assert!(image.is_ok(), "{path}");
    }
}

#[test]
fn round_trip_of_mixed_entries() {
    let entries = vec![
        packed("a.txt", &vec![b'a'; 10_000]),
        raw("b.bin", &noise(10_000, 9)),
        packed("docs/readme.md", b"# read me\n"),
        raw("media/clip.bin", &noise(513, 3)),
    ];
    let image = DualStreamPacker::pack(&entries, 77).unwrap();
    let restored = unpack(&image).unwrap();
    assert_eq!(
        restored,
        vec![entries[1].clone(), entries[3].clone(), entries[0].clone(), entries[2].clone()]
    );
}

#[test]
fn round_trip_keeps_awkward_members() {
    let long = format!("{}/{}", "d".repeat(120), "f".repeat(130));
    let exact = "e".repeat(100);
    let mut entries = Vec::new();
    for (i, path) in ["empty", "a b/c d", "caf\u{e9}/\u{1f600}.txt", &long, &exact, "..a/.b"]
        .iter()
        .enumerate()
    {
        let content = noise([0usize, 1, 511, 512, 513, 2048][i], i as u64);
        entries.push(FileEntry {
            member: Member {
                path: path.to_string(),
                content: content.clone(),
                mode: [0u32, 0o7, 0o100644, MAX_MODE, 0o755, 0o444][i],
                mtime: [0u64, 1, 8_589_934_591, 8_589_934_592, u64::MAX, 1 << 40][i],
            },
            analysis: EntropyAnalysis::DontCompress,
        });
        entries.push(FileEntry {
            member: Member {
                path: format!("z/{path}"),
                content,
                mode: [0u32, 0o7, 0o100644, MAX_MODE, 0o755, 0o444][i],
                mtime: [0u64, 1, 8_589_934_591, 8_589_934_592, u64::MAX, 1 << 40][i],
            },
            analysis: EntropyAnalysis::Compress,
        });
    }
    let image = DualStreamPacker::pack(&entries, u64::MAX).unwrap();
    let restored = unpack(&image).unwrap();
    let mut expected: Vec<FileEntry> = Vec::new();
    expected.extend(entries.iter().filter(|e| e.analysis == EntropyAnalysis::DontCompress).cloned());
    expected.extend(entries.iter().filter(|e| e.analysis == EntropyAnalysis::Compress).cloned());
    assert_eq!(restored, expected);
}

#[test]
fn round_trip_of_compressed_entry_named_like_the_reserved_member() {
    let entries = vec![packed(RESERVED, b"not a group"), raw("b", b"bb")];
    let image = DualStreamPacker::pack(&entries, 1).unwrap();
    assert_eq!(unpack(&image), Ok(vec![entries[1].clone(), entries[0].clone()]));
}

#[test]
fn raw_entry_named_like_the_reserved_member_is_refused() {
    let entries = vec![raw(RESERVED, b"not a group")];
    assert_eq!(
        DualStreamPacker::pack(&entries, 1),
        Err(PackError::Refused { index: 0, refusal: Refusal::ReservedName })
    );
    let entries = vec![packed("a", b"aa"), raw("b", b"bb"), raw(RESERVED, b"not a group")];
    assert_eq!(
        DualStreamPacker::pack(&entries, 1),
        Err(PackError::Refused { index: 2, refusal: Refusal::ReservedName })
    );
}

#[test]
fn entry_with_a_mode_beyond_the_header_is_refused() {
    let mut entry = raw("a", b"a");
    entry.member.mode = MAX_MODE + 1;
    assert_eq!(refusal(&entry), Some(Refusal::Mode));
    assert_eq!(
        DualStreamPacker::pack(&vec![raw("ok", b"x"), entry], 1),
        Err(PackError::Refused { index: 1, refusal: Refusal::Mode })
    );
    let mut entry = packed("a", b"a");
    entry.member.mode = u32::MAX;
    assert_eq!(refusal(&entry), Some(Refusal::Mode));
    entry.member.mode = MAX_MODE;
    assert_eq!(refusal(&entry), None);
}

#[test]
fn entries_that_would_not_come_back_as_given_are_refused() {
    for path in ["./a.txt", "d//e", "dir/", ".", "a/./b", "a\\b", "C:x", "c:/x", "a\0b", ""] {
        assert_eq!(refusal(&raw(path, b"x")), Some(Refusal::Path), "{path}");
        assert_eq!(refusal(&packed(path, b"x")), Some(Refusal::Path), "{path}");
        assert_eq!(
            DualStreamPacker::pack(&vec![raw(path, b"x")], 0),
            Err(PackError::Refused { index: 0, refusal: Refusal::Path })
        );
    }
    for path in ["a.txt", "d/e", "ab:c", "1:2", ":x"] {
        assert_eq!(refusal(&raw(path, b"x")), None, "{path}");
    }
    assert_eq!(refusal(&packed(RESERVED, b"x")), None);
    assert_eq!(refusal(&raw(RESERVED, b"x")), Some(Refusal::ReservedName));
}

#[test]
fn the_path_is_looked_at_before_the_mode_and_the_name() {
    let mut entry = raw("a//b", b"a");
    entry.member.mode = u32::MAX;
    assert_eq!(refusal(&entry), Some(Refusal::Path));
    let mut entry = raw(RESERVED, b"a");
    entry.member.mode = u32::MAX;
    assert_eq!(refusal(&entry), Some(Refusal::Mode));
}

#[test]
fn every_archive_has_the_reserved_member_exactly_where_something_was_compressed() {
    let sets = vec![
        vec![],
        vec![raw("a", b"1")],
        vec![packed("a", b"1")],
        vec![raw("a", b"1"), packed("b", b"2"), raw("c", b"3"), packed(RESERVED, b"4")],
    ];
    for entries in sets {
        let image = DualStreamPacker::pack(&entries, 9).unwrap();
        let reserved = list(&image).iter().filter(|m| m.0 == RESERVED).count();
        let compressed =
            entries.iter().filter(|e| e.analysis == EntropyAnalysis::Compress).count();
        assert_eq!(reserved, if compressed > 0 { 1 } else { 0 });
    }
}

#[test]
fn packing_twice_restores_the_same_files() {
    let entries = vec![packed("a.txt", &vec![b'a'; 3000]), raw("b.bin", &noise(3000, 4))];
    let first = DualStreamPacker::pack(&entries, 1_000).unwrap();
    let second = DualStreamPacker::pack(&entries, 2_000).unwrap();
    assert_ne!(first, second);
    assert_eq!(unpack(&first), unpack(&second));
    let again = DualStreamPacker::pack(&entries, 1_000).unwrap();
    assert_eq!(first, again);
}

#[test]
fn unpack_reads_a_plain_container() {
    let image = image_of(&[("x/y.txt", b"hello"), ("z", b"")]);
    let restored = unpack(&image).unwrap();
    assert_eq!(restored.len(), 2);
    assert_eq!(
        restored[0],
        FileEntry {
            member: Member {
                path: "x/y.txt".to_string(),
                content: b"hello".to_vec(),
                mode: 0o600,
                mtime: 42
            },
            analysis: EntropyAnalysis::DontCompress,
        }
    );
    assert_eq!(restored[1].member.path, "z");
    assert_eq!(restored[1].member.content, Vec::<u8>::new());
}

#[test]
fn unpack_puts_the_group_in_the_place_of_the_reserved_member() {
    let inner = image_of(&[("in/1", b"one"), ("in/2", b"two")]);
    let blob = gzip(&inner);
    let image = image_of(&[("first", b"f"), (RESERVED, &blob), ("last", b"l")]);
    let restored = unpack(&image).unwrap();
    let seen: Vec<(&str, EntropyAnalysis)> =
        restored.iter().map(|e| (e.member.path.as_str(), e.analysis)).collect();
    assert_eq!(
        seen,
        vec![
            ("first", EntropyAnalysis::DontCompress),
            ("in/1", EntropyAnalysis::Compress),
            ("in/2", EntropyAnalysis::Compress),
            ("last", EntropyAnalysis::DontCompress),
        ]
    );
    assert_eq!(restored[1].member.content, b"one");
    assert_eq!(restored[2].member.mode, 0o600);
}

#[test]
fn unpack_refuses_parent_traversal() {
    let image = image_of(&[("ok", b"1"), ("a/../../evil", b"2"), ("/abs", b"3")]);
    assert_eq!(unpack(&image), Err(UnpackError::PathTraversal("a/../../evil".to_string())));
    let image = image_of(&[("../evil", b"2")]);
    assert_eq!(unpack(&image), Err(UnpackError::PathTraversal("../evil".to_string())));
    let image = image_of(&[("evil/..", b"2")]);
    assert_eq!(unpack(&image), Err(UnpackError::PathTraversal("evil/..".to_string())));
}

#[test]
fn unpack_refuses_absolute_path() {
    let image = image_of(&[("/etc/passwd", b"root")]);
    assert_eq!(unpack(&image), Err(UnpackError::PathTraversal("/etc/passwd".to_string())));
}

#[test]
fn unpack_refuses_traversal_inside_the_group() {
    let inner = image_of(&[("fine", b"1"), ("../../evil", b"2")]);
    let image = image_of(&[("a", b"a"), (RESERVED, &gzip(&inner))]);
    assert_eq!(unpack(&image), Err(UnpackError::PathTraversal("../../evil".to_string())));
}

#[test]
fn unpack_looks_at_outer_paths_before_anything_else() {
    let image = image_of(&[(RESERVED, b"junk"), (RESERVED, b"junk"), ("../evil", b"2")]);
    assert_eq!(unpack(&image), Err(UnpackError::PathTraversal("../evil".to_string())));
}

#[test]
fn unpack_takes_dots_that_are_no_components() {
    let image = image_of(&[("..a/b..", b"1"), ("...", b"2"), ("a/.../b", b"3"), ("./x", b"4")]);
    assert_eq!(unpack(&image).unwrap().len(), 4);
}

#[test]
fn unpack_refuses_two_reserved_members() {
    let blob = gzip(&image_of(&[("x", b"1")]));
    let image = image_of(&[(RESERVED, &blob), ("mid", b"m"), (RESERVED, &blob)]);
    assert_eq!(
        unpack(&image),
        Err(UnpackError::CorruptArchive(Corruption::DuplicateReserved))
    );
}

#[test]
fn unpack_refuses_a_reserved_member_that_is_no_gzip_stream() {
    let image = image_of(&[("a", b"a"), (RESERVED, b"this is not gzip")]);
    assert!(matches!(unpack(&image), Err(UnpackError::Decompression(_))));
    let mut blob = gzip(&image_of(&[("x", b"1")]));
    let at = blob.len() - 5;
    blob[at] ^= 0xff;
    let image = image_of(&[(RESERVED, &blob)]);
    match unpack(&image) {
        Err(UnpackError::Decompression(words)) => assert!(!words.is_empty()),
        other => panic!("{other:?}"),
    }
}

#[test]
fn unpack_refuses_a_group_that_is_no_container() {
    let blob = gzip(&[0xffu8; 700]);
    let image = image_of(&[("a", b"a"), (RESERVED, &blob)]);
    assert_eq!(unpack(&image), Err(UnpackError::CorruptArchive(Corruption::GroupTruncated)));
    let mut group = vec![0xffu8; 512];
    group.extend(vec![0u8; 1024]);
    let image = image_of(&[("a", b"a"), (RESERVED, &gzip(&group))]);
    match unpack(&image) {
        Err(UnpackError::CorruptArchive(Corruption::GroupUnreadable(words))) => {
            assert!(!words.is_empty())
        }
        other => panic!("{other:?}"),
    }
    let whole = image_of(&[("x", b"1"), ("y", b"2")]);
    let image = image_of(&[(RESERVED, &gzip(&whole[..1024]))]);
    assert_eq!(unpack(&image), Err(UnpackError::CorruptArchive(Corruption::GroupTruncated)));
}

#[test]
fn unpack_refuses_a_truncated_archive() {
    let image = DualStreamPacker::pack(&vec![raw("b.bin", &noise(2000, 1))], 0).unwrap();
    let cut = Err(UnpackError::CorruptArchive(Corruption::Truncated));
    assert_eq!(unpack(&image[..1000]), cut);
    assert_eq!(unpack(&image[..700]), cut);
    assert_eq!(unpack(&image[..image.len() - 1024]), cut);
    assert_eq!(unpack(&[0x55u8; 512]), cut);
    assert_eq!(unpack(&[]), cut);
    assert_eq!(unpack(&[0u8; 1023]), cut);
    assert_eq!(unpack(&[0u8; 1024]), Ok(Vec::new()));
}

#[test]
fn unpack_refuses_an_archive_cut_between_two_members() {
    let entries = vec![raw("a.bin", &noise(700, 1)), raw("b.bin", &noise(300, 2))];
    let image = DualStreamPacker::pack(&entries, 0).unwrap();
    assert_eq!(image.len(), 512 + 1024 + 512 + 512 + 1024);
    assert_eq!(unpack(&image).unwrap().len(), 2);
    assert_eq!(
        unpack(&image[..512 + 1024]),
        Err(UnpackError::CorruptArchive(Corruption::Truncated))
    );
    assert_eq!(
        unpack(&image[..512 + 1024 + 512 + 512]),
        Err(UnpackError::CorruptArchive(Corruption::Truncated))
    );
}

#[test]
fn unpack_refuses_an_archive_that_cannot_be_read() {
    let mut image = vec![0x55u8; 512];
    image.extend(vec![0u8; 1024]);
    match unpack(&image) {
        Err(UnpackError::CorruptArchive(Corruption::Unreadable(words))) => {
            assert!(!words.is_empty())
        }
        other => panic!("{other:?}"),
    }
}

#[test]
fn unpack_refuses_paths_that_another_system_reads_as_climbing() {
    let image = image_of(&[("ok", b"1"), ("a\\..\\b", b"2")]);
    assert_eq!(unpack(&image), Err(UnpackError::PathTraversal("a\\..\\b".to_string())));
    let image = image_of(&[("C:evil", b"2")]);
    assert_eq!(unpack(&image), Err(UnpackError::PathTraversal("C:evil".to_string())));
    let inner = image_of(&[("z:/evil", b"2")]);
    let image = image_of(&[(RESERVED, &gzip(&inner))]);
    assert_eq!(unpack(&image), Err(UnpackError::PathTraversal("z:/evil".to_string())));
}

#[test]
fn analyze_all_tags_each_file() {
    let whole = ArchiveConfig::new(ONE, ENTROPY_THRESHOLD).unwrap();
    let files = vec![member("a.txt", &vec![b'a'; 10_000]), member("b.bin", &noise(10_000, 12345))];
    let entries = analyze_all(files.clone(), &whole);
    assert_eq!(entries.len(), 2);
    assert_eq!(entries[0], FileEntry { member: files[0].clone(), analysis: EntropyAnalysis::Compress });
    assert_eq!(
        entries[1],
        FileEntry { member: files[1].clone(), analysis: EntropyAnalysis::DontCompress }
    );
}

#[test]
fn compress_text_and_noise() {
    let whole = ArchiveConfig::new(ONE, ENTROPY_THRESHOLD).unwrap();
    let a = member("a.txt", &vec![b'a'; 10_000]);
    let b = member("b.bin", &noise(10_000, 12345));
    let image = compress(vec![a.clone(), b.clone()], &whole, 1_234_567).unwrap();
    let listing = list(&image);
    assert_eq!(listing.len(), 2);
    assert_eq!(listing[0], ("b.bin".to_string(), b.content.clone(), 0o644, 1_700_000_000));
    assert_eq!(listing[1].0, RESERVED);
    assert_eq!(listing[1].2, 0o444);
    assert_eq!(listing[1].3, 1_234_567);
    let inner = list(&gunzip(&listing[1].1));
    assert_eq!(inner, vec![("a.txt".to_string(), a.content.clone(), 0o644, 1_700_000_000)]);
    let restored = unpack(&image).unwrap();
    assert_eq!(
        restored,
        vec![
            FileEntry { member: b, analysis: EntropyAnalysis::DontCompress },
            FileEntry { member: a, analysis: EntropyAnalysis::Compress },
        ]
    );
}

#[test]
fn compress_with_threshold_below_zero_stores_everything_raw() {
    let never = ArchiveConfig::new(ONE, -1).unwrap();
    let files = vec![member("a.txt", &vec![b'a'; 100]), member("e", b"")];
    let image = compress(files, &never, 0).unwrap();
    let names: Vec<String> = list(&image).into_iter().map(|m| m.0).collect();
    assert_eq!(names, vec!["a.txt", "e"]);
}

#[test]
fn compress_with_threshold_of_eight_bits_compresses_everything() {
    let always = ArchiveConfig::new(ONE, 8 * ONE as i64).unwrap();
    let files = vec![member("n1", &noise(5000, 1)), member("n2", &noise(5000, 2))];
    let image = compress(files, &always, 0).unwrap();
    let names: Vec<String> = list(&image).into_iter().map(|m| m.0).collect();
    assert_eq!(names, vec![RESERVED]);
}

#[test]
fn compress_reports_the_rejected_file() {
    let files = vec![member("fine", b"x"), member("a/../b", b"y")];
    assert_eq!(
        compress(files, &ArchiveConfig::default(), 0),
        Err(PackError::Refused { index: 1, refusal: Refusal::Path })
    );
}

#[test]
fn round_trip_of_long_plain_paths() {
    let paths = vec![
        "n".repeat(300),
        format!("{}/b", "a".repeat(99)),
        format!("{}/.b", "a".repeat(98)),
        format!("{}/..b", "a".repeat(97)),
        format!("{}/...", "a".repeat(97)),
        format!("{}\u{e9}\u{e9}/tail", "a".repeat(99)),
        format!("{}\u{1f600}/tail", "a".repeat(98)),
        format!("{}/{}", "x".repeat(100), "y".repeat(100)),
        format!("{}", "seg/".repeat(60) + "end"),
        "p".repeat(101),
        "q".repeat(99),
    ];
    let mut entries = Vec::new();
    for (i, path) in paths.iter().enumerate() {
        assert!(ttare::path::is_plain_path(path), "{path}");
        let analysis =
            if i % 2 == 0 { EntropyAnalysis::DontCompress } else { EntropyAnalysis::Compress };
        entries.push(FileEntry { member: member(path, &noise(i * 100, i as u64)), analysis });
    }
    let image = DualStreamPacker::pack(&entries, 3).unwrap();
    let restored = unpack(&image).unwrap();
    let mut expected: Vec<FileEntry> = Vec::new();
    expected.extend(entries.iter().filter(|e| e.analysis == EntropyAnalysis::DontCompress).cloned());
    expected.extend(entries.iter().filter(|e| e.analysis == EntropyAnalysis::Compress).cloned());
    assert_eq!(restored, expected);
}

#[test]
fn compress_refuses_a_raw_file_under_the_reserved_name() {
    let never = ArchiveConfig::new(ONE, -1).unwrap();
    let files = vec![member("a", b"aaaa"), member(RESERVED, b"mine")];
    assert_eq!(
        compress(files.clone(), &never, 0),
        Err(PackError::Refused { index: 1, refusal: Refusal::ReservedName })
    );
    let always = ArchiveConfig::new(ONE, 8 * ONE as i64).unwrap();
    let image = compress(files.clone(), &always, 0).unwrap();
    let restored = unpack(&image).unwrap();
    let members: Vec<Member> = restored.into_iter().map(|e| e.member).collect();
    assert_eq!(members, files);
}

#[test]
fn restored_files_are_the_entries_rearranged() {
    let entries = vec![
        packed("1", b"one"),
        raw("2", b"two"),
        raw("3", b"three"),
        packed("4", b"four"),
        raw("5", b"five"),
    ];
    let image = DualStreamPacker::pack(&entries, 3).unwrap();
    let mut restored = unpack(&image).unwrap();
    assert_eq!(restored.len(), entries.len());
    restored.sort_by(|a, b| a.member.path.cmp(&b.member.path));
    assert_eq!(restored, entries);
}
