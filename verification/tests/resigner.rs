//! Patching, repacking and signing a package.
use std::io::{Cursor, Read, Write};

use aabox::resigner::apk::{
    alignment_for, is_classes_dex, is_signing_artefact, patch_entry, repack_and_patch, ApkError,
};
use aabox::resigner::dex::{
    adler32, clamp_dex, find_field_idx, find_string_idx, find_type_idx, patch_dex, read_u16, read_u32,
    read_uleb128, rewrite_sget_in_insns, write_header_checksums, DexError, DexHeader,
    DexPatchResult, CLAMPED_SDK_INT, OPCODE_LENGTH_CODE_UNITS,
};
use aabox::resigner::sign::{
    assemble, base64_decode, build_signing_block, compute_chunked_sha256, encode_chunk_message,
    encode_digests_message, encode_lp_elements, encode_lp_int_lp_bytes_pairs, locate_zip_layout,
    looks_like_pem, pem_to_der, sign_apk_v2, split_apk, SignError, Signer,
    APK_SIGNATURE_SCHEME_V2_BLOCK_ID,
};
use aabox::resigner::watcher::{
    is_carcar_apk_filename, is_complete_download, patched_file_name, MIN_APK_LEN,
};
use aabox::resigner::{process_apk_bytes, report, version, ProcessError};
use zip::{write::SimpleFileOptions, CompressionMethod, ZipArchive, ZipWriter};

// ---- Names ------------------------------------------------------------------

#[test]
fn signing_artefact_detection() {
    assert!(is_signing_artefact("META-INF/MANIFEST.MF"));
    assert!(is_signing_artefact("META-INF/CERT.SF"));
    assert!(is_signing_artefact("META-INF/CERT.RSA"));
    assert!(is_signing_artefact("META-INF/PLATFORM.RSA"));
    assert!(is_signing_artefact("META-INF/BNDLTOOL.SF"));
    assert!(!is_signing_artefact("META-INF/androidx.core_core.version"));
    assert!(!is_signing_artefact(
        "META-INF/com/android/build/gradle/app-metadata.properties"
    ));
    assert!(!is_signing_artefact("classes.dex"));
}

#[test]
fn classes_dex_detection() {
    assert!(is_classes_dex("classes.dex"));
    assert!(is_classes_dex("classes2.dex"));
    assert!(is_classes_dex("classes99.dex"));
    assert!(!is_classes_dex("classesfoo.dex"));
    assert!(!is_classes_dex("lib/classes.dex"));
    assert!(!is_classes_dex("classes.dex.bak"));
}

#[test]
fn stored_libraries_get_a_page() {
    assert_eq!(alignment_for("lib/arm64-v8a/libapp.so", false), 4096);
    assert_eq!(alignment_for("lib/arm64-v8a/libapp.so", true), 1);
    assert_eq!(alignment_for("resources.arsc", false), 4);
    assert_eq!(alignment_for("assets/x.so", false), 4);
}

#[test]
fn name_match() {
    assert!(is_carcar_apk_filename("carcar-3.3.10-default.apk"));
    assert!(is_carcar_apk_filename("CarCar_4.0.apk"));
    assert!(!is_carcar_apk_filename("carcar.aabox-patched.apk"));
    assert!(!is_carcar_apk_filename("other.apk"));
    assert!(!is_carcar_apk_filename("carcar.partial"));
}

#[test]
fn patched_copies_are_not_taken_again() {
    let name = patched_file_name(Some("carcar-3.3.10"));
    assert_eq!(name, "carcar-3.3.10.aabox-patched.apk");
    assert!(!is_carcar_apk_filename(&name));
    assert_eq!(patched_file_name(None), "apk.aabox-patched.apk");
}

#[test]
fn small_downloads_are_not_complete() {
    assert!(!is_complete_download(MIN_APK_LEN - 1));
    assert!(is_complete_download(MIN_APK_LEN));
    assert_eq!(MIN_APK_LEN, 1024 * 1024);
}

#[test]
fn package_version() {
    assert_eq!(version(), "0.1.0");
}

// ---- DEX files --------------------------------------------------------------

#[test]
fn opcode_table_sget_is_2_units() {
    assert_eq!(OPCODE_LENGTH_CODE_UNITS[0x60], 2);
    assert_eq!(OPCODE_LENGTH_CODE_UNITS[0x66], 2);
}

#[test]
fn opcode_table_const_is_one_or_two() {
    assert_eq!(OPCODE_LENGTH_CODE_UNITS[0x12], 1); // const/4
    assert_eq!(OPCODE_LENGTH_CODE_UNITS[0x13], 2); // const/16
    assert_eq!(OPCODE_LENGTH_CODE_UNITS[0x14], 3); // const
    assert_eq!(OPCODE_LENGTH_CODE_UNITS[0x15], 2); // const/high16
}

#[test]
fn adler32_known_vectors() {
    // "Wikipedia" is the usual test vector.
    assert_eq!(adler32(b"Wikipedia"), 0x11E60398);
}

#[test]
fn uleb128_basic() {
    // 0 → 1 byte 0
    let (n, v) = read_uleb128(&[0x00], 0).unwrap();
    assert_eq!((n, v), (1, 0));
    // 127 → 1 byte 0x7f
    let (n, v) = read_uleb128(&[0x7f], 0).unwrap();
    assert_eq!((n, v), (1, 127));
    // 128 → 2 bytes 0x80 0x01
    let (n, v) = read_uleb128(&[0x80, 0x01], 0).unwrap();
    assert_eq!((n, v), (2, 128));
    // 16383 → 0xff 0x7f
    let (n, v) = read_uleb128(&[0xff, 0x7f], 0).unwrap();
    assert_eq!((n, v), (2, 16383));
}

#[test]
fn uleb128_errors() {
    assert_eq!(read_uleb128(&[0x80], 0), Err(DexError::UlebTruncated(0)));
    assert_eq!(
        read_uleb128(&[0x80, 0x80, 0x80, 0x80, 0x80, 0x00], 0),
        Err(DexError::UlebOverflow(0))
    );
    assert_eq!(read_uleb128(&[], 3), Err(DexError::UlebTruncated(3)));
}

#[test]
fn numbers_within_a_file() {
    let buf = [0x01, 0x02, 0x03, 0x04, 0x05];
    assert_eq!(read_u16(&buf, 1), Ok(0x0302));
    assert_eq!(read_u32(&buf, 1), Ok(0x0504_0302));
    assert_eq!(read_u16(&buf, 4), Err(DexError::OutOfBounds(4)));
    assert_eq!(read_u32(&buf, 2), Err(DexError::OutOfBounds(2)));
}

#[test]
fn rewrite_one_sget() {
    // sget v3, field#0x1234 → const/16 v3, #0x23
    // Bytes: 0x60 0x03 0x34 0x12
    let mut insns = vec![0x60, 0x03, 0x34, 0x12];
    let mut r = DexPatchResult::default();
    rewrite_sget_in_insns(&mut insns, 0x1234, &mut r);
    assert_eq!(r.patches, 1);
    assert_eq!(insns, vec![0x13, 0x03, 0x23, 0x00]);
}

#[test]
fn rewrite_skips_other_fields() {
    // sget v3, field#0xAAAA: another field, which must not be touched.
    let mut insns = vec![0x60, 0x03, 0xaa, 0xaa];
    let original = insns.clone();
    let mut r = DexPatchResult::default();
    rewrite_sget_in_insns(&mut insns, 0x1234, &mut r);
    assert_eq!(r.patches, 0);
    assert_eq!(insns, original);
}

#[test]
fn rewrite_handles_mixed_instructions() {
    // Stream:
    //   const/4 v1, #0     (1 unit / 2 bytes:  0x12 0x10)
    //   sget    v2, #5     (2 units / 4 bytes: 0x60 0x02 0x05 0x00)
    //   return-void        (1 unit / 2 bytes:  0x0e 0x00)
    let mut insns = vec![0x12, 0x10, 0x60, 0x02, 0x05, 0x00, 0x0e, 0x00];
    let mut r = DexPatchResult::default();
    rewrite_sget_in_insns(&mut insns, 5, &mut r);
    assert_eq!(r.patches, 1);
    assert_eq!(insns, vec![0x12, 0x10, 0x13, 0x02, 0x23, 0x00, 0x0e, 0x00]);
}

#[test]
fn rewriting_twice_changes_nothing_more() {
    let mut insns = vec![0x60, 0x00, 0x07, 0x00, 0x60, 0x01, 0x07, 0x00, 0x0e, 0x00];
    let mut r = DexPatchResult::default();
    rewrite_sget_in_insns(&mut insns, 7, &mut r);
    assert_eq!(r.patches, 2);
    assert_eq!(r.bytes_rewritten, 8);
    let once = insns.clone();
    let mut again = DexPatchResult::default();
    rewrite_sget_in_insns(&mut insns, 7, &mut again);
    assert_eq!(again.patches, 0);
    assert_eq!(insns, once);
}

#[test]
fn rewriting_jumps_over_switch_tables() {
    // A packed-switch table with one target, whose bytes look like a read of the
    // field, and a read behind it.
    let mut insns = vec![
        0x00, 0x01, 0x01, 0x00, 0x60, 0x00, 0x05, 0x00, 0x60, 0x00, 0x05, 0x00, 0x60, 0x02, 0x05,
        0x00,
    ];
    let mut r = DexPatchResult::default();
    rewrite_sget_in_insns(&mut insns, 5, &mut r);
    assert_eq!(r.patches, 1);
    assert_eq!(&insns[4..12], &[0x60, 0x00, 0x05, 0x00, 0x60, 0x00, 0x05, 0x00]);
    assert_eq!(&insns[12..], &[0x13, 0x02, 0x23, 0x00]);
}

#[test]
fn dex_patcher_rewrites_sget_to_const16() {
    let mut dex = build_synthetic_dex();
    let pre = dex.clone();
    let result = patch_dex(&mut dex).expect("patch_dex");
    assert_eq!(result.patches, 1, "expected exactly one sget rewrite");
    assert_eq!(result.bytes_rewritten, 4);

    // The synthetic dex uses field_idx 0, so the sget bytes are
    // 0x60 0x00 0x00 0x00: find that and verify the rewrite.
    let pre_idx = pre
        .windows(4)
        .position(|w| w == [0x60, 0x00, 0x00, 0x00])
        .expect("sget pattern in synthetic dex");
    assert_eq!(
        &dex[pre_idx..pre_idx + 4],
        &[0x13, 0x00, CLAMPED_SDK_INT as u8, 0x00],
        "instruction at sget position must be rewritten to const/16 v0, #35"
    );
}

#[test]
fn dex_patcher_recomputes_header_checksums() {
    let mut dex = build_synthetic_dex();
    let _ = patch_dex(&mut dex).expect("patch_dex");

    // SHA-1 of dex[32..] should be at dex[12..32]
    let mut ctx = ring::digest::Context::new(&ring::digest::SHA1_FOR_LEGACY_USE_ONLY);
    ctx.update(&dex[32..]);
    let want = ctx.finish();
    assert_eq!(&dex[12..32], want.as_ref(), "sha-1 header signature");

    // Adler-32 of dex[12..] at dex[8..12]
    let adler = adler32_check(&dex[12..]);
    let got = u32::from_le_bytes([dex[8], dex[9], dex[10], dex[11]]);
    assert_eq!(adler, got, "adler-32 header checksum");
}

fn adler32_check(buf: &[u8]) -> u32 {
    const MOD_ADLER: u32 = 65521;
    let mut a: u32 = 1;
    let mut b: u32 = 0;
    for &byte in buf {
        a = (a + byte as u32) % MOD_ADLER;
        b = (b + a) % MOD_ADLER;
    }
    (b << 16) | a
}

#[test]
fn clamped_reads_are_counted() {
    let mut dex = build_synthetic_dex();
    let mut other = dex.clone();
    assert_eq!(clamp_dex(&mut dex), Ok(1));
    assert_eq!(patch_dex(&mut other).unwrap().patches, 1);
    assert_eq!(dex, other);
    assert_eq!(clamp_dex(&mut dex), Ok(0));
    assert_eq!(dex, other);
    assert_eq!(clamp_dex(&mut [0u8; 4]), Err(DexError::TooShort));
}

#[test]
fn a_patched_dex_is_left_alone() {
    let mut dex = build_synthetic_dex();
    patch_dex(&mut dex).unwrap();
    let once = dex.clone();
    let again = patch_dex(&mut dex).unwrap();
    assert_eq!(again.patches, 0);
    assert_eq!(dex, once);
}

#[test]
fn tables_of_a_dex_are_searched() {
    let dex = build_synthetic_dex();
    let h = DexHeader::parse(&dex).unwrap();
    let class = find_string_idx(&dex, &h, "Landroid/os/Build$VERSION;").unwrap();
    let name = find_string_idx(&dex, &h, "SDK_INT").unwrap();
    let int = find_string_idx(&dex, &h, "I").unwrap();
    assert_eq!((class, name, int), (Some(1), Some(2), Some(0)));
    assert_eq!(find_string_idx(&dex, &h, "absent"), Ok(None));
    assert_eq!(find_type_idx(&dex, &h, 1), Ok(Some(1)));
    assert_eq!(find_type_idx(&dex, &h, 2), Ok(None));
    assert_eq!(find_field_idx(&dex, &h, 1, 2, 0), Ok(Some(0)));
    assert_eq!(find_field_idx(&dex, &h, 0, 2, 0), Ok(None));
    assert_eq!(
        find_field_idx(&dex, &h, 0x1_0000, 2, 0),
        Err(DexError::TypeIndexOutOfRange)
    );
}

#[test]
fn headers_that_are_refused() {
    assert_eq!(patch_dex(&mut vec![0u8; 4]).unwrap_err(), DexError::TooShort);
    assert_eq!(patch_dex(&mut vec![0u8; 0x70]).unwrap_err(), DexError::BadMagic);
    let mut dex = build_synthetic_dex();
    dex[0x28..0x2c].copy_from_slice(&0x7856_3412u32.to_le_bytes());
    assert_eq!(
        patch_dex(&mut dex).unwrap_err(),
        DexError::UnsupportedEndian(0x7856_3412)
    );
}

#[test]
fn checksums_stand_in_the_header() {
    let mut dex = build_synthetic_dex();
    let sha = [7u8; 20];
    write_header_checksums(&mut dex, &sha);
    assert_eq!(&dex[12..32], &sha);
    let got = u32::from_le_bytes([dex[8], dex[9], dex[10], dex[11]]);
    assert_eq!(got, adler32_check(&dex[12..]));
}

// ---- Archives ---------------------------------------------------------------

fn archive_of(files: &[(&str, bool, &[u8])]) -> Vec<u8> {
    let mut apk_buf = Vec::new();
    let mut w = ZipWriter::new(Cursor::new(&mut apk_buf));
    for (name, deflated, data) in files {
        let method = if *deflated {
            CompressionMethod::Deflated
        } else {
            CompressionMethod::Stored
        };
        let opts = SimpleFileOptions::default().compression_method(method);
        w.start_file(*name, opts).unwrap();
        w.write_all(data).unwrap();
    }
    w.finish().unwrap();
    apk_buf
}

fn names_of(apk: &[u8]) -> Vec<String> {
    let mut archive = ZipArchive::new(Cursor::new(apk)).unwrap();
    (0..archive.len())
        .map(|i| archive.by_index(i).unwrap().name().to_string())
        .collect()
}

#[test]
fn repacking_drops_signatures_and_patches() {
    let dex = build_synthetic_dex();
    let apk = archive_of(&[
        ("META-INF/CERT.RSA", true, b"old"),
        ("classes.dex", false, &dex),
        ("lib/arm64-v8a/libx.so", false, b"library"),
        ("res/a.txt", true, b"text text text text"),
    ]);
    let (out, stats) = repack_and_patch(&apk).unwrap();
    assert_eq!(stats.sdk_int_patches, 1);
    assert_eq!(stats.dex_files_patched, 1);
    assert_eq!(
        names_of(&out),
        vec!["classes.dex", "lib/arm64-v8a/libx.so", "res/a.txt"]
    );
    let mut archive = ZipArchive::new(Cursor::new(&out[..])).unwrap();
    {
        let entry = archive.by_index(1).unwrap();
        assert_eq!(entry.compression(), CompressionMethod::Stored);
        assert_eq!(entry.data_start() % 4096, 0);
    }
    let mut text = Vec::new();
    let mut entry = archive.by_index(2).unwrap();
    assert_eq!(entry.compression(), CompressionMethod::Deflated);
    entry.read_to_end(&mut text).unwrap();
    assert_eq!(text, b"text text text text");
}

#[test]
fn repacking_errors() {
    assert_eq!(
        repack_and_patch(b"not an archive").unwrap_err(),
        ApkError::NotAnArchive
    );
    let bad = archive_of(&[("classes.dex", false, b"not a dex")]);
    assert_eq!(
        repack_and_patch(&bad).unwrap_err(),
        ApkError::Dex(DexError::TooShort)
    );
    // The data does not fit its checksum.
    let mut torn = archive_of(&[("a.txt", false, b"abcdefgh")]);
    let at = torn.windows(8).position(|w| w == b"abcdefgh").unwrap();
    torn[at] = b'X';
    assert_eq!(repack_and_patch(&torn).unwrap_err(), ApkError::DataUnreadable);
    // The directory names a compression that does not exist.
    let mut odd = archive_of(&[("a.txt", false, b"abcdefgh")]);
    let at = odd.windows(4).position(|w| w == b"\x50\x4b\x01\x02").unwrap();
    odd[at + 10] = 77;
    assert_eq!(repack_and_patch(&odd).unwrap_err(), ApkError::EntryUnreadable);
}

#[test]
fn names_that_do_not_fit_are_refused() {
    // Read in code page 437, each byte of the name becomes three in UTF-8.
    let longest = "a".repeat(0xffff / 3);
    for (name, fits) in [(longest.clone(), true), (longest + "a", false)] {
        let mut apk = archive_of(&[(&name, false, b"x")]);
        for b in apk.iter_mut().filter(|b| **b == b'a') {
            *b = 0xc4;
        }
        match repack_and_patch(&apk) {
            Ok(_) => assert!(fits),
            Err(e) => assert!(!fits && e == ApkError::NameTooLong, "{e:?}"),
        }
    }
}

#[test]
fn patches_are_summed() {
    let dex = build_synthetic_dex();
    let mut done = build_synthetic_dex();
    assert_eq!(patch_entry("classes.dex", &mut done), Ok(1));
    let apk = archive_of(&[
        ("classes.dex", false, &dex),
        ("classes2.dex", true, &done),
        ("classes3.dex", true, &dex),
        ("assets/classes.dex", true, &dex),
    ]);
    let (_, stats) = repack_and_patch(&apk).unwrap();
    assert_eq!(stats.sdk_int_patches, 2);
    assert_eq!(stats.dex_files_patched, 2);
}

#[test]
fn only_dex_entries_are_patched() {
    let mut dex = build_synthetic_dex();
    let plain = dex.clone();
    assert_eq!(patch_entry("assets/classes.dex", &mut dex), Ok(0));
    assert_eq!(dex, plain);
    assert_eq!(patch_entry("classes2.dex", &mut dex), Ok(1));
    assert_ne!(dex, plain);
    let mut junk = vec![0u8; 3];
    assert_eq!(
        patch_entry("classes.dex", &mut junk),
        Err(ApkError::Dex(DexError::TooShort))
    );
    assert_eq!(junk, vec![0u8; 3]);
}

// ---- Signatures -------------------------------------------------------------

#[test]
fn base64_decode_ascii() {
    // "Man" → "TWFu"
    assert_eq!(base64_decode("TWFu").unwrap(), b"Man");
    // "any carnal pleas" with newlines
    let s = "YW55IGNhcm5hbCBwbGVhcw==";
    assert_eq!(base64_decode(s).unwrap(), b"any carnal pleas");
}

#[test]
fn base64_refuses_other_characters() {
    assert_eq!(base64_decode("TW*u"), Err(SignError::InvalidBase64('*')));
    assert_eq!(base64_decode("T W\nF u").unwrap(), b"Man");
}

#[test]
fn locate_layout_empty_archive() {
    // Minimal EOCD: signature + 18 zero bytes
    let mut apk = Vec::new();
    apk.extend_from_slice(b"\x50\x4b\x05\x06");
    apk.extend_from_slice(&[0u8; 18]);
    let layout = locate_zip_layout(&apk).unwrap();
    assert_eq!(layout.eocd_offset, 0);
    assert_eq!(layout.cd_offset, 0);
    assert_eq!(layout.cd_size, 0);
}

#[test]
fn archives_without_a_directory_are_refused() {
    assert_eq!(
        locate_zip_layout(&[0u8; 40]).unwrap_err(),
        SignError::EocdNotFound
    );
    let mut apk = vec![0x50, 0x4b, 0x05, 0x06];
    apk.extend_from_slice(&[0u8; 8]);
    apk.extend_from_slice(&5u32.to_le_bytes());
    apk.extend_from_slice(&1u32.to_le_bytes());
    apk.extend_from_slice(&[0u8; 2]);
    assert_eq!(
        split_apk(&apk).unwrap_err(),
        SignError::CentralDirectoryPastEocd
    );
}

#[test]
fn lp_elements_format() {
    // Single element "abc" → 4-byte LE length + bytes.
    let out = encode_lp_elements(&[b"abc"]);
    assert_eq!(out, vec![3, 0, 0, 0, b'a', b'b', b'c']);
    // Two elements.
    let out = encode_lp_elements(&[b"hi", b""]);
    assert_eq!(out, vec![2, 0, 0, 0, b'h', b'i', 0, 0, 0, 0]);
}

#[test]
fn lp_int_lp_bytes_pairs_format() {
    // (0x01020304, b"xyz") → [u32:11] [u32:0x01020304] [u32:3] "xyz"
    let out = encode_lp_int_lp_bytes_pairs(&[(0x01020304, b"xyz")]);
    assert_eq!(
        out,
        vec![
            11, 0, 0, 0,
            0x04, 0x03, 0x02, 0x01,
            3, 0, 0, 0,
            b'x', b'y', b'z',
        ]
    );
}

#[test]
fn chunk_messages() {
    assert_eq!(encode_chunk_message(b"ab"), vec![0xa5, 2, 0, 0, 0, b'a', b'b']);
    assert_eq!(
        encode_digests_message(1, &[9, 9]),
        vec![0x5a, 1, 0, 0, 0, 9, 9]
    );
}

fn sha256(data: &[u8]) -> Vec<u8> {
    ring::digest::digest(&ring::digest::SHA256, data).as_ref().to_vec()
}

#[test]
fn content_digest_of_three_sections() {
    // Each section is one chunk, but for the empty one, which has none.
    let first = sha256(&[&[0xa5u8, 3, 0, 0, 0][..], b"abc"].concat());
    let third = sha256(&[&[0xa5u8, 1, 0, 0, 0][..], b"z"].concat());
    let want = sha256(&[&[0x5au8, 2, 0, 0, 0][..], &first[..], &third[..]].concat());
    assert_eq!(compute_chunked_sha256(b"abc", b"", b"z"), want);
}

#[test]
fn long_sections_have_several_chunks() {
    let long = vec![1u8; 1048576 + 1];
    let first = sha256(&[&[0xa5u8, 0, 0, 0x10, 0][..], &long[..1048576]].concat());
    let second = sha256(&[0xa5u8, 1, 0, 0, 0, 1]);
    let want = sha256(&[&[0x5au8, 2, 0, 0, 0][..], &first[..], &second[..]].concat());
    assert_eq!(compute_chunked_sha256(&long, b"", b""), want);
}

#[test]
fn signing_blocks_fill_pages() {
    let block = build_signing_block(&[(APK_SIGNATURE_SCHEME_V2_BLOCK_ID, vec![1, 2, 3])]);
    assert_eq!(block.len() % 4096, 0);
    let size = (block.len() - 8) as u64;
    assert_eq!(&block[..8], &size.to_le_bytes());
    assert_eq!(&block[8..16], &7u64.to_le_bytes());
    assert_eq!(&block[16..20], &0x7109_871au32.to_le_bytes());
    assert_eq!(&block[20..23], &[1, 2, 3]);
    let end = block.len();
    assert_eq!(&block[end - 24..end - 16], &size.to_le_bytes());
    assert_eq!(&block[end - 16..], b"APK Sig Block 42");
}

#[test]
fn parts_are_put_together_with_a_new_offset() {
    let mut eocd = vec![0u8; 22];
    eocd[0..4].copy_from_slice(b"\x50\x4b\x05\x06");
    let out = assemble(&vec![1; 4], &vec![2; 3], &vec![3; 2], &eocd);
    assert_eq!(&out[..9], &[1, 1, 1, 1, 2, 2, 2, 3, 3]);
    assert_eq!(&out[9 + 16..9 + 20], &7u32.to_le_bytes());
}

fn pem_of(der: &[u8]) -> String {
    let alphabet: Vec<char> = ('A'..='Z')
        .chain('a'..='z')
        .chain('0'..='9')
        .chain(['+', '/'])
        .collect();
    let mut text = String::from("-----BEGIN CERTIFICATE-----\n");
    for (i, part) in der.chunks(3).enumerate() {
        if i > 0 && i % 16 == 0 {
            text.push('\n');
        }
        let mut group = [0u8; 3];
        group[..part.len()].copy_from_slice(part);
        let n = u32::from_be_bytes([0, group[0], group[1], group[2]]);
        for k in 0..4 {
            if k <= part.len() {
                text.push(alphabet[(n >> (18 - 6 * k) & 63) as usize]);
            } else {
                text.push('=');
            }
        }
    }
    text.push_str("\n-----END CERTIFICATE-----\n");
    text
}

#[test]
fn certificates_as_pem() {
    let pem = pem_of(&RSA_CERT);
    assert!(looks_like_pem(pem.as_bytes()));
    assert!(!looks_like_pem(&RSA_CERT));
    assert_eq!(pem_to_der(pem.as_bytes()).unwrap(), RSA_CERT);
    assert_eq!(
        pem_to_der(b"-----BEGIN X-----\n-----END X-----\n"),
        Err(SignError::PemEmpty)
    );
    assert_eq!(pem_to_der(&[0xff, 0xfe]), Err(SignError::PemNotUtf8));
    assert_eq!(
        pem_to_der(b"-----BEGIN X-----\nAA*A\n-----END X-----\n"),
        Err(SignError::InvalidBase64('*'))
    );
}

#[test]
fn signers_that_are_refused() {
    assert_eq!(
        Signer::from_bytes(&[1, 2, 3], &RSA_CERT).err(),
        Some(SignError::KeyRejected)
    );
    assert_eq!(
        Signer::from_bytes(&RSA_KEY, &[1, 2, 3]).err(),
        Some(SignError::CertificateRejected)
    );
    assert!(Signer::from_bytes(&RSA_KEY, pem_of(&RSA_CERT).as_bytes()).is_ok());
}

fn le32(b: &[u8], at: usize) -> usize {
    u32::from_le_bytes([b[at], b[at + 1], b[at + 2], b[at + 3]]) as usize
}

/// The length-prefixed element at `at`, and where it ends.
fn element(b: &[u8], at: usize) -> (&[u8], usize) {
    let n = le32(b, at);
    (&b[at + 4..at + 4 + n], at + 4 + n)
}

#[test]
fn signed_archives_verify() {
    let apk = archive_of(&[("a.txt", false, b"hello"), ("b.txt", true, b"world")]);
    let signer = Signer::from_bytes(&RSA_KEY, &RSA_CERT).unwrap();
    let out = sign_apk_v2(&apk, &signer).unwrap();

    let layout = locate_zip_layout(&out).unwrap();
    let cd = layout.cd_offset as usize;
    assert_eq!(&out[cd - 16..cd], b"APK Sig Block 42");
    let size = u64::from_le_bytes(out[cd - 24..cd - 16].try_into().unwrap()) as usize;
    let block_at = cd - size - 8;
    assert_eq!(block_at % 4096, 0);
    assert_eq!(cd % 4096, 0);
    assert_eq!(le32(&out, block_at + 16), 0x7109_871a);

    // The signers, the one signer, and its three parts.
    let (signers, _) = element(&out, block_at + 20);
    let (signer_block, _) = element(signers, 0);
    let (signed_data, at) = element(signer_block, 0);
    let (signatures, at) = element(signer_block, at);
    let (public_key, _) = element(signer_block, at);
    assert_eq!(public_key, &RSA_CERT[118..412]);
    let (pair, _) = element(signatures, 0);
    assert_eq!(le32(pair, 0), 0x0103);
    let (signature, _) = element(pair, 4);
    ring::signature::UnparsedPublicKey::new(
        &ring::signature::RSA_PKCS1_2048_8192_SHA256,
        &RSA_CERT[142..412],
    )
    .verify(signed_data, signature)
    .unwrap();

    // The digest that was signed is that of the archive without the block.
    let (digests, at) = element(signed_data, 0);
    let (certificates, _) = element(signed_data, at);
    assert_eq!(element(certificates, 0).0, RSA_CERT);
    let (digest, _) = element(element(digests, 0).0, 4);
    let mut eocd = out[layout.eocd_offset..].to_vec();
    eocd[16..20].copy_from_slice(&(block_at as u32).to_le_bytes());
    let directory = &out[cd..layout.eocd_offset];
    assert_eq!(
        digest,
        compute_chunked_sha256(&out[..block_at], directory, &eocd)
    );
    assert_eq!(names_of(&out), vec!["a.txt", "b.txt"]);
}

// ---- The whole way ----------------------------------------------------------

#[test]
fn full_pipeline_patch_and_sign() {
    let dex = build_synthetic_dex();
    let apk_buf = archive_of(&[
        ("classes.dex", false, &dex),
        ("META-INF/version-control-info.textproto", true, b"# placeholder"),
    ]);
    let signer = Signer::from_bytes(&RSA_KEY, pem_of(&RSA_CERT).as_bytes()).unwrap();

    let (out_bytes, stats) =
        process_apk_bytes(&apk_buf, &signer).expect("process_apk_bytes should succeed");
    let report = report(apk_buf.len(), out_bytes.len(), &stats, 5);
    assert_eq!(report.sdk_int_patches, 1, "expected 1 SDK_INT patch");
    assert_eq!(report.dex_files_patched, 1);
    assert_eq!(report.input_bytes, apk_buf.len());
    assert_eq!(report.output_bytes, out_bytes.len());
    assert_eq!(report.elapsed_ms, 5);

    let mut archive = ZipArchive::new(Cursor::new(&out_bytes)).expect("output is a valid zip");
    let mut found_dex = false;
    for i in 0..archive.len() {
        let mut entry = archive.by_index(i).unwrap();
        if entry.name() == "classes.dex" {
            let mut buf = Vec::new();
            entry.read_to_end(&mut buf).unwrap();
            let const16 = [0x13u8, 0x00, 0x23, 0x00];
            assert!(
                buf.windows(4).any(|w| w == const16),
                "patched classes.dex must contain const/16 v0, #0x23"
            );
            assert!(
                !buf.windows(4).any(|w| w == [0x60u8, 0x00, 0x00, 0x00]),
                "patched classes.dex must NOT contain the original sget"
            );
            found_dex = true;
        }
    }
    assert!(found_dex, "output APK must contain classes.dex");

    assert!(
        out_bytes
            .windows(16)
            .any(|w| w == b"APK Sig Block 42"),
        "output APK must contain an APK Signing Block"
    );
}

#[test]
fn processing_errors() {
    let signer = Signer::from_bytes(&RSA_KEY, &RSA_CERT).unwrap();
    assert_eq!(
        process_apk_bytes(b"junk", &signer).unwrap_err(),
        ProcessError::Repack(ApkError::NotAnArchive)
    );
}

// ---- A small DEX file -------------------------------------------------------

/// Build a tiny, structurally valid DEX containing exactly one class with
/// one method whose code body is:
///
///   sget v0, Build$VERSION.SDK_INT
///   return-void
///
/// Returns the dex bytes.
fn build_synthetic_dex() -> Vec<u8> {
    let mut d = DexBuilder::new();

    let str_i = d.add_string("I");
    let str_build_ver = d.add_string("Landroid/os/Build$VERSION;");
    let str_sdk_int = d.add_string("SDK_INT");
    let str_main = d.add_string("LMain;");
    let _str_init = d.add_string("<init>");
    let _str_v = d.add_string("V");

    let type_i = d.add_type(str_i);
    let type_build_ver = d.add_type(str_build_ver);
    let _type_main = d.add_type(str_main);

    let field_sdk_int = d.add_field(type_build_ver, type_i, str_sdk_int);

    d.finish_with_one_class_with_sget(field_sdk_int)
}

struct DexBuilder {
    strings: Vec<String>,
    types: Vec<u32>,
    fields: Vec<(u16, u16, u32)>,
}

impl DexBuilder {
    fn new() -> Self {
        Self {
            strings: Vec::new(),
            types: Vec::new(),
            fields: Vec::new(),
        }
    }

    fn add_string(&mut self, s: &str) -> u32 {
        self.strings.push(s.to_string());
        (self.strings.len() - 1) as u32
    }
    fn add_type(&mut self, descriptor_idx: u32) -> u32 {
        self.types.push(descriptor_idx);
        (self.types.len() - 1) as u32
    }
    fn add_field(&mut self, class_t: u32, type_t: u32, name_s: u32) -> u32 {
        self.fields.push((class_t as u16, type_t as u16, name_s));
        (self.fields.len() - 1) as u32
    }

    fn finish_with_one_class_with_sget(self, field_idx: u32) -> Vec<u8> {
        let mut out = Vec::new();
        out.extend(std::iter::repeat(0u8).take(0x70)); // header placeholder

        let string_ids_off = out.len() as u32;
        let string_ids_size = self.strings.len() as u32;
        let string_ids_table_start = out.len();
        for _ in 0..self.strings.len() {
            out.extend_from_slice(&[0u8; 4]);
        }

        let type_ids_off = out.len() as u32;
        let type_ids_size = self.types.len() as u32;
        for &descriptor_idx in &self.types {
            out.extend_from_slice(&descriptor_idx.to_le_bytes());
        }

        let field_ids_off = out.len() as u32;
        let field_ids_size = self.fields.len() as u32;
        for &(class_idx, type_idx, name_idx) in &self.fields {
            out.extend_from_slice(&class_idx.to_le_bytes());
            out.extend_from_slice(&type_idx.to_le_bytes());
            out.extend_from_slice(&name_idx.to_le_bytes());
        }

        let class_defs_off = out.len() as u32;
        let class_defs_size = 1u32;
        let class_def_start = out.len();
        out.extend(std::iter::repeat(0u8).take(32));

        // code_item alignment (4 bytes).
        while out.len() % 4 != 0 {
            out.push(0);
        }
        let code_item_off = out.len() as u32;
        out.extend_from_slice(&1u16.to_le_bytes()); // registers_size
        out.extend_from_slice(&0u16.to_le_bytes()); // ins_size
        out.extend_from_slice(&0u16.to_le_bytes()); // outs_size
        out.extend_from_slice(&0u16.to_le_bytes()); // tries_size
        out.extend_from_slice(&0u32.to_le_bytes()); // debug_info_off
        out.extend_from_slice(&3u32.to_le_bytes()); // insns_size = 3 code units
        // sget v0, field#field_idx
        out.push(0x60);
        out.push(0x00);
        out.extend_from_slice(&(field_idx as u16).to_le_bytes());
        // return-void
        out.push(0x0e);
        out.push(0x00);

        let class_data_off = out.len() as u32;
        push_uleb128(&mut out, 0); // static fields
        push_uleb128(&mut out, 0); // instance fields
        push_uleb128(&mut out, 1); // direct methods
        push_uleb128(&mut out, 0); // virtual methods
        push_uleb128(&mut out, 0); // method_idx_diff
        push_uleb128(&mut out, 0); // access_flags
        push_uleb128(&mut out, code_item_off); // code_off

        let mut string_data_offs: Vec<u32> = Vec::with_capacity(self.strings.len());
        for s in &self.strings {
            string_data_offs.push(out.len() as u32);
            push_uleb128(&mut out, s.encode_utf16().count() as u32);
            out.extend_from_slice(s.as_bytes());
            out.push(0);
        }

        for (i, off) in string_data_offs.iter().enumerate() {
            let pos = string_ids_table_start + i * 4;
            out[pos..pos + 4].copy_from_slice(&off.to_le_bytes());
        }

        out[class_def_start + 24..class_def_start + 28]
            .copy_from_slice(&class_data_off.to_le_bytes());
        out[class_def_start..class_def_start + 4].copy_from_slice(&2u32.to_le_bytes());
        out[class_def_start + 8..class_def_start + 12]
            .copy_from_slice(&0xffff_ffffu32.to_le_bytes());
        out[class_def_start + 16..class_def_start + 20]
            .copy_from_slice(&0xffff_ffffu32.to_le_bytes());

        let total_size = out.len() as u32;
        let header = build_header(
            total_size,
            string_ids_size,
            string_ids_off,
            type_ids_size,
            type_ids_off,
            field_ids_size,
            field_ids_off,
            class_defs_size,
            class_defs_off,
        );
        out[..0x70].copy_from_slice(&header);
        out
    }
}

fn push_uleb128(out: &mut Vec<u8>, mut value: u32) {
    loop {
        let byte = (value & 0x7f) as u8;
        value >>= 7;
        if value == 0 {
            out.push(byte);
            return;
        }
        out.push(byte | 0x80);
    }
}

fn build_header(
    total_size: u32,
    string_ids_size: u32,
    string_ids_off: u32,
    type_ids_size: u32,
    type_ids_off: u32,
    field_ids_size: u32,
    field_ids_off: u32,
    class_defs_size: u32,
    class_defs_off: u32,
) -> [u8; 0x70] {
    let mut h = [0u8; 0x70];
    h[..8].copy_from_slice(b"dex\n035\0");
    h[0x20..0x24].copy_from_slice(&total_size.to_le_bytes());
    h[0x24..0x28].copy_from_slice(&0x70u32.to_le_bytes());
    h[0x28..0x2c].copy_from_slice(&0x1234_5678u32.to_le_bytes());
    h[0x38..0x3c].copy_from_slice(&string_ids_size.to_le_bytes());
    h[0x3c..0x40].copy_from_slice(&string_ids_off.to_le_bytes());
    h[0x40..0x44].copy_from_slice(&type_ids_size.to_le_bytes());
    h[0x44..0x48].copy_from_slice(&type_ids_off.to_le_bytes());
    h[0x48..0x4c].copy_from_slice(&0u32.to_le_bytes()); // proto_ids size
    h[0x4c..0x50].copy_from_slice(&0u32.to_le_bytes()); // proto_ids off
    h[0x50..0x54].copy_from_slice(&field_ids_size.to_le_bytes());
    h[0x54..0x58].copy_from_slice(&field_ids_off.to_le_bytes());
    h[0x58..0x5c].copy_from_slice(&0u32.to_le_bytes()); // method_ids size
    h[0x5c..0x60].copy_from_slice(&0u32.to_le_bytes()); // method_ids off
    h[0x60..0x64].copy_from_slice(&class_defs_size.to_le_bytes());
    h[0x64..0x68].copy_from_slice(&class_defs_off.to_le_bytes());
    h
}

// ---- A key and a certificate that nothing else uses -------------------------

const RSA_KEY: [u8; 1218] = [
    0x30, 0x82, 0x04, 0xbe, 0x02, 0x01, 0x00, 0x30, 0x0d, 0x06, 0x09, 0x2a, 0x86, 0x48, 0x86, 0xf7,
    0x0d, 0x01, 0x01, 0x01, 0x05, 0x00, 0x04, 0x82, 0x04, 0xa8, 0x30, 0x82, 0x04, 0xa4, 0x02, 0x01,
    0x00, 0x02, 0x82, 0x01, 0x01, 0x00, 0xd8, 0xbc, 0xf2, 0xfc, 0xc5, 0x42, 0x4f, 0xdc, 0xec, 0x34,
    0xe1, 0x04, 0x01, 0x0e, 0x71, 0x31, 0x81, 0xcb, 0xf6, 0xc4, 0x5e, 0x7c, 0x64, 0x45, 0xa1, 0x99,
    0x31, 0x47, 0x51, 0x01, 0xa1, 0x78, 0x2f, 0x88, 0x16, 0xa0, 0xc5, 0xc4, 0x8f, 0x54, 0x61, 0x5a,
    0xa3, 0x32, 0xf7, 0x17, 0x36, 0x1e, 0xd6, 0x70, 0xcb, 0xab, 0xbe, 0x3b, 0xff, 0x4f, 0x16, 0x54,
    0x18, 0xda, 0x3f, 0xb5, 0x9d, 0x9e, 0x59, 0xb6, 0x28, 0xd7, 0xc8, 0xef, 0xf7, 0x32, 0x86, 0x27,
    0x8c, 0xdf, 0x6b, 0x39, 0xcd, 0xf0, 0xc5, 0x65, 0x62, 0xc4, 0x35, 0x13, 0x79, 0xcd, 0x4c, 0xd1,
    0x96, 0x74, 0x85, 0x85, 0xae, 0xf7, 0x99, 0xd9, 0xbc, 0xa6, 0x37, 0x76, 0x52, 0x66, 0xb8, 0x74,
    0x90, 0x26, 0xa9, 0x6f, 0x98, 0xa7, 0xf0, 0xec, 0xab, 0x76, 0x9a, 0x33, 0xfa, 0x00, 0x3c, 0x24,
    0x49, 0xe0, 0x9a, 0x8e, 0x58, 0xea, 0xc2, 0xd1, 0x4b, 0xa3, 0xc3, 0x36, 0x12, 0xf3, 0x31, 0xcf,
    0xbc, 0x75, 0x16, 0x08, 0x36, 0xc4, 0xbd, 0x07, 0x19, 0x41, 0xc0, 0x9a, 0xf6, 0xa0, 0x8a, 0xdb,
    0x8e, 0x01, 0x2d, 0xcb, 0xeb, 0x8d, 0xb0, 0x37, 0x70, 0xd3, 0x94, 0x62, 0x82, 0xb2, 0xf8, 0xac,
    0xfa, 0xe0, 0xe0, 0xe2, 0x16, 0x22, 0x0d, 0x5e, 0x83, 0xe7, 0x4a, 0x53, 0x5c, 0x91, 0xb1, 0xa5,
    0x78, 0xb8, 0x1f, 0x3d, 0x86, 0x23, 0x37, 0xcd, 0x19, 0xa4, 0x5b, 0x23, 0x7d, 0xdc, 0x79, 0xf9,
    0x68, 0xce, 0xa2, 0xc8, 0xce, 0x0d, 0xc0, 0x49, 0x07, 0xb1, 0xb6, 0x23, 0xe3, 0x42, 0x1c, 0x58,
    0x31, 0x50, 0xd7, 0x74, 0x58, 0xbc, 0xcb, 0x26, 0x0e, 0xb5, 0xe7, 0x95, 0x03, 0xda, 0x6d, 0x28,
    0x81, 0x66, 0x94, 0x38, 0xef, 0x63, 0x02, 0xd6, 0x0d, 0x01, 0x68, 0x95, 0x9f, 0x70, 0xe3, 0x74,
    0x3d, 0x04, 0x71, 0x63, 0x05, 0x69, 0x02, 0x03, 0x01, 0x00, 0x01, 0x02, 0x82, 0x01, 0x00, 0x2e,
    0x44, 0x37, 0x82, 0xaa, 0x01, 0x3b, 0xd7, 0x27, 0x3d, 0x2a, 0x83, 0x96, 0x4e, 0x24, 0xef, 0xb2,
    0x8b, 0x7d, 0xc3, 0xf1, 0x7f, 0x90, 0x50, 0x24, 0xec, 0xf4, 0xce, 0x0a, 0x86, 0xd4, 0x97, 0x39,
    0x5e, 0x4d, 0xa6, 0x48, 0x51, 0x6b, 0x5f, 0x51, 0xe0, 0xed, 0x51, 0xa5, 0xd9, 0x78, 0x9e, 0x20,
    0x9c, 0xb7, 0x7d, 0x94, 0x00, 0x6e, 0xc1, 0xcd, 0x3c, 0x6a, 0x89, 0xbc, 0x6b, 0xe2, 0x97, 0xb9,
    0x02, 0xdf, 0xb9, 0x20, 0x95, 0xc9, 0x29, 0x29, 0xe6, 0x2b, 0x76, 0x4e, 0x07, 0x6a, 0xe4, 0xe8,
    0xde, 0x79, 0xb4, 0xf4, 0xb7, 0x91, 0x9a, 0xb7, 0xb9, 0x4d, 0xea, 0xd5, 0xcd, 0xf1, 0xc9, 0xbd,
    0x37, 0xf3, 0xc3, 0x6f, 0xb7, 0x7c, 0x63, 0x9d, 0x20, 0x94, 0xdd, 0x0b, 0xf2, 0x5c, 0x9e, 0x0d,
    0x1a, 0x18, 0x88, 0x1a, 0xe6, 0xd9, 0x89, 0x4f, 0x4d, 0x57, 0xcf, 0xf0, 0x6e, 0x4e, 0xa0, 0x7a,
    0x12, 0x03, 0xc6, 0x78, 0xc0, 0xdb, 0x17, 0x4c, 0x4f, 0x48, 0x84, 0x69, 0x29, 0x6a, 0xb5, 0x42,
    0x45, 0xd7, 0x67, 0x59, 0x85, 0x03, 0xa2, 0x17, 0xe6, 0x6c, 0xa2, 0x9b, 0x51, 0xa4, 0x01, 0x59,
    0x2d, 0xe3, 0xa1, 0xe6, 0x01, 0x55, 0x7c, 0x58, 0x98, 0x8c, 0x11, 0x0f, 0xbc, 0x30, 0x1d, 0x00,
    0xd7, 0x1c, 0xe6, 0x82, 0x6e, 0x12, 0x45, 0xd9, 0xd4, 0x3a, 0xd3, 0x39, 0xcb, 0x16, 0xd3, 0x32,
    0xde, 0x71, 0x10, 0x41, 0x53, 0x83, 0x6a, 0xea, 0x90, 0xf2, 0xc6, 0xa2, 0xfc, 0x69, 0xe6, 0x00,
    0x9f, 0x22, 0xa7, 0x96, 0x41, 0x1c, 0xe4, 0x33, 0xdb, 0x77, 0x18, 0x24, 0xf4, 0x6d, 0xbb, 0xf6,
    0xc3, 0x71, 0x4b, 0x92, 0xb2, 0x07, 0xb2, 0x19, 0x05, 0x9e, 0x76, 0x7a, 0x02, 0xc4, 0xbc, 0xcd,
    0x2b, 0xf6, 0x8a, 0x6d, 0x7b, 0xd0, 0xa5, 0x5e, 0x3c, 0xcf, 0x43, 0x81, 0x5e, 0xa5, 0x79, 0x02,
    0x81, 0x81, 0x00, 0xf3, 0xaf, 0xd4, 0xc9, 0x5a, 0xe2, 0x42, 0x72, 0x62, 0x3c, 0x88, 0xe7, 0x2a,
    0xfa, 0x1e, 0xf8, 0x05, 0x3a, 0xbc, 0x0f, 0xff, 0x38, 0x4a, 0xb0, 0xd9, 0x38, 0x0e, 0xa5, 0x45,
    0x82, 0x45, 0x29, 0xca, 0x79, 0x95, 0x21, 0x53, 0xce, 0xb0, 0x9f, 0xee, 0x04, 0x6b, 0x65, 0xee,
    0x27, 0x38, 0x10, 0x77, 0xd7, 0x3e, 0xb8, 0x2a, 0x81, 0xf9, 0x7d, 0xe4, 0x4e, 0x53, 0x8a, 0x9f,
    0xd9, 0x85, 0x09, 0x90, 0x87, 0x9b, 0xeb, 0x39, 0x54, 0x14, 0xe5, 0x5d, 0x9f, 0x30, 0x27, 0xd9,
    0x6e, 0x08, 0x01, 0x54, 0x10, 0x0f, 0xf1, 0x71, 0xe3, 0xe1, 0x2a, 0xda, 0xc3, 0xfc, 0x78, 0x17,
    0xba, 0x90, 0x6a, 0x33, 0x89, 0x6f, 0x01, 0x51, 0x53, 0xc5, 0x30, 0x23, 0xeb, 0x67, 0x5f, 0x00,
    0xfd, 0xd0, 0xf5, 0x96, 0x5f, 0xad, 0xc7, 0x60, 0xff, 0xfc, 0xa8, 0xe4, 0x37, 0x3a, 0x0f, 0x45,
    0x45, 0xa1, 0x17, 0x02, 0x81, 0x81, 0x00, 0xe3, 0xb0, 0x86, 0xe9, 0x1c, 0x2e, 0x1f, 0x2f, 0x64,
    0x68, 0x1c, 0x64, 0xc9, 0xd3, 0xde, 0x5d, 0xa0, 0x5b, 0x10, 0x5a, 0xb0, 0xf2, 0x4b, 0xc6, 0x33,
    0x67, 0x77, 0xba, 0x54, 0x77, 0x30, 0x90, 0x86, 0x58, 0x81, 0x31, 0xc3, 0xcb, 0x33, 0xb8, 0xf9,
    0x38, 0xbe, 0x26, 0x3a, 0x79, 0x94, 0x85, 0xba, 0x32, 0x71, 0x1b, 0xaa, 0xa8, 0x91, 0x5f, 0xec,
    0x56, 0x4a, 0xa0, 0x83, 0x30, 0xe7, 0x1c, 0x54, 0xa4, 0x06, 0x1c, 0x0c, 0x54, 0xe7, 0x83, 0x06,
    0x07, 0xc7, 0x6d, 0x1c, 0xf5, 0xf7, 0xbd, 0x8b, 0xa3, 0x96, 0xf9, 0x4e, 0x3a, 0x76, 0x02, 0x04,
    0x10, 0x82, 0xce, 0x80, 0x2e, 0x8d, 0x80, 0xce, 0x4c, 0xa8, 0x36, 0xcd, 0x1f, 0x33, 0xae, 0xfe,
    0x79, 0x9b, 0x5d, 0x18, 0x50, 0x42, 0x30, 0xed, 0xf7, 0x9a, 0x6f, 0x34, 0x98, 0x57, 0x7a, 0x77,
    0x9a, 0xbf, 0x3f, 0x16, 0x7b, 0x9d, 0x7f, 0x02, 0x81, 0x81, 0x00, 0xce, 0x87, 0x9f, 0x58, 0x68,
    0x66, 0x8a, 0xda, 0x56, 0xd7, 0xe7, 0x4f, 0xc4, 0xe4, 0xe7, 0x8a, 0x5d, 0x24, 0x42, 0x6f, 0x6c,
    0x67, 0x51, 0x26, 0x41, 0x73, 0x79, 0x36, 0x29, 0x8b, 0x17, 0x03, 0x2c, 0x4f, 0x8f, 0x4d, 0x07,
    0xb2, 0x8d, 0x8f, 0x7e, 0x32, 0xd0, 0xb3, 0x3a, 0xfc, 0x92, 0x4f, 0xa2, 0xc2, 0x12, 0xae, 0x13,
    0x98, 0xc4, 0xd3, 0x25, 0xc4, 0x1c, 0x99, 0xc8, 0x90, 0x9a, 0x68, 0x58, 0xce, 0x16, 0x1f, 0x6e,
    0x1f, 0x0c, 0xf6, 0xb8, 0x3a, 0x4a, 0x9d, 0xfb, 0x71, 0x7d, 0xe7, 0x62, 0x4f, 0x9a, 0xb3, 0x8f,
    0x4b, 0x0b, 0x73, 0x3e, 0xa6, 0x0c, 0x3b, 0xdc, 0x20, 0x8a, 0x74, 0xf7, 0xe8, 0xea, 0xe3, 0xbb,
    0x01, 0xbc, 0x85, 0xe8, 0x6b, 0x82, 0xd8, 0xca, 0x06, 0x54, 0x2b, 0x50, 0x9f, 0x16, 0xb1, 0x7c,
    0x4c, 0x78, 0xde, 0xcb, 0x4c, 0xe3, 0x30, 0x3e, 0x0d, 0x9d, 0x51, 0x02, 0x81, 0x81, 0x00, 0xbf,
    0xf7, 0xba, 0x97, 0x59, 0xda, 0x0d, 0x12, 0xf1, 0x0d, 0xd2, 0x3a, 0xab, 0xeb, 0xc4, 0xc4, 0x9d,
    0x89, 0x89, 0xad, 0x5d, 0x18, 0xbc, 0x08, 0x5c, 0x98, 0xb4, 0xda, 0x55, 0x92, 0xb4, 0x50, 0x75,
    0xe4, 0xb2, 0xf0, 0x99, 0x4a, 0x7e, 0xce, 0x4a, 0xd9, 0xab, 0x80, 0x21, 0xb7, 0x16, 0x20, 0xf5,
    0x8e, 0xc7, 0xcc, 0x72, 0xc3, 0x72, 0xe6, 0x34, 0x25, 0xc0, 0xff, 0xb9, 0xfc, 0x86, 0x2e, 0x5d,
    0xb2, 0x79, 0x30, 0x36, 0xb9, 0x73, 0x04, 0x06, 0x16, 0x92, 0xee, 0x8d, 0x07, 0x58, 0x9b, 0xe7,
    0xda, 0xc2, 0x54, 0x69, 0xbf, 0x62, 0x75, 0x6a, 0xa5, 0xdd, 0x13, 0x6c, 0x01, 0x53, 0xee, 0xb0,
    0x80, 0xf3, 0x26, 0x59, 0x25, 0x20, 0x77, 0x3f, 0x38, 0x9a, 0x64, 0x10, 0x36, 0xc2, 0xc7, 0xec,
    0x2a, 0xe1, 0x7b, 0x37, 0x15, 0xe6, 0x53, 0x6b, 0xf9, 0xfd, 0x9a, 0x9c, 0x43, 0x16, 0xd3, 0x02,
    0x81, 0x80, 0x68, 0x80, 0x1e, 0x02, 0x24, 0xcd, 0xc3, 0x9e, 0x75, 0xc5, 0x22, 0x9b, 0x0f, 0xa9,
    0xd7, 0xa5, 0xad, 0x80, 0xc1, 0xeb, 0xe4, 0xe8, 0x23, 0x1b, 0x07, 0xaf, 0x6d, 0x4e, 0xf8, 0xa5,
    0xf1, 0x4a, 0xc7, 0xf4, 0xc1, 0x1f, 0x22, 0xb8, 0xda, 0x65, 0xf2, 0x97, 0xfe, 0xe6, 0xd9, 0x46,
    0xf6, 0x87, 0x0f, 0x32, 0x68, 0xd5, 0x06, 0x94, 0xe3, 0x71, 0x4a, 0xb4, 0x8b, 0x0f, 0xe8, 0x58,
    0x9c, 0x2a, 0xbe, 0xb1, 0x8e, 0x9b, 0x56, 0x19, 0xe9, 0xe7, 0xbe, 0x50, 0x9e, 0xd8, 0x09, 0xb3,
    0x3a, 0xe7, 0xa2, 0x32, 0x9a, 0xc6, 0x7d, 0xbf, 0x9a, 0x98, 0x66, 0x65, 0xc2, 0x76, 0xa4, 0x5a,
    0x7f, 0x0f, 0xea, 0xa6, 0xbd, 0x4e, 0x48, 0x85, 0xba, 0xc9, 0x74, 0xea, 0xcc, 0xab, 0x45, 0x10,
    0x2e, 0xd9, 0xc9, 0x15, 0xfb, 0x1f, 0x29, 0xe6, 0xe1, 0xcc, 0x78, 0xcd, 0x13, 0x18, 0x25, 0xce,
    0x93, 0x13,
];

const RSA_CERT: [u8; 773] = [
    0x30, 0x82, 0x03, 0x01, 0x30, 0x82, 0x01, 0xe9, 0xa0, 0x03, 0x02, 0x01, 0x02, 0x02, 0x14, 0x3f,
    0xfa, 0x10, 0xd5, 0xb9, 0x0f, 0xd0, 0x41, 0x1f, 0x1e, 0x84, 0x7c, 0x53, 0x52, 0x03, 0xd0, 0xa6,
    0x0f, 0xf3, 0x4d, 0x30, 0x0d, 0x06, 0x09, 0x2a, 0x86, 0x48, 0x86, 0xf7, 0x0d, 0x01, 0x01, 0x0b,
    0x05, 0x00, 0x30, 0x0f, 0x31, 0x0d, 0x30, 0x0b, 0x06, 0x03, 0x55, 0x04, 0x03, 0x0c, 0x04, 0x74,
    0x65, 0x73, 0x74, 0x30, 0x20, 0x17, 0x0d, 0x32, 0x36, 0x31, 0x31, 0x31, 0x35, 0x32, 0x30, 0x30,
    0x36, 0x32, 0x37, 0x5a, 0x18, 0x0f, 0x32, 0x31, 0x32, 0x36, 0x31, 0x30, 0x32, 0x32, 0x32, 0x30,
    0x30, 0x36, 0x32, 0x37, 0x5a, 0x30, 0x0f, 0x31, 0x0d, 0x30, 0x0b, 0x06, 0x03, 0x55, 0x04, 0x03,
    0x0c, 0x04, 0x74, 0x65, 0x73, 0x74, 0x30, 0x82, 0x01, 0x22, 0x30, 0x0d, 0x06, 0x09, 0x2a, 0x86,
    0x48, 0x86, 0xf7, 0x0d, 0x01, 0x01, 0x01, 0x05, 0x00, 0x03, 0x82, 0x01, 0x0f, 0x00, 0x30, 0x82,
    0x01, 0x0a, 0x02, 0x82, 0x01, 0x01, 0x00, 0xd8, 0xbc, 0xf2, 0xfc, 0xc5, 0x42, 0x4f, 0xdc, 0xec,
    0x34, 0xe1, 0x04, 0x01, 0x0e, 0x71, 0x31, 0x81, 0xcb, 0xf6, 0xc4, 0x5e, 0x7c, 0x64, 0x45, 0xa1,
    0x99, 0x31, 0x47, 0x51, 0x01, 0xa1, 0x78, 0x2f, 0x88, 0x16, 0xa0, 0xc5, 0xc4, 0x8f, 0x54, 0x61,
    0x5a, 0xa3, 0x32, 0xf7, 0x17, 0x36, 0x1e, 0xd6, 0x70, 0xcb, 0xab, 0xbe, 0x3b, 0xff, 0x4f, 0x16,
    0x54, 0x18, 0xda, 0x3f, 0xb5, 0x9d, 0x9e, 0x59, 0xb6, 0x28, 0xd7, 0xc8, 0xef, 0xf7, 0x32, 0x86,
    0x27, 0x8c, 0xdf, 0x6b, 0x39, 0xcd, 0xf0, 0xc5, 0x65, 0x62, 0xc4, 0x35, 0x13, 0x79, 0xcd, 0x4c,
    0xd1, 0x96, 0x74, 0x85, 0x85, 0xae, 0xf7, 0x99, 0xd9, 0xbc, 0xa6, 0x37, 0x76, 0x52, 0x66, 0xb8,
    0x74, 0x90, 0x26, 0xa9, 0x6f, 0x98, 0xa7, 0xf0, 0xec, 0xab, 0x76, 0x9a, 0x33, 0xfa, 0x00, 0x3c,
    0x24, 0x49, 0xe0, 0x9a, 0x8e, 0x58, 0xea, 0xc2, 0xd1, 0x4b, 0xa3, 0xc3, 0x36, 0x12, 0xf3, 0x31,
    0xcf, 0xbc, 0x75, 0x16, 0x08, 0x36, 0xc4, 0xbd, 0x07, 0x19, 0x41, 0xc0, 0x9a, 0xf6, 0xa0, 0x8a,
    0xdb, 0x8e, 0x01, 0x2d, 0xcb, 0xeb, 0x8d, 0xb0, 0x37, 0x70, 0xd3, 0x94, 0x62, 0x82, 0xb2, 0xf8,
    0xac, 0xfa, 0xe0, 0xe0, 0xe2, 0x16, 0x22, 0x0d, 0x5e, 0x83, 0xe7, 0x4a, 0x53, 0x5c, 0x91, 0xb1,
    0xa5, 0x78, 0xb8, 0x1f, 0x3d, 0x86, 0x23, 0x37, 0xcd, 0x19, 0xa4, 0x5b, 0x23, 0x7d, 0xdc, 0x79,
    0xf9, 0x68, 0xce, 0xa2, 0xc8, 0xce, 0x0d, 0xc0, 0x49, 0x07, 0xb1, 0xb6, 0x23, 0xe3, 0x42, 0x1c,
    0x58, 0x31, 0x50, 0xd7, 0x74, 0x58, 0xbc, 0xcb, 0x26, 0x0e, 0xb5, 0xe7, 0x95, 0x03, 0xda, 0x6d,
    0x28, 0x81, 0x66, 0x94, 0x38, 0xef, 0x63, 0x02, 0xd6, 0x0d, 0x01, 0x68, 0x95, 0x9f, 0x70, 0xe3,
    0x74, 0x3d, 0x04, 0x71, 0x63, 0x05, 0x69, 0x02, 0x03, 0x01, 0x00, 0x01, 0xa3, 0x53, 0x30, 0x51,
    0x30, 0x1d, 0x06, 0x03, 0x55, 0x1d, 0x0e, 0x04, 0x16, 0x04, 0x14, 0xc3, 0xe9, 0xdd, 0x4a, 0x20,
    0xcd, 0xa8, 0xe3, 0x3b, 0x1f, 0xda, 0x79, 0xf8, 0xf1, 0x7e, 0x59, 0x41, 0xd4, 0xd9, 0x0d, 0x30,
    0x1f, 0x06, 0x03, 0x55, 0x1d, 0x23, 0x04, 0x18, 0x30, 0x16, 0x80, 0x14, 0xc3, 0xe9, 0xdd, 0x4a,
    0x20, 0xcd, 0xa8, 0xe3, 0x3b, 0x1f, 0xda, 0x79, 0xf8, 0xf1, 0x7e, 0x59, 0x41, 0xd4, 0xd9, 0x0d,
    0x30, 0x0f, 0x06, 0x03, 0x55, 0x1d, 0x13, 0x01, 0x01, 0xff, 0x04, 0x05, 0x30, 0x03, 0x01, 0x01,
    0xff, 0x30, 0x0d, 0x06, 0x09, 0x2a, 0x86, 0x48, 0x86, 0xf7, 0x0d, 0x01, 0x01, 0x0b, 0x05, 0x00,
    0x03, 0x82, 0x01, 0x01, 0x00, 0x77, 0xed, 0xa4, 0xeb, 0x03, 0xa4, 0x76, 0x1c, 0x35, 0x3d, 0x7c,
    0x83, 0x19, 0x53, 0x57, 0x4e, 0x26, 0xda, 0x4d, 0x9e, 0x4c, 0x9b, 0x92, 0x3d, 0xf4, 0x28, 0x3b,
    0x6e, 0x0a, 0x15, 0xbf, 0xdf, 0x4a, 0x1f, 0xb8, 0x07, 0x1a, 0x96, 0x4b, 0x94, 0x23, 0xae, 0x85,
    0xc4, 0xbb, 0xe8, 0x7e, 0x22, 0xcb, 0x85, 0x08, 0x83, 0xbf, 0x1c, 0xaf, 0xdd, 0x6e, 0xa9, 0x66,
    0x7a, 0xa2, 0xf6, 0x31, 0xa7, 0x59, 0xb0, 0xce, 0xa1, 0x31, 0xef, 0xdc, 0x29, 0x7b, 0xee, 0x17,
    0x45, 0x38, 0x34, 0x59, 0xf9, 0x56, 0xd6, 0xf3, 0x1d, 0xd8, 0x12, 0x4b, 0x5c, 0x72, 0x23, 0xf1,
    0x07, 0xeb, 0x82, 0xfc, 0x33, 0x3b, 0x74, 0x61, 0xed, 0x6a, 0x6a, 0xa9, 0x23, 0xbc, 0x5f, 0xab,
    0x07, 0xe4, 0x21, 0x97, 0x31, 0x13, 0x7a, 0x89, 0xb7, 0xbb, 0x38, 0x67, 0x6e, 0x0b, 0x03, 0xa2,
    0x7d, 0x81, 0x87, 0x12, 0xe0, 0x79, 0x34, 0x3d, 0xde, 0xa8, 0x6f, 0xff, 0xd0, 0x67, 0xbe, 0x1b,
    0x7f, 0xc9, 0x27, 0x87, 0x47, 0xd4, 0x1f, 0x00, 0x25, 0x6a, 0x02, 0xa0, 0x51, 0xff, 0x3c, 0xbb,
    0xc3, 0xa2, 0x11, 0x79, 0xf0, 0x76, 0x47, 0x22, 0x8d, 0x86, 0x6e, 0x49, 0x1f, 0xd4, 0x61, 0x20,
    0x81, 0xdb, 0xe8, 0x9c, 0xda, 0x60, 0x49, 0x4c, 0x58, 0x50, 0x3b, 0xee, 0x7b, 0x7a, 0x7d, 0x9f,
    0x2f, 0xe3, 0x94, 0x77, 0x24, 0xc1, 0x1b, 0xb2, 0x74, 0x23, 0xd3, 0xcd, 0x1a, 0x61, 0x3c, 0x0e,
    0x33, 0x61, 0x21, 0x34, 0xb1, 0x61, 0x10, 0xae, 0x0e, 0x5f, 0x8d, 0xbd, 0x44, 0xb5, 0x77, 0x87,
    0x3c, 0x9a, 0xcc, 0x10, 0xbb, 0x9c, 0x66, 0xb8, 0xbf, 0x0d, 0x73, 0xc7, 0x5a, 0x01, 0x9f, 0x39,
    0xe3, 0x98, 0x4c, 0x50, 0x5e, 0xe3, 0x4c, 0x6a, 0xde, 0x17, 0x16, 0xc8, 0x1f, 0x18, 0x83, 0x21,
    0xbd, 0x59, 0x23, 0x9e, 0xef,
];
