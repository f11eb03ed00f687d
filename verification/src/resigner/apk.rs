//! Repacking an APK.
//!
//! Every entry of the archive is read and written to a fresh one, in order.
//! Signing artefacts under `META-INF/` are dropped, and every `classes*.dex` is
//! patched (see [`crate::resigner::dex`]). An entry that was deflated is
//! deflated again; any other one is stored, shared libraries on a page boundary,
//! as Android maps them from the archive.
use crate::octets;
use crate::resigner::clamping;
use crate::resigner::dex;
use crate::resigner::dex::DexError;
use crate::resigner::digest::MAX_DIGEST_INPUT;
use crate::text;
use vstd::prelude::*;
use vstd::utf8;

verus! {

/// What repacking patched.
#[derive(Debug, Clone, Copy)]
pub struct PatchStats {
    /// Instructions rewritten, over all DEX files.
    pub sdk_int_patches: usize,
    /// DEX files with at least one instruction rewritten.
    pub dex_files_patched: usize,
}

impl Default for PatchStats {
    fn default() -> (r: Self)
        ensures
            r.sdk_int_patches == 0,
            r.dex_files_patched == 0,
    {
        PatchStats { sdk_int_patches: 0, dex_files_patched: 0 }
    }
}

/// Why an archive cannot be repacked.
#[derive(Debug, Clone, Copy, PartialEq, Eq, Structural)]
pub enum ApkError {
    /// The input is not a ZIP archive.
    NotAnArchive,
    /// An entry cannot be opened.
    EntryUnreadable,
    /// The data of an entry cannot be read.
    DataUnreadable,
    /// A DEX file cannot be patched.
    Dex(DexError),
    /// A DEX file, or the number of instructions rewritten, is too large to
    /// handle.
    TooLarge,
    /// The name of an entry is too long for the output.
    NameTooLong,
    /// An entry cannot be started in the output.
    StartFailed,
    /// The data of an entry cannot be written to the output.
    WriteFailed,
    /// The output cannot be completed.
    FinishFailed,
}

// ---- Entry names -----------------------------------------------------------

/// Whether `name` is that of a file that an earlier signature left behind.
pub open spec fn signing_artefact(name: Seq<char>) -> bool {
    let u = text::upper(name);
    &&& text::starts_with(u, "META-INF/"@)
    &&& {
        ||| text::ends_with(u, "/MANIFEST.MF"@)
        ||| text::ends_with(u, "/CERT.SF"@)
        ||| text::ends_with(u, "/CERT.RSA"@)
        ||| text::ends_with(u, "/CERT.DSA"@)
        ||| text::ends_with(u, "/CERT.EC"@)
        ||| text::occurrences(u, '/') == 1 && (text::ends_with(u, ".SF"@) || text::ends_with(
            u,
            ".RSA"@,
        ) || text::ends_with(u, ".DSA"@) || text::ends_with(u, ".EC"@) || u
            == "META-INF/MANIFEST.MF"@)
    }
}

pub fn is_signing_artefact(name: &str) -> (r: bool)
    ensures
        r == signing_artefact(name@),
{
    let u: Vec<char> = text::to_upper(name);
    if !text::text_starts_with(&u, "META-INF/") {
        return false;
    }
    text::text_ends_with(&u, "/MANIFEST.MF") || text::text_ends_with(&u, "/CERT.SF")
        || text::text_ends_with(&u, "/CERT.RSA") || text::text_ends_with(&u, "/CERT.DSA")
        || text::text_ends_with(&u, "/CERT.EC") || (text::count(&u, '/') == 1 && (
    text::text_ends_with(&u, ".SF") || text::text_ends_with(&u, ".RSA") || text::text_ends_with(
        &u,
        ".DSA",
    ) || text::text_ends_with(&u, ".EC") || text::text_equals(&u, "META-INF/MANIFEST.MF")))
}

/// Whether `name` is `classes`, decimal digits or nothing, and `.dex`.
pub open spec fn classes_dex(name: Seq<char>) -> bool {
    &&& text::starts_with(name, "classes"@)
    &&& text::ends_with(name, ".dex"@)
    &&& forall|i: int| 7 <= i < name.len() - 4 ==> '0' <= #[trigger] name[i] <= '9'
}

pub fn is_classes_dex(name: &str) -> (r: bool)
    ensures
        r == classes_dex(name@),
{
    let s: Vec<char> = text::chars_of(name);
    if !text::text_starts_with(&s, "classes") || !text::text_ends_with(&s, ".dex") {
        return false;
    }
    proof {
        reveal_strlit(".dex");
    }
    let end: usize = s.len() - 4;
    let mut i: usize = 7;
    while i < end
        invariant
            s@ == name@,
            end == s@.len() - 4,
            7 <= i,
            forall|j: int| 7 <= j < i && j < end ==> '0' <= #[trigger] name@[j] <= '9',
        decreases end - i,
    {
        if s[i] < '0' || '9' < s[i] {
            return false;
        }
        i += 1;
    }
    true
}

/// The alignment of the data of an entry: shared libraries that are stored get
/// a page of their own, everything else that is stored four bytes.
pub open spec fn entry_alignment(name: Seq<char>, deflated: bool) -> u16 {
    if deflated {
        1
    } else if text::starts_with(name, "lib/"@) && text::ends_with(name, ".so"@) {
        4096
    } else {
        4
    }
}

pub fn alignment_for(name: &str, deflated: bool) -> (r: u16)
    ensures
        r == entry_alignment(name@, deflated),
{
    if deflated {
        return 1;
    }
    let s: Vec<char> = text::chars_of(name);
    if text::text_starts_with(&s, "lib/") && text::text_ends_with(&s, ".so") {
        4096
    } else {
        4
    }
}

// ---- Reading an archive ----------------------------------------------------

#[verifier::external_type_specification]
#[verifier::external_body]
#[verifier::reject_recursive_types(T)]
pub struct ExCursor<T>(std::io::Cursor<T>);

#[verifier::external_type_specification]
#[verifier::external_body]
#[verifier::reject_recursive_types(R)]
pub struct ExZipArchive<R>(zip::ZipArchive<R>);

/// The entries of the archive that `apk` encodes, as `zip::ZipArchive::new`
/// reads it: of each its name, whether it is deflated, and its data if that can
/// be read. Nothing where an entry cannot be opened, or `apk` encodes no
/// archive.
pub uninterp spec fn zip_entries(apk: Seq<u8>) -> Option<
    Seq<Option<(Seq<char>, bool, Option<Seq<u8>>)>>,
>;

/// The entries of an open archive.
pub uninterp spec fn archive_entries(
    archive: zip::ZipArchive<std::io::Cursor<Vec<u8>>>,
) -> Seq<Option<(Seq<char>, bool, Option<Seq<u8>>)>>;

/// Calls `zip::ZipArchive::new`. Trusted: what it reads depends on the bytes
/// alone.
#[verifier::external_body]
fn open_archive(apk: Vec<u8>) -> (r: Option<zip::ZipArchive<std::io::Cursor<Vec<u8>>>>)
    ensures
        match r {
            Some(archive) => zip_entries(apk@) == Some(archive_entries(archive)),
            None => zip_entries(apk@) is None,
        },
{
    zip::ZipArchive::new(std::io::Cursor::new(apk)).ok()
}

/// Calls `zip::ZipArchive::len`. Trusted: it is the number of entries.
#[verifier::external_body]
fn archive_len(archive: &zip::ZipArchive<std::io::Cursor<Vec<u8>>>) -> (r: usize)
    ensures
        r == archive_entries(*archive).len(),
{
    archive.len()
}

/// Calls `zip::ZipArchive::by_index`, and asks the entry for its name and its
/// compression method. Trusted: these are the entry's, and the archive's
/// entries stay as they are.
#[verifier::external_body]
fn entry_head(archive: &mut zip::ZipArchive<std::io::Cursor<Vec<u8>>>, i: usize) -> (r: Option<
    (String, bool),
>)
    requires
        i < archive_entries(*old(archive)).len(),
    ensures
        archive_entries(*final(archive)) == archive_entries(*old(archive)),
        match r {
            Some((name, deflated)) => archive_entries(*old(archive))[i as int] matches Some(e) && e.0
                == name@ && e.1 == deflated,
            None => archive_entries(*old(archive))[i as int] is None,
        },
{
    let entry = archive.by_index(i).ok()?;
    Some((entry.name().to_string(), entry.compression() == zip::CompressionMethod::Deflated))
}

/// Calls `zip::ZipArchive::by_index`, and `std::io::Read::read_to_end` on the
/// entry. Trusted: what it gives is the entry's data, and the archive's entries
/// stay as they are.
#[verifier::external_body]
fn entry_data(archive: &mut zip::ZipArchive<std::io::Cursor<Vec<u8>>>, i: usize) -> (r: Option<
    Vec<u8>,
>)
    requires
        i < archive_entries(*old(archive)).len(),
        archive_entries(*old(archive))[i as int] is Some,
    ensures
        archive_entries(*final(archive)) == archive_entries(*old(archive)),
        match r {
            Some(data) => archive_entries(*old(archive))[i as int]->Some_0.2 == Some(data@),
            None => archive_entries(*old(archive))[i as int]->Some_0.2 is None,
        },
{
    let mut data = Vec::new();
    std::io::Read::read_to_end(&mut archive.by_index(i).ok()?, &mut data).ok()?;
    Some(data)
}

// ---- Writing an archive ----------------------------------------------------

/// An archive that is being written, in memory.
#[verifier::external_body]
pub struct ArchiveWriter {
    writer: zip::write::ZipWriter<std::io::Cursor<Vec<u8>>>,
}

/// The files of an archive that is being written: of each its name, whether it
/// is deflated, whether it may exceed 4 GiB, its alignment and its data so far.
pub uninterp spec fn written_files(writer: ArchiveWriter) -> Seq<
    (Seq<char>, bool, bool, u16, Seq<u8>),
>;

/// Whether `zip::ZipWriter::start_file` accepts a file with this name, method,
/// size class and alignment behind `files`.
pub uninterp spec fn start_accepted(
    files: Seq<(Seq<char>, bool, bool, u16, Seq<u8>)>,
    name: Seq<char>,
    deflated: bool,
    large: bool,
    alignment: u16,
) -> bool;

/// Whether writing `data` to the last of `files` succeeds.
pub uninterp spec fn write_accepted(
    files: Seq<(Seq<char>, bool, bool, u16, Seq<u8>)>,
    data: Seq<u8>,
) -> bool;

/// The bytes of the archive that holds `files`, as `zip::ZipWriter::finish`
/// completes it.
pub uninterp spec fn zip_bytes(files: Seq<(Seq<char>, bool, bool, u16, Seq<u8>)>) -> Option<
    Seq<u8>,
>;

/// Calls `zip::ZipWriter::new`. Trusted: the new archive has no files.
#[verifier::external_body]
fn new_archive() -> (r: ArchiveWriter)
    ensures
        written_files(r) == Seq::<(Seq<char>, bool, bool, u16, Seq<u8>)>::empty(),
{
    ArchiveWriter { writer: zip::write::ZipWriter::new(std::io::Cursor::new(Vec::new())) }
}

/// The longest name that an archive can hold, in bytes.
pub const MAX_NAME_LEN: usize = 0xffff;

/// Whether a name is short enough for an archive. It stands there in UTF-8.
pub open spec fn name_fits(name: Seq<char>) -> bool {
    utf8::encode_utf8(name).len() <= MAX_NAME_LEN
}

/// Calls `zip::ZipWriter::start_file` with these options and the earliest
/// modification time. Trusted: where it succeeds, an empty file with the name
/// and the options follows those there were, and whether it does depends on
/// these alone. `zip` panics on a name of more than 65535 bytes.
#[verifier::external_body]
fn start_file(
    archive: &mut ArchiveWriter,
    name: &str,
    deflated: bool,
    large: bool,
    alignment: u16,
) -> (r: bool)
    requires
        name_fits(name@),
    ensures
        r == start_accepted(written_files(*old(archive)), name@, deflated, large, alignment),
        r ==> written_files(*final(archive)) == written_files(*old(archive)).push(
            (name@, deflated, large, alignment, Seq::<u8>::empty()),
        ),
{
    let method = match deflated {
        true => zip::CompressionMethod::Deflated,
        false => zip::CompressionMethod::Stored,
    };
    let options = zip::write::SimpleFileOptions::default()
        .compression_method(method)
        .large_file(large)
        .last_modified_time(zip::DateTime::default())
        .with_alignment(alignment);
    archive.writer.start_file(name, options).is_ok()
}

/// Calls `std::io::Write::write_all` on the `zip::ZipWriter`, whose last file is
/// still empty. Trusted: where it succeeds, `data` is what that file holds, and
/// whether it does depends on the files and the data alone.
#[verifier::external_body]
fn write_data(archive: &mut ArchiveWriter, data: &[u8]) -> (r: bool)
    requires
        written_files(*old(archive)).len() > 0,
        written_files(*old(archive)).last().4.len() == 0,
    ensures
        r == write_accepted(written_files(*old(archive)), data@),
        r ==> ({
            let files = written_files(*old(archive));
            let (name, deflated, large, alignment, _) = files.last();
            written_files(*final(archive)) == files.drop_last().push(
                (name, deflated, large, alignment, data@),
            )
        }),
{
    std::io::Write::write_all(&mut archive.writer, data).is_ok()
}

/// Calls `zip::ZipWriter::finish`. Trusted: the bytes depend on the files alone.
#[verifier::external_body]
fn finish_archive(archive: ArchiveWriter) -> (r: Option<Vec<u8>>)
    ensures
        match r {
            Some(bytes) => zip_bytes(written_files(archive)) == Some(bytes@),
            None => zip_bytes(written_files(archive)) is None,
        },
{
    Some(archive.writer.finish().ok()?.into_inner())
}

// ---- Repacking -------------------------------------------------------------

/// What becomes of the data of an entry, and how many instructions are
/// rewritten in it.
pub open spec fn patched_data(name: Seq<char>, data: Seq<u8>) -> Result<(Seq<u8>, nat), ApkError> {
    if !classes_dex(name) {
        Ok((data, 0))
    } else if data.len() > MAX_DIGEST_INPUT {
        Err(ApkError::TooLarge)
    } else {
        match dex::patched(data) {
            Ok(r) => Ok(r),
            Err(e) => Err(ApkError::Dex(e)),
        }
    }
}

/// `files` with one more.
pub open spec fn added(
    files: Seq<(Seq<char>, bool, bool, u16, Seq<u8>)>,
    name: Seq<char>,
    deflated: bool,
    data: Seq<u8>,
) -> Result<Seq<(Seq<char>, bool, bool, u16, Seq<u8>)>, ApkError> {
    let large = data.len() > u32::MAX;
    let alignment = entry_alignment(name, deflated);
    let started = files.push((name, deflated, large, alignment, Seq::<u8>::empty()));
    if !name_fits(name) {
        Err(ApkError::NameTooLong)
    } else if !start_accepted(files, name, deflated, large, alignment) {
        Err(ApkError::StartFailed)
    } else if !write_accepted(started, data) {
        Err(ApkError::WriteFailed)
    } else {
        Ok(files.push((name, deflated, large, alignment, data)))
    }
}

/// The files, the instructions rewritten and the DEX files patched when the
/// entries from `i` on have followed `files`, `patches` and `patched`.
pub open spec fn repack_entries(
    entries: Seq<Option<(Seq<char>, bool, Option<Seq<u8>>)>>,
    i: int,
    files: Seq<(Seq<char>, bool, bool, u16, Seq<u8>)>,
    patches: nat,
    patched: nat,
) -> Result<(Seq<(Seq<char>, bool, bool, u16, Seq<u8>)>, nat, nat), ApkError>
    decreases entries.len() - i,
{
    if i >= entries.len() {
        Ok((files, patches, patched))
    } else {
        match entries[i] {
            None => Err(ApkError::EntryUnreadable),
            Some((name, deflated, contents)) => if signing_artefact(name) {
                repack_entries(entries, i + 1, files, patches, patched)
            } else {
                match contents {
                    None => Err(ApkError::DataUnreadable),
                    Some(data) => match patched_data(name, data) {
                        Err(e) => Err(e),
                        Ok((out, n)) => if patches + n > usize::MAX {
                            Err(ApkError::TooLarge)
                        } else {
                            match added(files, name, deflated, out) {
                                Err(e) => Err(e),
                                Ok(more) => repack_entries(
                                    entries,
                                    i + 1,
                                    more,
                                    patches + n,
                                    patched + if n > 0 {
                                        1nat
                                    } else {
                                        0nat
                                    },
                                ),
                            }
                        },
                    },
                }
            },
        }
    }
}

/// What repacking makes of an archive: the new one, the instructions rewritten
/// and the DEX files patched.
pub open spec fn repacked(apk: Seq<u8>) -> Result<(Seq<u8>, nat, nat), ApkError> {
    match zip_entries(apk) {
        None => Err(ApkError::NotAnArchive),
        Some(entries) => match repack_entries(entries, 0, Seq::empty(), 0, 0) {
            Err(e) => Err(e),
            Ok((files, patches, patched)) => match zip_bytes(files) {
                None => Err(ApkError::FinishFailed),
                Some(bytes) => Ok((bytes, patches, patched)),
            },
        },
    }
}

/// Patches the data of an entry that is a DEX file; gives how many instructions
/// were rewritten.
pub fn patch_entry(name: &str, data: &mut Vec<u8>) -> (r: Result<usize, ApkError>)
    ensures
        match patched_data(name@, old(data)@) {
            Ok((out, n)) => final(data)@ == out && r == Ok::<usize, ApkError>(n as usize) && n
                <= usize::MAX,
            Err(e) => final(data)@ == old(data)@ && r == Err::<usize, ApkError>(e),
        },
        !classes_dex(name@) ==> final(data)@ == old(data)@ && r == Ok::<usize, ApkError>(0),
        classes_dex(name@) && (r matches Ok(n)) ==> clamping::well_patched(
            old(data)@,
            final(data)@,
            r->Ok_0 as int,
        ) && (r->Ok_0 > 0 ==> dex::seal_holds(final(data)@)),
{
    if !is_classes_dex(name) {
        return Ok(0);
    }
    if data.len() as u64 > MAX_DIGEST_INPUT {
        return Err(ApkError::TooLarge);
    }
    match dex::clamp_dex(data) {
        Ok(patches) => Ok(patches),
        Err(e) => Err(ApkError::Dex(e)),
    }
}

fn write_entry(archive: &mut ArchiveWriter, name: &str, data: &[u8], deflated: bool) -> (r: Result<
    (),
    ApkError,
>)
    ensures
        match added(written_files(*old(archive)), name@, deflated, data@) {
            Ok(files) => r is Ok && written_files(*final(archive)) == files,
            Err(e) => r == Err::<(), ApkError>(e),
        },
{
    if name.as_bytes().len() > MAX_NAME_LEN {
        return Err(ApkError::NameTooLong);
    }
    let alignment: u16 = alignment_for(name, deflated);
    let large: bool = data.len() as u64 > u32::MAX as u64;
    let ghost files = written_files(*archive);
    if !start_file(archive, name, deflated, large, alignment) {
        return Err(ApkError::StartFailed);
    }
    if !write_data(archive, data) {
        return Err(ApkError::WriteFailed);
    }
    proof {
        let started = files.push((name@, deflated, large, alignment, Seq::<u8>::empty()));
        assert(started.drop_last() =~= files);
    }
    Ok(())
}

/// Reads an archive, drops signing artefacts, patches every `classes*.dex` and
/// writes a fresh, unsigned archive.
pub fn repack_and_patch(apk_bytes: &[u8]) -> (r: Result<(Vec<u8>, PatchStats), ApkError>)
    ensures
        match repacked(apk_bytes@) {
            Ok((bytes, patches, patched)) => r matches Ok((out, stats)) && out@ == bytes
                && stats.sdk_int_patches == patches && stats.dex_files_patched == patched,
            Err(e) => r == Err::<(Vec<u8>, PatchStats), ApkError>(e),
        },
{
    let mut stats: PatchStats = PatchStats::default();
    let mut archive = match open_archive(octets::to_vec(apk_bytes)) {
        Some(archive) => archive,
        None => return Err(ApkError::NotAnArchive),
    };
    let ghost entries = archive_entries(archive);
    let mut writer: ArchiveWriter = new_archive();
    let len: usize = archive_len(&archive);
    let mut i: usize = 0;
    while i < len
        invariant
            zip_entries(apk_bytes@) == Some(entries),
            archive_entries(archive) == entries,
            len == entries.len(),
            i <= len,
            stats.dex_files_patched <= i,
            repack_entries(entries, 0, Seq::empty(), 0, 0) == repack_entries(
                entries,
                i as int,
                written_files(writer),
                stats.sdk_int_patches as nat,
                stats.dex_files_patched as nat,
            ),
        decreases len - i,
    {
        let (name, deflated) = match entry_head(&mut archive, i) {
            Some(head) => head,
            None => return Err(ApkError::EntryUnreadable),
        };
        if !is_signing_artefact(&name) {
            let mut data: Vec<u8> = match entry_data(&mut archive, i) {
                Some(data) => data,
                None => return Err(ApkError::DataUnreadable),
            };
            let patches: usize = match patch_entry(&name, &mut data) {
                Ok(n) => n,
                Err(e) => return Err(e),
            };
            if patches > usize::MAX - stats.sdk_int_patches {
                return Err(ApkError::TooLarge);
            }
            match write_entry(&mut writer, &name, &data, deflated) {
                Ok(()) => {},
                Err(e) => return Err(e),
            }
            stats.sdk_int_patches += patches;
            if patches > 0 {
                stats.dex_files_patched += 1;
            }
        }
        i += 1;
    }
    match finish_archive(writer) {
        Some(out) => Ok((out, stats)),
        None => Err(ApkError::FinishFailed),
    }
}

// ---- What holds of the whole -----------------------------------------------

/// The file that an entry becomes.
pub open spec fn file_of(name: Seq<char>, deflated: bool, data: Seq<u8>) -> (
    Seq<char>,
    bool,
    bool,
    u16,
    Seq<u8>,
) {
    let out = match patched_data(name, data) {
        Ok((out, _)) => out,
        Err(_) => data,
    };
    (name, deflated, out.len() > u32::MAX, entry_alignment(name, deflated), out)
}

/// The files that the first `n` entries become: all but the signing artefacts, in
/// their order.
pub open spec fn kept(
    entries: Seq<Option<(Seq<char>, bool, Option<Seq<u8>>)>>,
    n: int,
) -> Seq<(Seq<char>, bool, bool, u16, Seq<u8>)>
    decreases n,
{
    if n <= 0 {
        Seq::empty()
    } else {
        let before = kept(entries, n - 1);
        match entries[n - 1] {
            Some((name, deflated, Some(data))) => if signing_artefact(name) {
                before
            } else {
                before.push(file_of(name, deflated, data))
            },
            _ => before,
        }
    }
}

proof fn lemma_kept_from(
    entries: Seq<Option<(Seq<char>, bool, Option<Seq<u8>>)>>,
    i: int,
    patches: nat,
    patched: nat,
)
    requires
        0 <= i <= entries.len(),
    ensures
        repack_entries(entries, i, kept(entries, i), patches, patched) matches Ok(r) ==> r.0 == kept(
            entries,
            entries.len() as int,
        ),
    decreases entries.len() - i,
{
    if i < entries.len() {
        match entries[i] {
            Some((name, deflated, contents)) => {
                if signing_artefact(name) {
                    assert(kept(entries, i + 1) == kept(entries, i));
                    lemma_kept_from(entries, i + 1, patches, patched);
                } else if contents is Some && patched_data(name, contents->Some_0) is Ok {
                    let (out, n) = patched_data(name, contents->Some_0)->Ok_0;
                    assert(kept(entries, i + 1) == kept(entries, i).push(
                        file_of(name, deflated, contents->Some_0),
                    ));
                    lemma_kept_from(
                        entries,
                        i + 1,
                        patches + n,
                        patched + if n > 0 {
                            1nat
                        } else {
                            0nat
                        },
                    );
                }
            },
            None => {},
        }
    }
}

/// A repacked archive holds every entry of the one it was made of but the signing
/// artefacts: in their order, under their names, compressed as they were, and with
/// their data, which in a DEX file is as patched.
pub proof fn lemma_entries_are_kept(
    apk: Seq<u8>,
    entries: Seq<Option<(Seq<char>, bool, Option<Seq<u8>>)>>,
)
    requires
        zip_entries(apk) == Some(entries),
    ensures
        repacked(apk) matches Ok((bytes, _, _)) ==> zip_bytes(kept(entries, entries.len() as int))
            == Some(bytes),
{
    lemma_kept_from(entries, 0, 0, 0);
    assert(kept(entries, 0) =~= Seq::<(Seq<char>, bool, bool, u16, Seq<u8>)>::empty());
}

/// How many instructions are rewritten in an entry: none but in a DEX file that is
/// kept.
pub open spec fn rewritten_in(entry: Option<(Seq<char>, bool, Option<Seq<u8>>)>) -> nat {
    match entry {
        Some((name, _, Some(data))) => if signing_artefact(name) || !classes_dex(name) {
            0
        } else {
            match patched_data(name, data) {
                Ok((_, n)) => n,
                Err(_) => 0,
            }
        },
        _ => 0,
    }
}

/// How many instructions are rewritten in the first `n` entries.
pub open spec fn rewritten_to(
    entries: Seq<Option<(Seq<char>, bool, Option<Seq<u8>>)>>,
    n: int,
) -> nat
    decreases n,
{
    if n <= 0 {
        0
    } else {
        rewritten_to(entries, n - 1) + rewritten_in(entries[n - 1])
    }
}

/// In how many of the first `n` entries instructions are rewritten.
pub open spec fn patched_to(
    entries: Seq<Option<(Seq<char>, bool, Option<Seq<u8>>)>>,
    n: int,
) -> nat
    decreases n,
{
    if n <= 0 {
        0
    } else {
        patched_to(entries, n - 1) + if rewritten_in(entries[n - 1]) > 0 {
            1nat
        } else {
            0nat
        }
    }
}

proof fn lemma_counts_from(
    entries: Seq<Option<(Seq<char>, bool, Option<Seq<u8>>)>>,
    i: int,
    files: Seq<(Seq<char>, bool, bool, u16, Seq<u8>)>,
)
    requires
        0 <= i <= entries.len(),
    ensures
        repack_entries(entries, i, files, rewritten_to(entries, i), patched_to(entries, i)) matches Ok(
            r,
        ) ==> r.1 == rewritten_to(entries, entries.len() as int) && r.2 == patched_to(
            entries,
            entries.len() as int,
        ),
    decreases entries.len() - i,
{
    if i < entries.len() {
        match entries[i] {
            Some((name, deflated, contents)) => {
                if signing_artefact(name) {
                    lemma_counts_from(entries, i + 1, files);
                } else if contents is Some && patched_data(name, contents->Some_0) is Ok {
                    let (out, n) = patched_data(name, contents->Some_0)->Ok_0;
                    assert(rewritten_in(entries[i]) == n);
                    if added(files, name, deflated, out) is Ok {
                        lemma_counts_from(entries, i + 1, added(files, name, deflated, out)->Ok_0);
                    }
                }
            },
            None => {},
        }
    }
}

/// What repacking says that it patched is the sum over the DEX files that are kept:
/// of the instructions rewritten in them, and of those in which there were any.
pub proof fn lemma_counts_are_sums(
    apk: Seq<u8>,
    entries: Seq<Option<(Seq<char>, bool, Option<Seq<u8>>)>>,
)
    requires
        zip_entries(apk) == Some(entries),
    ensures
        repacked(apk) matches Ok((_, patches, patched)) ==> patches == rewritten_to(
            entries,
            entries.len() as int,
        ) && patched == patched_to(entries, entries.len() as int),
{
    lemma_counts_from(entries, 0, Seq::empty());
}

/// Whether all characters are decimal digits.
pub open spec fn all_digits(s: Seq<char>) -> bool {
    forall|i: int| 0 <= i < s.len() ==> '0' <= #[trigger] s[i] <= '9'
}

/// The DEX files of an APK are `classes.dex`, `classes2.dex` and so on, with any number;
/// nothing is one that is named otherwise.
pub proof fn lemma_dex_names(digits: Seq<char>, name: Seq<char>)
    ensures
        all_digits(digits) ==> classes_dex("classes"@ + digits + ".dex"@),
        classes_dex("classes.dex"@),
        classes_dex(name) ==> name.len() >= 11 && name == "classes"@ + name.subrange(
            7,
            name.len() - 4,
        ) + ".dex"@ && all_digits(name.subrange(7, name.len() - 4)),
{
    reveal_strlit("classes");
    reveal_strlit(".dex");
    reveal_strlit("classes.dex");
    let full = "classes"@ + digits + ".dex"@;
    assert(full.subrange(0, 7) =~= "classes"@);
    assert(full.subrange(full.len() - 4, full.len() as int) =~= ".dex"@);
    if all_digits(digits) {
        assert forall|i: int| 7 <= i < full.len() - 4 implies '0' <= #[trigger] full[i] <= '9' by {
            assert(full[i] == digits[i - 7]);
        }
    }
    assert("classes.dex"@.subrange(0, 7) =~= "classes"@);
    assert("classes.dex"@.subrange(7, 11) =~= ".dex"@);
    if classes_dex(name) {
        let head = name.subrange(0, 7);
        let tail = name.subrange(name.len() - 4, name.len() as int);
        assert(head == "classes"@);
        assert(tail == ".dex"@);
        if name.len() < 11 {
            assert(tail[0] == name[name.len() - 4]);
            assert(".dex"@[0] == '.');
            assert(head[name.len() - 4] == name[name.len() - 4]);
            assert("classes"@[name.len() - 4] == '.');
            assert(3 <= name.len() - 4 <= 6);
        }
        assert(name =~= head + name.subrange(7, name.len() - 4) + tail);
        assert forall|i: int| 0 <= i < name.len() - 11 implies '0' <= #[trigger] name.subrange(
            7,
            name.len() - 4,
        )[i] <= '9' by {
            assert(name.subrange(7, name.len() - 4)[i] == name[i + 7]);
        }
    }
}

proof fn lemma_no_occurrence(s: Seq<char>, c: char)
    requires
        forall|i: int| 0 <= i < s.len() ==> #[trigger] s[i] != c,
    ensures
        text::occurrences(s, c) == 0,
    decreases s.len(),
{
    if s.len() > 0 {
        lemma_no_occurrence(s.drop_last(), c);
    }
}

proof fn lemma_occurrences_concat(a: Seq<char>, b: Seq<char>, c: char)
    ensures
        text::occurrences(a + b, c) == text::occurrences(a, c) + text::occurrences(b, c),
    decreases b.len(),
{
    if b.len() == 0 {
        assert(a + b =~= a);
    } else {
        lemma_occurrences_concat(a, b.drop_last(), c);
        assert((a + b).drop_last() =~= a + b.drop_last());
    }
}

proof fn lemma_meta_inf()
    ensures
        "META-INF/"@.len() == 9,
        text::upper("META-INF/"@) == "META-INF/"@,
        text::occurrences("META-INF/"@, '/') == 1,
{
    reveal_strlit("META-INF/");
    assert(text::upper("META-INF/"@) =~= "META-INF/"@);
    let front = "META-INF/"@.drop_last();
    lemma_no_occurrence(front, '/');
    assert("META-INF/"@.last() == '/');
}

/// The manifest, and every signature file and block directly under `META-INF/`, are
/// signing artefacts, whatever their names; capitals make no difference.
pub proof fn lemma_signature_files(stem: Seq<char>, name: Seq<char>)
    requires
        forall|i: int| 0 <= i < stem.len() ==> #[trigger] stem[i] != '/',
    ensures
        signing_artefact("META-INF/"@ + stem + ".SF"@),
        signing_artefact("META-INF/"@ + stem + ".RSA"@),
        signing_artefact("META-INF/"@ + stem + ".DSA"@),
        signing_artefact("META-INF/"@ + stem + ".EC"@),
        signing_artefact("META-INF/MANIFEST.MF"@),
        signing_artefact(text::upper(name)) == signing_artefact(name),
        signing_artefact(text::lower(name)) == signing_artefact(name),
{
    reveal_strlit(".SF");
    reveal_strlit(".RSA");
    reveal_strlit(".DSA");
    reveal_strlit(".EC");
    lemma_artefact(stem, ".SF"@);
    lemma_artefact(stem, ".RSA"@);
    lemma_artefact(stem, ".DSA"@);
    lemma_artefact(stem, ".EC"@);
    reveal_strlit("META-INF/");
    reveal_strlit("META-INF/MANIFEST.MF");
    reveal_strlit("/MANIFEST.MF");
    let m = "META-INF/MANIFEST.MF"@;
    assert(text::upper(m) =~= m);
    assert(m.subrange(0, 9) =~= "META-INF/"@);
    assert(m.subrange(8, 20) =~= "/MANIFEST.MF"@);
    assert(text::upper(text::upper(name)) =~= text::upper(name));
    assert(text::upper(text::lower(name)) =~= text::upper(name));
}

proof fn lemma_artefact(stem: Seq<char>, suffix: Seq<char>)
    requires
        forall|i: int| 0 <= i < stem.len() ==> #[trigger] stem[i] != '/',
        forall|i: int|
            0 <= i < suffix.len() ==> #[trigger] suffix[i] != '/' && !('a' <= suffix[i] <= 'z'),
        suffix == ".SF"@ || suffix == ".RSA"@ || suffix == ".DSA"@ || suffix == ".EC"@,
    ensures
        signing_artefact("META-INF/"@ + stem + suffix),
{
    let meta = "META-INF/"@;
    let u = text::upper(meta + stem + suffix);
    let mid = text::upper(stem);
    lemma_meta_inf();
    assert(text::upper(suffix) =~= suffix);
    assert(u =~= meta + mid + suffix);
    assert(u.subrange(0, 9) =~= meta);
    assert(u.subrange(u.len() - suffix.len(), u.len() as int) =~= suffix);
    assert forall|i: int| 0 <= i < mid.len() implies #[trigger] mid[i] != '/' by {
        assert(stem[i] != '/');
    }
    lemma_no_occurrence(mid, '/');
    lemma_no_occurrence(suffix, '/');
    lemma_occurrences_concat(meta + mid, suffix, '/');
    lemma_occurrences_concat(meta, mid, '/');
}

/// Nothing outside `META-INF/` is a signing artefact, and nothing in it but files with
/// the endings of a manifest, a signature file or a signature block.
pub proof fn lemma_other_files_are_kept(name: Seq<char>)
    requires
        signing_artefact(name),
    ensures
        ({
            let u = text::upper(name);
            &&& text::starts_with(u, "META-INF/"@)
            &&& {
                ||| text::ends_with(u, ".MF"@)
                ||| text::ends_with(u, ".SF"@)
                ||| text::ends_with(u, ".RSA"@)
                ||| text::ends_with(u, ".DSA"@)
                ||| text::ends_with(u, ".EC"@)
            }
        }),
{
    let u = text::upper(name);
    reveal_strlit(".MF");
    reveal_strlit(".SF");
    reveal_strlit(".RSA");
    reveal_strlit(".DSA");
    reveal_strlit(".EC");
    reveal_strlit("/MANIFEST.MF");
    reveal_strlit("/CERT.SF");
    reveal_strlit("/CERT.RSA");
    reveal_strlit("/CERT.DSA");
    reveal_strlit("/CERT.EC");
    reveal_strlit("META-INF/MANIFEST.MF");
    lemma_shorter_suffix(u, "/MANIFEST.MF"@, ".MF"@);
    lemma_shorter_suffix(u, "/CERT.SF"@, ".SF"@);
    lemma_shorter_suffix(u, "/CERT.RSA"@, ".RSA"@);
    lemma_shorter_suffix(u, "/CERT.DSA"@, ".DSA"@);
    lemma_shorter_suffix(u, "/CERT.EC"@, ".EC"@);
    if u == "META-INF/MANIFEST.MF"@ {
        assert(u.subrange(u.len() - 3, u.len() as int) =~= ".MF"@);
    }
}

proof fn lemma_shorter_suffix(s: Seq<char>, long: Seq<char>, short: Seq<char>)
    requires
        short.len() <= long.len(),
        forall|i: int|
            0 <= i < short.len() ==> #[trigger] short[i] == long[long.len() - short.len() + i],
    ensures
        text::ends_with(s, long) ==> text::ends_with(s, short),
{
    if text::ends_with(s, long) {
        let tail = s.subrange(s.len() - long.len(), s.len() as int);
        assert(tail == long);
        assert forall|i: int| 0 <= i < short.len() implies s[s.len() - short.len() + i]
            == #[trigger] short[i] by {
            assert(tail[long.len() - short.len() + i] == s[s.len() - short.len() + i]);
        }
        assert(s.subrange(s.len() - short.len(), s.len() as int) =~= short);
    }
}

/// Data that is stored is aligned to four bytes at least, and a shared library to a page
/// of 4096; what is deflated needs no alignment.
pub proof fn lemma_alignment(name: Seq<char>, mid: Seq<char>)
    ensures
        entry_alignment(name, true) == 1,
        entry_alignment(name, false) == 4 || entry_alignment(name, false) == 4096,
        entry_alignment("lib/"@ + mid + ".so"@, false) == 4096,
        entry_alignment(name, false) == 4096 ==> text::starts_with(name, "lib/"@)
            && text::ends_with(name, ".so"@),
{
    let full = "lib/"@ + mid + ".so"@;
    reveal_strlit("lib/");
    reveal_strlit(".so");
    assert(full.subrange(0, 4) =~= "lib/"@);
    assert(full.subrange(full.len() - 3, full.len() as int) =~= ".so"@);
}

/// An entry that is kept keeps its name and its compression. Its data stays where it is
/// no DEX file; where it is one, its data is that of the patched file.
pub proof fn lemma_kept_entry(name: Seq<char>, deflated: bool, data: Seq<u8>)
    ensures
        ({
            let file = file_of(name, deflated, data);
            &&& file.0 == name
            &&& file.1 == deflated
            &&& file.2 <==> file.4.len() > u32::MAX
            &&& !classes_dex(name) ==> file.4 == data
            &&& classes_dex(name) && data.len() <= MAX_DIGEST_INPUT ==> (dex::patched(data) matches Ok(
                r,
            ) ==> file.4 == r.0)
        }),
{
}

/// The entries that are kept: a file of the new archive is an entry of the old one that
/// is no signing artefact, and every such entry is there, in the same order.
pub proof fn lemma_kept_one_by_one(
    entries: Seq<Option<(Seq<char>, bool, Option<Seq<u8>>)>>,
    n: int,
)
    requires
        0 < n <= entries.len(),
    ensures
        match entries[n - 1] {
            Some((name, deflated, Some(data))) => if signing_artefact(name) {
                kept(entries, n) == kept(entries, n - 1)
            } else {
                kept(entries, n).len() == kept(entries, n - 1).len() + 1 && kept(
                    entries,
                    n,
                ).drop_last() == kept(entries, n - 1) && kept(entries, n).last().0 == name && kept(
                    entries,
                    n,
                ).last().1 == deflated && (!classes_dex(name) ==> kept(entries, n).last().4 == data)
            },
            _ => kept(entries, n) == kept(entries, n - 1),
        },
{
    if let Some((name, deflated, Some(data))) = entries[n - 1] {
        if !signing_artefact(name) {
            assert(kept(entries, n).drop_last() =~= kept(entries, n - 1));
        }
    }
}

/// An archive is repacked only where every entry can be opened, and every one that is
/// kept can be read and, where it is a DEX file, patched; nothing is left out otherwise.
pub proof fn lemma_nothing_is_left_out(
    entries: Seq<Option<(Seq<char>, bool, Option<Seq<u8>>)>>,
    i: int,
    files: Seq<(Seq<char>, bool, bool, u16, Seq<u8>)>,
    patches: nat,
    patched: nat,
    k: int,
)
    requires
        0 <= i <= k < entries.len(),
        repack_entries(entries, i, files, patches, patched) is Ok,
    ensures
        entries[k] matches Some((name, _, contents)) && (!signing_artefact(name) ==> (
        contents matches Some(data) && patched_data(name, data) is Ok)),
    decreases entries.len() - i,
{
    if i < k {
        let (name, deflated, contents) = entries[i]->Some_0;
        if signing_artefact(name) {
            lemma_nothing_is_left_out(entries, i + 1, files, patches, patched, k);
        } else {
            let (out, n) = patched_data(name, contents->Some_0)->Ok_0;
            lemma_nothing_is_left_out(
                entries,
                i + 1,
                added(files, name, deflated, out)->Ok_0,
                patches + n,
                patched + if n > 0 {
                    1nat
                } else {
                    0nat
                },
                k,
            );
        }
    }
}

} // verus!
