//! Which downloads are picked up, and what their patched copies are called.
use crate::text;
use vstd::prelude::*;

verus! {

/// A download shorter than this is still in progress.
pub const MIN_APK_LEN: u64 = 1048576;

/// Whether `name` is that of a launcher APK, in capitals or not, and not that
/// of a patched copy.
pub open spec fn carcar_apk(name: Seq<char>) -> bool {
    let l = text::lower(name);
    &&& text::starts_with(l, "carcar"@)
    &&& text::ends_with(l, ".apk"@)
    &&& !text::ends_with(l, ".aabox-patched.apk"@)
}

pub fn is_carcar_apk_filename(name: &str) -> (r: bool)
    ensures
        r == carcar_apk(name@),
{
    let l: Vec<char> = text::to_lower(name);
    text::text_starts_with(&l, "carcar") && text::text_ends_with(&l, ".apk")
        && !text::text_ends_with(&l, ".aabox-patched.apk")
}

/// Whether a download of `len` bytes is complete enough to be processed.
pub fn is_complete_download(len: u64) -> (r: bool)
    ensures
        r == (len >= MIN_APK_LEN),
        r <==> len >= 1024 * 1024,
{
    len >= MIN_APK_LEN
}

/// The name of the patched copy of a download; `stem` is the download's name
/// without its extension, if it has one that is text.
pub fn patched_file_name(stem: Option<&str>) -> (r: String)
    ensures
        r@ == match stem {
            Some(s) => s@,
            None => "apk"@,
        } + ".aabox-patched.apk"@,
{
    match stem {
        Some(s) => text::join(s, ".aabox-patched.apk"),
        None => text::join("apk", ".aabox-patched.apk"),
    }
}

/// `lower` leaves the patched suffix as it is.
proof fn lemma_suffix_is_lower()
    ensures
        text::lower(".aabox-patched.apk"@) == ".aabox-patched.apk"@,
{
    reveal_strlit(".aabox-patched.apk");
    assert(text::lower(".aabox-patched.apk"@) =~= ".aabox-patched.apk"@);
}

/// A patched copy is never picked up as a download.
pub proof fn lemma_patched_copy_is_skipped(stem: Seq<char>)
    ensures
        !carcar_apk(stem + ".aabox-patched.apk"@),
{
    let suffix = ".aabox-patched.apk"@;
    let name = stem + suffix;
    let l = text::lower(name);
    lemma_suffix_is_lower();
    assert(l.subrange(l.len() - suffix.len(), l.len() as int) =~= text::lower(suffix));
}

/// Every name from `carcar` to `.apk` is a launcher's where there is no other point in
/// it; capitals make no difference.
pub proof fn lemma_launcher_names(mid: Seq<char>, name: Seq<char>)
    requires
        forall|i: int| 0 <= i < mid.len() ==> #[trigger] mid[i] != '.',
    ensures
        carcar_apk("carcar"@ + mid + ".apk"@),
        carcar_apk(text::upper(name)) == carcar_apk(name),
        carcar_apk(text::lower(name)) == carcar_apk(name),
{
    let full = "carcar"@ + mid + ".apk"@;
    let l = text::lower(full);
    reveal_strlit("carcar");
    reveal_strlit(".apk");
    reveal_strlit(".aabox-patched.apk");
    assert(l.subrange(0, 6) =~= "carcar"@);
    assert(l.subrange(l.len() - 4, l.len() as int) =~= ".apk"@);
    if text::ends_with(l, ".aabox-patched.apk"@) {
        let tail = l.subrange(l.len() - 18, l.len() as int);
        assert(tail[0] == '.');
        assert(l[l.len() - 18] == '.');
        assert(full[l.len() - 18] == '.');
    }
    assert(text::lower(text::upper(name)) =~= text::lower(name));
    assert(text::lower(text::lower(name)) =~= text::lower(name));
}

} // verus!
