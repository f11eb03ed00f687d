//! Re-signing a launcher APK on the device.
//!
//! The launcher refuses to run on newer Android releases. Its APK is unpacked,
//! every read of `Build.VERSION.SDK_INT` in its DEX files becomes the constant
//! 35, and the result is packed and signed with the platform key (APK Signature
//! Scheme v2).
use crate::resigner::apk::{ApkError, PatchStats};
use crate::resigner::sign::{SignError, Signer};
use vstd::prelude::*;

pub mod apk;
pub mod clamping;
pub mod dex;
pub mod digest;
pub mod sign;
pub mod watcher;

verus! {

/// Where the platform private key is on the device.
pub const DEFAULT_KEY_PATH: &'static str = "/vendor/aabox-keys/platform.pk8";

/// Where the platform certificate is on the device.
pub const DEFAULT_CERT_PATH: &'static str = "/vendor/aabox-keys/platform.x509.pem";

/// The launcher's package.
pub const CARCAR_LAUNCHER_PKG: &'static str = "com.example.car_launcher";

/// The package of the app that downloads launcher updates.
pub const CARCAR_INSTALLER_PKG: &'static str = "com.carcarlauncher.installer";

/// Where that app puts its downloads.
pub const DEFAULT_WATCH_DIR: &'static str = "/sdcard/Download";

/// The daemon's log file.
pub const DEFAULT_LOG_PATH: &'static str = "/data/local/tmp/aabox-resigner.log";

/// The version of this package.
pub fn version() -> (r: &'static str)
    ensures
        r@ == "0.1.0"@,
{
    "0.1.0"
}

/// What processing one APK did.
#[derive(Debug, Clone, Copy)]
pub struct ProcessReport {
    pub input_bytes: usize,
    pub output_bytes: usize,
    pub sdk_int_patches: usize,
    pub dex_files_patched: usize,
    pub elapsed_ms: u64,
}

/// Why an APK cannot be processed.
#[derive(Debug, Clone, Copy, PartialEq, Eq, Structural)]
pub enum ProcessError {
    /// It cannot be repacked.
    Repack(ApkError),
    /// It cannot be signed.
    Sign(SignError),
}

/// What processing makes of an APK: the signed archive, the instructions
/// rewritten and the DEX files patched.
pub open spec fn processed(apk: Seq<u8>, key: Seq<u8>, cert: Seq<u8>, spki: Seq<u8>) -> Result<
    (Seq<u8>, nat, nat),
    ProcessError,
> {
    match apk::repacked(apk) {
        Err(e) => Err(ProcessError::Repack(e)),
        Ok((repacked, patches, patched)) => match sign::signed_apk(repacked, key, cert, spki) {
            Err(e) => Err(ProcessError::Sign(e)),
            Ok(signed) => Ok((signed, patches, patched)),
        },
    }
}

/// Patches and signs an APK.
pub fn process_apk_bytes(apk_bytes: &[u8], signer: &Signer) -> (r: Result<
    (Vec<u8>, PatchStats),
    ProcessError,
>)
    ensures
        match processed(apk_bytes@, signer.key(), signer.certificate(), signer.spki()) {
            Ok((bytes, patches, patched)) => r matches Ok((out, stats)) && out@ == bytes
                && stats.sdk_int_patches == patches && stats.dex_files_patched == patched,
            Err(e) => r == Err::<(Vec<u8>, PatchStats), ProcessError>(e),
        },
{
    let (repacked, stats) = match apk::repack_and_patch(apk_bytes) {
        Ok(r) => r,
        Err(e) => return Err(ProcessError::Repack(e)),
    };
    match sign::sign_apk_v2(&repacked, signer) {
        Ok(signed) => Ok((signed, stats)),
        Err(e) => Err(ProcessError::Sign(e)),
    }
}

/// The report on an APK of `input_bytes` bytes that became one of
/// `output_bytes` bytes.
pub fn report(input_bytes: usize, output_bytes: usize, stats: &PatchStats, elapsed_ms: u64) -> (r:
    ProcessReport)
    ensures
        r == (ProcessReport {
            input_bytes,
            output_bytes,
            sdk_int_patches: stats.sdk_int_patches,
            dex_files_patched: stats.dex_files_patched,
            elapsed_ms,
        }),
{
    ProcessReport {
        input_bytes,
        output_bytes,
        sdk_int_patches: stats.sdk_int_patches,
        dex_files_patched: stats.dex_files_patched,
        elapsed_ms,
    }
}

/// An APK is processed exactly where it can be repacked and what that makes can be
/// signed; what comes out is the signed one, and what is counted is what repacking
/// counted.
pub proof fn lemma_processing(apk: Seq<u8>, key: Seq<u8>, cert: Seq<u8>, spki: Seq<u8>)
    ensures
        processed(apk, key, cert, spki) is Ok <==> apk::repacked(apk) is Ok && sign::signed_apk(
            apk::repacked(apk)->Ok_0.0,
            key,
            cert,
            spki,
        ) is Ok,
        processed(apk, key, cert, spki) matches Ok((out, patches, patched)) ==> {
            let (plain, n, m) = apk::repacked(apk)->Ok_0;
            &&& patches == n
            &&& patched == m
            &&& plain.len() <= usize::MAX ==> sign::signed_layout(plain, out)
        },
{
    if let Ok((plain, _, _)) = apk::repacked(apk) {
        if plain.len() <= usize::MAX && sign::signed_apk(plain, key, cert, spki) is Ok {
            sign::lemma_signed_apk_layout(plain, key, cert, spki);
        }
    }
}

} // verus!
