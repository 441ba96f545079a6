//! The compression codec of the asset store: zstd frames.

use vstd::prelude::*;

verus! {

/// The zstd frame that `zstd::encode_all` makes of `data` at `level`, or
/// `None` where it fails.
pub uninterp spec fn zstd_frame(data: Seq<u8>, level: i32) -> Option<Seq<u8>>;

/// What `zstd::decode_all` gives back for `frame`, or `None` where the bytes
/// are not a valid zstd frame.
pub uninterp spec fn zstd_contents(frame: Seq<u8>) -> Option<Seq<u8>>;

/// Relies on `zstd::encode_all`: compresses `data` at `level` into one zstd
/// frame, which `zstd::decode_all` turns back into `data`.
#[verifier::external_body]
pub(crate) fn compress(data: &[u8], level: i32) -> (r: Result<Vec<u8>, String>)
    ensures
        match r {
            Ok(frame) => zstd_frame(data@, level) == Some(frame@) && zstd_contents(frame@) == Some(
                data@,
            ),
            Err(_) => zstd_frame(data@, level) is None,
        },
{
    zstd::encode_all(data, level).map_err(|e| e.to_string())
}

/// Relies on `zstd::decode_all`: decompresses the zstd frame `frame`.
#[verifier::external_body]
pub(crate) fn decompress(frame: &[u8]) -> (r: Result<Vec<u8>, String>)
    ensures
        match r {
            Ok(data) => zstd_contents(frame@) == Some(data@),
            Err(_) => zstd_contents(frame@) is None,
        },
{
    zstd::decode_all(frame).map_err(|e| e.to_string())
}

/// The compression level for a build: the highest for a release profile, the
/// fastest for every other.
pub fn compression_level(profile: Option<&str>) -> (level: i32)
    ensures
        level == (if profile is Some && profile->0@ == "release"@ {
            22i32
        } else {
            -5i32
        }),
{
    match profile {
        Some(p) => {
            let release = "release";
            if crate::text::same_text(p, release) {
                22
            } else {
                -5
            }
        },
        None => -5,
    }
}

} // verus!
