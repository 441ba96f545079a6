//! The standalone image: a base executable followed by the serialized asset
//! store, the serialized metadata and a fixed 24-byte trailer.
//!
//! The trailer is the magic sentinel (8 bytes), then the offset where the
//! store begins and the offset where the metadata begins, each a big-endian
//! `u64`. It always ends the file, so it is found by seeking from the end.

use vstd::prelude::*;

use crate::text::{chars_of, string_from_chars};

verus! {

/// The module specifier under which an embedded entry module is loaded.
pub const SPECIFIER: &'static str = "file://$wry$/bundle.js";

/// The name of the output when none is given.
pub const DEFAULT_OUTPUT: &'static str = "compiled-bin-test";

/// Why an image could not be packed or read.
#[derive(Clone, Copy, Debug, PartialEq, Eq, Structural)]
pub enum StandaloneError {
    /// The output path is a directory.
    OutputIsDirectory,
    /// The output path holds a file that this packer did not make.
    CannotOverwrite,
    /// A big-endian field is not exactly 8 bytes long.
    InvalidLength,
    /// The trailer's offsets do not fit the file.
    InvalidTrailer,
    /// Only the embedded entry module can be loaded.
    ModuleLoadingUnsupported,
}

/// Metadata stored beside the asset store. It has no fields yet.
#[derive(Clone, Copy, Debug, PartialEq, Eq, Structural)]
pub struct Metadata {}

/// The magic sentinel that starts every trailer: `t4ur1wry` in ASCII.
pub open spec fn magic() -> Seq<u8> {
    seq![116u8, 52u8, 117u8, 114u8, 49u8, 119u8, 114u8, 121u8]
}

/// The big-endian bytes of `x`.
pub open spec fn be_bytes(x: u64) -> Seq<u8> {
    seq![
        (x >> 56u64) as u8,
        (x >> 48u64) as u8,
        (x >> 40u64) as u8,
        (x >> 32u64) as u8,
        (x >> 24u64) as u8,
        (x >> 16u64) as u8,
        (x >> 8u64) as u8,
        x as u8,
    ]
}

/// The number whose big-endian bytes are the first eight of `b`.
pub open spec fn be_value(b: Seq<u8>) -> u64 {
    (b[0] as u64) << 56u64 | (b[1] as u64) << 48u64 | (b[2] as u64) << 40u64 | (b[3] as u64)
        << 32u64 | (b[4] as u64) << 24u64 | (b[5] as u64) << 16u64 | (b[6] as u64) << 8u64 | (
    b[7] as u64)
}

/// Decoding the big-endian bytes of `x` gives `x`.
pub proof fn lemma_be_round_trip(x: u64)
    ensures
        be_value(be_bytes(x)) == x,
{
    let b = be_bytes(x);
    let b0 = (x >> 56u64) as u8;
    let b1 = (x >> 48u64) as u8;
    let b2 = (x >> 40u64) as u8;
    let b3 = (x >> 32u64) as u8;
    let b4 = (x >> 24u64) as u8;
    let b5 = (x >> 16u64) as u8;
    let b6 = (x >> 8u64) as u8;
    let b7 = x as u8;
    assert(b[0] == b0 && b[1] == b1 && b[2] == b2 && b[3] == b3);
    assert(b[4] == b4 && b[5] == b5 && b[6] == b6 && b[7] == b7);
    assert((b0 as u64) << 56u64 | (b1 as u64) << 48u64 | (b2 as u64) << 40u64 | (b3 as u64)
        << 32u64 | (b4 as u64) << 24u64 | (b5 as u64) << 16u64 | (b6 as u64) << 8u64 | (b7 as u64)
        == x) by (bit_vector)
        requires
            b0 == (x >> 56u64) as u8,
            b1 == (x >> 48u64) as u8,
            b2 == (x >> 40u64) as u8,
            b3 == (x >> 32u64) as u8,
            b4 == (x >> 24u64) as u8,
            b5 == (x >> 16u64) as u8,
            b6 == (x >> 8u64) as u8,
            b7 == x as u8,
    ;
}

/// The big-endian bytes of `x`.
fn u64_to_be_bytes(x: u64) -> (r: Vec<u8>)
    ensures
        r@ == be_bytes(x),
{
    let mut r: Vec<u8> = Vec::new();
    r.push((x >> 56u64) as u8);
    r.push((x >> 48u64) as u8);
    r.push((x >> 40u64) as u8);
    r.push((x >> 32u64) as u8);
    r.push((x >> 24u64) as u8);
    r.push((x >> 16u64) as u8);
    r.push((x >> 8u64) as u8);
    r.push(x as u8);
    proof {
        assert(r@ =~= be_bytes(x));
    }
    r
}

/// Reads a big-endian `u64` from exactly eight bytes.
pub fn u64_from_bytes(arr: &[u8]) -> (r: Result<u64, StandaloneError>)
    ensures
        match r {
            Ok(x) => arr@.len() == 8 && x == be_value(arr@),
            Err(e) => arr@.len() != 8 && e is InvalidLength,
        },
{
    if arr.len() != 8 {
        return Err(StandaloneError::InvalidLength);
    }
    Ok((arr[0] as u64) << 56u64 | (arr[1] as u64) << 48u64 | (arr[2] as u64) << 40u64 | (
    arr[3] as u64) << 32u64 | (arr[4] as u64) << 24u64 | (arr[5] as u64) << 16u64 | (
    arr[6] as u64) << 8u64 | (arr[7] as u64))
}

/// The trailer for a store at `bundle_pos` and metadata at `metadata_pos`.
pub open spec fn trailer(bundle_pos: u64, metadata_pos: u64) -> Seq<u8> {
    magic() + be_bytes(bundle_pos) + be_bytes(metadata_pos)
}

/// The image that packs `base`, the serialized store `bundle` and the
/// serialized metadata `metadata`.
pub open spec fn standalone_image(base: Seq<u8>, bundle: Seq<u8>, metadata: Seq<u8>) -> Seq<u8> {
    base + bundle + metadata + trailer(base.len() as u64, (base.len() + bundle.len()) as u64)
}

/// Whether `file` ends in a trailer, that is, whether its last 24 bytes begin
/// with the magic sentinel.
pub open spec fn has_trailer(file: Seq<u8>) -> bool {
    file.len() >= 24 && file.subrange(file.len() - 24, file.len() - 16) == magic()
}

/// The store offset that the trailer of `file` records.
pub open spec fn bundle_offset(file: Seq<u8>) -> u64 {
    be_value(file.subrange(file.len() - 16, file.len() - 8))
}

/// The metadata offset that the trailer of `file` records.
pub open spec fn metadata_offset(file: Seq<u8>) -> u64 {
    be_value(file.subrange(file.len() - 8, file.len() as int))
}

/// Whether the offsets in the trailer of `file` fit it: the store comes
/// before the metadata, and the metadata ends where the trailer begins.
pub open spec fn offsets_fit(file: Seq<u8>) -> bool {
    bundle_offset(file) <= metadata_offset(file) <= file.len() - 24
}

/// Whether an image of `len` bytes before its trailer can be held in memory
/// with the trailer added.
pub open spec fn fits_image(len: nat) -> bool {
    len + 24 <= usize::MAX
}

/// A packed image is as long as its parts and its trailer, ends in a
/// trailer, and that trailer records the store right after the base and the
/// metadata right after the store.
pub proof fn lemma_trailer_round_trip(base: Seq<u8>, bundle: Seq<u8>, metadata: Seq<u8>)
    requires
        fits_image(base.len() + bundle.len() + metadata.len()),
    ensures
        standalone_image(base, bundle, metadata).len() == base.len() + bundle.len()
            + metadata.len() + 24,
        has_trailer(standalone_image(base, bundle, metadata)),
        bundle_offset(standalone_image(base, bundle, metadata)) == base.len(),
        metadata_offset(standalone_image(base, bundle, metadata)) == base.len() + bundle.len(),
{
    let img = standalone_image(base, bundle, metadata);
    let n = (base.len() + bundle.len() + metadata.len()) as int;
    let bp = base.len() as u64;
    let mp = (base.len() + bundle.len()) as u64;
    assert(img.subrange(n, n + 8) =~= magic());
    assert(img.subrange(n + 8, n + 16) =~= be_bytes(bp));
    assert(img.subrange(n + 16, n + 24) =~= be_bytes(mp));
    lemma_be_round_trip(bp);
    lemma_be_round_trip(mp);
}

/// Extracting a freshly packed image finds exactly the store and metadata
/// that were packed.
pub proof fn lemma_extract_inverts_pack(base: Seq<u8>, bundle: Seq<u8>, metadata: Seq<u8>)
    requires
        fits_image(base.len() + bundle.len() + metadata.len()),
    ensures
        has_trailer(standalone_image(base, bundle, metadata)),
        offsets_fit(standalone_image(base, bundle, metadata)),
        standalone_image(base, bundle, metadata).subrange(
            bundle_offset(standalone_image(base, bundle, metadata)) as int,
            metadata_offset(standalone_image(base, bundle, metadata)) as int,
        ) == bundle,
        standalone_image(base, bundle, metadata).subrange(
            metadata_offset(standalone_image(base, bundle, metadata)) as int,
            standalone_image(base, bundle, metadata).len() - 24,
        ) == metadata,
{
    lemma_trailer_round_trip(base, bundle, metadata);
    let img = standalone_image(base, bundle, metadata);
    let b = base.len() as int;
    let s = bundle.len() as int;
    assert(img.subrange(b, b + s) =~= bundle);
    assert(img.subrange(b + s, img.len() - 24) =~= metadata);
}

/// Appends the bytes of `src` to `dst`.
fn append_bytes(dst: &mut Vec<u8>, src: &Vec<u8>)
    ensures
        final(dst)@ == old(dst)@ + src@,
{
    let mut i: usize = 0;
    while i < src.len()
        invariant
            0 <= i <= src@.len(),
            dst@ == old(dst)@ + src@.subrange(0, i as int),
        decreases src@.len() - i,
    {
        dst.push(src[i]);
        proof {
            assert(dst@ =~= old(dst)@ + src@.subrange(0, i + 1));
        }
        i += 1;
    }
    proof {
        assert(src@.subrange(0, src@.len() as int) =~= src@);
    }
}

/// The bytes of `v` from `from` up to `to`.
fn copy_range(v: &[u8], from: usize, to: usize) -> (r: Vec<u8>)
    requires
        from <= to <= v@.len(),
    ensures
        r@ == v@.subrange(from as int, to as int),
{
    let mut r: Vec<u8> = Vec::new();
    let mut i: usize = from;
    while i < to
        invariant
            from <= i <= to <= v@.len(),
            r@ == v@.subrange(from as int, i as int),
        decreases to - i,
    {
        r.push(v[i]);
        proof {
            assert(r@ =~= v@.subrange(from as int, i + 1));
        }
        i += 1;
    }
    r
}

/// The magic sentinel.
fn magic_bytes() -> (r: Vec<u8>)
    ensures
        r@ == magic(),
{
    let r: Vec<u8> = vec![116u8, 52u8, 117u8, 114u8, 49u8, 119u8, 114u8, 121u8];
    proof {
        assert(r@ =~= magic());
    }
    r
}

/// Packs `base`, the serialized store `bundle` and the serialized
/// `metadata`, and ends the image with the trailer that locates them.
pub fn create_standalone_binary(base: Vec<u8>, bundle: Vec<u8>, metadata: Vec<u8>) -> (r: Vec<u8>)
    requires
        fits_image(base@.len() + bundle@.len() + metadata@.len()),
    ensures
        r@ == standalone_image(base@, bundle@, metadata@),
{
    let bundle_pos = base.len() as u64;
    let metadata_pos = (base.len() + bundle.len()) as u64;
    let mut image = base;
    append_bytes(&mut image, &bundle);
    append_bytes(&mut image, &metadata);
    append_bytes(&mut image, &magic_bytes());
    append_bytes(&mut image, &u64_to_be_bytes(bundle_pos));
    append_bytes(&mut image, &u64_to_be_bytes(metadata_pos));
    proof {
        assert(image@ =~= standalone_image(base@, bundle@, metadata@));
    }
    image
}

/// What stands at the output path before packing.
#[derive(Debug)]
pub enum ExistingOutput {
    /// Nothing.
    Absent,
    /// A directory.
    Directory,
    /// A file; `tail` holds its last bytes, at least 24 of them where it has
    /// that many.
    File { tail: Vec<u8> },
}

/// Whether the image may be written over `existing`: only where nothing is
/// there, or a file that ends in a trailer of this packer.
pub fn check_overwrite(existing: &ExistingOutput) -> (r: Result<(), StandaloneError>)
    ensures
        match existing {
            ExistingOutput::Absent => r is Ok,
            ExistingOutput::Directory => r matches Err(StandaloneError::OutputIsDirectory),
            ExistingOutput::File { tail } => if has_trailer(tail@) {
                r is Ok
            } else {
                r matches Err(StandaloneError::CannotOverwrite)
            },
        },
{
    match existing {
        ExistingOutput::Absent => Ok(()),
        ExistingOutput::Directory => Err(StandaloneError::OutputIsDirectory),
        ExistingOutput::File { tail } => {
            if tail_has_trailer(tail.as_slice()) {
                Ok(())
            } else {
                Err(StandaloneError::CannotOverwrite)
            }
        },
    }
}

/// Whether `file` ends in a trailer.
fn tail_has_trailer(file: &[u8]) -> (r: bool)
    ensures
        r == has_trailer(file@),
{
    if file.len() < 24 {
        return false;
    }
    let start = file.len() - 24;
    let m = magic_bytes();
    let mut i: usize = 0;
    while i < 8
        invariant
            file@.len() >= 24,
            start + 24 == file.len(),
            start == file@.len() - 24,
            m@ == magic(),
            0 <= i <= 8,
            forall|j: int| 0 <= j < i ==> file@[start + j] == m@[j],
        decreases 8 - i,
    {
        if file[start + i] != m[i] {
            proof {
                assert(file@.subrange(start as int, start + 8)[i as int] != magic()[i as int]);
            }
            return false;
        }
        i += 1;
    }
    proof {
        assert(file@.subrange(start as int, start + 8) =~= magic());
    }
    true
}

/// Packs the image to write at an output where `existing` stands: the base
/// executable, the serialized store and metadata, and the trailer. Refuses,
/// before anything is written, an output that is a directory or a file that
/// this packer did not make.
pub fn compile_command(
    base: Vec<u8>,
    bundle: Vec<u8>,
    metadata: Vec<u8>,
    existing: &ExistingOutput,
) -> (r: Result<Vec<u8>, StandaloneError>)
    requires
        fits_image(base@.len() + bundle@.len() + metadata@.len()),
    ensures
        match existing {
            ExistingOutput::Absent => r is Ok,
            ExistingOutput::Directory => r matches Err(StandaloneError::OutputIsDirectory),
            ExistingOutput::File { tail } => if has_trailer(tail@) {
                r is Ok
            } else {
                r matches Err(StandaloneError::CannotOverwrite)
            },
        },
        r is Ok ==> r->Ok_0@ == standalone_image(base@, bundle@, metadata@),
{
    match check_overwrite(existing) {
        Ok(()) => Ok(create_standalone_binary(base, bundle, metadata)),
        Err(e) => Err(e),
    }
}

/// Where the store and the metadata lie in a standalone file.
#[derive(Clone, Copy, Debug, PartialEq, Eq, Structural)]
pub struct BundleLayout {
    pub bundle_pos: u64,
    pub bundle_len: u64,
    pub metadata_pos: u64,
    pub metadata_len: u64,
}

/// Reads the trailer of a file of `file_len` bytes whose last bytes are
/// `tail`: `None` where there is no trailer, the layout of the store and
/// metadata where there is one, and an error where its offsets do not fit
/// the file.
pub fn locate_bundle(file_len: u64, tail: &[u8]) -> (r: Result<Option<BundleLayout>, StandaloneError>)
    requires
        tail@.len() <= file_len,
        file_len >= 24 ==> tail@.len() >= 24,
    ensures
        !has_trailer(tail@) <==> r matches Ok(None),
        has_trailer(tail@) && !(bundle_offset(tail@) <= metadata_offset(tail@) <= file_len - 24)
            <==> r matches Err(StandaloneError::InvalidTrailer),
        has_trailer(tail@) && bundle_offset(tail@) <= metadata_offset(tail@) <= file_len - 24
            <==> r matches Ok(Some(_)),
        r matches Ok(Some(l)) ==> {
            &&& l.bundle_pos == bundle_offset(tail@)
            &&& l.metadata_pos == metadata_offset(tail@)
            &&& l.bundle_len == l.metadata_pos - l.bundle_pos
            &&& l.metadata_len == file_len - 24 - l.metadata_pos
        },
{
    if !tail_has_trailer(tail) {
        return Ok(None);
    }
    let n = tail.len();
    let bundle_pos = match u64_from_bytes(&copy_range(tail, n - 16, n - 8)) {
        Ok(x) => x,
        Err(e) => return Err(e),
    };
    let metadata_pos = match u64_from_bytes(&copy_range(tail, n - 8, n)) {
        Ok(x) => x,
        Err(e) => return Err(e),
    };
    let trailer_pos = file_len - 24;
    if bundle_pos > metadata_pos || metadata_pos > trailer_pos {
        return Err(StandaloneError::InvalidTrailer);
    }
    Ok(
        Some(
            BundleLayout {
                bundle_pos,
                bundle_len: metadata_pos - bundle_pos,
                metadata_pos,
                metadata_len: trailer_pos - metadata_pos,
            },
        ),
    )
}

/// Reads the serialized store and metadata out of a standalone `image`:
/// `None` where it carries no trailer, an error where the trailer's offsets
/// do not fit it.
pub fn extract_standalone(image: &[u8]) -> (r: Result<Option<(Vec<u8>, Vec<u8>)>, StandaloneError>)
    ensures
        !has_trailer(image@) <==> r matches Ok(None),
        has_trailer(image@) && !offsets_fit(image@) <==> r matches Err(
            StandaloneError::InvalidTrailer,
        ),
        has_trailer(image@) && offsets_fit(image@) <==> r matches Ok(Some(_)),
        r matches Ok(Some(parts)) ==> {
            &&& parts.0@ == image@.subrange(
                bundle_offset(image@) as int,
                metadata_offset(image@) as int,
            )
            &&& parts.1@ == image@.subrange(metadata_offset(image@) as int, image@.len() - 24)
        },
{
    match locate_bundle(image.len() as u64, image) {
        Ok(None) => Ok(None),
        Ok(Some(l)) => {
            let bundle = copy_range(image, l.bundle_pos as usize, l.metadata_pos as usize);
            let metadata = copy_range(image, l.metadata_pos as usize, image.len() - 24);
            Ok(Some((bundle, metadata)))
        },
        Err(e) => Err(e),
    }
}

/// Whether `w` occurs in `t`.
pub open spec fn occurs(t: Seq<char>, w: Seq<char>) -> bool {
    exists|i: int| 0 <= i <= t.len() - w.len() && #[trigger] t.subrange(i, i + w.len()) == w
}

/// Whether `t` ends with `w`.
pub open spec fn ends_with(t: Seq<char>, w: Seq<char>) -> bool {
    t.len() >= w.len() && t.subrange(t.len() - w.len(), t.len() as int) == w
}

/// The path the image is written to: `output`, or the default name where
/// none is given, with `.exe` added where it lacks it and the target is
/// Windows. The target is Windows where its hint names `windows`, or, with no
/// hint, where the host is.
pub open spec fn resolved_output(
    output: Option<Seq<char>>,
    target: Option<Seq<char>>,
    host_windows: bool,
) -> Seq<char> {
    let path = match output {
        Some(o) => o,
        None => DEFAULT_OUTPUT@,
    };
    let windows = match target {
        Some(t) => occurs(t, "windows"@),
        None => host_windows,
    };
    if windows && !ends_with(path, ".exe"@) {
        path + ".exe"@
    } else {
        path
    }
}

/// Whether `w` stands in `t` at `i`.
fn occurs_at(t: &Vec<char>, w: &Vec<char>, i: usize) -> (r: bool)
    requires
        i + w@.len() <= t@.len(),
    ensures
        r == (t@.subrange(i as int, i + w@.len()) == w@),
{
    let mut j: usize = 0;
    while j < w.len()
        invariant
            i + w.len() <= t.len(),
            0 <= j <= w@.len(),
            forall|k: int| 0 <= k < j ==> t@[i + k] == w@[k],
        decreases w@.len() - j,
    {
        if t[i + j] != w[j] {
            proof {
                assert(t@.subrange(i as int, i + w@.len())[j as int] != w@[j as int]);
            }
            return false;
        }
        j += 1;
    }
    proof {
        assert(t@.subrange(i as int, i + w@.len()) =~= w@);
    }
    true
}

/// Whether `w` occurs in `t`.
fn contains_chars(t: &Vec<char>, w: &Vec<char>) -> (r: bool)
    ensures
        r == occurs(t@, w@),
{
    if w.len() > t.len() {
        return false;
    }
    if w.len() == 0 {
        proof {
            assert(t@.subrange(0int, 0int + w@.len()) =~= w@);
        }
        return true;
    }
    let last = t.len() - w.len();
    let mut i: usize = 0;
    while i <= last
        invariant
            last == t@.len() - w@.len(),
            last < t.len(),
            0 <= i <= last + 1,
            forall|k: int| 0 <= k < i ==> #[trigger] t@.subrange(k, k + w@.len()) != w@,
        decreases last + 1 - i,
    {
        if occurs_at(t, w, i) {
            return true;
        }
        i += 1;
    }
    false
}

/// Resolves where the image is written; see [`resolved_output`].
pub fn output_path(output: Option<String>, target: Option<String>, host_windows: bool) -> (r: String)
    ensures
        r@ == resolved_output(
            match output {
                Some(o) => Some(o@),
                None => None,
            },
            match target {
                Some(t) => Some(t@),
                None => None,
            },
            host_windows,
        ),
{
    let mut path = match &output {
        Some(o) => chars_of(o.as_str()),
        None => chars_of(DEFAULT_OUTPUT),
    };
    let windows = match &target {
        Some(t) => contains_chars(&chars_of(t.as_str()), &chars_of("windows")),
        None => host_windows,
    };
    let exe = chars_of(".exe");
    let has_exe = exe.len() <= path.len() && occurs_at(&path, &exe, path.len() - exe.len());
    if windows && !has_exe {
        let ghost before = path@;
        let mut j: usize = 0;
        while j < exe.len()
            invariant
                0 <= j <= exe@.len(),
                path@ == before + exe@.subrange(0, j as int),
            decreases exe@.len() - j,
        {
            path.push(exe[j]);
            proof {
                assert(path@ =~= before + exe@.subrange(0, j + 1));
            }
            j += 1;
        }
        proof {
            assert(exe@.subrange(0, exe@.len() as int) =~= exe@);
        }
    }
    string_from_chars(&path)
}

/// Loads the one module of a standalone program: its entry module, whose
/// source it holds.
pub struct EmbeddedModuleLoader(pub String);

impl EmbeddedModuleLoader {
    /// Resolves `specifier`, which must be [`SPECIFIER`].
    pub fn resolve(&self, specifier: &str) -> (r: Result<String, StandaloneError>)
        ensures
            match r {
                Ok(s) => specifier@ == SPECIFIER@ && s@ == specifier@,
                Err(e) => specifier@ != SPECIFIER@ && e is ModuleLoadingUnsupported,
            },
    {
        if crate::text::same_text(specifier, SPECIFIER) {
            Ok(specifier.to_owned())
        } else {
            Err(StandaloneError::ModuleLoadingUnsupported)
        }
    }

    /// The source of the module at `specifier`, which must be [`SPECIFIER`].
    pub fn load(&self, specifier: &str) -> (r: Result<String, StandaloneError>)
        ensures
            match r {
                Ok(code) => specifier@ == SPECIFIER@ && code@ == self.0@,
                Err(e) => specifier@ != SPECIFIER@ && e is ModuleLoadingUnsupported,
            },
    {
        if crate::text::same_text(specifier, SPECIFIER) {
            Ok(self.0.clone())
        } else {
            Err(StandaloneError::ModuleLoadingUnsupported)
        }
    }
}

} // verus!
