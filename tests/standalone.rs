use standalone_assets::helpers::WebViewStatus;
use standalone_assets::standalone::{
    check_overwrite, compile_command, create_standalone_binary, extract_standalone,
    locate_bundle, output_path, u64_from_bytes, BundleLayout, EmbeddedModuleLoader,
    ExistingOutput, StandaloneError, DEFAULT_OUTPUT, SPECIFIER,
};

const MAGIC: &[u8; 8] = b"t4ur1wry";

#[test]
fn trailer_layout() {
    let base = vec![0xAAu8; 10];
    let image = create_standalone_binary(base, b"STORE".to_vec(), b"{}".to_vec());
    assert_eq!(image.len(), 10 + 5 + 2 + 24);
    let t = &image[image.len() - 24..];
    assert_eq!(&t[..8], MAGIC);
    assert_eq!(u64_from_bytes(&t[8..16]), Ok(10));
    assert_eq!(u64_from_bytes(&t[16..24]), Ok(15));
    assert_eq!(&image[10..15], b"STORE");
    assert_eq!(&image[15..17], b"{}");
    assert_eq!(&t[8..16], &[0, 0, 0, 0, 0, 0, 0, 10]);
}

#[test]
fn extraction_inverts_packing() {
    let image = create_standalone_binary(b"BASE".to_vec(), b"bundle".to_vec(), b"meta".to_vec());
    let (bundle, metadata) = extract_standalone(&image).unwrap().unwrap();
    assert_eq!(bundle, b"bundle");
    assert_eq!(metadata, b"meta");
}

#[test]
fn extraction_of_empty_parts() {
    let image = create_standalone_binary(Vec::new(), Vec::new(), Vec::new());
    assert_eq!(image.len(), 24);
    assert_eq!(extract_standalone(&image).unwrap(), Some((Vec::new(), Vec::new())));
}

#[test]
fn plain_executable_has_no_payload() {
    let image = vec![7u8; 100];
    assert_eq!(extract_standalone(&image), Ok(None));
}

#[test]
fn short_file_has_no_payload() {
    assert_eq!(extract_standalone(b"t4ur1wry"), Ok(None));
    assert_eq!(extract_standalone(b""), Ok(None));
}

#[test]
fn inconsistent_offsets_are_an_error() {
    let mut image = b"xxxx".to_vec();
    image.extend_from_slice(MAGIC);
    image.extend_from_slice(&9u64.to_be_bytes());
    image.extend_from_slice(&2u64.to_be_bytes());
    assert_eq!(extract_standalone(&image), Err(StandaloneError::InvalidTrailer));
    let mut image = b"xxxx".to_vec();
    image.extend_from_slice(MAGIC);
    image.extend_from_slice(&0u64.to_be_bytes());
    image.extend_from_slice(&5u64.to_be_bytes());
    assert_eq!(extract_standalone(&image), Err(StandaloneError::InvalidTrailer));
}

#[test]
fn locate_reports_the_layout() {
    let image = create_standalone_binary(b"BASE".to_vec(), b"bundle".to_vec(), b"meta".to_vec());
    let tail = &image[image.len() - 24..];
    let layout = locate_bundle(image.len() as u64, tail).unwrap().unwrap();
    assert_eq!(
        layout,
        BundleLayout { bundle_pos: 4, bundle_len: 6, metadata_pos: 10, metadata_len: 4 }
    );
}

#[test]
fn plain_file_is_not_overwritten() {
    let existing = ExistingOutput::File { tail: b"an ordinary file that is long enough".to_vec() };
    let r = compile_command(b"BASE".to_vec(), b"S".to_vec(), b"M".to_vec(), &existing);
    assert_eq!(r, Err(StandaloneError::CannotOverwrite));
    let short = ExistingOutput::File { tail: b"tiny".to_vec() };
    assert_eq!(check_overwrite(&short), Err(StandaloneError::CannotOverwrite));
}

#[test]
fn packed_file_is_replaced() {
    let old = create_standalone_binary(b"OLD".to_vec(), b"s".to_vec(), b"m".to_vec());
    let existing = ExistingOutput::File { tail: old[old.len() - 24..].to_vec() };
    let image = compile_command(b"BASE".to_vec(), b"S".to_vec(), b"M".to_vec(), &existing).unwrap();
    assert_eq!(extract_standalone(&image).unwrap(), Some((b"S".to_vec(), b"M".to_vec())));
}

#[test]
fn directory_output_is_refused() {
    let r = compile_command(Vec::new(), Vec::new(), Vec::new(), &ExistingOutput::Directory);
    assert_eq!(r, Err(StandaloneError::OutputIsDirectory));
}

#[test]
fn absent_output_is_written() {
    let image = compile_command(b"B".to_vec(), b"S".to_vec(), b"M".to_vec(), &ExistingOutput::Absent).unwrap();
    assert_eq!(image.len(), 3 + 24);
}

#[test]
fn output_path_defaults() {
    assert_eq!(output_path(None, None, false), DEFAULT_OUTPUT);
    assert_eq!(output_path(None, None, true), "compiled-bin-test.exe");
}

#[test]
fn output_path_follows_target_hint() {
    let win = Some("x86_64-pc-windows-msvc".to_string());
    let linux = Some("x86_64-unknown-linux-gnu".to_string());
    assert_eq!(output_path(Some("app".to_string()), win.clone(), false), "app.exe");
    assert_eq!(output_path(Some("app.exe".to_string()), win, false), "app.exe");
    assert_eq!(output_path(Some("app".to_string()), linux, true), "app");
    assert_eq!(output_path(Some("app.exe".to_string()), None, true), "app.exe");
    assert_eq!(output_path(Some("app".to_string()), None, false), "app");
}

#[test]
fn u64_needs_eight_bytes() {
    assert_eq!(u64_from_bytes(&[1, 2, 3]), Err(StandaloneError::InvalidLength));
    assert_eq!(u64_from_bytes(&[0x01, 0x02, 0x03, 0x04, 0x05, 0x06, 0x07, 0x08]), Ok(0x0102030405060708));
}

#[test]
fn loader_serves_only_the_entry_module() {
    let loader = EmbeddedModuleLoader("console.log(1)".to_string());
    assert_eq!(loader.resolve(SPECIFIER), Ok(SPECIFIER.to_string()));
    assert_eq!(loader.load(SPECIFIER), Ok("console.log(1)".to_string()));
    assert_eq!(loader.resolve("file:///other.js"), Err(StandaloneError::ModuleLoadingUnsupported));
    assert_eq!(loader.load("file:///other.js"), Err(StandaloneError::ModuleLoadingUnsupported));
}

#[test]
fn web_view_status_compares() {
    assert_ne!(WebViewStatus::Initialized, WebViewStatus::WindowCreated);
}
