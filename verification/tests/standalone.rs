use lune::{
    check_output_path, default_output_path, embed_entry_name, LuneError, Metadata, ZipFileSystem,
};

const SCRIPT: &str = "local x = 1 + 2\nreturn x\n";

fn compile_reference(source: &str) -> Vec<u8> {
    mlua::chunk::Compiler::new()
        .set_optimization_level(2)
        .set_coverage_level(0)
        .set_debug_level(1)
        .compile(source)
        .unwrap()
}

#[test]
fn packaging_end_to_end_with_no_extras() {
    let base = b"#!fake-base-executable".to_vec();
    let bin =
        Metadata::create_env_patched_bin(base.clone(), SCRIPT.as_bytes().to_vec(), Vec::new())
            .unwrap();

    // the bootstrap path: the binary's own bytes decode to the archive
    let meta = Metadata::from_bytes(&bin).unwrap();
    assert_eq!(bin.len(), base.len() + meta.zip_data.len() + 16);
    assert!(bin.starts_with(&base));

    // the archive holds exactly the one reserved entry, with the bytecode
    let fs = ZipFileSystem::new(meta.zip_data).unwrap();
    let listed = fs.read_dir(b"").unwrap();
    assert_eq!(listed, vec![b"init.luau".to_vec()]);
    assert!(fs.is_file(b"init.luau"));
    assert_eq!(fs.read(b"init.luau").unwrap(), compile_reference(SCRIPT));
}

#[test]
fn packaging_is_reproducible() {
    let base = b"base".to_vec();
    let extras = vec![("a.txt".to_string(), b"alpha".to_vec())];
    let one =
        Metadata::create_env_patched_bin(base.clone(), SCRIPT.as_bytes().to_vec(), extras.clone())
            .unwrap();
    let two = Metadata::create_env_patched_bin(base, SCRIPT.as_bytes().to_vec(), extras).unwrap();
    assert_eq!(one, two);
}

#[test]
fn embedded_files_read_back_unchanged() {
    let base = b"base".to_vec();
    let extras = vec![
        ("a.txt".to_string(), b"alpha".to_vec()),
        ("dir/b.txt".to_string(), vec![0u8, 1, 2, 254, 255]),
    ];
    let bin = Metadata::create_env_patched_bin(base, SCRIPT.as_bytes().to_vec(), extras).unwrap();
    let meta = Metadata::from_bytes(&bin).unwrap();
    let fs = ZipFileSystem::new(meta.zip_data).unwrap();

    assert_eq!(fs.read(b"a.txt").unwrap(), b"alpha");
    assert_eq!(fs.read(b"dir/b.txt").unwrap(), vec![0u8, 1, 2, 254, 255]);
    assert!(fs.is_dir(b"dir"));
    assert_eq!(fs.read_dir(b"dir").unwrap(), vec![b"dir/b.txt".to_vec()]);
}

#[test]
fn compile_failure_is_fatal_and_reported() {
    let err = Metadata::create_env_patched_bin(
        b"base".to_vec(),
        b"local = = nonsense ((".to_vec(),
        Vec::new(),
    )
    .unwrap_err();
    // the failure carries the compiler's own diagnostic
    match err {
        LuneError::CompileFailure(msg) => assert!(!msg.is_empty()),
        other => panic!("expected a compile failure, got {other:?}"),
    }
}

#[test]
fn compile_diagnostic_is_deterministic() {
    let first = Metadata::create_env_patched_bin(
        b"base".to_vec(),
        b"return ((".to_vec(),
        Vec::new(),
    )
    .unwrap_err();
    let second = Metadata::create_env_patched_bin(
        b"base".to_vec(),
        b"return ((".to_vec(),
        Vec::new(),
    )
    .unwrap_err();
    assert_eq!(first, second);
}

#[test]
fn default_output_strips_source_extension() {
    assert_eq!(default_output_path(b"app.luau"), b"app");
    assert_eq!(default_output_path(b"dir/app.lua"), b"dir/app");
    assert_eq!(default_output_path(b"app.exe"), b"app.exe");
    assert_eq!(default_output_path(b"app"), b"app");
    assert_eq!(default_output_path(b""), b"");
}

#[test]
fn bytecode_differs_from_source() {
    // the reserved entry holds compiled bytecode, not the script text
    let bin = Metadata::create_env_patched_bin(Vec::new(), SCRIPT.as_bytes().to_vec(), Vec::new())
        .unwrap();
    let meta = Metadata::from_bytes(&bin).unwrap();
    let fs = ZipFileSystem::new(meta.zip_data).unwrap();
    assert_ne!(fs.read(b"init.luau").unwrap(), SCRIPT.as_bytes());
}

#[test]
fn output_path_conflict_is_checked() {
    assert_eq!(
        check_output_path(b"app.luau", b"app.luau").unwrap_err(),
        LuneError::OutputPathConflict
    );
    assert!(check_output_path(b"app.luau", b"app").is_ok());
}

#[test]
fn embed_names_use_forward_slashes() {
    assert_eq!(embed_entry_name(b"assets\\img\\logo.png"), b"assets/img/logo.png");
    assert_eq!(embed_entry_name(b"assets/logo.png"), b"assets/logo.png");
}
