use std::io::Write;

use lune::{normalize_path, FileSystem, LuneError, ZipFileSystem};

fn make_zip(entries: &[(&str, &[u8])]) -> Vec<u8> {
    let mut w = zip::ZipWriter::new(std::io::Cursor::new(Vec::new()));
    let opts = zip::write::SimpleFileOptions::default()
        .compression_method(zip::CompressionMethod::Stored);
    for (name, content) in entries {
        w.start_file(*name, opts).unwrap();
        w.write_all(content).unwrap();
    }
    w.finish().unwrap().into_inner()
}

#[test]
fn invalid_archive_bytes_are_rejected() {
    let err = ZipFileSystem::new(b"this is not an archive".to_vec()).unwrap_err();
    assert_eq!(err, LuneError::InvalidArchive);
}

#[test]
fn exact_entry_is_a_file() {
    let fs = ZipFileSystem::new(make_zip(&[("a/b/c.txt", b"hello")])).unwrap();
    assert!(fs.is_file(b"a/b/c.txt"));
    assert!(!fs.is_file(b"a/b"));
    assert!(!fs.is_file(b"c.txt"));
}

#[test]
fn implicit_directories_are_dirs() {
    // an archive with only a deep file still answers for its parents
    let fs = ZipFileSystem::new(make_zip(&[("a/b/c.txt", b"x")])).unwrap();
    assert!(fs.is_dir(b"a"));
    assert!(fs.is_dir(b"a/b"));
    assert!(!fs.is_file(b"a"));
    // an exact entry match also answers as a dir, as the archive scan does
    assert!(fs.is_dir(b"a/b/c.txt"));
    assert!(!fs.is_dir(b"nope"));
}

#[test]
fn root_is_always_a_dir() {
    let fs = ZipFileSystem::new(make_zip(&[])).unwrap();
    assert!(fs.is_dir(b""));
    assert!(fs.is_dir(b"/"));
}

#[test]
fn read_returns_full_content() {
    let fs = ZipFileSystem::new(make_zip(&[("a.txt", b"alpha"), ("dir/b.bin", &[0, 159, 146])]))
        .unwrap();
    assert_eq!(fs.read(b"a.txt").unwrap(), b"alpha");
    assert_eq!(fs.read(b"dir/b.bin").unwrap(), vec![0, 159, 146]);
}

#[test]
fn missing_entry_reads_as_not_found() {
    let fs = ZipFileSystem::new(make_zip(&[("a.txt", b"alpha")])).unwrap();
    assert_eq!(fs.read(b"nope.txt").unwrap_err(), LuneError::NotFound);
    assert_eq!(fs.read_to_string(b"nope.txt").unwrap_err(), LuneError::NotFound);
}

#[test]
fn read_to_string_decodes_utf8() {
    let fs = ZipFileSystem::new(make_zip(&[
        ("ok.txt", "héllo wörld".as_bytes()),
        ("bad.bin", &[0xff, 0xfe, 0x00]),
    ]))
    .unwrap();
    assert_eq!(fs.read_to_string(b"ok.txt").unwrap(), "héllo wörld");
    assert_eq!(
        fs.read_to_string(b"bad.bin").unwrap_err(),
        LuneError::InvalidEncoding
    );
}

#[test]
fn listing_collapses_to_direct_children() {
    let fs = ZipFileSystem::new(make_zip(&[("x/y/z.txt", b"1"), ("x/w.txt", b"2")])).unwrap();
    let listed = fs.read_dir(b"x").unwrap();
    assert_eq!(listed.len(), 2);
    assert!(listed.contains(&b"x/y".to_vec()));
    assert!(listed.contains(&b"x/w.txt".to_vec()));
}

#[test]
fn listing_deduplicates_children() {
    let fs = ZipFileSystem::new(make_zip(&[
        ("x/y/z.txt", b"1"),
        ("x/y/q.txt", b"2"),
        ("x/y/deep/r.txt", b"3"),
    ]))
    .unwrap();
    let listed = fs.read_dir(b"x").unwrap();
    assert_eq!(listed, vec![b"x/y".to_vec()]);
}

#[test]
fn root_listing_uses_bare_names() {
    let fs = ZipFileSystem::new(make_zip(&[("init.luau", b"bc"), ("dir/b.txt", b"2")])).unwrap();
    let listed = fs.read_dir(b"").unwrap();
    assert_eq!(listed.len(), 2);
    assert!(listed.contains(&b"init.luau".to_vec()));
    assert!(listed.contains(&b"dir".to_vec()));
}

#[test]
fn listing_missing_prefix_is_empty() {
    let fs = ZipFileSystem::new(make_zip(&[("a/b.txt", b"1")])).unwrap();
    assert_eq!(fs.read_dir(b"zzz").unwrap(), Vec::<Vec<u8>>::new());
}

#[test]
fn backslashes_normalize_to_forward_slashes() {
    let fs = ZipFileSystem::new(make_zip(&[("dir/b.txt", b"2")])).unwrap();
    assert!(fs.is_file(b"dir\\b.txt"));
    assert_eq!(fs.read(b"dir\\b.txt").unwrap(), b"2");
}

#[test]
fn leading_slashes_are_stripped() {
    let fs = ZipFileSystem::new(make_zip(&[("dir/b.txt", b"2")])).unwrap();
    assert!(fs.is_file(b"/dir/b.txt"));
}

#[test]
fn absolute_paths_resolve_against_cwd() {
    let mut fs = ZipFileSystem::new(make_zip(&[("dir/b.txt", b"2")])).unwrap();
    fs.set_cwd(b"/home/me".to_vec());
    assert!(fs.is_file(b"/home/me/dir/b.txt"));
    assert_eq!(fs.read(b"/home/me/dir/b.txt").unwrap(), b"2");
    // an absolute path outside the cwd keeps only its slashes stripped
    assert!(!fs.is_file(b"/elsewhere/dir/b.txt"));
}

fn read_through_backend<T: FileSystem>(fs: &T, path: &[u8]) -> Result<Vec<u8>, LuneError> {
    fs.read(path)
}

#[test]
fn backend_answers_through_the_capability_trait() {
    // callers hold a backend by the trait and never branch on its type
    let fs = ZipFileSystem::new(make_zip(&[("a.txt", b"alpha")])).unwrap();
    assert_eq!(read_through_backend(&fs, b"a.txt").unwrap(), b"alpha");
    assert_eq!(
        read_through_backend(&fs, b"missing").unwrap_err(),
        LuneError::NotFound
    );
}

#[test]
fn normalization_is_idempotent() {
    let cases: [(&[u8], &[u8]); 5] = [
        (b"a/b/c.txt", b""),
        (b"/home/me/a.txt", b"/home/me"),
        (b"\\\\server\\share\\f.txt", b""),
        (b"///triple/slash", b"/x"),
        (b"", b"/home/me"),
    ];
    for (path, cwd) in cases {
        let once = normalize_path(path, cwd);
        let twice = normalize_path(&once, cwd);
        assert_eq!(twice, once);
    }
}
