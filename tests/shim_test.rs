use mojokv::error::Error;
use mojokv::shim::{parse_u32, validate_truncate_size, FSOptions, KVFileOpt, VFS};
use mojokv::store::Store;

#[test]
fn parse_u32_like_std() {
    assert_eq!(parse_u32("65536"), Some(65536));
    assert_eq!(parse_u32("+7"), Some(7));
    assert_eq!(parse_u32("4294967295"), Some(u32::MAX));
    assert_eq!(parse_u32("4294967296"), None);
    assert_eq!(parse_u32(""), None);
    assert_eq!(parse_u32("+"), None);
    assert_eq!(parse_u32("12a"), None);
    assert_eq!(parse_u32("-1"), None);
}

#[test]
fn fs_options_defaults_and_errors() {
    let o = FSOptions::parse(None, Some("8"), None).unwrap();
    assert_eq!(o, FSOptions { ver: 1, pagesz: 8, pps: 65536 });
    assert_eq!(o.to_kvfile_opt(), KVFileOpt { page_sz: 8, pps: 65536, ver: 1 });
    let o = FSOptions::parse(Some("2"), Some("4096"), Some("16")).unwrap();
    assert_eq!(o, FSOptions { ver: 2, pagesz: 4096, pps: 16 });
    assert_eq!(FSOptions::parse(Some("1"), None, None), Err(Error::MissingArgsErr));
    assert_eq!(FSOptions::parse(Some("x"), Some("8"), None), Err(Error::ParseIntErr));
    assert_eq!(FSOptions::parse(None, Some("8"), Some("y")), Err(Error::ParseIntErr));
}

#[test]
fn vfs_front() {
    let mut fs = VFS::new();
    assert_eq!(fs.name(), "mojo");
    let opt = FSOptions::parse(None, Some("8"), None).unwrap();
    fs.init(opt, Store::new("root", 8, 65536));
    assert_eq!(fs.fs_options().pagesz, 8);
    assert_eq!(fs.active_ver(), 1);
    assert_eq!(fs.access("a"), Ok(false));
    assert_eq!(fs.next_file_id(), 1);
    assert_eq!(fs.commit(false), Err(Error::CommitLockedErr));
    assert_eq!(fs.commit(true), Ok(2));
    assert_eq!(fs.active_ver(), 2);
    assert!(fs.delete("a").is_err());
}

#[test]
fn truncate_size_must_be_whole_pages() {
    assert_eq!(validate_truncate_size(80, 8), Ok(()));
    assert_eq!(validate_truncate_size(0, 8), Ok(()));
    assert_eq!(validate_truncate_size(83, 8), Err(Error::KeyNotMultipleErr(3)));
}
