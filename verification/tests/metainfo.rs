use libyuyan::bencode::BencodeError;
use libyuyan::metainfo::{to_escape_hex, FileInfo, MetaInfo};

const SINGLE: &[u8] = b"d8:announce15:http://t.org/an13:announce-listll15:http://t.org/anel16:http://u.org/annee7:comment2:hi4:infod6:lengthi100e4:name4:file12:piece lengthi16384e6:pieces20:aaaaaaaaaaaaaaaaaaaaee";

const MULTI: &[u8] = b"d8:announce4:x://13:announce-listle13:creation datei5e4:infod5:filesld6:lengthi5e4:pathl1:a5:b.txteed6:lengthi7e6:md5sum3:abc4:pathl1:ceee4:name3:dir12:piece lengthi32e6:pieces20:bbbbbbbbbbbbbbbbbbbbee";

#[test]
fn single_file_torrent() {
    let m = MetaInfo::from_bytes(SINGLE).unwrap();
    assert_eq!(m.announce, "http://t.org/an");
    assert_eq!(
        m.announce_list,
        Some(vec!["http://t.org/an".to_string(), "http://u.org/ann".to_string()])
    );
    assert_eq!(m.comment, Some("hi".to_string()));
    assert_eq!(m.creation_date, None);
    assert_eq!(m.created_by, None);
    assert_eq!(m.piece_length, 16384);
    assert_eq!(m.pieces, vec![b'a'; 20]);
    assert_eq!(m.name, "file");
    assert_eq!(m.info_hash, "g%ad%c6%5c%89%3d6%db%2aEjn%5cn%d4%ae%b1%b15W");
    match m.file_info {
        FileInfo::SingleFile { length, md5sum } => {
            assert_eq!(length, 100);
            assert_eq!(md5sum, None);
        }
        _ => panic!("expected a single file"),
    }
}

#[test]
fn multiple_file_torrent() {
    let m = MetaInfo::from_bytes(MULTI).unwrap();
    assert_eq!(m.announce_list, Some(vec![]));
    // the creation date is an integer, not text
    assert_eq!(m.creation_date, None);
    assert_eq!(m.info_hash, "%9eQ%d00%c7%28%27%c2v%fa%b6%dc%8d%5c%f6TD%24a6");
    match &m.file_info {
        FileInfo::MultipleFile { files } => {
            assert_eq!(files.len(), 2);
            assert_eq!(files[0].length(), 5);
            assert_eq!(files[0].paths(), &vec!["a".to_string(), "b.txt".to_string()]);
            assert_eq!(files[0].md5sum(), &None);
            assert_eq!(files[1].length(), 7);
            assert_eq!(files[1].md5sum(), &Some("abc".to_string()));
        }
        _ => panic!("expected several files"),
    }
    let trackers: Vec<String> = {
        let mut it = m.trackers();
        let mut v = Vec::new();
        while let Some(t) = it.next() {
            v.push(t.to_string());
        }
        v
    };
    assert_eq!(trackers, vec!["x://".to_string()]);
}

#[test]
fn trackers_in_order() {
    let m = MetaInfo::from_bytes(SINGLE).unwrap();
    let mut it = m.trackers();
    assert_eq!(it.next(), Some("http://t.org/an"));
    assert_eq!(it.next(), Some("http://t.org/an"));
    assert_eq!(it.next(), Some("http://u.org/ann"));
    assert_eq!(it.next(), None);
    assert_eq!(it.next(), None);
}

#[test]
fn announce_list_with_a_non_list_is_dropped() {
    let raw = b"d8:announce1:a13:announce-listl1:be4:infod6:lengthi1e4:name1:n12:piece lengthi1e6:pieces0:ee";
    let m = MetaInfo::from_bytes(raw).unwrap();
    assert_eq!(m.announce_list, None);
}

#[test]
fn metainfo_errors() {
    assert_eq!(MetaInfo::from_bytes(b"xx").unwrap_err(), BencodeError::Malformed);
    assert_eq!(MetaInfo::from_bytes(b"i1e").unwrap_err(), BencodeError::WrongType);
    // the info dictionary needs a piece length
    assert_eq!(
        MetaInfo::from_bytes(b"d8:announce1:a4:infodee").unwrap_err(),
        BencodeError::MissingKey
    );
    // announce-list, when present, must be a list
    assert_eq!(
        MetaInfo::from_bytes(b"d8:announce1:a13:announce-listi1e4:infod6:lengthi1e4:name1:n12:piece lengthi1e6:pieces0:ee")
            .unwrap_err(),
        BencodeError::WrongType
    );
    // a file without a path
    let raw = b"d8:announce1:a13:announce-listle4:infod5:filesld6:lengthi1eee4:name1:n12:piece lengthi1e6:pieces0:ee";
    assert_eq!(MetaInfo::from_bytes(raw).unwrap_err(), BencodeError::MissingKey);
    // single file mode needs a length
    let raw = b"d8:announce1:a13:announce-listle4:infod4:name1:n12:piece lengthi1e6:pieces0:ee";
    assert_eq!(MetaInfo::from_bytes(raw).unwrap_err(), BencodeError::MissingKey);
}

#[test]
fn escape_hex_examples() {
    assert_eq!(to_escape_hex(&[0x00, 0x41, 0xff, 0x2e, 0x10, 0x7e, 0x20]), "%00A%ff.%10~%20");
    assert_eq!(to_escape_hex(&[]), "");
    assert_eq!(to_escape_hex(b"aZ9-_"), "aZ9-_");
    assert_eq!(to_escape_hex(&[0x0a]), "%0a");
    assert_ne!(to_escape_hex(&[0x01, b'1']), to_escape_hex(&[0x11]));
}

#[test]
fn metainfo_as_text() {
    let m = MetaInfo::from_bytes(SINGLE).unwrap();
    let expected = "Announce: http://t.org/an\nAnnounce List:\n  - http://t.org/an\n  - http://u.org/ann\nComment: hi\nPiece Length: 16384\nLength: 1\nName: file\nInfo Hash: g%ad%c6%5c%89%3d6%db%2aEjn%5cn%d4%ae%b1%b15W\nFile Info: Length: 100\n\n";
    assert_eq!(m.to_string(), expected);
    let m = MetaInfo::from_bytes(MULTI).unwrap();
    let expected = "Files:\n  - Length: 5\n    Path: /a/b.txt\n  - Length: 7\n    MD5 Sum: abc\n    Path: /c\n";
    assert_eq!(m.file_info.to_string(), expected);
}

#[test]
fn piece_counts() {
    let m = MetaInfo::from_bytes(SINGLE).unwrap();
    assert_eq!(m.piece_count(), 1);
    assert_eq!(m.bitmap_size(), 16384);
    let raw = b"d8:announce1:a13:announce-listle4:infod6:lengthi1e4:name1:n12:piece lengthi3e6:pieces30:aaaaaaaaaaaaaaaaaaaaaaaaaaaaaaee";
    let m = MetaInfo::from_bytes(raw).unwrap();
    assert_eq!(m.piece_count(), 1);
    assert_eq!(m.bitmap_size(), 4);
}

#[test]
fn info_hash_with_small_bytes() {
    let raw = b"d8:announce1:a13:announce-listle4:infod6:lengthi1e4:name1:n12:piece lengthi1e6:pieces0:ee";
    let m = MetaInfo::from_bytes(raw).unwrap();
    assert_eq!(m.info_hash, "%29%b2%c9%9f%97z%7b%89%bf%00%f9%08g%a5%14%feg%1f%fbU");
}

#[test]
fn unknown_top_level_key_is_ignored() {
    let plain = b"d8:announce1:a13:announce-listle4:infod6:lengthi1e4:name1:n12:piece lengthi1e6:pieces0:ee";
    let extra = b"d8:announce1:a13:announce-listle4:infod6:lengthi1e4:name1:n12:piece lengthi1e6:pieces0:e3:zzzi7ee";
    let a = MetaInfo::from_bytes(plain).unwrap();
    let b = MetaInfo::from_bytes(extra).unwrap();
    assert_eq!(a.to_string(), b.to_string());
    assert_eq!(a.info_hash, b.info_hash);
}

#[test]
fn announce_list_may_be_absent() {
    let raw = b"d8:announce1:a4:infod6:lengthi5e4:name1:n12:piece lengthi4e6:pieces0:ee";
    let m = MetaInfo::from_bytes(raw).unwrap();
    assert_eq!(m.announce, "a");
    assert_eq!(m.announce_list, None);
    assert_eq!(m.name, "n");
    assert_eq!(m.piece_length, 4);
    match &m.file_info {
        FileInfo::SingleFile { length, md5sum } => {
            assert_eq!(*length, 5);
            assert_eq!(md5sum, &None);
        }
        _ => panic!("expected a single file"),
    }
    let mut it = m.trackers();
    assert_eq!(it.next(), Some("a"));
    assert_eq!(it.next(), None);
}
