use libyuyan::bencode::BencodeError;
use libyuyan::bitmap::Bitmap;
use libyuyan::client::{gen_id, peer_id_from_digits};
use libyuyan::metainfo::MetaInfo;
use libyuyan::tracker::{
    announce_response, compact_peers, form_requst_params, next_announce, response_peers, Event, DEFAULT_INTERVAL,
};

#[test]
fn compact_peer_list() {
    let peers = [127, 0, 0, 1, 0x1a, 0xe1, 10, 1, 2, 3, 0, 80, 9, 9];
    assert_eq!(
        compact_peers(&peers),
        vec!["http://127.0.0.1:6881".to_string(), "http://10.1.2.3:80".to_string()]
    );
    assert!(compact_peers(&[1, 2, 3]).is_empty());
}

#[test]
fn tracker_answers() {
    let raw = b"d8:intervali1800e5:peers6:\x01\x02\x03\x04\x00\x50e";
    assert_eq!(response_peers(raw), Ok(vec!["http://1.2.3.4:80".to_string()]));
    assert_eq!(
        announce_response(raw),
        Ok((vec!["http://1.2.3.4:80".to_string()], 1800))
    );
    assert_eq!(announce_response(b"d5:peers0:e"), Err(BencodeError::MissingKey));
    assert_eq!(response_peers(b"d5:peersi1ee"), Err(BencodeError::WrongType));
    assert_eq!(response_peers(b"le"), Err(BencodeError::WrongType));
    assert_eq!(response_peers(b"d"), Err(BencodeError::Malformed));
}

#[test]
fn request_query() {
    let raw = b"d8:announce1:a13:announce-listle4:infod6:lengthi1e4:name1:n12:piece lengthi1e6:pieces0:ee";
    let m = MetaInfo::from_bytes(raw).unwrap();
    let mut b = Bitmap::new(10);
    b.set(3);
    b.set(4);
    let q = form_requst_params(&m, 10006, "-YY0000-123456789012", &b, 7, Event::Started);
    assert_eq!(
        q,
        format!(
            "info_hash={}&peer_id=-YY0000-123456789012&port=10006&uploaded=7&downloaded=2&left=8&event=started&compact=1",
            m.info_hash
        )
    );
    assert_eq!(Event::Completed.as_str(), "completed");
    assert_eq!(Event::Stopped.as_str(), "stopped");
}

#[test]
fn peer_ids() {
    let id = gen_id();
    assert_eq!(id.len(), 20);
    assert!(id.starts_with("-YY0000-"));
    assert!(id[8..].chars().all(|c| c.is_ascii_digit()));
}

#[test]
fn bitmap_records_pieces() {
    let mut b = Bitmap::new(9);
    assert_eq!(b.size(), 9);
    assert_eq!(b.len(), 0);
    assert_eq!(b.left(), 9);
    assert!(!b.have(2));
    b.set(2);
    b.set(8);
    assert!(b.have(2));
    assert!(b.have(8));
    assert!(!b.have(3));
    assert_eq!(b.len(), 2);
    assert_eq!(b.left(), 7);
    assert_eq!(b.to_bytes(), vec![0b0010_0000, 0b1000_0000]);
    // recording a piece twice counts it twice
    b.set(2);
    assert_eq!(b.len(), 3);
}

#[test]
fn peer_id_from_given_digits() {
    let d = [1, 2, 3, 4, 5, 6, 7, 8, 9, 0, 0, 9];
    assert_eq!(peer_id_from_digits(&d), "-YY0000-123456789009");
}

#[test]
fn announce_steps() {
    assert_eq!(next_announce(3, None, DEFAULT_INTERVAL), (false, Event::Started, 1800));
    assert_eq!(next_announce(3, Some(900), 1800), (false, Event::Started, 900));
    assert_eq!(next_announce(0, Some(60), 900), (true, Event::Completed, 60));
    assert_eq!(next_announce(0, None, 900), (true, Event::Completed, 900));
}
