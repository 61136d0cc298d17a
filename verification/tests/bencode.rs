use libyuyan::bencode::{BDict, BItem, BencodeError};
use libyuyan::decoder::Decoder;

fn bvec(s: &str) -> Vec<u8> {
    s.as_bytes().to_owned()
}

fn sample_dict() -> BItem {
    BItem::Dict(BDict::from_pairs(vec![
        (bvec("a"), BItem::Int(9)),
        (bvec("b"), BItem::String(bvec("hello"))),
        (bvec("c"), BItem::List(vec![BItem::Int(9), BItem::Int(8)])),
    ]))
}

#[test]
fn seri_decons_test() {
    let bitem = sample_dict();
    let expected = "d1:ai9e1:b5:hello1:cli9ei8eee".as_bytes();
    assert_eq!(bitem.seri_decons(), expected);
}

#[test]
fn wtr() {
    let raw = "d8:completei4e10:downloadedi0e10:incompletei3e8:intervali1800e12:min intervald8:completei4e10:downloadedi0e10:incompletei3e8:intervali1800e12:min intervali1800eee".as_bytes();
    let result = BItem::deseri_cons(raw).unwrap();
    println!("{:?}", &result);
}

#[test]
fn deseri_cons_test() {
    let raw = "d1:ai9e1:b5:hello1:cli9ei8eee".as_bytes();
    let expected = sample_dict();
    assert_eq!(BItem::deseri_cons(raw).unwrap(), expected);
}

#[test]
fn dict_keys_are_written_sorted() {
    let d = BItem::Dict(BDict::from_pairs(vec![
        (bvec("zz"), BItem::Int(1)),
        (bvec("a"), BItem::Int(2)),
        (bvec("ab"), BItem::Int(3)),
    ]));
    assert_eq!(d.seri_decons(), b"d1:ai2e2:abi3e2:zzi1ee".to_vec());
}

#[test]
fn later_pair_replaces_earlier() {
    let d = BDict::from_pairs(vec![(bvec("k"), BItem::Int(1)), (bvec("k"), BItem::Int(2))]);
    assert_eq!(d.len(), 1);
    assert_eq!(BItem::Dict(d).seri_decons(), b"d1:ki2ee".to_vec());
    let decoded = BItem::deseri_cons(b"d1:ki1e1:ki2ee").unwrap();
    assert_eq!(decoded.seri_decons(), b"d1:ki2ee".to_vec());
}

#[test]
fn encode_scalars() {
    assert_eq!(BItem::Int(0).seri_decons(), b"i0e".to_vec());
    assert_eq!(BItem::Int(-42).seri_decons(), b"i-42e".to_vec());
    assert_eq!(BItem::Int(i64::MIN).seri_decons(), b"i-9223372036854775808e".to_vec());
    assert_eq!(BItem::String(vec![]).seri_decons(), b"0:".to_vec());
    assert_eq!(BItem::List(vec![]).seri_decons(), b"le".to_vec());
    assert_eq!(BItem::Dict(BDict::new()).seri_decons(), b"de".to_vec());
}

#[test]
fn roundtrip_nested() {
    let v = BItem::List(vec![
        BItem::String(vec![0, 255, b':', b'e']),
        BItem::Int(i64::MAX),
        BItem::Dict(BDict::from_pairs(vec![(bvec(""), BItem::List(vec![]))])),
    ]);
    let bytes = v.seri_decons();
    assert_eq!(BItem::deseri_cons(&bytes).unwrap(), v);
}

#[test]
fn decode_integers() {
    assert_eq!(BItem::deseri_cons(b"i007e").unwrap(), BItem::Int(7));
    assert_eq!(BItem::deseri_cons(b"ie").unwrap(), BItem::Int(0));
    assert_eq!(BItem::deseri_cons(b"i9223372036854775807e").unwrap(), BItem::Int(i64::MAX));
    assert_eq!(BItem::deseri_cons(b"i-3e").unwrap(), BItem::Int(-3));
    assert_eq!(BItem::deseri_cons(b"i-9223372036854775808e").unwrap(), BItem::Int(i64::MIN));
    assert_eq!(BItem::deseri_cons(b"i-0e").unwrap(), BItem::Int(0));
}

#[test]
fn decode_errors() {
    assert_eq!(BItem::deseri_cons(b""), Err(BencodeError::Malformed));
    assert_eq!(BItem::deseri_cons(b"i--5e"), Err(BencodeError::Malformed));
    assert_eq!(BItem::deseri_cons(b"i-9223372036854775809e"), Err(BencodeError::Malformed));
    assert_eq!(BItem::deseri_cons(b"5-:abcde"), Err(BencodeError::Malformed));
    assert_eq!(BItem::deseri_cons(b"i12"), Err(BencodeError::Malformed));
    assert_eq!(BItem::deseri_cons(b"i9223372036854775808e"), Err(BencodeError::Malformed));
    assert_eq!(BItem::deseri_cons(b"5:abc"), Err(BencodeError::Malformed));
    assert_eq!(BItem::deseri_cons(b"l"), Err(BencodeError::Malformed));
    assert_eq!(BItem::deseri_cons(b"di1ei2ee"), Err(BencodeError::Malformed));
    assert_eq!(BItem::deseri_cons(b"e"), Err(BencodeError::Malformed));
}

#[test]
fn decoder_stops_after_one_value() {
    assert_eq!(BItem::deseri_cons(b"3:abcTRAILING").unwrap(), BItem::String(bvec("abc")));
    let raw = b"i1ei2e";
    let mut d = Decoder::new(raw);
    assert_eq!(d.decode().unwrap(), BItem::Int(1));
    assert_eq!(d.decode().unwrap(), BItem::Int(2));
    assert_eq!(d.decode(), Err(BencodeError::Malformed));
}

#[test]
fn remove_entries() {
    let mut d = BDict::from_pairs(vec![
        (bvec("n"), BItem::Int(3)),
        (bvec("s"), BItem::String(bvec("text"))),
        (bvec("bad"), BItem::String(vec![0xff, 0xfe])),
    ]);
    assert_eq!(d.remove("n"), Ok(BItem::Int(3)));
    assert_eq!(d.remove("n"), Err(BencodeError::MissingKey));
    assert_eq!(d.remove_int("s"), Err(BencodeError::WrongType));
    assert_eq!(d.remove_string("s"), Err(BencodeError::MissingKey));
    assert_eq!(d.remove_string("bad"), Err(BencodeError::InvalidUtf8));
    assert_eq!(d.len(), 0);
}

#[test]
fn typed_reads() {
    assert_eq!(BItem::String(bvec("héllo")).into_string(), Ok("héllo".to_string()));
    assert_eq!(BItem::Int(4).into_string(), Err(BencodeError::WrongType));
    assert_eq!(BItem::Int(4).into_int(), Ok(4));
    assert_eq!(BItem::List(vec![]).into_int(), Err(BencodeError::WrongType));
    assert_eq!(BItem::String(bvec("x")).into_bytes(), Ok(bvec("x")));
    assert_eq!(BItem::List(vec![BItem::Int(1)]).into_list(), Ok(vec![BItem::Int(1)]));
    assert!(BItem::Dict(BDict::new()).into_dict().is_ok());
    assert_eq!(BItem::Int(1).into_dict(), Err(BencodeError::WrongType));
}

#[test]
fn clone_keeps_the_value() {
    let v = sample_dict();
    let c = v.clone();
    assert_eq!(c, v);
    assert_eq!(c.seri_decons(), v.seri_decons());
    let d = BDict::from_pairs(vec![(bvec("x"), BItem::Int(1))]);
    assert_eq!(d.clone(), d);
}

#[test]
fn roundtrip_after_prefix() {
    let v = sample_dict();
    let mut raw = b"junk".to_vec();
    raw.extend(v.seri_decons());
    raw.extend(b"rest");
    let mut d = Decoder::new(&raw);
    assert!(d.decode().is_err());
    let mut d = Decoder::new(&raw[4..]);
    assert_eq!(d.decode().unwrap(), v);
}

#[test]
fn roundtrip_negative_integers() {
    let v = BItem::List(vec![BItem::Int(-42), BItem::Int(i64::MIN), BItem::Int(7)]);
    let bytes = v.seri_decons();
    assert_eq!(bytes, b"li-42ei-9223372036854775808ei7ee".to_vec());
    assert_eq!(BItem::deseri_cons(&bytes).unwrap(), v);
}
