//! Metainfo file structure (`.torrent` file).

use vstd::prelude::*;
use vstd::string::StringSliceAdditionalSpecFns;

use sha1::{Digest, Sha1};

use crate::bencode::{dict_insert, encode, keys_sorted, value_wf, lemma_list_view, list_view, BItem, BValue, BencodeError};
use crate::convert::{
    binds, dict_take, lemma_take_finds, lemma_take_insert_commute, lemma_take_other, text_value, unbound,
    as_text, opt_text_view, take_bytes, take_dict, take_int, take_list, take_text, text_result_view, texts_view,
};
use crate::decimal::push_char;
use crate::decoder::parse_item;
use crate::roundtrip::lemma_parse_wf;

verus! {

// ----- outside: SHA-1 -----

/// What SHA-1 gives for `data`.
pub uninterp spec fn sha1_digest(data: Seq<u8>) -> Seq<u8>;

/// The SHA-1 digest of `data` (`sha1::Sha1`, fed `data` in one update, then
/// finalized): `sha1_digest(data)`, which is 20 bytes long.
#[verifier::external_body]
fn sha1(data: &[u8]) -> (r: Vec<u8>)
    ensures
        r@ == sha1_digest(data@),
        r@.len() == 20,
{
    let mut hasher = Sha1::new();
    hasher.update(data);
    hasher.finalize().to_vec()
}

// ----- the metainfo -----

/// The contents of a torrent.
#[derive(Debug)]
pub struct MetaInfo {
    pub announce: String,
    pub announce_list: Option<Vec<String>>,
    pub creation_date: Option<String>,
    pub comment: Option<String>,
    pub created_by: Option<String>,
    pub encoding: Option<String>,
    // info
    pub piece_length: usize,
    pub pieces: Vec<u8>,
    pub private: Option<String>,
    pub name: String,
    pub info_hash: String,
    pub file_info: FileInfo,
}

/// The files of a torrent: one file, or several under a directory.
#[derive(Debug)]
pub enum FileInfo {
    SingleFile { length: usize, md5sum: Option<String> },
    MultipleFile { files: Vec<File> },
}

/// One file of a multiple-file torrent.
#[derive(Debug)]
pub struct File {
    length: usize,
    md5sum: Option<String>,
    paths: Vec<String>,
}

/// The model of a file.
pub struct FileModel {
    pub length: usize,
    pub md5sum: Option<Seq<char>>,
    pub paths: Seq<Seq<char>>,
}

/// The model of the files of a torrent.
pub enum FileInfoModel {
    SingleFile { length: usize, md5sum: Option<Seq<char>> },
    MultipleFile { files: Seq<FileModel> },
}

/// The model of a torrent's contents.
pub struct MetaInfoModel {
    pub announce: Seq<char>,
    pub announce_list: Option<Seq<Seq<char>>>,
    pub creation_date: Option<Seq<char>>,
    pub comment: Option<Seq<char>>,
    pub created_by: Option<Seq<char>>,
    pub encoding: Option<Seq<char>>,
    pub piece_length: usize,
    pub pieces: Seq<u8>,
    pub private: Option<Seq<char>>,
    pub name: Seq<char>,
    pub info_hash: Seq<char>,
    pub file_info: FileInfoModel,
}

impl View for File {
    type V = FileModel;

    closed spec fn view(&self) -> FileModel {
        FileModel { length: self.length, md5sum: opt_text_view(self.md5sum), paths: texts_view(self.paths@) }
    }
}

pub open spec fn files_view(v: Seq<File>) -> Seq<FileModel> {
    v.map_values(|f: File| f@)
}

impl View for FileInfo {
    type V = FileInfoModel;

    open spec fn view(&self) -> FileInfoModel {
        match self {
            FileInfo::SingleFile { length, md5sum } => FileInfoModel::SingleFile {
                length: *length,
                md5sum: opt_text_view(*md5sum),
            },
            FileInfo::MultipleFile { files } => FileInfoModel::MultipleFile { files: files_view(files@) },
        }
    }
}

pub open spec fn opt_texts_view(o: Option<Vec<String>>) -> Option<Seq<Seq<char>>> {
    match o {
        Some(v) => Some(texts_view(v@)),
        None => None,
    }
}

impl View for MetaInfo {
    type V = MetaInfoModel;

    open spec fn view(&self) -> MetaInfoModel {
        MetaInfoModel {
            announce: self.announce@,
            announce_list: opt_texts_view(self.announce_list),
            creation_date: opt_text_view(self.creation_date),
            comment: opt_text_view(self.comment),
            created_by: opt_text_view(self.created_by),
            encoding: opt_text_view(self.encoding),
            piece_length: self.piece_length,
            pieces: self.pieces@,
            private: opt_text_view(self.private),
            name: self.name@,
            info_hash: self.info_hash@,
            file_info: self.file_info@,
        }
    }
}

impl File {
    /// The length of the file in bytes.
    pub fn length(&self) -> (r: usize)
        ensures
            r == self@.length,
    {
        self.length
    }

    /// The MD5 sum of the file, when the torrent gives one.
    pub fn md5sum(&self) -> (r: &Option<String>)
        ensures
            opt_text_view(*r) == self@.md5sum,
    {
        &self.md5sum
    }

    /// The path of the file, one directory name after another, then the file name.
    pub fn paths(&self) -> (r: &Vec<String>)
        ensures
            texts_view(r@) == self@.paths,
    {
        &self.paths
    }
}

// ----- escaping the info hash -----

/// Bytes left as they are in a URL: `0-9`, `a-z`, `A-Z`, `.`, `-`, `_`, `~`.
pub open spec fn is_unreserved(b: u8) -> bool {
    (48 <= b <= 57) || (65 <= b <= 90) || (97 <= b <= 122) || b == 46 || b == 45 || b == 95 || b == 126
}

/// A lower-case hexadecimal digit.
pub open spec fn hex_digit(n: int) -> char {
    if n < 10 {
        (n + 48) as char
    } else {
        (n + 87) as char
    }
}

/// One byte in escaped form: itself when unreserved, else `%` and its
/// value as two lower-case hexadecimal digits (`%nn`).
pub open spec fn escape_byte(b: u8) -> Seq<char> {
    if is_unreserved(b) {
        seq![b as char]
    } else {
        seq!['%', hex_digit(b as int / 16), hex_digit(b as int % 16)]
    }
}

/// The bytes in escaped form, one after the other.
pub open spec fn escape_hex(bytes: Seq<u8>) -> Seq<char>
    decreases bytes.len(),
{
    if bytes.len() == 0 {
        Seq::empty()
    } else {
        escape_hex(bytes.drop_last()) + escape_byte(bytes.last())
    }
}

/// The value of a lower-case hexadecimal digit.
pub open spec fn hex_value(c: char) -> int {
    if '0' <= c <= '9' {
        c as int - 48
    } else {
        c as int - 87
    }
}

/// Percent-decoding: `%` and two hexadecimal digits stand for the byte of
/// that value; any other character for the byte of its code.
pub open spec fn unescape(t: Seq<char>) -> Seq<u8>
    decreases t.len(),
{
    if t.len() == 0 {
        Seq::empty()
    } else if t[0] == '%' && t.len() >= 3 {
        seq![(hex_value(t[1]) * 16 + hex_value(t[2])) as u8] + unescape(t.skip(3))
    } else {
        seq![t[0] as u8] + unescape(t.skip(1))
    }
}

proof fn lemma_escape_concat(a: Seq<u8>, b: Seq<u8>)
    ensures
        escape_hex(a + b) == escape_hex(a) + escape_hex(b),
    decreases b.len(),
{
    if b.len() == 0 {
        assert(a + b =~= a);
        assert(escape_hex(a) + escape_hex(b) =~= escape_hex(a));
    } else {
        lemma_escape_concat(a, b.drop_last());
        assert((a + b).drop_last() =~= a + b.drop_last());
        assert((a + b).last() == b.last());
        assert(escape_hex(a + b) =~= escape_hex(a) + escape_hex(b));
    }
}

proof fn lemma_unescape_byte(b: u8, rest: Seq<char>)
    ensures
        unescape(escape_byte(b) + rest) == seq![b] + unescape(rest),
{
    let e = escape_byte(b) + rest;
    if is_unreserved(b) {
        assert(e[0] == b as char);
        assert(e.skip(1) =~= rest);
        assert((b as char) as u8 == b);
    } else {
        let hi = b as int / 16;
        let lo = b as int % 16;
        assert(e[0] == '%');
        assert(e[1] == hex_digit(hi));
        assert(e[2] == hex_digit(lo));
        assert(hex_value(hex_digit(hi)) == hi);
        assert(hex_value(hex_digit(lo)) == lo);
        assert(e.skip(3) =~= rest);
        assert((hi * 16 + lo) as u8 == b);
    }
}

/// Percent-decoding the escaped form of some bytes gives the bytes back.
pub proof fn lemma_unescape_escape(bytes: Seq<u8>)
    ensures
        unescape(escape_hex(bytes)) == bytes,
    decreases bytes.len(),
{
    if bytes.len() == 0 {
    } else {
        let rest = bytes.drop_first();
        assert(bytes =~= seq![bytes[0]] + rest);
        lemma_escape_concat(seq![bytes[0]], rest);
        assert(escape_hex(seq![bytes[0]]) =~= escape_byte(bytes[0])) by {
            let one = seq![bytes[0]];
            assert(one.drop_last() =~= Seq::<u8>::empty());
            assert(escape_hex(one.drop_last()) == Seq::<char>::empty());
            assert(one.last() == bytes[0]);
            assert(escape_hex(one) == escape_hex(one.drop_last()) + escape_byte(one.last()));
        }
        lemma_unescape_byte(bytes[0], escape_hex(rest));
        lemma_unescape_escape(rest);
    }
}

/// Different bytes have different escaped forms.
pub proof fn lemma_escape_injective(a: Seq<u8>, b: Seq<u8>)
    requires
        escape_hex(a) == escape_hex(b),
    ensures
        a == b,
{
    lemma_unescape_escape(a);
    lemma_unescape_escape(b);
}

fn hex_char(n: u8) -> (c: char)
    requires
        n < 16,
    ensures
        c == hex_digit(n as int),
{
    if n < 10 {
        (n + 48) as char
    } else {
        (n + 87) as char
    }
}

/// The bytes escaped for a URL query (RFC 1738): a byte outside `0-9`,
/// `a-z`, `A-Z`, `.`, `-`, `_`, `~` becomes `%` and its lower-case
/// hexadecimal value in two digits (`%nn`).
pub fn to_escape_hex(bytes: &[u8]) -> (r: String)
    ensures
        r@ == escape_hex(bytes@),
{
    let mut s = String::new();
    let mut i: usize = 0;
    while i < bytes.len()
        invariant
            i <= bytes@.len(),
            s@ == escape_hex(bytes@.subrange(0, i as int)),
        decreases bytes@.len() - i,
    {
        let b = bytes[i];
        let ghost before = s@;
        if (b >= 48 && b <= 57) || (b >= 65 && b <= 90) || (b >= 97 && b <= 122) || b == 46 || b == 45 || b == 95 || b
            == 126 {
            push_char(&mut s, b as char);
        } else {
            push_char(&mut s, '%');
            push_char(&mut s, hex_char(b / 16));
            push_char(&mut s, hex_char(b % 16));
        }
        proof {
            let t = bytes@.subrange(0, i + 1);
            assert(t.drop_last() =~= bytes@.subrange(0, i as int));
            assert(t.last() == b);
            assert(s@ =~= before + escape_byte(b));
        }
        i = i + 1;
    }
    assert(bytes@.subrange(0, bytes@.len() as int) =~= bytes@);
    s
}

// ----- reading a metainfo out of bencode -----

/// A result's value, dropping its error.
pub open spec fn ok_of<T>(r: Result<T, BencodeError>) -> Option<T> {
    match r {
        Ok(t) => Some(t),
        Err(_) => None,
    }
}

/// Every item read as text; the first failure otherwise.
pub open spec fn texts_result(m: Seq<BValue>) -> Result<Seq<Seq<char>>, BencodeError>
    decreases m.len(),
{
    if m.len() == 0 {
        Ok(Seq::empty())
    } else {
        match texts_result(m.drop_last()) {
            Err(e) => Err(e),
            Ok(a) => match as_text(m.last()) {
                Ok(t) => Ok(a.push(t)),
                Err(e) => Err(e),
            },
        }
    }
}

/// The texts in a list of lists of texts, flattened; nothing when an item is
/// not a list or an inner item is not text.
pub open spec fn announce_texts(l: Seq<BValue>) -> Option<Seq<Seq<char>>> {
    if forall|i: int| 0 <= i < l.len() ==> #[trigger] l[i] is List {
        flat_texts(l)
    } else {
        None
    }
}

pub open spec fn flat_texts(l: Seq<BValue>) -> Option<Seq<Seq<char>>>
    decreases l.len(),
{
    if l.len() == 0 {
        Some(Seq::empty())
    } else {
        match (flat_texts(l.drop_last()), l.last()) {
            (Some(a), BValue::List(inner)) => match texts_result(inner) {
                Ok(b) => Some(a + b),
                Err(_) => None,
            },
            _ => None,
        }
    }
}

/// The items of the list at position `i` of `l`; none when it is not a list.
pub open spec fn tier(l: Seq<BValue>, i: int) -> Seq<BValue> {
    match l[i] {
        BValue::List(t) => t,
        _ => Seq::empty(),
    }
}

/// How many items the lists of `l` hold together.
pub open spec fn tiers_total(l: Seq<BValue>) -> int
    decreases l.len(),
{
    if l.len() == 0 {
        0
    } else {
        tiers_total(l.drop_last()) + tier(l, l.len() - 1).len()
    }
}

/// Reading a list of texts gives one text per item, in order, and succeeds
/// exactly when every item is text.
pub proof fn lemma_texts_result(m: Seq<BValue>)
    ensures
        texts_result(m) matches Ok(r) ==> r.len() == m.len() && forall|j: int|
            0 <= j < m.len() ==> text_value(#[trigger] m[j]) == Some(r[j]),
        (forall|j: int| 0 <= j < m.len() ==> (#[trigger] text_value(m[j])) is Some) ==> texts_result(m) is Ok,
    decreases m.len(),
{
    if m.len() > 0 {
        let p = m.drop_last();
        lemma_texts_result(p);
        if let Ok(r) = texts_result(m) {
            let a = texts_result(p)->Ok_0;
            assert forall|j: int| 0 <= j < m.len() implies text_value(#[trigger] m[j]) == Some(r[j]) by {
                if j < m.len() - 1 {
                    assert(m[j] == p[j]);
                }
            }
        }
        if forall|j: int| 0 <= j < m.len() ==> (#[trigger] text_value(m[j])) is Some {
            assert forall|j: int| 0 <= j < p.len() implies (#[trigger] text_value(p[j])) is Some by {
                assert(p[j] == m[j]);
            }
            assert(text_value(m[m.len() - 1]) is Some);
        }
    }
}

proof fn lemma_tiers_bound(l: Seq<BValue>)
    ensures
        tiers_total(l) >= 0,
        forall|i: int| 0 <= i < l.len() ==> tiers_total(#[trigger] l.take(i)) + tier(l, i).len() <= tiers_total(l),
    decreases l.len(),
{
    if l.len() > 0 {
        let p = l.drop_last();
        lemma_tiers_bound(p);
        assert forall|i: int| 0 <= i < l.len() implies tiers_total(#[trigger] l.take(i)) + tier(l, i).len()
            <= tiers_total(l) by {
            if i < l.len() - 1 {
                assert(l.take(i) =~= p.take(i));
                assert(tier(l, i) == tier(p, i));
                assert(tiers_total(p.take(i)) + tier(p, i).len() <= tiers_total(p));
            } else {
                assert(l.take(i) =~= p);
            }
        }
    }
}

/// Flattening tiers of texts: the result holds every text of every tier, in
/// order, and no other; it exists exactly when every item of every tier is
/// text (and every tier a list).
proof fn lemma_flat_texts(l: Seq<BValue>)
    ensures
        flat_texts(l) matches Some(r) ==> {
            &&& r.len() == tiers_total(l)
            &&& forall|i: int| 0 <= i < l.len() ==> #[trigger] l[i] is List
            &&& forall|i: int, j: int|
                0 <= i < l.len() && 0 <= j < tier(l, i).len() ==> text_value(#[trigger] tier(l, i)[j]) == Some(
                    r[tiers_total(l.take(i)) + j],
                )
        },
        (forall|i: int| 0 <= i < l.len() ==> #[trigger] l[i] is List) && (forall|i: int, j: int|
            0 <= i < l.len() && 0 <= j < tier(l, i).len() ==> (#[trigger] text_value(tier(l, i)[j])) is Some)
            ==> flat_texts(l) is Some,
    decreases l.len(),
{
    if l.len() > 0 {
        let n = l.len() - 1;
        let p = l.drop_last();
        lemma_flat_texts(p);
        lemma_tiers_bound(p);
        lemma_texts_result(tier(l, n));
        assert(l.take(n) =~= p);
        assert forall|i: int| 0 <= i < n implies #[trigger] tier(l, i) == tier(p, i) && l.take(i) == p.take(i) by {
            assert(l[i] == p[i]);
            assert(l.take(i) =~= p.take(i));
        }
        if let Some(r) = flat_texts(l) {
            let a = flat_texts(p)->Some_0;
            let b = texts_result(tier(l, n))->Ok_0;
            assert(r == a + b);
            assert forall|i: int| 0 <= i < l.len() implies #[trigger] l[i] is List by {
                if i < n {
                    assert(l[i] == p[i]);
                }
            }
            assert forall|i: int, j: int|
                0 <= i < l.len() && 0 <= j < tier(l, i).len() implies text_value(#[trigger] tier(l, i)[j]) == Some(
                    r[tiers_total(l.take(i)) + j],
                ) by {
                if i < n {
                    assert(tier(l, i) == tier(p, i));
                    assert(l.take(i) == p.take(i));
                    assert(tiers_total(p.take(i)) + tier(p, i).len() <= tiers_total(p));
                    let k = tiers_total(p.take(i)) + j;
                    lemma_tiers_bound(p.take(i));
                    assert(a.len() == tiers_total(p));
                    assert(0 <= k < a.len());
                    assert(text_value(tier(p, i)[j]) == Some(a[k]));
                    assert(r[k] == a[k]);
                } else {
                    assert(l.take(i) == p);
                    let k = tiers_total(p) + j;
                    assert(a.len() == tiers_total(p));
                    assert(text_value(tier(l, n)[j]) == Some(b[j]));
                    assert(r[k] == b[j]);
                }
            }
        }
        if (forall|i: int| 0 <= i < l.len() ==> #[trigger] l[i] is List) && (forall|i: int, j: int|
            0 <= i < l.len() && 0 <= j < tier(l, i).len() ==> (#[trigger] text_value(tier(l, i)[j])) is Some) {
            assert forall|i: int| 0 <= i < p.len() implies #[trigger] p[i] is List by {
                assert(l[i] == p[i]);
            }
            assert forall|i: int, j: int| 0 <= i < p.len() && 0 <= j < tier(p, i).len() implies (#[trigger] text_value(
                tier(p, i)[j],
            )) is Some by {
                assert(tier(l, i) == tier(p, i));
            }
            assert(l[n] is List);
            assert forall|j: int| 0 <= j < tier(l, n).len() implies (#[trigger] text_value(tier(l, n)[j])) is Some by {
                assert(text_value(tier(l, n)[j]) is Some);
            }
        }
    }
}

/// The announce list read from a list of tiers of texts is their
/// concatenation: as many trackers as the tiers hold together, every text of
/// every tier in order. It is read exactly when every tier is a list of
/// texts.
pub proof fn lemma_announce_flatten(l: Seq<BValue>)
    ensures
        announce_texts(l) matches Some(r) ==> {
            &&& r.len() == tiers_total(l)
            &&& forall|i: int, j: int|
                0 <= i < l.len() && 0 <= j < tier(l, i).len() ==> text_value(#[trigger] tier(l, i)[j]) == Some(
                    r[tiers_total(l.take(i)) + j],
                )
        },
        (forall|i: int| 0 <= i < l.len() ==> #[trigger] l[i] is List) && (forall|i: int, j: int|
            0 <= i < l.len() && 0 <= j < tier(l, i).len() ==> (#[trigger] text_value(tier(l, i)[j])) is Some)
            ==> announce_texts(l) is Some,
{
    lemma_flat_texts(l);
}

/// A file entry of a multiple-file torrent.
pub open spec fn file_model(v: BValue) -> Result<FileModel, BencodeError> {
    match v {
        BValue::Dict(d0) => match take_int(d0, "length".spec_bytes()) {
            (Err(e), _) => Err(e),
            (Ok(len), d1) => {
                let (md5, d2) = take_text(d1, "md5sum".spec_bytes());
                match take_list(d2, "path".spec_bytes()) {
                    (Err(e), _) => Err(e),
                    (Ok(p), _) => match texts_result(p) {
                        Err(e) => Err(e),
                        Ok(ps) => Ok(FileModel { length: len as usize, md5sum: ok_of(md5), paths: ps }),
                    },
                }
            },
        },
        _ => Err(BencodeError::WrongType),
    }
}

/// Every file entry; the first failure otherwise.
pub open spec fn files_result(l: Seq<BValue>) -> Result<Seq<FileModel>, BencodeError>
    decreases l.len(),
{
    if l.len() == 0 {
        Ok(Seq::empty())
    } else {
        match files_result(l.drop_last()) {
            Err(e) => Err(e),
            Ok(a) => match file_model(l.last()) {
                Ok(f) => Ok(a.push(f)),
                Err(e) => Err(e),
            },
        }
    }
}

/// The fields read out of the `info` dictionary: piece length, pieces,
/// private, name, files.
pub open spec fn info_model(i0: Seq<(Seq<u8>, BValue)>) -> Result<
    (usize, Seq<u8>, Option<Seq<char>>, Seq<char>, FileInfoModel),
    BencodeError,
> {
    match take_int(i0, "piece length".spec_bytes()) {
        (Err(e), _) => Err(e),
        (Ok(pl), i1) => match take_bytes(i1, "pieces".spec_bytes()) {
            (Err(e), _) => Err(e),
            (Ok(pieces), i2) => {
                let (private, i3) = take_text(i2, "private".spec_bytes());
                match take_text(i3, "name".spec_bytes()) {
                    (Err(e), _) => Err(e),
                    (Ok(name), i4) => match take_list(i4, "files".spec_bytes()) {
                        (Ok(fl), _) => match files_result(fl) {
                            Err(e) => Err(e),
                            Ok(fs) => Ok(
                                (pl as usize, pieces, ok_of(private), name, FileInfoModel::MultipleFile { files: fs }),
                            ),
                        },
                        (Err(_), i5) => match take_int(i5, "length".spec_bytes()) {
                            (Err(e), _) => Err(e),
                            (Ok(len), i6) => {
                                let (md5, _) = take_text(i6, "md5sum".spec_bytes());
                                Ok(
                                    (
                                        pl as usize,
                                        pieces,
                                        ok_of(private),
                                        name,
                                        FileInfoModel::SingleFile { length: len as usize, md5sum: ok_of(md5) },
                                    ),
                                )
                            },
                        },
                    },
                }
            },
        },
    }
}

/// The announce list read from the entry for `announce-list`: none when
/// there is no such entry; the error when the entry is not a list.
pub open spec fn announce_list_of(r: Result<Seq<BValue>, BencodeError>) -> Result<
    Option<Seq<Seq<char>>>,
    BencodeError,
> {
    match r {
        Ok(al) => Ok(announce_texts(al)),
        Err(BencodeError::MissingKey) => Ok(None),
        Err(e) => Err(e),
    }
}

/// The metainfo read out of its top-level dictionary.
pub open spec fn top_model(d0: Seq<(Seq<u8>, BValue)>) -> Result<MetaInfoModel, BencodeError> {
    match take_text(d0, "announce".spec_bytes()) {
        (Err(e), _) => Err(e),
        (Ok(announce), d1) => match announce_list_of(take_list(d1, "announce-list".spec_bytes()).0) {
            Err(e) => Err(e),
            Ok(announce_list) => {
                let d2 = take_list(d1, "announce-list".spec_bytes()).1;
                let (cd, d3) = take_text(d2, "creation date".spec_bytes());
                match take_dict(d3, "info".spec_bytes()) {
                    (Err(e), _) => Err(e),
                    (Ok(info), d4) => {
                        let (comment, d5) = take_text(d4, "comment".spec_bytes());
                        let (created_by, d6) = take_text(d5, "created by".spec_bytes());
                        let (encoding, _) = take_text(d6, "encoding".spec_bytes());
                        match info_model(info) {
                            Err(e) => Err(e),
                            Ok((pl, pieces, private, name, fi)) => Ok(
                                MetaInfoModel {
                                    announce,
                                    announce_list,
                                    creation_date: ok_of(cd),
                                    comment: ok_of(comment),
                                    created_by: ok_of(created_by),
                                    encoding: ok_of(encoding),
                                    piece_length: pl,
                                    pieces,
                                    private,
                                    name,
                                    info_hash: escape_hex(sha1_digest(encode(BValue::Dict(info)))),
                                    file_info: fi,
                                },
                            ),
                        }
                    },
                }
            },
        },
    }
}

/// The metainfo in a torrent file's bytes.
pub open spec fn metainfo_model(bytes: Seq<u8>) -> Result<MetaInfoModel, BencodeError> {
    match parse_item(bytes, 0) {
        None => Err(BencodeError::Malformed),
        Some((BValue::Dict(d), _)) => top_model(d),
        Some(_) => Err(BencodeError::WrongType),
    }
}

/// The byte lengths of the keys read from the top-level dictionary.
proof fn lemma_top_key_lengths()
    ensures
        "announce".spec_bytes().len() == 8,
        "announce-list".spec_bytes().len() == 13,
        "creation date".spec_bytes().len() == 13,
        "info".spec_bytes().len() == 4,
{
    broadcast use vstd::string::is_ascii_spec_bytes;

    reveal_strlit("announce");
    reveal_strlit("announce-list");
    reveal_strlit("creation date");
    reveal_strlit("info");
    assert(vstd::string::is_ascii("announce"));
    assert(vstd::string::is_ascii("announce-list"));
    assert(vstd::string::is_ascii("creation date"));
    assert(vstd::string::is_ascii("info"));
}

/// The info hash of a metainfo is the SHA-1 digest of the bencoding of the
/// whole `info` dictionary as decoded (before any of its keys is read),
/// escaped for a URL.
pub proof fn lemma_info_hash(bytes: Seq<u8>)
    ensures
        metainfo_model(bytes) matches Ok(m) ==> {
            &&& parse_item(bytes, 0) matches Some((BValue::Dict(d), _))
            &&& dict_take(d, "info".spec_bytes()).0 matches Some(BValue::Dict(info))
            &&& m.info_hash == escape_hex(sha1_digest(encode(BValue::Dict(info))))
        },
{
    lemma_parse_wf(bytes, 0);
    if let Some((BValue::Dict(d), _)) = parse_item(bytes, 0) {
        lemma_top_key_lengths();
        let k = "info".spec_bytes();
        lemma_take_other(d, "announce".spec_bytes(), k);
        let d1 = dict_take(d, "announce".spec_bytes()).1;
        lemma_take_other(d1, "announce-list".spec_bytes(), k);
        let d2 = dict_take(d1, "announce-list".spec_bytes()).1;
        lemma_take_other(d2, "creation date".spec_bytes(), k);
    }
}

/// The keys read from the `info` dictionary differ from each other.
proof fn lemma_info_keys_distinct()
    ensures
        "piece length".spec_bytes() != "pieces".spec_bytes(),
        "piece length".spec_bytes() != "private".spec_bytes(),
        "piece length".spec_bytes() != "name".spec_bytes(),
        "piece length".spec_bytes() != "files".spec_bytes(),
        "piece length".spec_bytes() != "length".spec_bytes(),
        "piece length".spec_bytes() != "md5sum".spec_bytes(),
        "pieces".spec_bytes() != "private".spec_bytes(),
        "pieces".spec_bytes() != "name".spec_bytes(),
        "pieces".spec_bytes() != "files".spec_bytes(),
        "pieces".spec_bytes() != "length".spec_bytes(),
        "pieces".spec_bytes() != "md5sum".spec_bytes(),
        "private".spec_bytes() != "name".spec_bytes(),
        "private".spec_bytes() != "files".spec_bytes(),
        "private".spec_bytes() != "length".spec_bytes(),
        "private".spec_bytes() != "md5sum".spec_bytes(),
        "name".spec_bytes() != "files".spec_bytes(),
        "name".spec_bytes() != "length".spec_bytes(),
        "name".spec_bytes() != "md5sum".spec_bytes(),
        "files".spec_bytes() != "length".spec_bytes(),
        "files".spec_bytes() != "md5sum".spec_bytes(),
        "length".spec_bytes() != "md5sum".spec_bytes(),
{
    broadcast use vstd::string::is_ascii_spec_bytes;

    reveal_strlit("piece length");
    reveal_strlit("pieces");
    reveal_strlit("private");
    reveal_strlit("name");
    reveal_strlit("files");
    reveal_strlit("length");
    reveal_strlit("md5sum");
    assert(vstd::string::is_ascii("piece length"));
    assert(vstd::string::is_ascii("pieces"));
    assert(vstd::string::is_ascii("private"));
    assert(vstd::string::is_ascii("name"));
    assert(vstd::string::is_ascii("files"));
    assert(vstd::string::is_ascii("length"));
    assert(vstd::string::is_ascii("md5sum"));
    assert("piece length".spec_bytes().len() == 12);
    assert("pieces".spec_bytes().len() == 6);
    assert("private".spec_bytes().len() == 7);
    assert("name".spec_bytes().len() == 4);
    assert("files".spec_bytes().len() == 5);
    assert("length".spec_bytes().len() == 6);
    assert("md5sum".spec_bytes().len() == 6);
    assert("piece length".spec_bytes()[0] == "piece length"@[0] as u8);
    assert("pieces".spec_bytes()[0] == "pieces"@[0] as u8);
    assert("private".spec_bytes()[0] == "private"@[0] as u8);
    assert("name".spec_bytes()[0] == "name"@[0] as u8);
    assert("files".spec_bytes()[0] == "files"@[0] as u8);
    assert("length".spec_bytes()[0] == "length"@[0] as u8);
    assert("md5sum".spec_bytes()[0] == "md5sum"@[0] as u8);
}

/// The fields read from an `info` dictionary are the values bound there:
/// the integer bound to `piece length` (as a `usize`), the bytes bound to
/// `pieces`, the text bound to `name`, the text of `private` (absent when
/// no entry has that key); several files when `files` is bound to a list,
/// and one file, of the length bound to `length` and with the text of
/// `md5sum`, when no entry has the key `files`.
pub proof fn lemma_info_fields(
    i0: Seq<(Seq<u8>, BValue)>,
    pl: usize,
    pieces: Seq<u8>,
    private: Option<Seq<char>>,
    name: Seq<char>,
    fi: FileInfoModel,
)
    requires
        keys_sorted(i0),
        info_model(i0) == Ok::<(usize, Seq<u8>, Option<Seq<char>>, Seq<char>, FileInfoModel), BencodeError>(
            (pl, pieces, private, name, fi),
        ),
    ensures
        exists|n: i64| binds(i0, "piece length".spec_bytes(), BValue::Int(n)) && pl == n as usize,
        binds(i0, "pieces".spec_bytes(), BValue::Bytes(pieces)),
        exists|v: BValue| binds(i0, "name".spec_bytes(), v) && text_value(v) == Some(name),
        forall|v: BValue| #[trigger] binds(i0, "private".spec_bytes(), v) ==> private == text_value(v),
        unbound(i0, "private".spec_bytes()) ==> private is None,
        forall|fl: Seq<BValue>|
            #[trigger] binds(i0, "files".spec_bytes(), BValue::List(fl)) ==> (fi matches FileInfoModel::MultipleFile {
                files,
            } && files_result(fl) == Ok::<Seq<FileModel>, BencodeError>(files)),
        unbound(i0, "files".spec_bytes()) ==> {
            &&& fi matches FileInfoModel::SingleFile { length, md5sum }
            &&& exists|n: i64| binds(i0, "length".spec_bytes(), BValue::Int(n)) && length == n as usize
            &&& forall|v: BValue| #[trigger] binds(i0, "md5sum".spec_bytes(), v) ==> md5sum == text_value(v)
            &&& unbound(i0, "md5sum".spec_bytes()) ==> md5sum is None
        },
{
    lemma_info_keys_distinct();
    let k0 = "piece length".spec_bytes();
    let k1 = "pieces".spec_bytes();
    let k2 = "private".spec_bytes();
    let k3 = "name".spec_bytes();
    let k4 = "files".spec_bytes();
    let k5 = "length".spec_bytes();
    let k6 = "md5sum".spec_bytes();
    lemma_take_other(i0, k0, k1);
    lemma_take_other(i0, k0, k2);
    lemma_take_other(i0, k0, k3);
    lemma_take_other(i0, k0, k4);
    lemma_take_other(i0, k0, k5);
    lemma_take_other(i0, k0, k6);
    let i1 = dict_take(i0, k0).1;
    lemma_take_other(i1, k1, k2);
    lemma_take_other(i1, k1, k3);
    lemma_take_other(i1, k1, k4);
    lemma_take_other(i1, k1, k5);
    lemma_take_other(i1, k1, k6);
    let i2 = dict_take(i1, k1).1;
    lemma_take_other(i2, k2, k3);
    lemma_take_other(i2, k2, k4);
    lemma_take_other(i2, k2, k5);
    lemma_take_other(i2, k2, k6);
    let i3 = dict_take(i2, k2).1;
    lemma_take_other(i3, k3, k4);
    lemma_take_other(i3, k3, k5);
    lemma_take_other(i3, k3, k6);
    let i4 = dict_take(i3, k3).1;
    lemma_take_other(i4, k4, k5);
    lemma_take_other(i4, k4, k6);
    let i5 = dict_take(i4, k4).1;
    lemma_take_other(i5, k5, k6);
    let i6 = dict_take(i5, k5).1;
    lemma_take_finds(i0, k0);
    lemma_take_finds(i0, k1);
    lemma_take_finds(i0, k2);
    lemma_take_finds(i0, k3);
    lemma_take_finds(i0, k4);
    lemma_take_finds(i0, k5);
    lemma_take_finds(i0, k6);
    let v0 = dict_take(i0, k0).0->Some_0;
    assert(binds(i0, k0, v0));
    let v3 = dict_take(i0, k3).0->Some_0;
    assert(take_text(i3, k3).0 == as_text(v3));
    assert(text_value(v3) == Some(name));
    assert(binds(i0, k3, v3));
    if unbound(i0, k4) {
        let v5 = dict_take(i0, k5).0->Some_0;
        assert(binds(i0, k5, v5));
    }
}

/// The fields of a metainfo read from the `info` dictionary are those that
/// dictionary, as bound in the top level, gives.
pub proof fn lemma_info_of_metainfo(bytes: Seq<u8>, d: Seq<(Seq<u8>, BValue)>, info: Seq<(Seq<u8>, BValue)>, m: MetaInfoModel)
    requires
        parse_item(bytes, 0) matches Some((BValue::Dict(d0), _)) && d0 == d,
        binds(d, "info".spec_bytes(), BValue::Dict(info)),
        metainfo_model(bytes) matches Ok(m0) && m0 == m,
    ensures
        keys_sorted(info),
        info_model(info) == Ok::<(usize, Seq<u8>, Option<Seq<char>>, Seq<char>, FileInfoModel), BencodeError>(
            (m.piece_length, m.pieces, m.private, m.name, m.file_info),
        ),
{
    lemma_parse_wf(bytes, 0);
    lemma_top_key_lengths();
    let k = "info".spec_bytes();
    lemma_take_finds(d, k);
    let j = choose|j: int| 0 <= j < d.len() && d[j] == (k, BValue::Dict(info));
    assert(value_wf(d[j].1));
    lemma_take_other(d, "announce".spec_bytes(), k);
    let d1 = dict_take(d, "announce".spec_bytes()).1;
    lemma_take_other(d1, "announce-list".spec_bytes(), k);
    let d2 = dict_take(d1, "announce-list".spec_bytes()).1;
    lemma_take_other(d2, "creation date".spec_bytes(), k);
}

/// The keys read from a file entry differ from each other.
proof fn lemma_file_keys_distinct()
    ensures
        "length".spec_bytes() != "md5sum".spec_bytes(),
        "length".spec_bytes() != "path".spec_bytes(),
        "md5sum".spec_bytes() != "path".spec_bytes(),
{
    broadcast use vstd::string::is_ascii_spec_bytes;

    reveal_strlit("length");
    reveal_strlit("md5sum");
    reveal_strlit("path");
    assert(vstd::string::is_ascii("length"));
    assert(vstd::string::is_ascii("md5sum"));
    assert(vstd::string::is_ascii("path"));
    assert("length".spec_bytes()[0] == "length"@[0] as u8);
    assert("md5sum".spec_bytes()[0] == "md5sum"@[0] as u8);
    assert("path".spec_bytes().len() == 4);
    assert("length".spec_bytes().len() == 6);
    assert("md5sum".spec_bytes().len() == 6);
}

/// A file entry read from a dictionary: the length is the integer bound to
/// `length`, the MD5 sum the text bound to `md5sum` (absent when no entry
/// has that key), and the path the texts of the list bound to `path`, one per
/// item, in order.
pub proof fn lemma_file_fields(f: Seq<(Seq<u8>, BValue)>, fm: FileModel)
    requires
        keys_sorted(f),
        file_model(BValue::Dict(f)) == Ok::<FileModel, BencodeError>(fm),
    ensures
        exists|n: i64| binds(f, "length".spec_bytes(), BValue::Int(n)) && fm.length == n as usize,
        forall|v: BValue| #[trigger] binds(f, "md5sum".spec_bytes(), v) ==> fm.md5sum == text_value(v),
        unbound(f, "md5sum".spec_bytes()) ==> fm.md5sum is None,
        exists|p: Seq<BValue>| {
            &&& binds(f, "path".spec_bytes(), BValue::List(p))
            &&& fm.paths.len() == p.len()
            &&& forall|j: int| 0 <= j < p.len() ==> text_value(#[trigger] p[j]) == Some(fm.paths[j])
        },
{
    lemma_file_keys_distinct();
    let k0 = "length".spec_bytes();
    let k1 = "md5sum".spec_bytes();
    let k2 = "path".spec_bytes();
    lemma_take_other(f, k0, k1);
    lemma_take_other(f, k0, k2);
    let f1 = dict_take(f, k0).1;
    lemma_take_other(f1, k1, k2);
    lemma_take_finds(f, k0);
    lemma_take_finds(f, k1);
    lemma_take_finds(f, k2);
    let v0 = dict_take(f, k0).0->Some_0;
    assert(binds(f, k0, v0));
    let v2 = dict_take(f, k2).0->Some_0;
    assert(binds(f, k2, v2));
    lemma_texts_result(v2->List_0);
}

/// Reading file entries gives one file per entry, in order.
pub proof fn lemma_files_result(l: Seq<BValue>)
    ensures
        files_result(l) matches Ok(fs) ==> fs.len() == l.len() && forall|j: int|
            0 <= j < l.len() ==> file_model(#[trigger] l[j]) == Ok::<FileModel, BencodeError>(fs[j]),
    decreases l.len(),
{
    if l.len() > 0 {
        let p = l.drop_last();
        lemma_files_result(p);
        if let Ok(fs) = files_result(l) {
            assert forall|j: int| 0 <= j < l.len() implies file_model(#[trigger] l[j]) == Ok::<FileModel, BencodeError>(
                fs[j],
            ) by {
                if j < l.len() - 1 {
                    assert(l[j] == p[j]);
                }
            }
        }
    }
}

/// The keys of the top-level dictionary that a metainfo is read from.
pub open spec fn top_key(k: Seq<u8>) -> bool {
    ||| k == "announce".spec_bytes()
    ||| k == "announce-list".spec_bytes()
    ||| k == "creation date".spec_bytes()
    ||| k == "info".spec_bytes()
    ||| k == "comment".spec_bytes()
    ||| k == "created by".spec_bytes()
    ||| k == "encoding".spec_bytes()
}

/// A top-level entry under any other key changes nothing of the metainfo
/// read from a dictionary.
pub proof fn lemma_unknown_key_ignored(d: Seq<(Seq<u8>, BValue)>, k: Seq<u8>, v: BValue)
    requires
        keys_sorted(d),
        !top_key(k),
    ensures
        top_model(dict_insert(d, k, v)) == top_model(d),
{
    let k0 = "announce".spec_bytes();
    let k1 = "announce-list".spec_bytes();
    let k2 = "creation date".spec_bytes();
    let k3 = "info".spec_bytes();
    let k4 = "comment".spec_bytes();
    let k5 = "created by".spec_bytes();
    let k6 = "encoding".spec_bytes();
    lemma_take_insert_commute(d, k, v, k0);
    lemma_take_other(d, k0, k);
    let d1 = dict_take(d, k0).1;
    lemma_take_insert_commute(d1, k, v, k1);
    lemma_take_other(d1, k1, k);
    let d2 = dict_take(d1, k1).1;
    lemma_take_insert_commute(d2, k, v, k2);
    lemma_take_other(d2, k2, k);
    let d3 = dict_take(d2, k2).1;
    lemma_take_insert_commute(d3, k, v, k3);
    lemma_take_other(d3, k3, k);
    let d4 = dict_take(d3, k3).1;
    lemma_take_insert_commute(d4, k, v, k4);
    lemma_take_other(d4, k4, k);
    let d5 = dict_take(d4, k4).1;
    lemma_take_insert_commute(d5, k, v, k5);
    lemma_take_other(d5, k5, k);
    let d6 = dict_take(d5, k5).1;
    lemma_take_insert_commute(d6, k, v, k6);
}

/// Two torrent files whose top-level dictionaries differ only by an entry
/// under a key the metainfo does not read give the same metainfo, or the
/// same error.
pub proof fn lemma_unknown_key_ignored_bytes(b1: Seq<u8>, b2: Seq<u8>, d: Seq<(Seq<u8>, BValue)>, k: Seq<u8>, v: BValue)
    requires
        parse_item(b1, 0) matches Some((BValue::Dict(d1), _)) && d1 == d,
        parse_item(b2, 0) matches Some((BValue::Dict(d2), _)) && d2 == dict_insert(d, k, v),
        !top_key(k),
    ensures
        metainfo_model(b2) == metainfo_model(b1),
{
    lemma_parse_wf(b1, 0);
    lemma_unknown_key_ignored(d, k, v);
}

/// The keys read from the top-level dictionary differ from each other.
proof fn lemma_top_keys_distinct()
    ensures
        "announce".spec_bytes() != "announce-list".spec_bytes(),
        "announce".spec_bytes() != "creation date".spec_bytes(),
        "announce".spec_bytes() != "info".spec_bytes(),
        "announce".spec_bytes() != "comment".spec_bytes(),
        "announce".spec_bytes() != "created by".spec_bytes(),
        "announce".spec_bytes() != "encoding".spec_bytes(),
        "announce-list".spec_bytes() != "creation date".spec_bytes(),
        "announce-list".spec_bytes() != "info".spec_bytes(),
        "announce-list".spec_bytes() != "comment".spec_bytes(),
        "announce-list".spec_bytes() != "created by".spec_bytes(),
        "announce-list".spec_bytes() != "encoding".spec_bytes(),
        "creation date".spec_bytes() != "info".spec_bytes(),
        "creation date".spec_bytes() != "comment".spec_bytes(),
        "creation date".spec_bytes() != "created by".spec_bytes(),
        "creation date".spec_bytes() != "encoding".spec_bytes(),
        "info".spec_bytes() != "comment".spec_bytes(),
        "info".spec_bytes() != "created by".spec_bytes(),
        "info".spec_bytes() != "encoding".spec_bytes(),
        "comment".spec_bytes() != "created by".spec_bytes(),
        "comment".spec_bytes() != "encoding".spec_bytes(),
        "created by".spec_bytes() != "encoding".spec_bytes(),
{
    broadcast use vstd::string::is_ascii_spec_bytes;

    reveal_strlit("announce");
    reveal_strlit("announce-list");
    reveal_strlit("creation date");
    reveal_strlit("info");
    reveal_strlit("comment");
    reveal_strlit("created by");
    reveal_strlit("encoding");
    assert(vstd::string::is_ascii("announce"));
    assert(vstd::string::is_ascii("announce-list"));
    assert(vstd::string::is_ascii("creation date"));
    assert(vstd::string::is_ascii("info"));
    assert(vstd::string::is_ascii("comment"));
    assert(vstd::string::is_ascii("created by"));
    assert(vstd::string::is_ascii("encoding"));
    assert("announce".spec_bytes().len() == 8);
    assert("announce-list".spec_bytes().len() == 13);
    assert("creation date".spec_bytes().len() == 13);
    assert("info".spec_bytes().len() == 4);
    assert("comment".spec_bytes().len() == 7);
    assert("created by".spec_bytes().len() == 10);
    assert("encoding".spec_bytes().len() == 8);
    assert("announce".spec_bytes()[0] == "announce"@[0] as u8);
    assert("announce-list".spec_bytes()[0] == "announce-list"@[0] as u8);
    assert("creation date".spec_bytes()[0] == "creation date"@[0] as u8);
    assert("info".spec_bytes()[0] == "info"@[0] as u8);
    assert("comment".spec_bytes()[0] == "comment"@[0] as u8);
    assert("created by".spec_bytes()[0] == "created by"@[0] as u8);
    assert("encoding".spec_bytes()[0] == "encoding"@[0] as u8);
}

/// The fields read from the top level of a torrent file are the values bound
/// there: `announce` is the text bound to `announce`; `announce-list`,
/// `creation date`, `comment`, `created by` and `encoding` are read from the
/// value bound to their key (the flattened tiers of the list; the text), and
/// are absent when no entry has that key.
pub proof fn lemma_top_fields(bytes: Seq<u8>, d: Seq<(Seq<u8>, BValue)>, m: MetaInfoModel)
    requires
    parse_item(bytes, 0) matches Some((BValue::Dict(d0), _)) && d0 == d,
    metainfo_model(bytes) matches Ok(m0) && m0 == m,
    ensures
    exists|v: BValue| binds(d, "announce".spec_bytes(), v) && text_value(v) == Some(m.announce),
    forall|l: Seq<BValue>|
        #[trigger] binds(d, "announce-list".spec_bytes(), BValue::List(l)) ==> m.announce_list == announce_texts(l),
    unbound(d, "announce-list".spec_bytes()) ==> m.announce_list is None,
    forall|v: BValue| #[trigger] binds(d, "creation date".spec_bytes(), v) ==> m.creation_date == text_value(v),
    unbound(d, "creation date".spec_bytes()) ==> m.creation_date is None,
    forall|v: BValue| #[trigger] binds(d, "comment".spec_bytes(), v) ==> m.comment == text_value(v),
    unbound(d, "comment".spec_bytes()) ==> m.comment is None,
    forall|v: BValue| #[trigger] binds(d, "created by".spec_bytes(), v) ==> m.created_by == text_value(v),
    unbound(d, "created by".spec_bytes()) ==> m.created_by is None,
    forall|v: BValue| #[trigger] binds(d, "encoding".spec_bytes(), v) ==> m.encoding == text_value(v),
    unbound(d, "encoding".spec_bytes()) ==> m.encoding is None,
{
    lemma_parse_wf(bytes, 0);
    lemma_top_keys_distinct();
    let d0 = d;
    let k0 = "announce".spec_bytes();
    let k1 = "announce-list".spec_bytes();
    let k2 = "creation date".spec_bytes();
    let k3 = "info".spec_bytes();
    let k4 = "comment".spec_bytes();
    let k5 = "created by".spec_bytes();
    let k6 = "encoding".spec_bytes();
    lemma_take_other(d0, k0, k1);
    lemma_take_other(d0, k0, k2);
    lemma_take_other(d0, k0, k4);
    lemma_take_other(d0, k0, k5);
    lemma_take_other(d0, k0, k6);
    let d1 = dict_take(d0, k0).1;
    lemma_take_other(d1, k1, k2);
    lemma_take_other(d1, k1, k4);
    lemma_take_other(d1, k1, k5);
    lemma_take_other(d1, k1, k6);
    let d2 = dict_take(d1, k1).1;
    lemma_take_other(d2, k2, k4);
    lemma_take_other(d2, k2, k5);
    lemma_take_other(d2, k2, k6);
    let d3 = dict_take(d2, k2).1;
    lemma_take_other(d3, k3, k4);
    lemma_take_other(d3, k3, k5);
    lemma_take_other(d3, k3, k6);
    let d4 = dict_take(d3, k3).1;
    lemma_take_other(d4, k4, k5);
    lemma_take_other(d4, k4, k6);
    let d5 = dict_take(d4, k4).1;
    lemma_take_other(d5, k5, k6);
    let d6 = dict_take(d5, k5).1;
    lemma_take_finds(d, k0);
    lemma_take_finds(d, k1);
    lemma_take_finds(d, k2);
    lemma_take_finds(d, k4);
    lemma_take_finds(d, k5);
    lemma_take_finds(d, k6);
    let a = dict_take(d, k0).0->Some_0;
    assert(take_text(d, k0).0 == as_text(a));
    assert(take_text(d, k0).0 == Ok::<Seq<char>, BencodeError>(m.announce));
    assert(text_value(a) == Some(m.announce));
    assert(binds(d, k0, a));
}

proof fn lemma_list_view_drop_first(s: Seq<BItem>)
    requires
        s.len() > 0,
    ensures
        list_view(s.remove(0)) == list_view(s).drop_first(),
        list_view(s)[0] == item_view_of(s[0]),
{
    lemma_list_view(s);
    lemma_list_view(s.remove(0));
    assert(list_view(s.remove(0)) =~= list_view(s).drop_first());
}

spec fn item_view_of(b: BItem) -> BValue {
    b@
}

/// A failure on a prefix is the failure on the whole.
proof fn lemma_texts_result_prefix_err(m: Seq<BValue>, k: int)
    requires
        0 <= k <= m.len(),
        texts_result(m.subrange(0, k)) is Err,
    ensures
        texts_result(m) == texts_result(m.subrange(0, k)),
    decreases m.len() - k,
{
    if k < m.len() {
        let t = m.subrange(0, k + 1);
        assert(t.drop_last() =~= m.subrange(0, k));
        lemma_texts_result_prefix_err(m, k + 1);
    } else {
        assert(m.subrange(0, k) =~= m);
    }
}

/// Reads every item as text, stopping at the first failure.
fn read_texts(list: Vec<BItem>) -> (r: Result<Vec<String>, BencodeError>)
    ensures
        match (r, texts_result(list_view(list@))) {
            (Ok(v), Ok(t)) => texts_view(v@) == t,
            (Err(e), Err(f)) => e == f,
            _ => false,
        },
{
    let ghost orig = list_view(list@);
    proof {
        lemma_list_view(list@);
    }
    let mut items = list;
    let mut out: Vec<String> = Vec::new();
    let ghost mut done: int = 0;
    proof {
        assert(texts_view(out@) =~= Seq::<Seq<char>>::empty());
        assert(orig.subrange(0, 0) =~= Seq::<BValue>::empty());
        assert(orig.subrange(0, orig.len() as int) =~= orig);
    }
    while items.len() > 0
        invariant
            orig == list_view(list@),
            0 <= done <= orig.len(),
            list_view(items@) == orig.subrange(done, orig.len() as int),
            items@.len() == orig.len() - done,
            texts_result(orig.subrange(0, done)) == Ok::<Seq<Seq<char>>, BencodeError>(texts_view(out@)),
        decreases items@.len(),
    {
        proof {
            lemma_list_view_drop_first(items@);
            assert(orig.subrange(done, orig.len() as int)[0] == orig[done]);
        }
        let item = items.remove(0);
        let ghost t = orig.subrange(0, done + 1);
        proof {
            assert(t.drop_last() =~= orig.subrange(0, done));
            assert(t.last() == item@);
        }
        let s = match item.into_string() {
            Ok(s) => s,
            Err(e) => {
                proof {
                    assert(as_text(t.last()) == Err::<Seq<char>, BencodeError>(e));
                    assert(texts_result(t) == Err::<Seq<Seq<char>>, BencodeError>(e));
                    lemma_texts_result_prefix_err(orig, done + 1);
                }
                return Err(e);
            },
        };
        let ghost before = out@;
        out.push(s);
        proof {
            assert(texts_view(out@) =~= texts_view(before).push(s@));
            done = done + 1;
            assert(list_view(items@) =~= orig.subrange(done, orig.len() as int));
        }
    }
    proof {
        assert(orig.subrange(0, done) =~= orig);
    }
    Ok(out)
}


/// A failure on a prefix is a failure on the whole.
proof fn lemma_flat_texts_prefix_none(m: Seq<BValue>, k: int)
    requires
        0 <= k <= m.len(),
        flat_texts(m.subrange(0, k)) is None,
    ensures
        flat_texts(m) is None,
    decreases m.len() - k,
{
    if k < m.len() {
        let t = m.subrange(0, k + 1);
        assert(t.drop_last() =~= m.subrange(0, k));
        lemma_flat_texts_prefix_none(m, k + 1);
    } else {
        assert(m.subrange(0, k) =~= m);
    }
}

/// The texts of a list of lists of texts, flattened; nothing when an item is
/// not a list or an inner item is not text.
fn read_announce(list: Vec<BItem>) -> (r: Option<Vec<String>>)
    ensures
        opt_texts_view(r) == announce_texts(list_view(list@)),
{
    let ghost orig = list_view(list@);
    proof {
        lemma_list_view(list@);
    }
    let mut i: usize = 0;
    while i < list.len()
        invariant
            orig == list_view(list@),
            orig.len() == list@.len(),
            forall|j: int| 0 <= j < list@.len() ==> #[trigger] orig[j] == list@[j]@,
            i <= list@.len(),
            forall|j: int| 0 <= j < i ==> #[trigger] orig[j] is List,
        decreases list@.len() - i,
    {
        match &list[i] {
            BItem::List(_) => {},
            _ => {
                assert(!(orig[i as int] is List));
                return None;
            },
        }
        i = i + 1;
    }
    let mut items = list;
    let mut out: Vec<String> = Vec::new();
    let ghost mut done: int = 0;
    proof {
        assert(texts_view(out@) =~= Seq::<Seq<char>>::empty());
        assert(orig.subrange(0, 0) =~= Seq::<BValue>::empty());
        assert(orig.subrange(0, orig.len() as int) =~= orig);
    }
    while items.len() > 0
        invariant
            orig == list_view(list@),
            forall|j: int| 0 <= j < orig.len() ==> #[trigger] orig[j] is List,
            0 <= done <= orig.len(),
            list_view(items@) == orig.subrange(done, orig.len() as int),
            items@.len() == orig.len() - done,
            flat_texts(orig.subrange(0, done)) == Some(texts_view(out@)),
        decreases items@.len(),
    {
        proof {
            lemma_list_view_drop_first(items@);
            assert(orig.subrange(done, orig.len() as int)[0] == orig[done]);
        }
        let item = items.remove(0);
        let ghost t = orig.subrange(0, done + 1);
        proof {
            assert(t.drop_last() =~= orig.subrange(0, done));
            assert(t.last() == item@);
            assert(orig[done] is List);
        }
        let inner = match item.into_list() {
            Ok(l) => l,
            Err(_) => {
                return None;
            },
        };
        let mut texts = match read_texts(inner) {
            Ok(v) => v,
            Err(_) => {
                proof {
                    lemma_flat_texts_prefix_none(orig, done + 1);
                }
                return None;
            },
        };
        let ghost before = out@;
        let ghost tv = texts@;
        out.append(&mut texts);
        proof {
            assert(texts_view(out@) =~= texts_view(before) + texts_view(tv));
            done = done + 1;
            assert(list_view(items@) =~= orig.subrange(done, orig.len() as int));
        }
    }
    Some(out)
}

/// A result's text, dropping its error.
fn ok_string(r: Result<String, BencodeError>) -> (o: Option<String>)
    ensures
        opt_text_view(o) == ok_of(text_result_view(r)),
{
    match r {
        Ok(s) => Some(s),
        Err(_) => None,
    }
}

/// Reads one file entry of a multiple-file torrent.
fn read_file(item: BItem) -> (r: Result<File, BencodeError>)
    ensures
        match (r, file_model(item@)) {
            (Ok(f), Ok(m)) => f@ == m,
            (Err(e), Err(g)) => e == g,
            _ => false,
        },
{
    let mut d = item.into_dict()?;
    let length = #[verifier::truncate] (d.remove_int("length")? as usize);
    let md5sum = ok_string(d.remove_string("md5sum"));
    let path_items = d.remove_list("path")?;
    let paths = read_texts(path_items)?;
    Ok(File { length, md5sum, paths })
}

/// A failure on a prefix is the failure on the whole.
proof fn lemma_files_result_prefix_err(m: Seq<BValue>, k: int)
    requires
        0 <= k <= m.len(),
        files_result(m.subrange(0, k)) is Err,
    ensures
        files_result(m) == files_result(m.subrange(0, k)),
    decreases m.len() - k,
{
    if k < m.len() {
        let t = m.subrange(0, k + 1);
        assert(t.drop_last() =~= m.subrange(0, k));
        lemma_files_result_prefix_err(m, k + 1);
    } else {
        assert(m.subrange(0, k) =~= m);
    }
}

/// Reads every file entry, stopping at the first failure.
fn read_files(list: Vec<BItem>) -> (r: Result<Vec<File>, BencodeError>)
    ensures
        match (r, files_result(list_view(list@))) {
            (Ok(v), Ok(t)) => files_view(v@) == t,
            (Err(e), Err(f)) => e == f,
            _ => false,
        },
{
    let ghost orig = list_view(list@);
    proof {
        lemma_list_view(list@);
    }
    let mut items = list;
    let mut out: Vec<File> = Vec::new();
    let ghost mut done: int = 0;
    proof {
        assert(files_view(out@) =~= Seq::<FileModel>::empty());
        assert(orig.subrange(0, 0) =~= Seq::<BValue>::empty());
        assert(orig.subrange(0, orig.len() as int) =~= orig);
    }
    while items.len() > 0
        invariant
            orig == list_view(list@),
            0 <= done <= orig.len(),
            list_view(items@) == orig.subrange(done, orig.len() as int),
            items@.len() == orig.len() - done,
            files_result(orig.subrange(0, done)) == Ok::<Seq<FileModel>, BencodeError>(files_view(out@)),
        decreases items@.len(),
    {
        proof {
            lemma_list_view_drop_first(items@);
            assert(orig.subrange(done, orig.len() as int)[0] == orig[done]);
        }
        let item = items.remove(0);
        let ghost t = orig.subrange(0, done + 1);
        proof {
            assert(t.drop_last() =~= orig.subrange(0, done));
            assert(t.last() == item@);
        }
        let f = match read_file(item) {
            Ok(f) => f,
            Err(e) => {
                proof {
                    assert(files_result(t) == Err::<Seq<FileModel>, BencodeError>(e));
                    lemma_files_result_prefix_err(orig, done + 1);
                }
                return Err(e);
            },
        };
        let ghost before = out@;
        out.push(f);
        proof {
            assert(files_view(out@) =~= files_view(before).push(f@));
            done = done + 1;
            assert(list_view(items@) =~= orig.subrange(done, orig.len() as int));
        }
    }
    Ok(out)
}

impl MetaInfo {
    /// Reads the metainfo out of the bytes of a torrent file.
    ///
    /// `announce`, `info`, and in `info` `piece length`, `pieces`, `name`,
    /// and either `files` (each with `length` and `path`) or `length`, are
    /// required; `announce-list` may be absent (no announce list), but when
    /// present it must be a list; the other fields are read when present and
    /// of the right kind. The info hash is the SHA-1 digest of the bencoded
    /// `info` dictionary, escaped for a URL.
    pub fn from_bytes(bytes: &[u8]) -> (r: Result<MetaInfo, BencodeError>)
        ensures
            match (r, metainfo_model(bytes@)) {
                (Ok(mi), Ok(m)) => mi@ == m,
                (Err(e), Err(f)) => e == f,
                _ => false,
            },
    {
        let bitem = BItem::deseri_cons(bytes)?;
        let mut bdict = bitem.into_dict()?;
        let announce = bdict.remove_string("announce")?;
        let announce_list = match bdict.remove_list("announce-list") {
            Ok(al) => read_announce(al),
            Err(BencodeError::MissingKey) => None,
            Err(e) => {
                return Err(e);
            },
        };
        let creation_date = ok_string(bdict.remove_string("creation date"));
        let info = BItem::Dict(bdict.remove_dict("info")?);
        let digest = sha1(info.seri_decons().as_slice());
        let info_hash = to_escape_hex(digest.as_slice());
        let comment = ok_string(bdict.remove_string("comment"));
        let created_by = ok_string(bdict.remove_string("created by"));
        let encoding = ok_string(bdict.remove_string("encoding"));

        // info dict
        let mut info = info.into_dict()?;
        let piece_length = #[verifier::truncate] (info.remove_int("piece length")? as usize);
        let pieces = info.remove_bytes("pieces")?;
        let private = ok_string(info.remove_string("private"));
        let name = info.remove_string("name")?;
        let files = info.remove_list("files");
        let file_info = match files {
            Ok(files) => {
                // multiple file mode
                FileInfo::MultipleFile { files: read_files(files)? }
            },
            Err(_) => {
                // single file mode
                let length = #[verifier::truncate] (info.remove_int("length")? as usize);
                let md5sum = ok_string(info.remove_string("md5sum"));
                FileInfo::SingleFile { length, md5sum }
            },
        };
        Ok(
            MetaInfo {
                announce,
                announce_list,
                creation_date,
                comment,
                created_by,
                encoding,
                piece_length,
                pieces,
                private,
                name,
                info_hash,
                file_info,
            },
        )
    }
}


// ----- trackers -----

/// The trackers of a torrent, in order: `announce`, then the entries of
/// `announce-list`.
pub open spec fn tracker_list(m: MetaInfoModel) -> Seq<Seq<char>> {
    seq![m.announce] + match m.announce_list {
        Some(l) => l,
        None => Seq::empty(),
    }
}

/// Tracker `k` is `announce` for `k == 0`, and entry `k - 1` of
/// `announce-list` after it; there is one exactly when that entry exists.
pub proof fn lemma_kth_tracker(m: MetaInfoModel, k: int)
    requires
        0 <= k,
    ensures
        k == 0 ==> k < tracker_list(m).len() && tracker_list(m)[k] == m.announce,
        k > 0 ==> (k < tracker_list(m).len() <==> (m.announce_list matches Some(l) && k - 1 < l.len())),
        k > 0 && k < tracker_list(m).len() ==> tracker_list(m)[k] == m.announce_list->Some_0[k - 1],
{
}

/// Walks the trackers of a metainfo.
pub struct TrackerIterator<'a> {
    metainfo: &'a MetaInfo,
    /// Whether `announce` has been handed out.
    started: bool,
    /// How many entries of `announce-list` have been handed out.
    ptr: usize,
}

impl<'a> TrackerIterator<'a> {
    #[verifier::type_invariant]
    spec fn inv(self) -> bool {
        &&& !self.started ==> self.ptr == 0
        &&& self.ptr + 1 <= tracker_list(self.metainfo@).len()
    }

    /// The trackers walked.
    pub closed spec fn trackers(self) -> Seq<Seq<char>> {
        tracker_list(self.metainfo@)
    }

    /// How many trackers have been handed out.
    pub closed spec fn index(self) -> int {
        if self.started {
            self.ptr + 1
        } else {
            0
        }
    }

    /// The next tracker, or nothing once all have been handed out (and from
    /// then on).
    pub fn next(&mut self) -> (r: Option<&'a str>)
        ensures
            final(self).trackers() == old(self).trackers(),
            old(self).index() < old(self).trackers().len() ==> {
                &&& r matches Some(t)
                &&& t@ == old(self).trackers()[old(self).index()]
                &&& final(self).index() == old(self).index() + 1
            },
            old(self).index() >= old(self).trackers().len() ==> r is None && final(self).index() == old(self).index(),
    {
        proof {
            use_type_invariant(&*self);
        }
        let m: &'a MetaInfo = self.metainfo;
        if !self.started {
            self.started = true;
            Some(m.announce.as_str())
        } else {
            match &m.announce_list {
                Some(list) => {
                    proof {
                        assert(texts_view(list@).len() == list@.len());
                    }
                    if self.ptr < list.len() {
                        let t = list[self.ptr].as_str();
                        proof {
                            assert(texts_view(list@)[self.ptr as int] == list@[self.ptr as int]@);
                        }
                        self.ptr = self.ptr + 1;
                        Some(t)
                    } else {
                        None
                    }
                },
                None => None,
            }
        }
    }
}

impl MetaInfo {
    /// The trackers of this torrent: `announce`, then the entries of
    /// `announce-list`.
    pub fn trackers(&self) -> (it: TrackerIterator<'_>)
        ensures
            it.trackers() == tracker_list(self@),
            it.index() == 0,
    {
        TrackerIterator { metainfo: self, started: false, ptr: 0 }
    }

    /// The number of pieces: `pieces` holds a 20-byte SHA-1 hash for each.
    pub fn piece_count(&self) -> (n: usize)
        ensures
            n == self.pieces@.len() / 20,
    {
        self.pieces.len() / 20
    }

    /// The size a client's bitmap is made with: `piece_length` times the
    /// length of `pieces`, divided by 20.
    pub fn bitmap_size(&self) -> (n: usize)
        requires
            self.piece_length * self.pieces@.len() <= usize::MAX,
        ensures
            n == (self.piece_length * self.pieces@.len()) / 20,
    {
        self.piece_length * self.pieces.len() / 20
    }
}

} // verus!
