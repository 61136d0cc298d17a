//! Reading typed values out of decoded bencode: text, integers, byte strings,
//! lists and dictionaries, by themselves or taken out of a dictionary by key.

use vstd::prelude::*;
use vstd::string::StringSliceAdditionalSpecFns;
use vstd::utf8::{decode_utf8, encode_utf8, encode_utf8_decode_utf8, valid_utf8};

use crate::bencode::{
    dict_insert, insertion_index, key_index, keys_sorted, lemma_dict_insert_sorted, lemma_insertion_index,
    lemma_insertion_index_at, lemma_key_index, lemma_key_index_at, list_view, BDict, BItem, BValue, BencodeError,
};
use crate::keys::{lemma_lex_irreflexive, lemma_lex_transitive, lex_lt};

verus! {

/// `String::from_utf8`: the bytes as text when they are UTF-8, nothing
/// otherwise. The text's UTF-8 encoding is the bytes given.
#[verifier::external_body]
fn string_from_utf8(bytes: Vec<u8>) -> (r: Option<String>)
    ensures
        r is Some <==> valid_utf8(bytes@),
        r matches Some(s) ==> encode_utf8(s@) == bytes@,
{
    String::from_utf8(bytes).ok()
}

/// The text of a byte string value.
pub open spec fn as_text(v: BValue) -> Result<Seq<char>, BencodeError> {
    match v {
        BValue::Bytes(b) => if valid_utf8(b) {
            Ok(decode_utf8(b))
        } else {
            Err(BencodeError::InvalidUtf8)
        },
        _ => Err(BencodeError::WrongType),
    }
}

/// The value bound to `k` in `d`, and `d` without that entry.
pub open spec fn dict_take(d: Seq<(Seq<u8>, BValue)>, k: Seq<u8>) -> (Option<BValue>, Seq<(Seq<u8>, BValue)>) {
    let i = key_index(d, k);
    if i < d.len() {
        (Some(d[i].1), d.remove(i))
    } else {
        (None, d)
    }
}

/// Taking out the entry for `k` and reading it as text.
pub open spec fn take_text(d: Seq<(Seq<u8>, BValue)>, k: Seq<u8>) -> (Result<Seq<char>, BencodeError>, Seq<(Seq<u8>, BValue)>) {
    match dict_take(d, k) {
        (Some(v), rest) => (as_text(v), rest),
        (None, rest) => (Err(BencodeError::MissingKey), rest),
    }
}

/// Taking out the entry for `k` and reading it as an integer.
pub open spec fn take_int(d: Seq<(Seq<u8>, BValue)>, k: Seq<u8>) -> (Result<i64, BencodeError>, Seq<(Seq<u8>, BValue)>) {
    match dict_take(d, k) {
        (Some(BValue::Int(i)), rest) => (Ok(i), rest),
        (Some(_), rest) => (Err(BencodeError::WrongType), rest),
        (None, rest) => (Err(BencodeError::MissingKey), rest),
    }
}

/// Taking out the entry for `k` and reading it as a byte string.
pub open spec fn take_bytes(d: Seq<(Seq<u8>, BValue)>, k: Seq<u8>) -> (Result<Seq<u8>, BencodeError>, Seq<(Seq<u8>, BValue)>) {
    match dict_take(d, k) {
        (Some(BValue::Bytes(b)), rest) => (Ok(b), rest),
        (Some(_), rest) => (Err(BencodeError::WrongType), rest),
        (None, rest) => (Err(BencodeError::MissingKey), rest),
    }
}

/// Taking out the entry for `k` and reading it as a list.
pub open spec fn take_list(d: Seq<(Seq<u8>, BValue)>, k: Seq<u8>) -> (Result<Seq<BValue>, BencodeError>, Seq<(Seq<u8>, BValue)>) {
    match dict_take(d, k) {
        (Some(BValue::List(l)), rest) => (Ok(l), rest),
        (Some(_), rest) => (Err(BencodeError::WrongType), rest),
        (None, rest) => (Err(BencodeError::MissingKey), rest),
    }
}

/// Taking out the entry for `k` and reading it as a dictionary.
pub open spec fn take_dict(d: Seq<(Seq<u8>, BValue)>, k: Seq<u8>) -> (
    Result<Seq<(Seq<u8>, BValue)>, BencodeError>,
    Seq<(Seq<u8>, BValue)>,
) {
    match dict_take(d, k) {
        (Some(BValue::Dict(e)), rest) => (Ok(e), rest),
        (Some(_), rest) => (Err(BencodeError::WrongType), rest),
        (None, rest) => (Err(BencodeError::MissingKey), rest),
    }
}

/// The view of an optional text.
pub open spec fn opt_text_view(o: Option<String>) -> Option<Seq<char>> {
    match o {
        Some(s) => Some(s@),
        None => None,
    }
}

/// The view of a result holding text.
pub open spec fn text_result_view(r: Result<String, BencodeError>) -> Result<Seq<char>, BencodeError> {
    match r {
        Ok(s) => Ok(s@),
        Err(e) => Err(e),
    }
}

/// The views of a sequence of texts.
pub open spec fn texts_view(v: Seq<String>) -> Seq<Seq<char>> {
    v.map_values(|s: String| s@)
}

impl BItem {
    /// The text of a byte string: `WrongType` for any other value,
    /// `InvalidUtf8` when the bytes are not UTF-8.
    pub fn into_string(self) -> (r: Result<String, BencodeError>)
        ensures
            text_result_view(r) == as_text(self@),
    {
        match self {
            BItem::String(s) => {
                match string_from_utf8(s) {
                    Some(t) => {
                        proof {
                            encode_utf8_decode_utf8(t@);
                        }
                        Ok(t)
                    },
                    None => Err(BencodeError::InvalidUtf8),
                }
            },
            _ => Err(BencodeError::WrongType),
        }
    }
}

impl BDict {
    /// Takes out the entry for `key` as text.
    pub fn remove_string(&mut self, key: &str) -> (r: Result<String, BencodeError>)
        ensures
            (text_result_view(r), final(self)@) == take_text(old(self)@, key.spec_bytes()),
    {
        let item = self.remove(key)?;
        item.into_string()
    }

    /// Takes out the entry for `key` as an integer.
    pub fn remove_int(&mut self, key: &str) -> (r: Result<i64, BencodeError>)
        ensures
            (r, final(self)@) == take_int(old(self)@, key.spec_bytes()),
    {
        let item = self.remove(key)?;
        item.into_int()
    }

    /// Takes out the entry for `key` as a byte string.
    pub fn remove_bytes(&mut self, key: &str) -> (r: Result<Vec<u8>, BencodeError>)
        ensures
            (match r {
                Ok(b) => Ok::<Seq<u8>, BencodeError>(b@),
                Err(e) => Err(e),
            }, final(self)@) == take_bytes(old(self)@, key.spec_bytes()),
    {
        let item = self.remove(key)?;
        item.into_bytes()
    }

    /// Takes out the entry for `key` as a list.
    pub fn remove_list(&mut self, key: &str) -> (r: Result<Vec<BItem>, BencodeError>)
        ensures
            (match r {
                Ok(l) => Ok::<Seq<BValue>, BencodeError>(list_view(l@)),
                Err(e) => Err(e),
            }, final(self)@) == take_list(old(self)@, key.spec_bytes()),
    {
        let item = self.remove(key)?;
        item.into_list()
    }

    /// Takes out the entry for `key` as a dictionary.
    pub fn remove_dict(&mut self, key: &str) -> (r: Result<BDict, BencodeError>)
        ensures
            (match r {
                Ok(d) => Ok::<Seq<(Seq<u8>, BValue)>, BencodeError>(d@),
                Err(e) => Err(e),
            }, final(self)@) == take_dict(old(self)@, key.spec_bytes()),
    {
        let item = self.remove(key)?;
        item.into_dict()
    }
}


// ----- dictionary laws -----

/// `d` has an entry binding `k` to `v`.
pub open spec fn binds(d: Seq<(Seq<u8>, BValue)>, k: Seq<u8>, v: BValue) -> bool {
    exists|i: int| 0 <= i < d.len() && d[i] == (k, v)
}

/// `d` has no entry for `k`.
pub open spec fn unbound(d: Seq<(Seq<u8>, BValue)>, k: Seq<u8>) -> bool {
    forall|i: int| 0 <= i < d.len() ==> #[trigger] d[i].0 != k
}

/// The text a value holds: the characters of a UTF-8 byte string; nothing for
/// any other value.
pub open spec fn text_value(v: BValue) -> Option<Seq<char>> {
    match v {
        BValue::Bytes(b) => if valid_utf8(b) {
            Some(decode_utf8(b))
        } else {
            None
        },
        _ => None,
    }
}

/// In a dictionary whose keys are strictly increasing, taking a key out gives
/// the value of the one entry bound to it, and nothing when no entry is.
pub proof fn lemma_take_finds(d: Seq<(Seq<u8>, BValue)>, k: Seq<u8>)
    requires
        keys_sorted(d),
    ensures
        dict_take(d, k).0 matches Some(v) ==> binds(d, k, v),
        dict_take(d, k).0 is None <==> unbound(d, k),
        forall|v: BValue| #[trigger] binds(d, k, v) ==> dict_take(d, k).0 == Some(v),
{
    lemma_key_index(d, k);
    let i = key_index(d, k);
    if i < d.len() {
        assert(d[i] == (k, d[i].1));
    }
    assert forall|v: BValue| #[trigger] binds(d, k, v) implies dict_take(d, k).0 == Some(v) by {
        let j = choose|j: int| 0 <= j < d.len() && d[j] == (k, v);
        if i < j {
            lemma_lex_irreflexive(k);
            assert(lex_lt(d[i].0, d[j].0));
        }
        if j < i {
            assert(d[j].0 != k);
        }
    }
}



/// A value bound to a key is what taking that key out gives back.
pub proof fn lemma_insert_then_take(d: Seq<(Seq<u8>, BValue)>, k: Seq<u8>, v: BValue)
    requires
        keys_sorted(d),
    ensures
        dict_take(dict_insert(d, k, v), k).0 == Some(v),
{
    lemma_insertion_index(d, k);
    let i = insertion_index(d, k);
    let r = dict_insert(d, k, v);
    assert forall|j: int| 0 <= j < i implies #[trigger] r[j].0 != k by {
        assert(r[j] == d[j]);
        lemma_lex_irreflexive(k);
    }
    assert(r[i] == (k, v));
    lemma_key_index_at(r, k, i);
}

/// Once a key is taken out of a dictionary (whose keys are strictly
/// increasing), the dictionary has no entry for it.
pub proof fn lemma_take_removes(d: Seq<(Seq<u8>, BValue)>, k: Seq<u8>)
    requires
        keys_sorted(d),
    ensures
        key_index(dict_take(d, k).1, k) == dict_take(d, k).1.len(),
{
    lemma_key_index(d, k);
    let i = key_index(d, k);
    let rest = dict_take(d, k).1;
    if i < d.len() {
        assert forall|j: int| 0 <= j < rest.len() implies #[trigger] rest[j].0 != k by {
            if j < i {
                assert(rest[j] == d[j]);
                assert(lex_lt(d[j].0, d[i].0));
                lemma_lex_irreflexive(k);
            } else {
                assert(rest[j] == d[j + 1]);
                assert(lex_lt(d[i].0, d[j + 1].0));
                lemma_lex_irreflexive(k);
            }
        }
    }
    lemma_key_index_at(rest, k, rest.len() as int);
}

/// Taking one key out of a dictionary (whose keys are strictly increasing)
/// keeps the keys strictly increasing and leaves what another key gives.
pub proof fn lemma_take_other(d: Seq<(Seq<u8>, BValue)>, k1: Seq<u8>, k2: Seq<u8>)
    requires
        keys_sorted(d),
        k1 != k2,
    ensures
        keys_sorted(dict_take(d, k1).1),
        dict_take(dict_take(d, k1).1, k2).0 == dict_take(d, k2).0,
{
    lemma_key_index(d, k1);
    lemma_key_index(d, k2);
    let i = key_index(d, k1);
    let j = key_index(d, k2);
    let rest = dict_take(d, k1).1;
    if i < d.len() {
        assert forall|a: int, b: int| 0 <= a < b < rest.len() implies lex_lt(#[trigger] rest[a].0, #[trigger] rest[b].0) by {
            let a2 = if a < i { a } else { a + 1 };
            let b2 = if b < i { b } else { b + 1 };
            assert(rest[a] == d[a2]);
            assert(rest[b] == d[b2]);
        }
        if j < d.len() {
            assert(j != i);
            let j2 = if j < i { j } else { j - 1 };
            assert(rest[j2] == d[j]);
            assert forall|a: int| 0 <= a < j2 implies #[trigger] rest[a].0 != k2 by {
                let a2 = if a < i { a } else { a + 1 };
                assert(rest[a] == d[a2]);
            }
            lemma_key_index_at(rest, k2, j2);
        } else {
            assert forall|a: int| 0 <= a < rest.len() implies #[trigger] rest[a].0 != k2 by {
                let a2 = if a < i { a } else { a + 1 };
                assert(rest[a] == d[a2]);
            }
            lemma_key_index_at(rest, k2, rest.len() as int);
        }
    }
}

/// Binding `k` and then taking out another key `k2` is taking out `k2` and
/// then binding `k`: the same value comes out, and the same dictionary stays.
pub proof fn lemma_take_insert_commute(d: Seq<(Seq<u8>, BValue)>, k: Seq<u8>, v: BValue, k2: Seq<u8>)
    requires
        keys_sorted(d),
        k != k2,
    ensures
        dict_take(dict_insert(d, k, v), k2) == (dict_take(d, k2).0, dict_insert(dict_take(d, k2).1, k, v)),
{
    lemma_insert_then_take_other(d, k, v, k2);
    lemma_insertion_index(d, k);
    lemma_key_index(d, k2);
    lemma_dict_insert_sorted(d, k, v);
    let i = insertion_index(d, k);
    let j = key_index(d, k2);
    let r = dict_insert(d, k, v);
    let found = i < d.len() && d[i].0 == k;
    // every key from position `i` on is not below `k`
    assert forall|x: int| i <= x < d.len() implies !lex_lt(#[trigger] d[x].0, k) by {
        if x > i && lex_lt(d[x].0, k) {
            lemma_lex_transitive(d[i].0, d[x].0, k);
        }
    }
    if j < d.len() {
        let dr = d.remove(j);
        let ip = if j < i { i - 1 } else { i };
        assert forall|a: int| 0 <= a < ip implies lex_lt(#[trigger] dr[a].0, k) by {
            if a < j {
                assert(dr[a] == d[a]);
            } else {
                assert(dr[a] == d[a + 1]);
            }
        }
        if ip < dr.len() {
            if ip < j {
                assert(dr[ip] == d[ip]);
            } else {
                assert(dr[ip] == d[ip + 1]);
            }
        }
        lemma_insertion_index_at(dr, k, ip);
        let j2 = if found || j < i { j } else { j + 1 };
        assert(r[j2] == d[j]);
        assert forall|a: int| 0 <= a < j2 implies #[trigger] r[a].0 != k2 by {
            if found {
                assert(r[a].0 == d[a].0);
            } else if a < i {
                assert(r[a] == d[a]);
            } else if a > i {
                assert(r[a] == d[a - 1]);
            }
        }
        lemma_key_index_at(r, k2, j2);
        if found {
            if ip < j {
                assert(dr[ip] == d[ip]);
            } else {
                assert(dr[ip] == d[ip + 1]);
            }
            assert(r.remove(j2) =~= dr.update(ip, (k, v)));
        } else {
            if ip < dr.len() {
                if ip < j {
                    assert(dr[ip] == d[ip]);
                } else {
                    assert(dr[ip] == d[ip + 1]);
                }
                assert(dr[ip].0 != k);
            }
            assert(r.remove(j2) =~= dr.insert(ip, (k, v)));
        }
    } else {
        assert forall|a: int| 0 <= a < r.len() implies #[trigger] r[a].0 != k2 by {
            if found {
                assert(r[a].0 == d[a].0);
            } else if a < i {
                assert(r[a] == d[a]);
            } else if a > i {
                assert(r[a] == d[a - 1]);
            }
        }
        lemma_key_index_at(r, k2, r.len() as int);
    }
}

/// Binding a key leaves what another key gives when taken out.
pub proof fn lemma_insert_then_take_other(d: Seq<(Seq<u8>, BValue)>, k: Seq<u8>, v: BValue, k2: Seq<u8>)
    requires
        keys_sorted(d),
        k2 != k,
    ensures
        dict_take(dict_insert(d, k, v), k2).0 == dict_take(d, k2).0,
{
    lemma_insertion_index(d, k);
    lemma_key_index(d, k2);
    let i = insertion_index(d, k);
    let r = dict_insert(d, k, v);
    let j = key_index(d, k2);
    lemma_dict_insert_sorted(d, k, v);
    if i < d.len() && d[i].0 == k {
        assert forall|a: int| 0 <= a < j implies #[trigger] r[a].0 != k2 by {
            assert(r[a].0 == d[a].0);
        }
        if j < d.len() {
            assert(r[j] == d[j]);
        }
        lemma_key_index_at(r, k2, j);
    } else {
        let j2 = if j < i { j } else { j + 1 };
        assert forall|a: int| 0 <= a < j2 implies #[trigger] r[a].0 != k2 by {
            if a < i {
                assert(r[a] == d[a]);
            } else if a > i {
                assert(r[a] == d[a - 1]);
            }
        }
        if j < d.len() {
            assert(r[j2] == d[j]);
        }
        lemma_key_index_at(r, k2, j2);
    }
}

} // verus!
