//! Bencode values and their encoding.
//!
//! Most messages exchanged with trackers, and the metainfo (`.torrent`) files
//! themselves, are bencoded. This module holds the bencode data structures,
//! their mathematical model (`BValue`), and the encoder; `decoder` holds the
//! decoder.
//!
//! A dictionary keeps its entries sorted by key (as raw byte strings), with no
//! key twice: the order in which bencode writes them.

use vstd::prelude::*;

use vstd::string::StringSliceAdditionalSpecFns;

use crate::decimal::{decimal, int_text, push_decimal, push_int};
use crate::keys::{bytes_eq, bytes_lt, lex_lt, lemma_lex_total, lemma_lex_transitive};

verus! {

/// The mathematical model of a bencode value.
pub enum BValue {
    Bytes(Seq<u8>),
    Int(i64),
    List(Seq<BValue>),
    Dict(Seq<(Seq<u8>, BValue)>),
}

/// Errors met while decoding bencode or reading a decoded value.
#[derive(Debug, PartialEq, Eq, Clone, Copy)]
pub enum BencodeError {
    /// The bytes are not a bencoded value.
    Malformed,
    /// A dictionary has no entry for the key asked for.
    MissingKey,
    /// A value is not of the kind asked for.
    WrongType,
    /// A byte string asked for as text is not UTF-8.
    InvalidUtf8,
}

/// A bencode value.
#[derive(Debug, PartialEq, Eq)]
pub enum BItem {
    String(Vec<u8>),
    Int(i64),
    List(Vec<BItem>),
    Dict(BDict),
}

/// A bencode dictionary: entries sorted by key, no key twice.
#[derive(Debug, PartialEq, Eq)]
pub struct BDict {
    entries: Vec<(Vec<u8>, BItem)>,
}

pub open spec fn item_view(b: BItem) -> BValue
    decreases b,
{
    match b {
        BItem::String(s) => BValue::Bytes(s@),
        BItem::Int(i) => BValue::Int(i),
        BItem::List(l) => BValue::List(list_view(l@)),
        BItem::Dict(d) => BValue::Dict(bdict_view(d)),
    }
}

pub open spec fn list_view(s: Seq<BItem>) -> Seq<BValue>
    decreases s,
{
    if s.len() == 0 {
        Seq::empty()
    } else {
        seq![item_view(s[0])] + list_view(s.subrange(1, s.len() as int))
    }
}

pub closed spec fn bdict_view(d: BDict) -> Seq<(Seq<u8>, BValue)>
    decreases d,
{
    dict_view(d.entries@)
}

pub open spec fn dict_view(s: Seq<(Vec<u8>, BItem)>) -> Seq<(Seq<u8>, BValue)>
    decreases s,
{
    if s.len() == 0 {
        Seq::empty()
    } else {
        seq![(s[0].0@, item_view(s[0].1))] + dict_view(s.subrange(1, s.len() as int))
    }
}

impl View for BItem {
    type V = BValue;

    open spec fn view(&self) -> BValue {
        item_view(*self)
    }
}

impl View for BDict {
    type V = Seq<(Seq<u8>, BValue)>;

    open spec fn view(&self) -> Seq<(Seq<u8>, BValue)> {
        bdict_view(*self)
    }
}

/// The model of a list of items has one value per item, in order.
pub proof fn lemma_list_view(s: Seq<BItem>)
    ensures
        list_view(s).len() == s.len(),
        forall|i: int| 0 <= i < s.len() ==> #[trigger] list_view(s)[i] == item_view(s[i]),
    decreases s.len(),
{
    if s.len() > 0 {
        let t = s.subrange(1, s.len() as int);
        lemma_list_view(t);
        assert forall|i: int| 0 <= i < s.len() implies #[trigger] list_view(s)[i] == item_view(s[i]) by {
            if i > 0 {
                assert(t[i - 1] == s[i]);
            }
        }
    }
}

/// The model of a sequence of entries has one entry per entry, in order.
pub proof fn lemma_dict_view(s: Seq<(Vec<u8>, BItem)>)
    ensures
        dict_view(s).len() == s.len(),
        forall|i: int| 0 <= i < s.len() ==> #[trigger] dict_view(s)[i] == (s[i].0@, item_view(s[i].1)),
    decreases s.len(),
{
    if s.len() > 0 {
        let t = s.subrange(1, s.len() as int);
        lemma_dict_view(t);
        assert forall|i: int| 0 <= i < s.len() implies #[trigger] dict_view(s)[i] == (s[i].0@, item_view(s[i].1)) by {
            if i > 0 {
                assert(t[i - 1] == s[i]);
            }
        }
    }
}

/// The keys of a dictionary model are strictly increasing.
pub open spec fn keys_sorted(d: Seq<(Seq<u8>, BValue)>) -> bool {
    forall|i: int, j: int| 0 <= i < j < d.len() ==> lex_lt(#[trigger] d[i].0, #[trigger] d[j].0)
}

/// The keys of a sequence of entries are strictly increasing.
pub open spec fn entries_sorted(e: Seq<(Vec<u8>, BItem)>) -> bool {
    forall|i: int, j: int| 0 <= i < j < e.len() ==> lex_lt(#[trigger] e[i].0@, #[trigger] e[j].0@)
}

/// Entries with strictly increasing keys have a model with strictly
/// increasing keys.
pub proof fn lemma_entries_sorted_view(e: Seq<(Vec<u8>, BItem)>)
    requires
        entries_sorted(e),
    ensures
        keys_sorted(dict_view(e)),
{
    lemma_dict_view(e);
    let d = dict_view(e);
    assert forall|i: int, j: int| 0 <= i < j < d.len() implies lex_lt(#[trigger] d[i].0, #[trigger] d[j].0) by {
        assert(d[i].0 == e[i].0@);
        assert(d[j].0 == e[j].0@);
    }
}

/// A value that the encoder and decoder carry over unchanged: byte strings
/// fit the length that a bencoded integer can hold, and dictionary keys are
/// strictly increasing.
pub open spec fn value_wf(v: BValue) -> bool
    decreases v,
{
    match v {
        BValue::Bytes(b) => b.len() <= i64::MAX,
        BValue::Int(_) => true,
        BValue::List(l) => forall|i: int| 0 <= i < l.len() ==> value_wf(#[trigger] l[i]),
        BValue::Dict(d) => {
            &&& keys_sorted(d)
            &&& forall|i: int| 0 <= i < d.len() ==> (#[trigger] d[i]).0.len() <= i64::MAX && value_wf(d[i].1)
        },
    }
}

/// Every dictionary in the value has strictly increasing keys, as every
/// `BDict` keeps them.
pub open spec fn dicts_sorted(v: BValue) -> bool
    decreases v,
{
    match v {
        BValue::List(l) => forall|i: int| 0 <= i < l.len() ==> dicts_sorted(#[trigger] l[i]),
        BValue::Dict(d) => {
            &&& keys_sorted(d)
            &&& forall|i: int| 0 <= i < d.len() ==> dicts_sorted((#[trigger] d[i]).1)
        },
        _ => true,
    }
}

/// Every byte string and key in the value is at most `i64::MAX` bytes long.
pub open spec fn lengths_fit(v: BValue) -> bool
    decreases v,
{
    match v {
        BValue::Bytes(b) => b.len() <= i64::MAX,
        BValue::Int(_) => true,
        BValue::List(l) => forall|i: int| 0 <= i < l.len() ==> lengths_fit(#[trigger] l[i]),
        BValue::Dict(d) => forall|i: int|
            0 <= i < d.len() ==> (#[trigger] d[i]).0.len() <= i64::MAX && lengths_fit(d[i].1),
    }
}

/// A value is well-formed exactly when its dictionaries are sorted and its
/// lengths fit.
pub proof fn lemma_value_wf_parts(v: BValue)
    ensures
        value_wf(v) == (dicts_sorted(v) && lengths_fit(v)),
    decreases v,
{
    match v {
        BValue::List(l) => {
            assert forall|i: int| 0 <= i < l.len() implies value_wf(#[trigger] l[i]) == (dicts_sorted(l[i])
                && lengths_fit(l[i])) by {
                lemma_value_wf_parts(l[i]);
            }
        },
        BValue::Dict(d) => {
            assert forall|i: int| 0 <= i < d.len() implies value_wf((#[trigger] d[i]).1) == (dicts_sorted(d[i].1)
                && lengths_fit(d[i].1)) by {
                lemma_value_wf_parts(d[i].1);
            }
        },
        _ => {},
    }
}

// ----- dictionary operations on the model -----

/// How many leading entries have a key sorting before `k`.
pub open spec fn insertion_index(d: Seq<(Seq<u8>, BValue)>, k: Seq<u8>) -> int
    decreases d.len(),
{
    if d.len() == 0 {
        0
    } else if lex_lt(d[0].0, k) {
        1 + insertion_index(d.drop_first(), k)
    } else {
        0
    }
}

/// The dictionary `d` after `k` is bound to `v`: an entry with key `k` gets the
/// new value, otherwise a new entry goes where its key sorts.
pub open spec fn dict_insert(d: Seq<(Seq<u8>, BValue)>, k: Seq<u8>, v: BValue) -> Seq<(Seq<u8>, BValue)> {
    let i = insertion_index(d, k);
    if i < d.len() && d[i].0 == k {
        d.update(i, (k, v))
    } else {
        d.insert(i, (k, v))
    }
}

/// The position of the first entry with key `k`, or the length when none has it.
pub open spec fn key_index(d: Seq<(Seq<u8>, BValue)>, k: Seq<u8>) -> int
    decreases d.len(),
{
    if d.len() == 0 {
        0
    } else if d[0].0 == k {
        0
    } else {
        1 + key_index(d.drop_first(), k)
    }
}

/// Binding each pair in turn, later pairs winning over earlier ones.
pub open spec fn insert_all(d: Seq<(Seq<u8>, BValue)>, ps: Seq<(Seq<u8>, BValue)>) -> Seq<(Seq<u8>, BValue)>
    decreases ps.len(),
{
    if ps.len() == 0 {
        d
    } else {
        insert_all(dict_insert(d, ps[0].0, ps[0].1), ps.drop_first())
    }
}

pub proof fn lemma_insertion_index(d: Seq<(Seq<u8>, BValue)>, k: Seq<u8>)
    ensures
        0 <= insertion_index(d, k) <= d.len(),
        forall|j: int| 0 <= j < insertion_index(d, k) ==> lex_lt(#[trigger] d[j].0, k),
        insertion_index(d, k) < d.len() ==> !lex_lt(d[insertion_index(d, k)].0, k),
    decreases d.len(),
{
    if d.len() > 0 && lex_lt(d[0].0, k) {
        let t = d.drop_first();
        lemma_insertion_index(t, k);
        assert forall|j: int| 0 <= j < insertion_index(d, k) implies lex_lt(#[trigger] d[j].0, k) by {
            if j > 0 {
                assert(t[j - 1] == d[j]);
            }
        }
    }
}

/// Scanning characterization of the insertion index.
pub proof fn lemma_insertion_index_at(d: Seq<(Seq<u8>, BValue)>, k: Seq<u8>, i: int)
    requires
        0 <= i <= d.len(),
        forall|j: int| 0 <= j < i ==> lex_lt(#[trigger] d[j].0, k),
        i < d.len() ==> !lex_lt(d[i].0, k),
    ensures
        insertion_index(d, k) == i,
    decreases i,
{
    if i > 0 {
        let t = d.drop_first();
        assert forall|j: int| 0 <= j < i - 1 implies lex_lt(#[trigger] t[j].0, k) by {
            assert(t[j] == d[j + 1]);
        }
        lemma_insertion_index_at(t, k, i - 1);
    }
}

/// Scanning characterization of the key index.
pub proof fn lemma_key_index_at(d: Seq<(Seq<u8>, BValue)>, k: Seq<u8>, i: int)
    requires
        0 <= i <= d.len(),
        forall|j: int| 0 <= j < i ==> #[trigger] d[j].0 != k,
        i < d.len() ==> d[i].0 == k,
    ensures
        key_index(d, k) == i,
    decreases i,
{
    if i > 0 {
        let t = d.drop_first();
        assert forall|j: int| 0 <= j < i - 1 implies #[trigger] t[j].0 != k by {
            assert(t[j] == d[j + 1]);
        }
        lemma_key_index_at(t, k, i - 1);
    }
}

pub proof fn lemma_key_index(d: Seq<(Seq<u8>, BValue)>, k: Seq<u8>)
    ensures
        0 <= key_index(d, k) <= d.len(),
        forall|j: int| 0 <= j < key_index(d, k) ==> #[trigger] d[j].0 != k,
        key_index(d, k) < d.len() ==> d[key_index(d, k)].0 == k,
    decreases d.len(),
{
    if d.len() > 0 && d[0].0 != k {
        let t = d.drop_first();
        lemma_key_index(t, k);
        assert forall|j: int| 0 <= j < key_index(d, k) implies #[trigger] d[j].0 != k by {
            if j > 0 {
                assert(t[j - 1] == d[j]);
            }
        }
    }
}

/// Binding a key keeps the keys strictly increasing.
pub proof fn lemma_dict_insert_sorted(d: Seq<(Seq<u8>, BValue)>, k: Seq<u8>, v: BValue)
    requires
        keys_sorted(d),
    ensures
        keys_sorted(dict_insert(d, k, v)),
{
    lemma_insertion_index(d, k);
    let i = insertion_index(d, k);
    let r = dict_insert(d, k, v);
    if i < d.len() && d[i].0 == k {
        assert forall|a: int, b: int| 0 <= a < b < r.len() implies lex_lt(#[trigger] r[a].0, #[trigger] r[b].0) by {
            assert(r[a].0 == d[a].0);
            assert(r[b].0 == d[b].0);
        }
    } else {
        if i < d.len() {
            lemma_lex_total(k, d[i].0);
        }
        assert forall|b: int| i <= b < d.len() implies lex_lt(k, #[trigger] d[b].0) by {
            if b > i {
                lemma_lex_transitive(k, d[i].0, d[b].0);
            }
        }
        assert forall|a: int, b: int| 0 <= a < b < r.len() implies lex_lt(#[trigger] r[a].0, #[trigger] r[b].0) by {
            if b < i {
                assert(r[a] == d[a] && r[b] == d[b]);
            } else if b == i {
                assert(r[a] == d[a]);
            } else if a < i {
                assert(r[a] == d[a] && r[b] == d[b - 1]);
                lemma_lex_transitive(d[a].0, k, d[b - 1].0);
            } else if a == i {
                assert(r[b] == d[b - 1]);
            } else {
                assert(r[a] == d[a - 1] && r[b] == d[b - 1]);
            }
        }
    }
}

/// Binding a key that sorts after every key present appends an entry.
pub proof fn lemma_dict_insert_last(d: Seq<(Seq<u8>, BValue)>, k: Seq<u8>, v: BValue)
    requires
        forall|j: int| 0 <= j < d.len() ==> lex_lt(#[trigger] d[j].0, k),
    ensures
        dict_insert(d, k, v) == d.push((k, v)),
{
    lemma_insertion_index_at(d, k, d.len() as int);
    assert(d.insert(d.len() as int, (k, v)) =~= d.push((k, v)));
}

// ----- the dictionary -----

impl BDict {
    #[verifier::type_invariant]
    spec fn inv(self) -> bool {
        entries_sorted(self.entries@)
    }

    /// An empty dictionary.
    pub fn new() -> (d: BDict)
        ensures
            d@ == Seq::<(Seq<u8>, BValue)>::empty(),
    {
        let d = BDict { entries: Vec::new() };
        proof {
            reveal(bdict_view);
            assert(dict_view(d.entries@) =~= Seq::<(Seq<u8>, BValue)>::empty());
        }
        d
    }

    /// The number of entries.
    pub fn len(&self) -> (n: usize)
        ensures
            n == self@.len(),
    {
        proof {
            reveal(bdict_view);
            lemma_dict_view(self.entries@);
        }
        self.entries.len()
    }

    /// The entries, sorted by key.
    pub fn entries(&self) -> (e: &Vec<(Vec<u8>, BItem)>)
        ensures
            dict_view(e@) == self@,
            entries_sorted(e@),
            keys_sorted(self@),
    {
        proof {
            reveal(bdict_view);
            use_type_invariant(self);
            lemma_entries_sorted_view(self.entries@);
        }
        &self.entries
    }

    /// Binds `key` to `value`, replacing the value of an entry with that key.
    pub fn insert(&mut self, key: Vec<u8>, value: BItem)
        ensures
            final(self)@ == dict_insert(old(self)@, key@, value@),
            keys_sorted(final(self)@),
    {
        proof {
            use_type_invariant(&*self);
            reveal(bdict_view);
            lemma_dict_view(self.entries@);
        }
        let ghost e = self.entries@;
        let ghost d = dict_view(e);
        let mut i: usize = 0;
        while i < self.entries.len() && bytes_lt(self.entries[i].0.as_slice(), key.as_slice())
            invariant
                self.entries@ == e,
                d == dict_view(e),
                d.len() == e.len(),
                forall|j: int| 0 <= j < e.len() ==> #[trigger] d[j] == (e[j].0@, item_view(e[j].1)),
                entries_sorted(e),
                i <= e.len(),
                forall|j: int| 0 <= j < i ==> lex_lt(#[trigger] d[j].0, key@),
            decreases e.len() - i,
        {
            i = i + 1;
        }
        proof {
            lemma_insertion_index_at(d, key@, i as int);
        }
        let ghost kv = key@;
        let ghost vv = value@;
        if i < self.entries.len() && bytes_eq(self.entries[i].0.as_slice(), key.as_slice()) {
            let ghost ne = e.update(i as int, (key, value));
            proof {
                assert forall|a: int, b: int| 0 <= a < b < ne.len() implies lex_lt(#[trigger] ne[a].0@, #[trigger] ne[b].0@) by {
                    assert(ne[a].0@ == e[a].0@);
                    assert(ne[b].0@ == e[b].0@);
                }
            }
            let mut taken: Vec<(Vec<u8>, BItem)> = Vec::new();
            std::mem::swap(&mut taken, &mut self.entries);
            taken.set(i, (key, value));
            self.entries = taken;
            proof {
                lemma_entries_sorted_view(self.entries@);
                lemma_dict_view(self.entries@);
                assert(dict_view(self.entries@) =~= d.update(i as int, (kv, vv)));
            }
        } else {
            let ghost ne = e.insert(i as int, (key, value));
            proof {
                lemma_dict_insert_sorted(d, kv, vv);
                let r = dict_insert(d, kv, vv);
                assert(r == d.insert(i as int, (kv, vv)));
                assert forall|a: int, b: int| 0 <= a < b < ne.len() implies lex_lt(#[trigger] ne[a].0@, #[trigger] ne[b].0@) by {
                    assert(ne[a].0@ == r[a].0);
                    assert(ne[b].0@ == r[b].0);
                }
            }
            let mut taken: Vec<(Vec<u8>, BItem)> = Vec::new();
            std::mem::swap(&mut taken, &mut self.entries);
            taken.insert(i, (key, value));
            self.entries = taken;
            proof {
                lemma_entries_sorted_view(self.entries@);
                lemma_dict_view(self.entries@);
                assert(dict_view(self.entries@) =~= d.insert(i as int, (kv, vv)));
            }
        }
    }

    /// Takes the entry for `key` out of the dictionary and returns its value;
    /// fails with `MissingKey` when there is none.
    pub fn remove(&mut self, key: &str) -> (r: Result<BItem, BencodeError>)
        ensures
            ({
                let k = key.spec_bytes();
                let i = key_index(old(self)@, k);
                if i < old(self)@.len() {
                    &&& r matches Ok(x)
                    &&& x@ == old(self)@[i].1
                    &&& final(self)@ == old(self)@.remove(i)
                } else {
                    &&& r == Err::<BItem, BencodeError>(BencodeError::MissingKey)
                    &&& final(self)@ == old(self)@
                }
            }),
            keys_sorted(final(self)@),
    {
        proof {
            use_type_invariant(&*self);
            reveal(bdict_view);
            lemma_dict_view(self.entries@);
        }
        let kb = key.as_bytes();
        let ghost e = self.entries@;
        let ghost d = dict_view(e);
        let mut i: usize = 0;
        while i < self.entries.len() && !bytes_eq(self.entries[i].0.as_slice(), kb)
            invariant
                self.entries@ == e,
                d == dict_view(e),
                d.len() == e.len(),
                forall|j: int| 0 <= j < e.len() ==> #[trigger] d[j] == (e[j].0@, item_view(e[j].1)),
                i <= e.len(),
                forall|j: int| 0 <= j < i ==> #[trigger] d[j].0 != kb@,
            decreases e.len() - i,
        {
            i = i + 1;
        }
        proof {
            lemma_key_index_at(d, kb@, i as int);
        }
        if i < self.entries.len() {
            let ghost ne = e.remove(i as int);
            proof {
                assert forall|a: int, b: int| 0 <= a < b < ne.len() implies lex_lt(#[trigger] ne[a].0@, #[trigger] ne[b].0@) by {
                    if a < i as int {
                        assert(ne[a] == e[a]);
                    } else {
                        assert(ne[a] == e[a + 1]);
                    }
                    if b < i as int {
                        assert(ne[b] == e[b]);
                    } else {
                        assert(ne[b] == e[b + 1]);
                    }
                }
            }
            let mut taken: Vec<(Vec<u8>, BItem)> = Vec::new();
            std::mem::swap(&mut taken, &mut self.entries);
            let (_, item) = taken.remove(i);
            self.entries = taken;
            proof {
                lemma_entries_sorted_view(self.entries@);
                lemma_dict_view(self.entries@);
                assert(dict_view(self.entries@) =~= d.remove(i as int));
            }
            Ok(item)
        } else {
            proof {
                lemma_entries_sorted_view(self.entries@);
            }
            Err(BencodeError::MissingKey)
        }
    }

    /// A dictionary binding each key of `pairs` in turn; a later pair with the
    /// same key replaces an earlier one.
    pub fn from_pairs(pairs: Vec<(Vec<u8>, BItem)>) -> (d: BDict)
        ensures
            d@ == insert_all(Seq::empty(), dict_view(pairs@)),
            keys_sorted(d@),
    {
        let mut pairs = pairs;
        let mut d = BDict::new();
        let ghost orig = dict_view(pairs@);
        while pairs.len() > 0
            invariant
                insert_all(d@, dict_view(pairs@)) == insert_all(Seq::empty(), orig),
                keys_sorted(d@),
            decreases pairs@.len(),
        {
            proof {
                lemma_dict_view(pairs@);
                lemma_dict_view(pairs@.subrange(1, pairs@.len() as int));
                assert(dict_view(pairs@).drop_first() =~= dict_view(pairs@.subrange(1, pairs@.len() as int)));
            }
            let ghost before = pairs@;
            let (k, v) = pairs.remove(0);
            d.insert(k, v);
            proof {
                assert(pairs@ =~= before.subrange(1, before.len() as int));
            }
        }
        proof {
            assert(dict_view(pairs@) =~= Seq::<(Seq<u8>, BValue)>::empty());
        }
        d
    }
}

// ----- reading values -----

impl BItem {
    /// The items of a list; `WrongType` for any other value.
    pub fn into_list(self) -> (r: Result<Vec<BItem>, BencodeError>)
        ensures
            match self {
                BItem::List(l) => r == Ok::<Vec<BItem>, BencodeError>(l),
                _ => r == Err::<Vec<BItem>, BencodeError>(BencodeError::WrongType),
            },
    {
        match self {
            BItem::List(l) => Ok(l),
            _ => Err(BencodeError::WrongType),
        }
    }

    /// The value of an integer; `WrongType` for any other value.
    pub fn into_int(self) -> (r: Result<i64, BencodeError>)
        ensures
            match self {
                BItem::Int(i) => r == Ok::<i64, BencodeError>(i),
                _ => r == Err::<i64, BencodeError>(BencodeError::WrongType),
            },
    {
        match self {
            BItem::Int(i) => Ok(i),
            _ => Err(BencodeError::WrongType),
        }
    }

    /// The dictionary of a dictionary value; `WrongType` for any other value.
    pub fn into_dict(self) -> (r: Result<BDict, BencodeError>)
        ensures
            match self {
                BItem::Dict(d) => r == Ok::<BDict, BencodeError>(d),
                _ => r == Err::<BDict, BencodeError>(BencodeError::WrongType),
            },
    {
        match self {
            BItem::Dict(d) => Ok(d),
            _ => Err(BencodeError::WrongType),
        }
    }

    /// The bytes of a byte string; `WrongType` for any other value.
    pub fn into_bytes(self) -> (r: Result<Vec<u8>, BencodeError>)
        ensures
            match self {
                BItem::String(s) => r == Ok::<Vec<u8>, BencodeError>(s),
                _ => r == Err::<Vec<u8>, BencodeError>(BencodeError::WrongType),
            },
    {
        match self {
            BItem::String(s) => Ok(s),
            _ => Err(BencodeError::WrongType),
        }
    }
}


// ----- encoding -----

/// The bencoding of a value: `<len>:<bytes>`, `i<n>e`, `l<items>e`,
/// `d<key value pairs>e`.
pub open spec fn encode(v: BValue) -> Seq<u8>
    decreases v,
{
    match v {
        BValue::Bytes(b) => decimal(b.len()) + seq![58u8] + b,
        BValue::Int(i) => seq![105u8] + int_text(i as int) + seq![101u8],
        BValue::List(l) => seq![108u8] + encode_list(l) + seq![101u8],
        BValue::Dict(d) => seq![100u8] + encode_dict(d) + seq![101u8],
    }
}

/// The items of a list, encoded one after the other.
pub open spec fn encode_list(l: Seq<BValue>) -> Seq<u8>
    decreases l,
{
    if l.len() == 0 {
        Seq::empty()
    } else {
        encode(l[0]) + encode_list(l.subrange(1, l.len() as int))
    }
}

/// The entries of a dictionary, each key (as a byte string) followed by its
/// value, in the order of the entries.
pub open spec fn encode_dict(d: Seq<(Seq<u8>, BValue)>) -> Seq<u8>
    decreases d,
{
    if d.len() == 0 {
        Seq::empty()
    } else {
        decimal(d[0].0.len()) + seq![58u8] + d[0].0 + encode(d[0].1) + encode_dict(d.subrange(1, d.len() as int))
    }
}

pub proof fn lemma_encode_list_push(l: Seq<BValue>, x: BValue)
    ensures
        encode_list(l.push(x)) == encode_list(l) + encode(x),
    decreases l.len(),
{
    let lx = l.push(x);
    if l.len() == 0 {
        assert(lx.subrange(1, lx.len() as int) =~= Seq::<BValue>::empty());
        assert(encode_list(lx.subrange(1, lx.len() as int)) == Seq::<u8>::empty());
        assert(lx[0] == x);
        assert(encode_list(lx) =~= encode(x));
    } else {
        let t = l.subrange(1, l.len() as int);
        lemma_encode_list_push(t, x);
        assert(lx.subrange(1, lx.len() as int) =~= t.push(x));
        assert(encode_list(lx) =~= encode_list(l) + encode(x));
    }
}

pub proof fn lemma_encode_dict_push(d: Seq<(Seq<u8>, BValue)>, e: (Seq<u8>, BValue))
    ensures
        encode_dict(d.push(e)) == encode_dict(d) + (decimal(e.0.len()) + seq![58u8] + e.0 + encode(e.1)),
    decreases d.len(),
{
    let de = d.push(e);
    if d.len() == 0 {
        assert(de.subrange(1, de.len() as int) =~= Seq::<(Seq<u8>, BValue)>::empty());
        assert(encode_dict(de.subrange(1, de.len() as int)) == Seq::<u8>::empty());
        assert(de[0] == e);
        assert(encode_dict(de) =~= decimal(e.0.len()) + seq![58u8] + e.0 + encode(e.1));
    } else {
        let t = d.subrange(1, d.len() as int);
        lemma_encode_dict_push(t, e);
        assert(de.subrange(1, de.len() as int) =~= t.push(e));
        assert(encode_dict(de) =~= encode_dict(d) + (decimal(e.0.len()) + seq![58u8] + e.0 + encode(e.1)));
    }
}

/// Appends `bytes` to `out`.
fn push_bytes(out: &mut Vec<u8>, bytes: &[u8])
    ensures
        final(out)@ == old(out)@ + bytes@,
{
    let mut i: usize = 0;
    while i < bytes.len()
        invariant
            i <= bytes@.len(),
            out@ == old(out)@ + bytes@.subrange(0, i as int),
        decreases bytes@.len() - i,
    {
        out.push(bytes[i]);
        i = i + 1;
        assert(out@ =~= old(out)@ + bytes@.subrange(0, i as int));
    }
    assert(bytes@.subrange(0, bytes@.len() as int) =~= bytes@);
}

impl BItem {
    /// The bencoding of this value. Dictionary entries are written in the
    /// order of their keys.
    pub fn seri_decons(&self) -> (r: Vec<u8>)
        ensures
            r@ == encode(self@),
            dicts_sorted(self@),
        decreases self,
    {
        let mut res: Vec<u8> = Vec::new();
        match self {
            BItem::String(s) => {
                push_decimal(&mut res, s.len() as u64);
                res.push(58u8);
                push_bytes(&mut res, s.as_slice());
                assert(res@ =~= encode(self@));
            },
            BItem::Int(i) => {
                res.push(105u8);
                push_int(&mut res, *i);
                res.push(101u8);
                assert(res@ =~= encode(self@));
            },
            BItem::List(l) => {
                res.push(108u8);
                proof {
                    lemma_list_view(l@);
                }
                let ghost lv = list_view(l@);
                let mut i: usize = 0;
                while i < l.len()
                    invariant
                        i <= l@.len(),
                        lv == list_view(l@),
                        lv.len() == l@.len(),
                        forall|j: int| 0 <= j < l@.len() ==> #[trigger] lv[j] == item_view(l@[j]),
                        res@ == seq![108u8] + encode_list(lv.subrange(0, i as int)),
                        *self == BItem::List(*l),
                        forall|j: int| 0 <= j < i ==> dicts_sorted(#[trigger] lv[j]),
                    decreases l@.len() - i,
                {
                    proof {
                        assert(*self == BItem::List(*l));
                        assert(decreases_to!(*self => (*self)->List_0));
                        assert(decreases_to!(*l => l@));
                        assert(decreases_to!(l@ => l@[i as int]));
                        assert(decreases_to!(*self => l@[i as int]));
                    }
                    let mut sub = l[i].seri_decons();
                    proof {
                        lemma_encode_list_push(lv.subrange(0, i as int), lv[i as int]);
                        assert(lv.subrange(0, i + 1) =~= lv.subrange(0, i as int).push(lv[i as int]));
                    }
                    res.append(&mut sub);
                    i = i + 1;
                    assert(res@ =~= seq![108u8] + encode_list(lv.subrange(0, i as int)));
                }
                res.push(101u8);
                assert(lv.subrange(0, lv.len() as int) =~= lv);
                assert(res@ =~= encode(self@));
            },
            BItem::Dict(d) => {
                res.push(100u8);
                let es = &d.entries;
                proof {
                    use_type_invariant(d);
                    lemma_entries_sorted_view(d.entries@);
                }
                proof {
                    lemma_dict_view(es@);
                }
                let ghost dv = dict_view(es@);
                let mut i: usize = 0;
                while i < es.len()
                    invariant
                        i <= es@.len(),
                        dv == dict_view(es@),
                        dv.len() == es@.len(),
                        forall|j: int| 0 <= j < es@.len() ==> #[trigger] dv[j] == (es@[j].0@, item_view(es@[j].1)),
                        res@ == seq![100u8] + encode_dict(dv.subrange(0, i as int)),
                        es@ == d.entries@,
                        *self == BItem::Dict(*d),
                        forall|j: int| 0 <= j < i ==> dicts_sorted((#[trigger] dv[j]).1),
                    decreases es@.len() - i,
                {
                    let ghost before = res@;
                    let key = &es[i].0;
                    push_decimal(&mut res, key.len() as u64);
                    res.push(58u8);
                    push_bytes(&mut res, key.as_slice());
                    proof {
                        assert(*self == BItem::Dict(*d));
                        assert(decreases_to!(*self => (*self)->Dict_0));
                        assert(decreases_to!(*d => d.entries));
                        assert(decreases_to!(d.entries => d.entries@));
                        assert(decreases_to!(d.entries@ => d.entries@[i as int]));
                        assert(decreases_to!(d.entries@[i as int] => d.entries@[i as int].1));
                        assert(decreases_to!(*self => es@[i as int].1));
                    }
                    let mut sub = es[i].1.seri_decons();
                    res.append(&mut sub);
                    proof {
                        lemma_encode_dict_push(dv.subrange(0, i as int), dv[i as int]);
                        assert(dv.subrange(0, i + 1) =~= dv.subrange(0, i as int).push(dv[i as int]));
                    }
                    i = i + 1;
                    assert(res@ =~= seq![100u8] + encode_dict(dv.subrange(0, i as int)));
                }
                res.push(101u8);
                assert(dv.subrange(0, dv.len() as int) =~= dv);
                assert(res@ =~= encode(self@));
            },
        }
        res
    }
}

// ----- copying values -----

/// A copy of `b`, with the same model.
fn clone_item(b: &BItem) -> (r: BItem)
    ensures
        r@ == b@,
    decreases b, 1nat,
{
    match b {
        BItem::String(s) => BItem::String(s.clone()),
        BItem::Int(i) => BItem::Int(*i),
        BItem::List(l) => {
            proof {
                lemma_list_view(l@);
            }
            let mut out: Vec<BItem> = Vec::new();
            let mut i: usize = 0;
            while i < l.len()
                invariant
                    i <= l@.len(),
                    out@.len() == i,
                    forall|j: int| 0 <= j < i ==> (#[trigger] out@[j])@ == l@[j]@,
                    *b == BItem::List(*l),
                decreases l@.len() - i,
            {
                proof {
                    assert(decreases_to!(*b => (*b)->List_0));
                    assert(decreases_to!(*l => l@));
                    assert(decreases_to!(l@ => l@[i as int]));
                }
                let c = clone_item(&l[i]);
                out.push(c);
                i = i + 1;
            }
            proof {
                lemma_list_view(out@);
                assert(list_view(out@) =~= list_view(l@));
            }
            BItem::List(out)
        },
        BItem::Dict(d) => {
            proof {
                assert(decreases_to!(*b => (*b)->Dict_0));
            }
            BItem::Dict(clone_dict(d))
        },
    }
}

/// A copy of `d`, with the same model.
fn clone_dict(d: &BDict) -> (r: BDict)
    ensures
        r@ == d@,
    decreases d, 0nat,
{
    proof {
        use_type_invariant(d);
        reveal(bdict_view);
        lemma_dict_view(d.entries@);
    }
    let es = &d.entries;
    let mut out: Vec<(Vec<u8>, BItem)> = Vec::new();
    let mut i: usize = 0;
    while i < es.len()
        invariant
            es@ == d.entries@,
            i <= es@.len(),
            out@.len() == i,
            forall|j: int| 0 <= j < i ==> (#[trigger] out@[j]).0@ == es@[j].0@ && out@[j].1@ == es@[j].1@,
        decreases es@.len() - i,
    {
        proof {
            assert(decreases_to!(*d => d.entries));
            assert(decreases_to!(d.entries => d.entries@));
            assert(decreases_to!(d.entries@ => d.entries@[i as int]));
            assert(decreases_to!(d.entries@[i as int] => d.entries@[i as int].1));
        }
        let k = es[i].0.clone();
        let v = clone_item(&es[i].1);
        out.push((k, v));
        i = i + 1;
    }
    proof {
        assert forall|a: int, c: int| 0 <= a < c < out@.len() implies lex_lt(#[trigger] out@[a].0@, #[trigger] out@[c].0@) by {
            assert(out@[a].0@ == es@[a].0@);
            assert(out@[c].0@ == es@[c].0@);
        }
        lemma_dict_view(out@);
    }
    let r = BDict { entries: out };
    proof {
        assert(dict_view(r.entries@) =~= dict_view(d.entries@));
    }
    r
}

impl Clone for BItem {
    /// A copy of this value, with the same model.
    fn clone(&self) -> (r: Self)
        ensures
            r@ == self@,
    {
        clone_item(self)
    }
}

impl Clone for BDict {
    /// A copy of this dictionary, with the same model.
    fn clone(&self) -> (r: Self)
        ensures
            r@ == self@,
    {
        clone_dict(self)
    }
}

} // verus!
