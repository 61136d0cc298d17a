//! The bencode decoder.
//!
//! `parse_item` is the mathematical statement of what the decoder reads at a
//! position of a byte string: the value and the position just after it, or
//! nothing when the bytes there are not a bencoded value. `Decoder` reads
//! exactly that.

use vstd::prelude::*;

use crate::bencode::{BDict, BItem, BValue, BencodeError, dict_insert, list_view, lemma_list_view};

verus! {

/// An ASCII decimal digit.
pub open spec fn is_digit(b: u8) -> bool {
    48 <= b <= 57
}

/// Reads decimal digits from `pos` up to the byte `end`, accumulating onto
/// `acc`: the number and the position after `end`. Nothing when a byte other
/// than a digit comes first, or the input ends.
pub open spec fn parse_digits(s: Seq<u8>, pos: int, end: u8, acc: int) -> Option<(int, int)>
    decreases s.len() - pos,
{
    if pos < 0 || pos >= s.len() {
        None
    } else if s[pos] == end {
        Some((acc, pos + 1))
    } else if !is_digit(s[pos]) {
        None
    } else {
        parse_digits(s, pos + 1, end, acc * 10 + (s[pos] - 48))
    }
}

/// A run of digits ended by `end`, whose value fits an `i64`.
pub open spec fn parse_int_at(s: Seq<u8>, pos: int, end: u8) -> Option<(i64, int)> {
    match parse_digits(s, pos, end, 0) {
        Some((v, p)) => if v <= i64::MAX {
            Some((v as i64, p))
        } else {
            None
        },
        None => None,
    }
}

/// The integer of `i...e` from `pos` (just after the `i`) up to the `e`:
/// digits, or a minus sign and digits; its value must fit an `i64`.
pub open spec fn parse_signed_at(s: Seq<u8>, pos: int) -> Option<(i64, int)> {
    if 0 <= pos < s.len() && s[pos] == 45u8 {
        match parse_digits(s, pos + 1, 101u8, 0) {
            Some((v, p)) => if v <= i64::MAX + 1 {
                Some(((-v) as i64, p))
            } else {
                None
            },
            None => None,
        }
    } else {
        parse_int_at(s, pos, 101u8)
    }
}

/// A byte string `<len>:<bytes>` at `pos`.
pub open spec fn parse_bytes(s: Seq<u8>, pos: int) -> Option<(Seq<u8>, int)> {
    match parse_int_at(s, pos, 58u8) {
        Some((n, p)) => if p + n <= s.len() {
            Some((s.subrange(p, p + n), p + n))
        } else {
            None
        },
        None => None,
    }
}

/// The value at `pos` and the position just after it.
pub open spec fn parse_item(s: Seq<u8>, pos: int) -> Option<(BValue, int)>
    decreases s.len() - pos, 0nat,
{
    if pos < 0 || pos >= s.len() {
        None
    } else if s[pos] == 105u8 {
        match parse_signed_at(s, pos + 1) {
            Some((i, p)) => Some((BValue::Int(i), p)),
            None => None,
        }
    } else if s[pos] == 108u8 {
        parse_list(s, pos + 1, Seq::empty())
    } else if s[pos] == 100u8 {
        parse_dict(s, pos + 1, Seq::empty())
    } else {
        match parse_bytes(s, pos) {
            Some((b, p)) => Some((BValue::Bytes(b), p)),
            None => None,
        }
    }
}

/// The rest of a list from `pos`, after the items `acc` already read.
pub open spec fn parse_list(s: Seq<u8>, pos: int, acc: Seq<BValue>) -> Option<(BValue, int)>
    decreases s.len() - pos, 1nat,
{
    if pos < 0 || pos >= s.len() {
        None
    } else if s[pos] == 101u8 {
        Some((BValue::List(acc), pos + 1))
    } else {
        match parse_item(s, pos) {
            Some((v, p)) => if pos < p <= s.len() {
                parse_list(s, p, acc.push(v))
            } else {
                None
            },
            None => None,
        }
    }
}

/// The rest of a dictionary from `pos`, after the entries `acc` already read.
pub open spec fn parse_dict(s: Seq<u8>, pos: int, acc: Seq<(Seq<u8>, BValue)>) -> Option<(BValue, int)>
    decreases s.len() - pos, 1nat,
{
    if pos < 0 || pos >= s.len() {
        None
    } else if s[pos] == 101u8 {
        Some((BValue::Dict(acc), pos + 1))
    } else {
        match parse_bytes(s, pos) {
            Some((k, p1)) => if pos < p1 <= s.len() {
                match parse_item(s, p1) {
                    Some((v, p2)) => if p1 < p2 <= s.len() {
                        parse_dict(s, p2, dict_insert(acc, k, v))
                    } else {
                        None
                    },
                    None => None,
                }
            } else {
                None
            },
            None => None,
        }
    }
}

/// Reading digits never yields less than what was accumulated.
pub proof fn lemma_parse_digits_monotone(s: Seq<u8>, pos: int, end: u8, acc: int)
    requires
        acc >= 0,
    ensures
        parse_digits(s, pos, end, acc) matches Some((v, p)) ==> v >= acc && pos < p <= s.len(),
    decreases s.len() - pos,
{
    if 0 <= pos < s.len() && s[pos] != end && is_digit(s[pos]) {
        lemma_parse_digits_monotone(s, pos + 1, end, acc * 10 + (s[pos] - 48));
    }
}

/// A reader of one bencoded value out of a byte slice.
pub struct Decoder<'a> {
    raw: &'a [u8],
    ptr: usize,
}

impl<'a> Decoder<'a> {
    #[verifier::type_invariant]
    spec fn inv(self) -> bool {
        self.ptr <= self.raw@.len()
    }

    /// The bytes being read.
    pub closed spec fn bytes(self) -> Seq<u8> {
        self.raw@
    }

    /// The position of the next byte to read (never past the end).
    pub closed spec fn pos(self) -> int {
        if self.ptr <= self.raw@.len() {
            self.ptr as int
        } else {
            self.raw@.len() as int
        }
    }

    /// The position lies within the bytes, or just after them.
    pub proof fn lemma_pos_bounds(self)
        ensures
            0 <= self.pos() <= self.bytes().len(),
    {
    }

    /// A decoder at the start of `raw`.
    pub fn new(raw: &'a [u8]) -> (d: Decoder<'a>)
        ensures
            d.bytes() == raw@,
            d.pos() == 0,
    {
        Decoder { raw, ptr: 0 }
    }

    /// Reads the value at the current position and moves past it.
    pub fn decode(&mut self) -> (r: Result<BItem, BencodeError>)
        ensures
            old(self).pos() <= final(self).pos() <= final(self).bytes().len(),
            final(self).bytes() == old(self).bytes(),
            match parse_item(old(self).bytes(), old(self).pos()) {
                Some((v, p)) => {
                    &&& r matches Ok(x)
                    &&& x@ == v
                    &&& final(self).pos() == p
                },
                None => r == Err::<BItem, BencodeError>(BencodeError::Malformed),
            },
            r is Ok ==> old(self).pos() < final(self).pos() <= final(self).bytes().len(),
        decreases old(self).bytes().len() - old(self).pos(), 1nat,
    {
        proof {
            use_type_invariant(&*self);
        }
        let b = self.validate_peek()?;
        if b == 105u8 {
            self.deseri_int()
        } else if b == 108u8 {
            self.deseri_list()
        } else if b == 100u8 {
            self.deseri_dict()
        } else {
            self.deseri_string()
        }
    }

    /// The byte at the current position, if any.
    fn peek(&self) -> (r: Option<u8>)
        ensures
            r == if self.pos() < self.bytes().len() {
                Some(self.bytes()[self.pos()])
            } else {
                None::<u8>
            },
    {
        proof {
            use_type_invariant(self);
        }
        if self.ptr < self.raw.len() {
            Some(self.raw[self.ptr])
        } else {
            None
        }
    }

    /// The byte at the current position; `Malformed` at the end of the input.
    fn validate_peek(&self) -> (r: Result<u8, BencodeError>)
        ensures
            r == if self.pos() < self.bytes().len() {
                Ok::<u8, BencodeError>(self.bytes()[self.pos()])
            } else {
                Err::<u8, BencodeError>(BencodeError::Malformed)
            },
    {
        match self.peek() {
            Some(b) => Ok(b),
            None => Err(BencodeError::Malformed),
        }
    }

    /// Takes the byte at the current position, if any.
    fn pop(&mut self) -> (r: Option<u8>)
        ensures
            old(self).pos() <= final(self).pos() <= final(self).bytes().len(),
            final(self).bytes() == old(self).bytes(),
            r == if old(self).pos() < old(self).bytes().len() {
                Some(old(self).bytes()[old(self).pos()])
            } else {
                None::<u8>
            },
            final(self).pos() == if r is Some { old(self).pos() + 1 } else { old(self).pos() },
    {
        proof {
            use_type_invariant(&*self);
        }
        if self.ptr < self.raw.len() {
            let b = self.raw[self.ptr];
            self.ptr = self.ptr + 1;
            Some(b)
        } else {
            None
        }
    }

    /// Takes the byte at the current position; `Malformed` at the end of the input.
    fn validate_pop(&mut self) -> (r: Result<u8, BencodeError>)
        ensures
            old(self).pos() <= final(self).pos() <= final(self).bytes().len(),
            final(self).bytes() == old(self).bytes(),
            r == if old(self).pos() < old(self).bytes().len() {
                Ok::<u8, BencodeError>(old(self).bytes()[old(self).pos()])
            } else {
                Err::<u8, BencodeError>(BencodeError::Malformed)
            },
            final(self).pos() == if r is Ok { old(self).pos() + 1 } else { old(self).pos() },
    {
        match self.pop() {
            Some(b) => Ok(b),
            None => Err(BencodeError::Malformed),
        }
    }

    /// Steps over the byte at the current position.
    fn move_ptr(&mut self)
        requires
            old(self).pos() < old(self).bytes().len(),
        ensures
            old(self).pos() <= final(self).pos() <= final(self).bytes().len(),
            final(self).bytes() == old(self).bytes(),
            final(self).pos() == old(self).pos() + 1,
    {
        if self.ptr < self.raw.len() {
            self.ptr = self.ptr + 1;
        }
    }

    /// Reads a byte string `<len>:<bytes>`.
    fn deseri_string(&mut self) -> (r: Result<BItem, BencodeError>)
        ensures
            old(self).pos() <= final(self).pos() <= final(self).bytes().len(),
            final(self).bytes() == old(self).bytes(),
            match parse_bytes(old(self).bytes(), old(self).pos()) {
                Some((b, p)) => {
                    &&& r matches Ok(BItem::String(x))
                    &&& x@ == b
                    &&& final(self).pos() == p
                },
                None => r == Err::<BItem, BencodeError>(BencodeError::Malformed),
            },
            r is Ok ==> old(self).pos() < final(self).pos() <= final(self).bytes().len(),
    {
        proof {
            use_type_invariant(&*self);
        }
        let ghost s = self.raw@;
        proof {
            lemma_parse_digits_monotone(s, self.ptr as int, 58u8, 0);
        }
        let len = match self.consume_int(58u8)? {
            BItem::Int(i) => i,
            _ => {
                return Err(BencodeError::Malformed);
            },
        };
        let ghost start = self.pos();
        let mut res: Vec<u8> = Vec::new();
        let mut k: i64 = 0;
        while k < len
            invariant
                0 <= k <= len,
                self.bytes() == s,
                self.pos() == start + k,
                s == old(self).bytes(),
                start + k <= s.len(),
                old(self).pos() < start,
                parse_int_at(s, old(self).pos(), 58u8) == Some((len, start)),
                res@ == s.subrange(start, start + k),
            decreases len - k,
        {
            proof {
                use_type_invariant(&*self);
            }
            let b = match self.validate_pop() {
                Ok(b) => b,
                Err(e) => {
                    return Err(e);
                },
            };
            res.push(b);
            k = k + 1;
            assert(res@ =~= s.subrange(start, start + k));
        }
        Ok(BItem::String(res))
    }

    /// Reads an integer `i<digits>e` or `i-<digits>e`.
    fn deseri_int(&mut self) -> (r: Result<BItem, BencodeError>)
        requires
            old(self).pos() < old(self).bytes().len(),
        ensures
            old(self).pos() <= final(self).pos() <= final(self).bytes().len(),
            final(self).bytes() == old(self).bytes(),
            match parse_signed_at(old(self).bytes(), old(self).pos() + 1) {
                Some((i, p)) => r == Ok::<BItem, BencodeError>(BItem::Int(i)) && final(self).pos() == p,
                None => r == Err::<BItem, BencodeError>(BencodeError::Malformed),
            },
            r is Ok ==> old(self).pos() < final(self).pos() <= final(self).bytes().len(),
    {
        self.move_ptr();
        match self.peek() {
            Some(b) => {
                if b == 45u8 {
                    self.move_ptr();
                    let ghost s0 = self.bytes();
                    let ghost p0 = self.pos();
                    proof {
                        lemma_parse_digits_monotone(s0, p0, 101u8, 0);
                    }
                    let v = self.consume_digits(101u8, 9223372036854775808u64)?;
                    proof {
                        let (w, p) = parse_digits(s0, p0, 101u8, 0).unwrap();
                        assert(v == w);
                    }
                    if v == 9223372036854775808u64 {
                        Ok(BItem::Int(i64::MIN))
                    } else {
                        Ok(BItem::Int(-(v as i64)))
                    }
                } else {
                    self.consume_int(101u8)
                }
            },
            None => self.consume_int(101u8),
        }
    }

    /// Reads decimal digits up to the byte `end` and steps over `end`.
    fn consume_int(&mut self, end: u8) -> (r: Result<BItem, BencodeError>)
        requires
            !is_digit(end),
        ensures
            old(self).pos() <= final(self).pos() <= final(self).bytes().len(),
            final(self).bytes() == old(self).bytes(),
            match parse_int_at(old(self).bytes(), old(self).pos(), end) {
                Some((i, p)) => r == Ok::<BItem, BencodeError>(BItem::Int(i)) && final(self).pos() == p,
                None => r == Err::<BItem, BencodeError>(BencodeError::Malformed),
            },
            r is Ok ==> old(self).pos() < final(self).pos() <= final(self).bytes().len(),
    {
        let ghost s0 = self.bytes();
        let ghost p0 = self.pos();
        proof {
            lemma_parse_digits_monotone(s0, p0, end, 0);
        }
        let v = self.consume_digits(end, 9223372036854775807u64)?;
        proof {
            let (w, p) = parse_digits(s0, p0, end, 0).unwrap();
            assert(v == w);
        }
        Ok(BItem::Int(v as i64))
    }

    /// Reads decimal digits up to the byte `end` and steps over `end`: their
    /// number, which must not exceed `limit`.
    fn consume_digits(&mut self, end: u8, limit: u64) -> (r: Result<u64, BencodeError>)
        requires
            !is_digit(end),
        ensures
            old(self).pos() <= final(self).pos() <= final(self).bytes().len(),
            final(self).bytes() == old(self).bytes(),
            match parse_digits(old(self).bytes(), old(self).pos(), end, 0) {
                Some((v, p)) => if v <= limit {
                    r == Ok::<u64, BencodeError>(v as u64) && final(self).pos() == p
                } else {
                    r == Err::<u64, BencodeError>(BencodeError::Malformed)
                },
                None => r == Err::<u64, BencodeError>(BencodeError::Malformed),
            },
            r is Ok ==> old(self).pos() < final(self).pos() <= final(self).bytes().len(),
            r matches Ok(x) ==> x <= limit,
    {
        proof {
            use_type_invariant(&*self);
        }
        let ghost s = self.raw@;
        let ghost start = self.pos();
        let mut res: u64 = 0;
        loop
            invariant_except_break
                self.bytes() == s,
                s == old(self).bytes(),
                start == old(self).pos(),
                start <= self.pos() <= s.len(),
                parse_digits(s, self.pos(), end, res as int) == parse_digits(s, start, end, 0),
            ensures
                self.bytes() == s,
                start <= self.pos() < s.len(),
                s[self.pos()] == end,
                parse_digits(s, self.pos(), end, res as int) == parse_digits(s, start, end, 0),
            decreases s.len() - self.pos(),
        {
            proof {
                use_type_invariant(&*self);
            }
            let b = match self.peek() {
                Some(b) => b,
                None => {
                    return Err(BencodeError::Malformed);
                },
            };
            if b == end {
                break;
            }
            let c = self.validate_pop()?;
            if c < 48u8 || c > 57u8 {
                return Err(BencodeError::Malformed);
            }
            let digit = (c - 48u8) as u64;
            let next = match res.checked_mul(10) {
                Some(m) => m.checked_add(digit),
                None => None,
            };
            match next {
                Some(n) => {
                    res = n;
                },
                None => {
                    proof {
                        lemma_parse_digits_monotone(s, self.pos(), end, res * 10 + digit);
                    }
                    return Err(BencodeError::Malformed);
                },
            }
        }
        self.move_ptr();
        if res > limit {
            return Err(BencodeError::Malformed);
        }
        Ok(res)
    }

    /// Reads a list `l<items>e`.
    fn deseri_list(&mut self) -> (r: Result<BItem, BencodeError>)
        requires
            old(self).pos() < old(self).bytes().len(),
        ensures
            old(self).pos() <= final(self).pos() <= final(self).bytes().len(),
            final(self).bytes() == old(self).bytes(),
            match parse_list(old(self).bytes(), old(self).pos() + 1, Seq::empty()) {
                Some((v, p)) => {
                    &&& r matches Ok(x)
                    &&& x@ == v
                    &&& final(self).pos() == p
                },
                None => r == Err::<BItem, BencodeError>(BencodeError::Malformed),
            },
            r is Ok ==> old(self).pos() < final(self).pos() <= final(self).bytes().len(),
        decreases old(self).bytes().len() - old(self).pos(), 0nat,
    {
        let ghost s = self.raw@;
        let ghost start = self.ptr as int;
        self.move_ptr();
        let mut list: Vec<BItem> = Vec::new();
        proof {
            assert(list_view(list@) =~= Seq::<BValue>::empty());
        }
        loop
            invariant_except_break
                self.bytes() == s,
                start < self.pos() <= s.len(),
                self.raw@ == s,
                start == old(self).ptr,
                s == old(self).raw@,
                parse_list(s, self.pos(), list_view(list@)) == parse_list(s, start + 1, Seq::empty()),
            ensures
                self.bytes() == s,
                start < self.pos() < s.len(),
                s[self.pos()] == 101u8,
                parse_list(s, self.pos(), list_view(list@)) == parse_list(s, start + 1, Seq::empty()),
            decreases s.len() - self.pos(),
        {
            proof {
                use_type_invariant(&*self);
            }
            let b = self.validate_peek()?;
            if b == 101u8 {
                break;
            }
            let item = self.decode()?;
            proof {
                lemma_list_view(list@);
                lemma_list_view(list@.push(item));
                assert(list_view(list@.push(item)) =~= list_view(list@).push(item@));
            }
            list.push(item);
        }
        self.move_ptr();
        Ok(BItem::List(list))
    }

    /// Reads a dictionary `d<key value pairs>e`; a later entry for a key
    /// replaces an earlier one.
    fn deseri_dict(&mut self) -> (r: Result<BItem, BencodeError>)
        requires
            old(self).pos() < old(self).bytes().len(),
        ensures
            old(self).pos() <= final(self).pos() <= final(self).bytes().len(),
            final(self).bytes() == old(self).bytes(),
            match parse_dict(old(self).bytes(), old(self).pos() + 1, Seq::empty()) {
                Some((v, p)) => {
                    &&& r matches Ok(x)
                    &&& x@ == v
                    &&& final(self).pos() == p
                },
                None => r == Err::<BItem, BencodeError>(BencodeError::Malformed),
            },
            r is Ok ==> old(self).pos() < final(self).pos() <= final(self).bytes().len(),
        decreases old(self).bytes().len() - old(self).pos(), 0nat,
    {
        let ghost s = self.raw@;
        let ghost start = self.ptr as int;
        self.move_ptr();
        let mut dict = BDict::new();
        loop
            invariant_except_break
                self.bytes() == s,
                start < self.pos() <= s.len(),
                self.raw@ == s,
                start == old(self).ptr,
                s == old(self).raw@,
                parse_dict(s, self.pos(), dict@) == parse_dict(s, start + 1, Seq::empty()),
            ensures
                self.bytes() == s,
                start < self.pos() < s.len(),
                s[self.pos()] == 101u8,
                parse_dict(s, self.pos(), dict@) == parse_dict(s, start + 1, Seq::empty()),
            decreases s.len() - self.pos(),
        {
            proof {
                use_type_invariant(&*self);
            }
            let b = self.validate_peek()?;
            if b == 101u8 {
                break;
            }
            let key = match self.deseri_string()? {
                BItem::String(k) => k,
                _ => {
                    return Err(BencodeError::Malformed);
                },
            };
            let val = self.decode()?;
            dict.insert(key, val);
        }
        self.move_ptr();
        Ok(BItem::Dict(dict))
    }
}

impl BItem {
    /// Decodes the bencoded value at the start of `raw`; bytes after it are
    /// not read. `Malformed` when `raw` does not start with a bencoded value
    /// (integers must fit an `i64`).
    pub fn deseri_cons(raw: &[u8]) -> (r: Result<BItem, BencodeError>)
        ensures
            match parse_item(raw@, 0) {
                Some((v, _)) => r matches Ok(x) && x@ == v,
                None => r == Err::<BItem, BencodeError>(BencodeError::Malformed),
            },
    {
        let mut decoder = Decoder::new(raw);
        decoder.decode()
    }
}

} // verus!
