//! The client's identity among peers.

use vstd::prelude::*;
use vstd::string::StringExecFns;

use rand::Rng;

use crate::decimal::push_char;

verus! {

/// A digit from `0` to `9`, drawn by `rand::thread_rng().gen_range(0..=9)`;
/// which one is left to chance.
#[verifier::external_body]
fn random_digit() -> (d: u8)
    ensures
        d <= 9,
{
    rand::thread_rng().gen_range(0..=9)
}

/// The client prefix of every peer id this library makes.
pub open spec fn id_prefix() -> Seq<char> {
    "-YY0000-"@
}

/// The digit `d` (below ten) as a character.
pub open spec fn digit_char(d: u8) -> char {
    (d + 48) as char
}

/// The peer id made of the client prefix and the digits `d`.
pub open spec fn peer_id_text(d: Seq<u8>) -> Seq<char> {
    id_prefix() + Seq::new(d.len(), |i: int| digit_char(d[i]))
}

/// Twelve digits, each below ten.
pub open spec fn id_digits(d: Seq<u8>) -> bool {
    d.len() == 12 && forall|i: int| 0 <= i < 12 ==> #[trigger] d[i] <= 9
}

/// The peer id `-YY0000-` followed by the twelve digits `d`.
pub fn peer_id_from_digits(d: &[u8]) -> (id: String)
    requires
        id_digits(d@),
    ensures
        id@ == peer_id_text(d@),
{
    let mut id = String::from_str("-YY0000-");
    proof {
        reveal_strlit("-YY0000-");
    }
    let mut k: usize = 0;
    while k < 12
        invariant
            k <= 12,
            id_digits(d@),
            id@ == id_prefix() + Seq::new(k as nat, |i: int| digit_char(d@[i])),
        decreases 12 - k,
    {
        let c: char = (48u8 + d[k]) as char;
        push_char(&mut id, c);
        proof {
            assert(id@ =~= id_prefix() + Seq::new((k + 1) as nat, |i: int| digit_char(d@[i])));
        }
        k = k + 1;
    }
    id
}

/// A fresh peer id: `-YY0000-` followed by twelve digits drawn at random.
pub fn gen_id() -> (id: String)
    ensures
        exists|d: Seq<u8>| id_digits(d) && id@ == peer_id_text(d),
{
    let mut digits: Vec<u8> = Vec::new();
    while digits.len() < 12
        invariant
            digits@.len() <= 12,
            forall|i: int| 0 <= i < digits@.len() ==> #[trigger] digits@[i] <= 9,
        decreases 12 - digits@.len(),
    {
        digits.push(random_digit());
    }
    let id = peer_id_from_digits(digits.as_slice());
    assert(id_digits(digits@));
    id
}

} // verus!
