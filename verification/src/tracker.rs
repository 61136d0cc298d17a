//! Talking to trackers: the announce query, and reading the tracker's answer
//! (a bencoded dictionary whose `peers` are 6-byte compact addresses).

use vstd::prelude::*;
use vstd::string::{StringExecFns, StringSliceAdditionalSpecFns};

use crate::bencode::{BItem, BValue, BencodeError};
use crate::bitmap::Bitmap;
use crate::convert::{binds, dict_take, lemma_take_finds, lemma_take_other, take_bytes, take_int, texts_view};
use crate::roundtrip::lemma_parse_wf;
use crate::decimal::{decimal_chars, push_char, push_decimal_chars};
use crate::decoder::parse_item;
use crate::metainfo::MetaInfo;
use crate::summary::splits;
use vstd::seq_lib::lemma_concat_associative;

verus! {

/// The event reported to a tracker.
#[derive(Debug, Clone, Copy, PartialEq, Eq)]
pub enum Event {
    Started,
    Stopped,
    Completed,
}

/// The name of an event in a tracker query.
pub open spec fn event_text(e: Event) -> Seq<char> {
    match e {
        Event::Started => "started"@,
        Event::Stopped => "stopped"@,
        Event::Completed => "completed"@,
    }
}

impl Event {
    /// The name of this event in a tracker query.
    pub fn as_str(&self) -> (r: &'static str)
        ensures
            r@ == event_text(*self),
    {
        match self {
            Event::Started => "started",
            Event::Stopped => "stopped",
            Event::Completed => "completed",
        }
    }
}

/// The announce query: `info_hash`, `peer_id`, `port`, `uploaded`,
/// `downloaded`, `left`, `event` and `compact=1`, joined by `&`.
pub open spec fn request_query(
    info_hash: Seq<char>,
    peer_id: Seq<char>,
    port: nat,
    uploaded: nat,
    downloaded: nat,
    left: nat,
    event: Seq<char>,
) -> Seq<char> {
    "info_hash="@ + info_hash + "&peer_id="@ + peer_id + "&port="@ + decimal_chars(port) + "&uploaded="@
        + decimal_chars(uploaded) + "&downloaded="@ + decimal_chars(downloaded) + "&left="@ + decimal_chars(left)
        + "&event="@ + event + "&compact="@ + "1"@
}

/// The announce query for `metainfo`, as the peer `peer_id` listening on
/// `port` with the pieces recorded in `bit_fields`, having uploaded
/// `uploaded` bytes.
pub fn form_requst_params(
    metainfo: &MetaInfo,
    port: u128,
    peer_id: &str,
    bit_fields: &Bitmap,
    uploaded: usize,
    event: Event,
) -> (r: String)
    requires
        bit_fields.spec_len() <= bit_fields.spec_size(),
    ensures
        r@ == request_query(
            metainfo.info_hash@,
            peer_id@,
            port as nat,
            uploaded as nat,
            bit_fields.spec_len() as nat,
            (bit_fields.spec_size() - bit_fields.spec_len()) as nat,
            event_text(event),
        ),
{
    let downloaded = bit_fields.len();
    let left = bit_fields.left();
    let mut q = String::new();
    q.append("info_hash=");
    q.append(metainfo.info_hash.as_str());
    q.append("&peer_id=");
    q.append(peer_id);
    q.append("&port=");
    push_decimal_chars(&mut q, port);
    q.append("&uploaded=");
    push_decimal_chars(&mut q, uploaded as u128);
    q.append("&downloaded=");
    push_decimal_chars(&mut q, downloaded as u128);
    q.append("&left=");
    push_decimal_chars(&mut q, left as u128);
    q.append("&event=");
    q.append(event.as_str());
    q.append("&compact=");
    q.append("1");
    q
}

/// The seconds to wait between announces until a tracker says otherwise.
pub const DEFAULT_INTERVAL: u64 = 1800;

/// One step of announcing to a tracker. With `left` pieces missing, `reply`
/// the interval of the tracker's latest answer (if one came) and `interval`
/// the wait so far: whether announcing is over, the event to announce
/// (`Completed` once nothing is missing, `Started` before), and the wait
/// before the next announce (the tracker's interval when it gave one, as
/// seconds taken bit for bit as unsigned).
pub fn next_announce(left: usize, reply: Option<i64>, interval: u64) -> (r: (bool, Event, u64))
    ensures
        r.0 == (left == 0),
        r.1 == (if left == 0 { Event::Completed } else { Event::Started }),
        r.2 == match reply {
            Some(i) => i as u64,
            None => interval,
        },
{
    let wait: u64 = match reply {
        Some(i) => i as u64,
        None => interval,
    };
    if left == 0 {
        (true, Event::Completed, wait)
    } else {
        (false, Event::Started, wait)
    }
}

// ----- the tracker's answer -----

/// A compact peer address `a.b.c.d` and port (big-endian), as a URL.
pub open spec fn peer_addr(c: Seq<u8>) -> Seq<char> {
    "http://"@ + decimal_chars(c[0] as nat) + seq!['.'] + decimal_chars(c[1] as nat) + seq!['.'] + decimal_chars(
        c[2] as nat,
    ) + seq!['.'] + decimal_chars(c[3] as nat) + seq![':'] + decimal_chars((c[4] as nat) * 256 + (c[5] as nat))
}

/// The addresses in a compact peer list: one per whole 6 bytes; bytes after
/// the last whole 6 are left out.
pub open spec fn peer_addrs(p: Seq<u8>) -> Seq<Seq<char>> {
    Seq::new(p.len() / 6, |i: int| peer_addr(p.subrange(6 * i, 6 * i + 6)))
}

/// The URL of one compact peer address.
fn peer_url(c: &[u8], at: usize) -> (r: String)
    requires
        at + 6 <= c@.len(),
    ensures
        r@ == peer_addr(c@.subrange(at as int, at + 6)),
{
    let ghost chunk = c@.subrange(at as int, at + 6);
    let mut s = String::new();
    s.append("http://");
    push_decimal_chars(&mut s, c[at] as u128);
    push_char(&mut s, '.');
    push_decimal_chars(&mut s, c[at + 1] as u128);
    push_char(&mut s, '.');
    push_decimal_chars(&mut s, c[at + 2] as u128);
    push_char(&mut s, '.');
    push_decimal_chars(&mut s, c[at + 3] as u128);
    push_char(&mut s, ':');
    let port: u16 = (c[at + 4] as u16) * 256 + (c[at + 5] as u16);
    push_decimal_chars(&mut s, port as u128);
    proof {
        assert(chunk[0] == c@[at as int]);
        assert(chunk[1] == c@[at + 1]);
        assert(chunk[2] == c@[at + 2]);
        assert(chunk[3] == c@[at + 3]);
        assert(chunk[4] == c@[at + 4]);
        assert(chunk[5] == c@[at + 5]);
        assert(s@ =~= peer_addr(chunk));
    }
    s
}

/// The peer URLs of a compact peer list, one per whole 6 bytes.
pub fn compact_peers(peers: &[u8]) -> (r: Vec<String>)
    ensures
        texts_view(r@) == peer_addrs(peers@),
{
    let total = peers.len();
    let n = total / 6;
    let mut out: Vec<String> = Vec::new();
    let mut i: usize = 0;
    let mut at: usize = 0;
    while i < n
        invariant
            total == peers@.len(),
            n == peers@.len() / 6,
            i <= n,
            at == 6 * i,
            texts_view(out@) == peer_addrs(peers@).subrange(0, i as int),
        decreases n - i,
    {
        proof {
            let len = peers@.len() as int;
            assert(6 * i + 6 <= len) by (nonlinear_arith)
                requires
                    i < n,
                    n == len / 6,
                    len >= 0,
            ;
        }
        let url = peer_url(peers, at);
        at = at + 6;
        let ghost before = out@;
        out.push(url);
        i = i + 1;
        assert(texts_view(out@) =~= peer_addrs(peers@).subrange(0, i as int)) by {
            assert(texts_view(out@) =~= texts_view(before).push(url@));
        }
    }
    assert(peer_addrs(peers@).subrange(0, n as int) =~= peer_addrs(peers@));
    out
}

/// The peers in a tracker's answer.
pub open spec fn response_peers_model(raw: Seq<u8>) -> Result<Seq<Seq<char>>, BencodeError> {
    match parse_item(raw, 0) {
        None => Err(BencodeError::Malformed),
        Some((BValue::Dict(d), _)) => match take_bytes(d, "peers".spec_bytes()) {
            (Ok(p), _) => Ok(peer_addrs(p)),
            (Err(e), _) => Err(e),
        },
        Some(_) => Err(BencodeError::WrongType),
    }
}

/// The peers and the re-announce interval in a tracker's answer.
pub open spec fn announce_response_model(raw: Seq<u8>) -> Result<(Seq<Seq<char>>, i64), BencodeError> {
    match parse_item(raw, 0) {
        None => Err(BencodeError::Malformed),
        Some((BValue::Dict(d), _)) => match take_bytes(d, "peers".spec_bytes()) {
            (Ok(p), d1) => match take_int(d1, "interval".spec_bytes()) {
                (Ok(i), _) => Ok((peer_addrs(p), i)),
                (Err(e), _) => Err(e),
            },
            (Err(e), _) => Err(e),
        },
        Some(_) => Err(BencodeError::WrongType),
    }
}

/// Reads the peer URLs out of a tracker's bencoded answer.
pub fn response_peers(raw: &[u8]) -> (r: Result<Vec<String>, BencodeError>)
    ensures
        match (r, response_peers_model(raw@)) {
            (Ok(v), Ok(m)) => texts_view(v@) == m,
            (Err(e), Err(f)) => e == f,
            _ => false,
        },
{
    let item = BItem::deseri_cons(raw)?;
    let mut d = item.into_dict()?;
    let peers = d.remove_bytes("peers")?;
    Ok(compact_peers(peers.as_slice()))
}

/// Reads the peer URLs and the re-announce interval (in seconds) out of a
/// tracker's bencoded answer.
pub fn announce_response(raw: &[u8]) -> (r: Result<(Vec<String>, i64), BencodeError>)
    ensures
        match (r, announce_response_model(raw@)) {
            (Ok((v, i)), Ok((m, j))) => texts_view(v@) == m && i == j,
            (Err(e), Err(f)) => e == f,
            _ => false,
        },
{
    let item = BItem::deseri_cons(raw)?;
    let mut d = item.into_dict()?;
    let peers = d.remove_bytes("peers")?;
    let interval = d.remove_int("interval")?;
    Ok((compact_peers(peers.as_slice()), interval))
}

// ----- laws of the tracker's answer -----

proof fn lemma_answer_keys_differ()
    ensures
        "peers".spec_bytes() != "interval".spec_bytes(),
{
    broadcast use vstd::string::is_ascii_spec_bytes;

    reveal_strlit("peers");
    reveal_strlit("interval");
    assert(vstd::string::is_ascii("peers"));
    assert(vstd::string::is_ascii("interval"));
    assert("peers".spec_bytes().len() != "interval".spec_bytes().len());
}

/// The re-announce interval of a tracker's answer is the integer bound to
/// `interval` in its dictionary, and the peers are those of the byte string
/// bound to `peers`, whatever other keys (such as `min interval`) the
/// dictionary holds.
pub proof fn lemma_announce_fields(raw: Seq<u8>, d: Seq<(Seq<u8>, BValue)>)
    requires
        parse_item(raw, 0) matches Some((BValue::Dict(d0), _)) && d0 == d,
    ensures
        announce_response_model(raw) matches Ok((ps, i)) ==> {
            &&& binds(d, "interval".spec_bytes(), BValue::Int(i))
            &&& exists|p: Seq<u8>| binds(d, "peers".spec_bytes(), BValue::Bytes(p)) && ps == peer_addrs(p)
        },
        forall|p: Seq<u8>, i: i64|
            #[trigger] binds(d, "peers".spec_bytes(), BValue::Bytes(p)) && #[trigger] binds(
                d,
                "interval".spec_bytes(),
                BValue::Int(i),
            ) ==> announce_response_model(raw) == Ok::<(Seq<Seq<char>>, i64), BencodeError>((peer_addrs(p), i)),
{
    lemma_parse_wf(raw, 0);
    lemma_answer_keys_differ();
    let kp = "peers".spec_bytes();
    let ki = "interval".spec_bytes();
    lemma_take_finds(d, kp);
    lemma_take_finds(d, ki);
    lemma_take_other(d, kp, ki);
    if let Ok((ps, i)) = announce_response_model(raw) {
        let p = dict_take(d, kp).0->Some_0->Bytes_0;
        assert(binds(d, kp, BValue::Bytes(p)));
    }
}

/// The peers of a tracker's answer are those of the byte string bound to
/// `peers` in its dictionary.
pub proof fn lemma_response_peers_field(raw: Seq<u8>, d: Seq<(Seq<u8>, BValue)>)
    requires
        parse_item(raw, 0) matches Some((BValue::Dict(d0), _)) && d0 == d,
    ensures
        response_peers_model(raw) matches Ok(ps) ==> exists|p: Seq<u8>|
            binds(d, "peers".spec_bytes(), BValue::Bytes(p)) && ps == peer_addrs(p),
        forall|p: Seq<u8>|
            #[trigger] binds(d, "peers".spec_bytes(), BValue::Bytes(p)) ==> response_peers_model(raw) == Ok::<
                Seq<Seq<char>>,
                BencodeError,
            >(peer_addrs(p)),
{
    lemma_parse_wf(raw, 0);
    let kp = "peers".spec_bytes();
    lemma_take_finds(d, kp);
    if let Ok(ps) = response_peers_model(raw) {
        let p = dict_take(d, kp).0->Some_0->Bytes_0;
        assert(binds(d, kp, BValue::Bytes(p)));
    }
}

// ----- laws of the announce query -----

/// The name of an event as a tracker reads it.
pub open spec fn event_name(e: Event) -> Seq<char> {
    match e {
        Event::Started => "started"@,
        Event::Stopped => "stopped"@,
        Event::Completed => "completed"@,
    }
}

/// The announce query ends with the event given, by its name, and then
/// `&compact=1`.
pub proof fn lemma_query_event(
    info_hash: Seq<char>,
    peer_id: Seq<char>,
    port: nat,
    uploaded: nat,
    downloaded: nat,
    left: nat,
    e: Event,
)
    ensures
        exists|pre: Seq<char>|
            request_query(info_hash, peer_id, port, uploaded, downloaded, left, event_text(e)) == pre + "&event="@
                + event_name(e) + "&compact=1"@,
{
    reveal_strlit("&compact=");
    reveal_strlit("1");
    reveal_strlit("&compact=1");
    let pre = "info_hash="@ + info_hash + "&peer_id="@ + peer_id + "&port="@ + decimal_chars(port) + "&uploaded="@
        + decimal_chars(uploaded) + "&downloaded="@ + decimal_chars(downloaded) + "&left="@ + decimal_chars(left);
    assert("&compact="@ + "1"@ =~= "&compact=1"@);
    assert(request_query(info_hash, peer_id, port, uploaded, downloaded, left, event_text(e)) =~= pre + "&event="@
        + event_name(e) + "&compact=1"@);
}

/// Announce queries that differ only in their event differ.
pub proof fn lemma_query_events_differ(
    info_hash: Seq<char>,
    peer_id: Seq<char>,
    port: nat,
    uploaded: nat,
    downloaded: nat,
    left: nat,
    e1: Event,
    e2: Event,
)
    requires
        e1 != e2,
    ensures
        request_query(info_hash, peer_id, port, uploaded, downloaded, left, event_text(e1)) != request_query(
            info_hash,
            peer_id,
            port,
            uploaded,
            downloaded,
            left,
            event_text(e2),
        ),
{
    reveal_strlit("started");
    reveal_strlit("stopped");
    reveal_strlit("completed");
    reveal_strlit("&compact=");
    reveal_strlit("1");
    let pre = "info_hash="@ + info_hash + "&peer_id="@ + peer_id + "&port="@ + decimal_chars(port) + "&uploaded="@
        + decimal_chars(uploaded) + "&downloaded="@ + decimal_chars(downloaded) + "&left="@ + decimal_chars(left)
        + "&event="@;
    let q1 = request_query(info_hash, peer_id, port, uploaded, downloaded, left, event_text(e1));
    let q2 = request_query(info_hash, peer_id, port, uploaded, downloaded, left, event_text(e2));
    let n1 = event_name(e1);
    let n2 = event_name(e2);
    assert(q1 =~= pre + (n1 + ("&compact="@ + "1"@)));
    assert(q2 =~= pre + (n2 + ("&compact="@ + "1"@)));
    if q1 == q2 {
        let k = pre.len() as int;
        if n1.len() == n2.len() {
            assert(n1 =~= q1.subrange(k, k + n1.len()));
            assert(n2 =~= q2.subrange(k, k + n2.len()));
            assert(n1[2] != n2[2]);
        } else {
            assert(q1.len() != q2.len());
        }
    }
}

/// The sum of `a[0]` .. `a[n - 1]`, added from the left.
spec fn left_sum(a: Seq<Seq<char>>, n: int) -> Seq<char>
    decreases n,
{
    if n <= 0 {
        Seq::empty()
    } else {
        left_sum(a, n - 1) + a[n - 1]
    }
}

/// The sum of `a[i]` .. `a[n - 1]`, added from the left.
spec fn range_sum(a: Seq<Seq<char>>, i: int, n: int) -> Seq<char>
    decreases n - i,
{
    if n <= i {
        Seq::empty()
    } else {
        range_sum(a, i, n - 1) + a[n - 1]
    }
}

proof fn lemma_sum_split(a: Seq<Seq<char>>, i: int, n: int)
    requires
        0 <= i <= n,
    ensures
        left_sum(a, n) == left_sum(a, i) + range_sum(a, i, n),
    decreases n - i,
{
    if n > i {
        lemma_sum_split(a, i, n - 1);
        lemma_concat_associative(left_sum(a, i), range_sum(a, i, n - 1), a[n - 1]);
    } else {
        assert(left_sum(a, i) + Seq::<char>::empty() =~= left_sum(a, i));
    }
}

/// Each value of the announce query stands right after its own key, and
/// right before the next key: `info_hash`, `peer_id`, `port`, `uploaded`,
/// `downloaded`, `left`, in this order.
pub proof fn lemma_query_pairs(
    info_hash: Seq<char>,
    peer_id: Seq<char>,
    port: nat,
    uploaded: nat,
    downloaded: nat,
    left: nat,
    e: Event,
    q: Seq<char>,
)
    requires
        q == request_query(info_hash, peer_id, port, uploaded, downloaded, left, event_text(e)),
    ensures
        exists|x: Seq<char>, y: Seq<char>| #[trigger] splits(q, x, "info_hash="@ + info_hash + "&peer_id="@, y),
        exists|x: Seq<char>, y: Seq<char>| #[trigger] splits(q, x, "&peer_id="@ + peer_id + "&port="@, y),
        exists|x: Seq<char>, y: Seq<char>| #[trigger] splits(q, x, "&port="@ + decimal_chars(port) + "&uploaded="@, y),
        exists|x: Seq<char>, y: Seq<char>| #[trigger] splits(q, x, "&uploaded="@ + decimal_chars(uploaded) + "&downloaded="@, y),
        exists|x: Seq<char>, y: Seq<char>| #[trigger] splits(q, x, "&downloaded="@ + decimal_chars(downloaded) + "&left="@, y),
        exists|x: Seq<char>, y: Seq<char>| #[trigger] splits(q, x, "&left="@ + decimal_chars(left) + "&event="@, y),
{
    let a = seq!["info_hash="@, info_hash, "&peer_id="@, peer_id, "&port="@, decimal_chars(port), "&uploaded="@, decimal_chars(uploaded), "&downloaded="@, decimal_chars(downloaded), "&left="@, decimal_chars(left), "&event="@, event_text(e), "&compact="@, "1"@];
    reveal_with_fuel(left_sum, 17);
    assert(q =~= left_sum(a, 16));
    assert(splits(q, left_sum(a, 0), a[0] + a[1] + a[2], range_sum(a, 3, 16))) by {
        lemma_sum_split(a, 3, 16);
        assert(left_sum(a, 3) == left_sum(a, 0) + a[0] + a[1] + a[2]);
        lemma_concat_associative(left_sum(a, 0) + a[0], a[1], a[2]);
        lemma_concat_associative(left_sum(a, 0), a[0], a[1] + a[2]);
        lemma_concat_associative(a[0], a[1], a[2]);
    }
    assert(splits(q, left_sum(a, 2), a[2] + a[3] + a[4], range_sum(a, 5, 16))) by {
        lemma_sum_split(a, 5, 16);
        assert(left_sum(a, 5) == left_sum(a, 2) + a[2] + a[3] + a[4]);
        lemma_concat_associative(left_sum(a, 2) + a[2], a[3], a[4]);
        lemma_concat_associative(left_sum(a, 2), a[2], a[3] + a[4]);
        lemma_concat_associative(a[2], a[3], a[4]);
    }
    assert(splits(q, left_sum(a, 4), a[4] + a[5] + a[6], range_sum(a, 7, 16))) by {
        lemma_sum_split(a, 7, 16);
        assert(left_sum(a, 7) == left_sum(a, 4) + a[4] + a[5] + a[6]);
        lemma_concat_associative(left_sum(a, 4) + a[4], a[5], a[6]);
        lemma_concat_associative(left_sum(a, 4), a[4], a[5] + a[6]);
        lemma_concat_associative(a[4], a[5], a[6]);
    }
    assert(splits(q, left_sum(a, 6), a[6] + a[7] + a[8], range_sum(a, 9, 16))) by {
        lemma_sum_split(a, 9, 16);
        assert(left_sum(a, 9) == left_sum(a, 6) + a[6] + a[7] + a[8]);
        lemma_concat_associative(left_sum(a, 6) + a[6], a[7], a[8]);
        lemma_concat_associative(left_sum(a, 6), a[6], a[7] + a[8]);
        lemma_concat_associative(a[6], a[7], a[8]);
    }
    assert(splits(q, left_sum(a, 8), a[8] + a[9] + a[10], range_sum(a, 11, 16))) by {
        lemma_sum_split(a, 11, 16);
        assert(left_sum(a, 11) == left_sum(a, 8) + a[8] + a[9] + a[10]);
        lemma_concat_associative(left_sum(a, 8) + a[8], a[9], a[10]);
        lemma_concat_associative(left_sum(a, 8), a[8], a[9] + a[10]);
        lemma_concat_associative(a[8], a[9], a[10]);
    }
    assert(splits(q, left_sum(a, 10), a[10] + a[11] + a[12], range_sum(a, 13, 16))) by {
        lemma_sum_split(a, 13, 16);
        assert(left_sum(a, 13) == left_sum(a, 10) + a[10] + a[11] + a[12]);
        lemma_concat_associative(left_sum(a, 10) + a[10], a[11], a[12]);
        lemma_concat_associative(left_sum(a, 10), a[10], a[11] + a[12]);
        lemma_concat_associative(a[10], a[11], a[12]);
    }
}

} // verus!
