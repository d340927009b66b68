//! Tracker service: announce-request parsing, the per-torrent peer
//! registry with last-seen times and events, swarm statistics, and the
//! bencoded peer-list response. Announcing again with a known peer id
//! updates the record in place; a new id appends one.

use vstd::prelude::*;

use crate::bencode::{bview, find_byte, BValue, Bencode, EncodingParser, encode_val, encodable};
use crate::errors::{BitTrackerError, RequestError};
use crate::metainfo::MetaInfo;
use crate::strutil::{
    ascii_bytes, ascii_str, bytes_of_chars, chars_of_bytes, copy_bytes_range, eq_bytes,
    lemma_bytes_chars_roundtrip, lemma_chars_bytes_roundtrip, str_eq, string_from_ascii,
};
use crate::urlencode::{urlencode_bytes, URLEncoder};
use vstd::string::{StrSliceExecFns, StringSliceAdditionalSpecFns};

verus! {

/// The transfer state a peer last announced.
#[derive(Debug, PartialEq, Eq, Structural, Clone, Copy)]
pub enum Event {
    Started,
    Stopped,
    Completed,
}

/// The event named by an announce's `event` value.
pub open spec fn event_of(s: Seq<char>) -> Option<Event> {
    if s == "started"@ {
        Some(Event::Started)
    } else if s == "completed"@ {
        Some(Event::Completed)
    } else if s == "stopped"@ {
        Some(Event::Stopped)
    } else {
        None
    }
}

/// One announce as a peer sent it. The timestamp is the tracker's clock
/// when the request arrived, in seconds.
#[derive(Debug, PartialEq, Clone)]
pub struct Request {
    pub info_hash_url: String,
    pub peer_id: String,
    pub ip: String,
    pub port: String,
    pub compact: String,
    pub event: String,
    pub uploaded: String,
    pub downloaded: String,
    pub left: String,
    pub time: i64,
}

/// The byte-level model of a parsed announce: each field as the bytes of
/// its text.
pub struct RequestModel {
    pub info_hash_url: Seq<u8>,
    pub peer_id: Seq<u8>,
    pub ip: Seq<u8>,
    pub port: Seq<u8>,
    pub compact: Seq<u8>,
    pub event: Seq<u8>,
    pub uploaded: Seq<u8>,
    pub downloaded: Seq<u8>,
    pub left: Seq<u8>,
}

/// The byte-level model of a request value.
pub open spec fn req_view(r: Request) -> RequestModel {
    RequestModel {
        info_hash_url: bytes_of_chars(r.info_hash_url@),
        peer_id: bytes_of_chars(r.peer_id@),
        ip: bytes_of_chars(r.ip@),
        port: bytes_of_chars(r.port@),
        compact: bytes_of_chars(r.compact@),
        event: bytes_of_chars(r.event@),
        uploaded: bytes_of_chars(r.uploaded@),
        downloaded: bytes_of_chars(r.downloaded@),
        left: bytes_of_chars(r.left@),
    }
}

/// The segments of a byte sequence split on a separator, starting at
/// `from`: the text between consecutive separators, in order.
pub open spec fn split_at(s: Seq<u8>, from: int, sep: u8) -> Seq<Seq<u8>>
    recommends
        0 <= from <= s.len(),
    decreases s.len() - from,
{
    let f = find_byte(s, from, sep);
    if f < from || f >= s.len() {
        seq![
            s.subrange(
                if from < 0 {
                    0
                } else if from > s.len() {
                    s.len() as int
                } else {
                    from
                },
                s.len() as int,
            ),
        ]
    } else {
        seq![s.subrange(if from < 0 { 0 } else { from }, f)] + split_at(s, f + 1, sep)
    }
}

/// What one `key=value` pair does to the request fields collected so far.
/// The value is the text between the first and second equals sign; for
/// `event` and `ip` a trailing ` HTTP/...` tail is cut at the first space.
pub open spec fn param_step(m: RequestModel, param: Seq<u8>) -> Result<
    RequestModel,
    RequestError,
> {
    let parts = split_at(param, 0, 61);
    if parts.len() < 2 {
        Err(RequestError::InvalidParameterError)
    } else {
        let key = parts[0];
        let value = parts[1];
        if key == bytes_of_chars("peer_id"@) {
            Ok(RequestModel { peer_id: value, ..m })
        } else if key == bytes_of_chars("port"@) {
            Ok(RequestModel { port: value, ..m })
        } else if key == bytes_of_chars("uploaded"@) {
            Ok(RequestModel { uploaded: value, ..m })
        } else if key == bytes_of_chars("downloaded"@) {
            Ok(RequestModel { downloaded: value, ..m })
        } else if key == bytes_of_chars("left"@) {
            Ok(RequestModel { left: value, ..m })
        } else if key == bytes_of_chars("compact"@) {
            Ok(RequestModel { compact: value, ..m })
        } else if key == bytes_of_chars("event"@) {
            Ok(RequestModel { event: split_at(value, 0, 32)[0], ..m })
        } else if key == bytes_of_chars("ip"@) {
            Ok(RequestModel { ip: split_at(value, 0, 32)[0], ..m })
        } else {
            Err(RequestError::InvalidParameterError)
        }
    }
}

/// Reading the `key=value` pairs of an announce in order.
pub open spec fn params_fold(m: RequestModel, params: Seq<Seq<u8>>, i: int) -> Result<
    RequestModel,
    RequestError,
>
    decreases params.len() - i,
{
    if i < 0 || i >= params.len() {
        Ok(m)
    } else {
        match param_step(m, params[i]) {
            Err(e) => Err(e),
            Ok(m2) => params_fold(m2, params, i + 1),
        }
    }
}

/// What parsing a whole announce line does: the query splits on `&`; the
/// first segment's part after `?` carries `info_hash=<url-encoded hash>`;
/// every further segment is a `key=value` pair.
pub open spec fn parse_request_spec(m: RequestModel, s: Seq<u8>) -> Result<
    RequestModel,
    RequestError,
> {
    let qp = split_at(s, 0, 38);
    let ri = split_at(qp[0], 0, 63);
    if ri.len() < 2 {
        Err(RequestError::InvalidSyntaxError)
    } else {
        let kv = split_at(ri[1], 0, 61);
        if kv.len() < 2 {
            Err(RequestError::InvalidSyntaxError)
        } else {
            params_fold(RequestModel { info_hash_url: kv[1], ..m }, qp, 1)
        }
    }
}

impl Request {
    /// A blank announce stamped with the tracker's clock.
    pub fn new() -> (r: Request)
        ensures
            r.info_hash_url@.len() == 0,
            r.peer_id@.len() == 0,
            r.ip@.len() == 0,
            r.port@.len() == 0,
            r.compact@.len() == 0,
            r.event@.len() == 0,
            r.uploaded@.len() == 0,
            r.downloaded@.len() == 0,
            r.left@.len() == 0,
    {
        Request {
            info_hash_url: String::new(),
            peer_id: String::new(),
            port: String::new(),
            uploaded: String::new(),
            downloaded: String::new(),
            left: String::new(),
            compact: String::new(),
            event: String::new(),
            ip: String::new(),
            time: now_timestamp(),
        }
    }

    /// Reads one `key=value` pair into its field. Text that is not ASCII
    /// is rejected.
    pub fn parse_param(&mut self, param_string: &str) -> (r: Result<(), RequestError>)
        ensures
            !ascii_str(param_string@) ==> r == Err::<(), RequestError>(
                RequestError::InvalidParameterError,
            ) && *final(self) == *old(self),
            ascii_str(param_string@) ==> match r {
                Ok(()) => param_step(req_view(*old(self)), bytes_of_chars(param_string@)) == Ok::<
                    RequestModel,
                    RequestError,
                >(req_view(*final(self))) && final(self).time == old(self).time,
                Err(e) => param_step(req_view(*old(self)), bytes_of_chars(param_string@))
                    == Err::<RequestModel, RequestError>(e) && *final(self) == *old(self),
            },
    {
        let bytes = param_string.as_bytes_vec();
        let mut k: usize = 0;
        while k < bytes.len()
            invariant
                k <= bytes@.len(),
                bytes@ == param_string.spec_bytes(),
                forall|i: int| 0 <= i < k ==> bytes@[i] < 128,
            decreases bytes@.len() - k,
        {
            if bytes[k] >= 128 {
                proof {
                    lemma_non_ascii_bytes(param_string@, bytes@, k as int);
                }
                return Err(RequestError::InvalidParameterError);
            }
            k += 1;
        }
        proof {
            lemma_ascii_bytes_str(param_string@, bytes@);
        }
        self.parse_param_bytes(&bytes)
    }

    /// Reads one `key=value` pair, given as ASCII bytes, into its field.
    fn parse_param_bytes(&mut self, param: &Vec<u8>) -> (r: Result<(), RequestError>)
        requires
            ascii_bytes(param@),
        ensures
            match r {
                Ok(()) => param_step(req_view(*old(self)), param@) == Ok::<
                    RequestModel,
                    RequestError,
                >(req_view(*final(self))) && final(self).time == old(self).time,
                Err(e) => param_step(req_view(*old(self)), param@) == Err::<
                    RequestModel,
                    RequestError,
                >(e) && *final(self) == *old(self),
            },
    {
        proof {
            reveal_strlit("peer_id");
            reveal_strlit("port");
            reveal_strlit("uploaded");
            reveal_strlit("downloaded");
            reveal_strlit("left");
            reveal_strlit("compact");
            reveal_strlit("event");
            reveal_strlit("ip");
        }
        let parts = split_from(param, 0, 61);
        if parts.len() < 2 {
            return Err(RequestError::InvalidParameterError);
        }
        let value = &parts[1];
        let key = &parts[0];
        proof {
            lemma_split_at_ascii(param@, 0, 61);
        }
        if eq_bytes(key, &needle("peer_id")) {
            self.peer_id = string_from_ascii(value);
            proof {
                lemma_bytes_chars_roundtrip(value@);
            }
            Ok(())
        } else if eq_bytes(key, &needle("port")) {
            self.port = string_from_ascii(value);
            proof {
                lemma_bytes_chars_roundtrip(value@);
            }
            Ok(())
        } else if eq_bytes(key, &needle("uploaded")) {
            self.uploaded = string_from_ascii(value);
            proof {
                lemma_bytes_chars_roundtrip(value@);
            }
            Ok(())
        } else if eq_bytes(key, &needle("downloaded")) {
            self.downloaded = string_from_ascii(value);
            proof {
                lemma_bytes_chars_roundtrip(value@);
            }
            Ok(())
        } else if eq_bytes(key, &needle("left")) {
            self.left = string_from_ascii(value);
            proof {
                lemma_bytes_chars_roundtrip(value@);
            }
            Ok(())
        } else if eq_bytes(key, &needle("compact")) {
            self.compact = string_from_ascii(value);
            proof {
                lemma_bytes_chars_roundtrip(value@);
            }
            Ok(())
        } else if eq_bytes(key, &needle("event")) {
            let trimmed = split_from(value, 0, 32);
            proof {
                lemma_split_at_ascii(value@, 0, 32);
            }
            self.event = string_from_ascii(&trimmed[0]);
            proof {
                lemma_bytes_chars_roundtrip(trimmed@[0]@);
            }
            Ok(())
        } else if eq_bytes(key, &needle("ip")) {
            let trimmed = split_from(value, 0, 32);
            proof {
                lemma_split_at_ascii(value@, 0, 32);
            }
            self.ip = string_from_ascii(&trimmed[0]);
            proof {
                lemma_bytes_chars_roundtrip(trimmed@[0]@);
            }
            Ok(())
        } else {
            Err(RequestError::InvalidParameterError)
        }
    }

    /// Parses a whole announce line into this request. Text that is not
    /// ASCII is rejected.
    #[verifier::loop_isolation(false)]
    pub fn parse_request(&mut self, request_string: String) -> (r: Result<(), RequestError>)
        ensures
            !ascii_str(request_string@) ==> r == Err::<(), RequestError>(
                RequestError::InvalidSyntaxError,
            ) && *final(self) == *old(self),
            ascii_str(request_string@) ==> match r {
                Ok(()) => parse_request_spec(
                    req_view(*old(self)),
                    bytes_of_chars(request_string@),
                ) == Ok::<RequestModel, RequestError>(req_view(*final(self))) && final(self).time
                    == old(self).time,
                Err(e) => parse_request_spec(
                    req_view(*old(self)),
                    bytes_of_chars(request_string@),
                ) is Err,
            },
    {
        let bytes = request_string.as_str().as_bytes_vec();
        let mut k: usize = 0;
        while k < bytes.len()
            invariant
                k <= bytes@.len(),
                forall|i: int| 0 <= i < k ==> bytes@[i] < 128,
            decreases bytes@.len() - k,
        {
            if bytes[k] >= 128 {
                proof {
                    lemma_non_ascii_bytes(request_string@, bytes@, k as int);
                }
                return Err(RequestError::InvalidSyntaxError);
            }
            k += 1;
        }
        proof {
            lemma_ascii_bytes_str(request_string@, bytes@);
        }
        let ghost s = bytes@;
        let query_params = split_from(&bytes, 0, 38);
        proof {
            lemma_split_at_ascii(s, 0, 38);
            lemma_split_nonempty(s, 0, 38);
            assert forall|q: int| 0 <= q < query_params@.len() implies ascii_bytes(
                #[trigger] query_params@[q]@,
            ) by {
                assert(query_params@[q]@ == seg_views(query_params@)[q]);
                assert(seg_views(query_params@)[q] == split_at(s, 0, 38)[q]);
            }
        }
        let request_and_info = split_from(&query_params[0], 0, 63);
        if request_and_info.len() < 2 {
            return Err(RequestError::InvalidSyntaxError);
        }
        proof {
            lemma_split_at_ascii(query_params@[0]@, 0, 63);
        }
        let kv = split_from(&request_and_info[1], 0, 61);
        if kv.len() < 2 {
            return Err(RequestError::InvalidSyntaxError);
        }
        proof {
            lemma_split_at_ascii(request_and_info@[1]@, 0, 61);
        }
        self.info_hash_url = string_from_ascii(&kv[1]);
        proof {
            lemma_bytes_chars_roundtrip(kv@[1]@);
        }
        let ghost m0 = req_view(*self);
        let mut i: usize = 1;
        while i < query_params.len()
            invariant
                1 <= i <= query_params@.len(),
                params_fold(m0, seg_views(query_params@), 1) == params_fold(
                    req_view(*self),
                    seg_views(query_params@),
                    i as int,
                ),
                self.time == old(self).time,
                forall|q: int|
                    0 <= q < query_params@.len() ==> ascii_bytes(#[trigger] query_params@[q]@),
            decreases query_params@.len() - i,
        {
            let ghost before = req_view(*self);
            match self.parse_param_bytes(&query_params[i]) {
                Ok(()) => {},
                Err(e) => {
                    proof {
                        assert(params_fold(before, seg_views(query_params@), i as int) == Err::<
                            RequestModel,
                            RequestError,
                        >(e));
                    }
                    return Err(e);
                },
            }
            i += 1;
        }
        Ok(())
    }
}

/// Relies on chrono::Local::now: the tracker's clock, in whole seconds.
/// Nothing is assumed of the value.
#[verifier::external_body]
pub fn now_timestamp() -> i64 {
    chrono::Local::now().timestamp()
}

/// The byte text of an ASCII literal.
fn needle(lit: &str) -> (r: Vec<u8>)
    requires
        ascii_str(lit@),
    ensures
        r@ == bytes_of_chars(lit@),
{
    proof {
        broadcast use vstd::string::is_ascii_spec_bytes;

        assert(lit.is_ascii());
    }
    let r = lit.as_bytes_vec();
    proof {
        assert(r@ =~= bytes_of_chars(lit@));
    }
    r
}

/// The views of a sequence of byte segments.
pub open spec fn seg_views(v: Seq<Vec<u8>>) -> Seq<Seq<u8>> {
    Seq::new(v.len(), |i: int| v[i]@)
}

/// First position of a separator at or after `from`, if any.
fn find_sep(v: &Vec<u8>, from: usize, sep: u8) -> (r: Option<usize>)
    ensures
        match r {
            Some(j) => find_byte(v@, from as int, sep) == j as int && from <= j < v@.len(),
            None => find_byte(v@, from as int, sep) == -1,
        },
{
    let mut k: usize = from;
    if k >= v.len() {
        return None;
    }
    while k < v.len()
        invariant
            from <= k,
            find_byte(v@, from as int, sep) == find_byte(v@, k as int, sep),
        decreases v@.len() - k,
    {
        if v[k] == sep {
            return Some(k);
        }
        k += 1;
    }
    None
}

/// Splits a byte buffer on a separator, starting at `from`.
fn split_from(v: &Vec<u8>, from: usize, sep: u8) -> (r: Vec<Vec<u8>>)
    requires
        from <= v@.len(),
    ensures
        seg_views(r@) == split_at(v@, from as int, sep),
        r@.len() >= 1,
    decreases v@.len() - from,
{
    match find_sep(v, from, sep) {
        None => {
            let seg = copy_bytes_range(v, from, v.len());
            let r = vec![seg];
            proof {
                assert(seg_views(r@) =~= split_at(v@, from as int, sep));
            }
            r
        },
        Some(f) => {
            let n = v.len();
            assert(f < n);
            let seg = copy_bytes_range(v, from, f);
            let mut rest = split_from(v, f + 1, sep);
            rest.insert(0, seg);
            proof {
                assert(seg_views(rest@) =~= split_at(v@, from as int, sep));
            }
            rest
        },
    }
}

/// Splits a byte buffer on a separator.
pub(crate) fn split_bytes(v: &Vec<u8>, sep: u8) -> (r: Vec<Vec<u8>>)
    ensures
        seg_views(r@) == split_at(v@, 0, sep),
        r@.len() >= 1,
{
    split_from(v, 0, sep)
}

/// Every segment of a split of ASCII text is ASCII.
pub(crate) proof fn lemma_split_at_ascii(s: Seq<u8>, from: int, sep: u8)
    requires
        ascii_bytes(s),
        0 <= from <= s.len(),
    ensures
        forall|i: int|
            0 <= i < split_at(s, from, sep).len() ==> ascii_bytes(
                #[trigger] split_at(s, from, sep)[i],
            ),
    decreases s.len() - from,
{
    lemma_find_byte_range(s, from, sep);
    let f = find_byte(s, from, sep);
    if f >= 0 {
        lemma_split_at_ascii(s, f + 1, sep);
        assert forall|i: int|
            0 <= i < split_at(s, from, sep).len() implies ascii_bytes(
            #[trigger] split_at(s, from, sep)[i],
        ) by {
            if i > 0 {
                assert(split_at(s, from, sep)[i] == split_at(s, f + 1, sep)[i - 1]);
            }
        }
    }
}

/// A split has at least one segment.
proof fn lemma_split_nonempty(s: Seq<u8>, from: int, sep: u8)
    requires
        0 <= from <= s.len(),
    ensures
        split_at(s, from, sep).len() >= 1,
{
}

/// Where a byte is found, it lies in the scanned range.
proof fn lemma_find_byte_range(s: Seq<u8>, from: int, b: u8)
    requires
        0 <= from,
    ensures
        find_byte(s, from, b) >= 0 ==> from <= find_byte(s, from, b) < s.len(),
    decreases s.len() - from,
{
    if from < s.len() && s[from] != b {
        lemma_find_byte_range(s, from + 1, b);
    }
}

/// A byte at or past 128 in a string's bytes refutes that its characters
/// are ASCII.
proof fn lemma_non_ascii_bytes(chars: Seq<char>, bytes: Seq<u8>, k: int)
    requires
        bytes == vstd::utf8::encode_utf8(chars),
        0 <= k < bytes.len(),
        bytes[k] >= 128,
    ensures
        !ascii_str(chars),
{
    if ascii_str(chars) {
        broadcast use vstd::utf8::is_ascii_chars_encode_utf8;

        assert(vstd::utf8::is_ascii_chars(chars));
    }
}


/// All-ASCII bytes of a string mean its characters are ASCII and are the
/// bytes read as characters.
proof fn lemma_ascii_bytes_str(chars: Seq<char>, bytes: Seq<u8>)
    requires
        bytes == vstd::utf8::encode_utf8(chars),
        ascii_bytes(bytes),
    ensures
        ascii_str(chars),
        bytes == bytes_of_chars(chars),
        chars == chars_of_bytes(bytes),
{
    broadcast use vstd::utf8::encode_utf8_decode_utf8;
    broadcast use vstd::utf8::is_ascii_chars_encode_utf8;

    lemma_bytes_chars_roundtrip(bytes);
    let cb = chars_of_bytes(bytes);
    assert(vstd::utf8::is_ascii_chars(cb));
    assert(vstd::utf8::encode_utf8(cb) =~= bytes) by {
        assert forall|i: int| 0 <= i < bytes.len() implies #[trigger] vstd::utf8::encode_utf8(
            cb,
        )[i] == bytes[i] by {
            assert(vstd::utf8::encode_utf8(cb)[i] == cb[i] as u8);
            assert(cb[i] == bytes[i] as char);
        }
    }
    assert(vstd::utf8::decode_utf8(vstd::utf8::encode_utf8(chars)) == chars);
    assert(vstd::utf8::decode_utf8(vstd::utf8::encode_utf8(cb)) == cb);
    assert(chars == cb);
}


/// One peer of a torrent swarm as the tracker records it.
#[derive(Debug, PartialEq, Clone)]
pub struct Peer {
    pub id: String,
    pub ip: String,
    pub port: String,
    pub event: Event,
    pub uploaded: String,
    pub downloaded: String,
    pub left: String,
    pub time_last_request: i64,
}

/// The model of a tracker peer record.
pub struct TPeerModel {
    pub id: Seq<char>,
    pub ip: Seq<char>,
    pub port: Seq<char>,
    pub event: Event,
    pub uploaded: Seq<char>,
    pub downloaded: Seq<char>,
    pub left: Seq<char>,
    pub time: i64,
}

/// The model of a peer record value.
pub open spec fn tpeer_view(p: Peer) -> TPeerModel {
    TPeerModel {
        id: p.id@,
        ip: p.ip@,
        port: p.port@,
        event: p.event,
        uploaded: p.uploaded@,
        downloaded: p.downloaded@,
        left: p.left@,
        time: p.time_last_request,
    }
}

/// The record a first announce creates, assuming its event is valid.
pub open spec fn new_peer_model(rq: Request) -> TPeerModel {
    TPeerModel {
        id: rq.peer_id@,
        ip: rq.ip@,
        port: rq.port@,
        event: event_val(rq.event@),
        uploaded: rq.uploaded@,
        downloaded: rq.downloaded@,
        left: rq.left@,
        time: rq.time,
    }
}

/// The record after a re-announce: identity and address kept, transfer
/// state and last-seen time replaced.
pub open spec fn updated_peer_model(p: TPeerModel, rq: Request) -> TPeerModel {
    TPeerModel {
        event: event_val(rq.event@),
        uploaded: rq.uploaded@,
        downloaded: rq.downloaded@,
        left: rq.left@,
        time: rq.time,
        ..p
    }
}

/// Whether an event value names a known event.
pub open spec fn event_ok(s: Seq<char>) -> bool {
    event_of(s) is Some
}

/// The event an event value names (meaningful when it names one).
pub open spec fn event_val(s: Seq<char>) -> Event {
    if s == "started"@ {
        Event::Started
    } else if s == "completed"@ {
        Event::Completed
    } else {
        Event::Stopped
    }
}

impl Peer {
    /// The record of a peer announcing for the first time; an unknown
    /// event value is an invalid peer state.
    pub fn new(request: &Request) -> (r: Result<Peer, BitTrackerError>)
        ensures
            match r {
                Ok(p) => event_ok(request.event@) && tpeer_view(p) == new_peer_model(*request),
                Err(e) => !event_ok(request.event@) && e == BitTrackerError::InvalidPeerState,
            },
    {
        let event = match Self::match_event(self_str(&request.event)) {
            Ok(ev) => ev,
            Err(e) => {
                return Err(e);
            },
        };
        Ok(
            Peer {
                id: clone_string(&request.peer_id),
                ip: clone_string(&request.ip),
                port: clone_string(&request.port),
                event,
                uploaded: clone_string(&request.uploaded),
                downloaded: clone_string(&request.downloaded),
                left: clone_string(&request.left),
                time_last_request: request.time,
            },
        )
    }

    /// Replaces the transfer state and last-seen time with the values of
    /// a re-announce by the same peer; a different id is rejected.
    pub fn actualize_request(&mut self, request: &Request) -> (r: Result<(), BitTrackerError>)
        ensures
            old(self).id@ != request.peer_id@ ==> r == Err::<(), BitTrackerError>(
                BitTrackerError::InvalidSyntaxError,
            ) && *final(self) == *old(self),
            old(self).id@ == request.peer_id@ ==> match r {
                Ok(()) => event_ok(request.event@) && tpeer_view(*final(self))
                    == updated_peer_model(tpeer_view(*old(self)), *request),
                Err(e) => !event_ok(request.event@) && e == BitTrackerError::InvalidPeerState
                    && *final(self) == *old(self),
            },
    {
        if !crate::strutil::str_eq(self_str(&request.peer_id), self_str(&self.id)) {
            return Err(BitTrackerError::InvalidSyntaxError);
        }
        let event = match Self::match_event(self_str(&request.event)) {
            Ok(ev) => ev,
            Err(e) => {
                return Err(e);
            },
        };
        self.event = event;
        self.uploaded = clone_string(&request.uploaded);
        self.downloaded = clone_string(&request.downloaded);
        self.left = clone_string(&request.left);
        self.time_last_request = request.time;
        Ok(())
    }

    /// The event named by an announce's `event` value; anything unknown
    /// is an invalid peer state.
    pub fn match_event(event: &str) -> (r: Result<Event, BitTrackerError>)
        ensures
            match r {
                Ok(ev) => event_of(event@) == Some(ev),
                Err(e) => !event_ok(event@) && e == BitTrackerError::InvalidPeerState,
            },
    {
        if str_eq(event, "started") {
            Ok(Event::Started)
        } else if str_eq(event, "completed") {
            Ok(Event::Completed)
        } else if str_eq(event, "stopped") {
            Ok(Event::Stopped)
        } else {
            Err(BitTrackerError::InvalidPeerState)
        }
    }
}

/// A copy of a string with the same characters.
fn clone_string(s: &String) -> (r: String)
    ensures
        r@ == s@,
{
    s.clone()
}

/// The text of a string value.
fn self_str(s: &String) -> (r: &str)
    ensures
        r@ == s@,
{
    s.as_str()
}

/// One torrent the tracker serves: its metafile, the URL-encoded
/// info-hash it is looked up by, and its announced peers.
#[derive(Debug)]
pub struct Torrent {
    pub peers: Vec<Peer>,
    pub metainfo: MetaInfo,
    pub info_hash_url: String,
}

impl Torrent {
    /// A torrent entry for a loaded metafile, with no peers yet; the
    /// lookup key is the URL-encoded info-hash.
    pub fn new(metainfo: MetaInfo) -> (r: Result<Torrent, BitTrackerError>)
        ensures
            r is Ok,
            r->Ok_0.peers@.len() == 0,
            r->Ok_0.metainfo == metainfo,
            r->Ok_0.info_hash_url@ == chars_of_bytes(urlencode_bytes(metainfo.info_hash@)),
    {
        let hash = copy_bytes_range(&metainfo.info_hash, 0, metainfo.info_hash.len());
        proof {
            assert(hash@ =~= metainfo.info_hash@);
        }
        let info_hash_url = match (URLEncoder).urlencode(hash) {
            Ok(u) => u,
            Err(e) => {
                proof {
                    assert(false);
                }
                String::new()
            },
        };
        Ok(Torrent { metainfo, peers: Vec::new(), info_hash_url })
    }
}

/// The model of one torrent's registry entry.
pub struct TorrentModel {
    pub url: Seq<char>,
    pub name: Seq<char>,
    pub peers: Seq<TPeerModel>,
}

/// The model of a torrent entry value.
pub open spec fn torrent_view(t: Torrent) -> TorrentModel {
    TorrentModel { url: t.info_hash_url@, name: t.metainfo.info.name@, peers: peers_view(t.peers@) }
}

/// The models of a torrent's peer records.
pub open spec fn peers_view(ps: Seq<Peer>) -> Seq<TPeerModel> {
    Seq::new(ps.len(), |i: int| tpeer_view(ps[i]))
}

/// The models of the tracker's torrent entries.
pub open spec fn torrents_view(ts: Seq<Torrent>) -> Seq<TorrentModel> {
    Seq::new(ts.len(), |i: int| torrent_view(ts[i]))
}

/// Index of the first peer with the given id, or -1.
pub open spec fn find_peer(peers: Seq<TPeerModel>, id: Seq<char>, from: int) -> int
    decreases peers.len() - from,
{
    if from < 0 || from >= peers.len() {
        -1
    } else if peers[from].id == id {
        from
    } else {
        find_peer(peers, id, from + 1)
    }
}

/// What an announce does to the registry, torrent by torrent: in every
/// torrent with the announced info-hash, a known peer id is updated in
/// place — and the scan stops there — while a new id is appended and the
/// scan goes on. The flag says whether any torrent matched.
pub open spec fn receive_fold(ts: Seq<TorrentModel>, i: int, rq: Request, has: bool) -> Result<
    (Seq<TorrentModel>, bool),
    BitTrackerError,
>
    decreases ts.len() - i,
{
    if i < 0 || i >= ts.len() {
        Ok((ts, has))
    } else if ts[i].url == rq.info_hash_url@ {
        let j = find_peer(ts[i].peers, rq.peer_id@, 0);
        if j >= 0 {
            if !event_ok(rq.event@) {
                Err(BitTrackerError::InvalidPeerState)
            } else {
                Ok(
                    (
                        ts.update(
                            i,
                            TorrentModel {
                                peers: ts[i].peers.update(
                                    j,
                                    updated_peer_model(ts[i].peers[j], rq),
                                ),
                                ..ts[i]
                            },
                        ),
                        true,
                    ),
                )
            }
        } else {
            if !event_ok(rq.event@) {
                Err(BitTrackerError::InvalidPeerState)
            } else {
                receive_fold(
                    ts.update(
                        i,
                        TorrentModel { peers: ts[i].peers.push(new_peer_model(rq)), ..ts[i] },
                    ),
                    i + 1,
                    rq,
                    true,
                )
            }
        }
    } else {
        receive_fold(ts, i + 1, rq, has)
    }
}


/// Position of the peer with the given id, if it is registered.
#[verifier::loop_isolation(false)]
fn find_peer_index(peers: &Vec<Peer>, id: &String) -> (r: Option<usize>)
    ensures
        match r {
            Some(j) => find_peer(peers_view(peers@), id@, 0) == j as int && (j as int)
                < peers@.len(),
            None => find_peer(peers_view(peers@), id@, 0) == -1,
        },
{
    let mut j: usize = 0;
    while j < peers.len()
        invariant
            j <= peers@.len(),
            find_peer(peers_view(peers@), id@, 0) == find_peer(peers_view(peers@), id@, j as int),
        decreases peers@.len() - j,
    {
        if str_eq(self_str(&peers[j].id), self_str(id)) {
            proof {
                assert(peers_view(peers@)[j as int].id == id@);
            }
            return Some(j);
        }
        j += 1;
    }
    None
}


/// The record a peer scan finds is in range and carries the id scanned
/// for.
proof fn lemma_find_peer_props(peers: Seq<TPeerModel>, id: Seq<char>, from: int)
    requires
        0 <= from,
    ensures
        find_peer(peers, id, from) >= 0 ==> from <= find_peer(peers, id, from) < peers.len()
            && peers[find_peer(peers, id, from)].id == id,
    decreases peers.len() - from,
{
    if from < peers.len() && peers[from].id != id {
        lemma_find_peer_props(peers, id, from + 1);
    }
}

/// The tracker: its identity and the torrents it serves.
#[derive(Debug)]
pub struct BitTracker {
    pub id: String,
    pub torrents: Vec<Torrent>,
}

impl BitTracker {
    /// A tracker serving the given torrents under the given identity.
    pub fn new(torrents: Vec<Torrent>, id: String) -> (r: BitTracker)
        ensures
            r.id@ == id@,
            r.torrents@ == torrents@,
    {
        BitTracker { id, torrents }
    }

    /// A freshly drawn tracker identity.
    pub fn generate_id() -> (r: String)
        ensures
            r@.len() == 20,
            ascii_str(r@),
    {
        crate::client::BitClient::generate_id()
    }

    /// Records an announce: every torrent with the announced info-hash
    /// updates the peer in place when the id is known — and the scan
    /// stops — or appends a new peer record. Returns whether any torrent
    /// matched.
    #[verifier::loop_isolation(false)]
    pub fn receive_request(&mut self, request: &Request) -> (r: Result<bool, BitTrackerError>)
        ensures
            final(self).id@ == old(self).id@,
            match r {
                Ok(b) => receive_fold(torrents_view(old(self).torrents@), 0, *request, false)
                    == Ok::<(Seq<TorrentModel>, bool), BitTrackerError>(
                    (torrents_view(final(self).torrents@), b),
                ),
                Err(e) => receive_fold(torrents_view(old(self).torrents@), 0, *request, false)
                    == Err::<(Seq<TorrentModel>, bool), BitTrackerError>(e),
            },
    {
        let ghost oview = torrents_view(old(self).torrents@);
        let mut has_torrent = false;
        let mut i: usize = 0;
        while i < self.torrents.len()
            invariant
                i <= self.torrents@.len(),
                self.id@ == old(self).id@,
                receive_fold(oview, 0, *request, false) == receive_fold(
                    torrents_view(self.torrents@),
                    i as int,
                    *request,
                    has_torrent,
                ),
            decreases self.torrents@.len() - i,
        {
            let ghost pre = torrents_view(self.torrents@);
            let matches_url = str_eq(
                self_str(&self.torrents[i].info_hash_url),
                self_str(&request.info_hash_url),
            );
            if matches_url {
                let mut torrent = self.torrents.remove(i);
                let ghost tpre = torrent_view(torrent);
                proof {
                    assert(tpre == pre[i as int]);
                }
                let found = find_peer_index(&torrent.peers, &request.peer_id);
                if let Some(j) = found {
                    proof {
                        assert(find_peer(tpre.peers, request.peer_id@, 0) == j as int);
                        lemma_find_peer_props(tpre.peers, request.peer_id@, 0);
                    }
                    let mut peer = torrent.peers.remove(j);
                    match peer.actualize_request(request) {
                        Ok(()) => {
                            torrent.peers.insert(j, peer);
                            self.torrents.insert(i, torrent);
                            proof {
                                assert(torrent_view(self.torrents@[i as int]).peers
                                    =~= tpre.peers.update(
                                    j as int,
                                    updated_peer_model(tpre.peers[j as int], *request),
                                ));
                                assert(torrents_view(self.torrents@) =~= pre.update(
                                    i as int,
                                    TorrentModel {
                                        peers: tpre.peers.update(
                                            j as int,
                                            updated_peer_model(tpre.peers[j as int], *request),
                                        ),
                                        ..pre[i as int]
                                    },
                                ));
                            }
                            return Ok(true);
                        },
                        Err(e) => {
                            torrent.peers.insert(j, peer);
                            self.torrents.insert(i, torrent);
                            proof {
                                assert(peers_view(self.torrents@[i as int].peers@)
                                    =~= tpre.peers);
                                assert(torrent_view(self.torrents@[i as int]) == pre[i as int])
                                    by {
                                    assert(pre[i as int] == tpre);
                                }
                                assert(torrents_view(self.torrents@) =~= pre);
                                assert(tpre.peers[j as int].id == request.peer_id@);
                                assert(!event_ok(request.event@));
                                assert(receive_fold(pre, i as int, *request, has_torrent)
                                    == Err::<(Seq<TorrentModel>, bool), BitTrackerError>(e));
                                assert(receive_fold(oview, 0, *request, false) == Err::<
                                    (Seq<TorrentModel>, bool),
                                    BitTrackerError,
                                >(e));
                            }
                            return Err(e);
                        },
                    }
                } else {
                    proof {
                        assert(find_peer(tpre.peers, request.peer_id@, 0) == -1);
                    }
                    match Peer::new(request) {
                        Ok(peer) => {
                            torrent.peers.push(peer);
                            self.torrents.insert(i, torrent);
                            proof {
                                assert(torrent_view(self.torrents@[i as int]).peers
                                    =~= tpre.peers.push(new_peer_model(*request)));
                                assert(torrents_view(self.torrents@) =~= pre.update(
                                    i as int,
                                    TorrentModel {
                                        peers: tpre.peers.push(new_peer_model(*request)),
                                        ..pre[i as int]
                                    },
                                ));
                            }
                            has_torrent = true;
                        },
                        Err(e) => {
                            self.torrents.insert(i, torrent);
                            return Err(e);
                        },
                    }
                }
            }
            i += 1;
        }
        Ok(has_torrent)
    }
}

/// Law (single registration per peer): a first announce appends exactly
/// one record; announcing again with the same peer id then finds that
/// record and updates it in place, so the registry keeps a single entry
/// for the id, carrying the event, transfer counters and last-seen time
/// of the second announce.
pub proof fn lemma_duplicate_announce(peers: Seq<TPeerModel>, rq1: Request, rq2: Request)
    requires
        rq1.peer_id@ == rq2.peer_id@,
        find_peer(peers, rq1.peer_id@, 0) == -1,
        event_ok(rq1.event@),
        event_ok(rq2.event@),
    ensures
        ({
            let after_first = peers.push(new_peer_model(rq1));
            let hit = find_peer(after_first, rq2.peer_id@, 0);
            let after_second = after_first.update(hit, updated_peer_model(after_first[hit], rq2));
            &&& hit == peers.len()
            &&& after_second.len() == peers.len() + 1
            &&& after_second[peers.len() as int].id == rq1.peer_id@
            &&& after_second[peers.len() as int].event == event_val(rq2.event@)
            &&& after_second[peers.len() as int].uploaded == rq2.uploaded@
            &&& after_second[peers.len() as int].downloaded == rq2.downloaded@
            &&& after_second[peers.len() as int].left == rq2.left@
            &&& after_second[peers.len() as int].time == rq2.time
            &&& forall|q: int| 0 <= q < peers.len() ==> #[trigger] after_second[q] == peers[q]
        }),
{
    let after_first = peers.push(new_peer_model(rq1));
    lemma_find_peer_push(peers, rq1.peer_id@, 0, new_peer_model(rq1));
}

/// Scanning for an id that is absent from a list finds exactly a record
/// just appended with that id.
proof fn lemma_find_peer_push(peers: Seq<TPeerModel>, id: Seq<char>, from: int, p: TPeerModel)
    requires
        0 <= from <= peers.len(),
        find_peer(peers, id, from) == -1,
        p.id == id,
    ensures
        find_peer(peers.push(p), id, from) == peers.len(),
    decreases peers.len() - from,
{
    let pushed = peers.push(p);
    if from < peers.len() {
        assert(pushed[from] == peers[from]);
        lemma_find_peer_push(peers, id, from + 1, p);
    } else {
        assert(pushed[from] == p);
    }
}


/// The announce interval the tracker advertises, in seconds.
pub const INTERVAL: usize = 10;

/// The tracker's reply to an announce: transfer counts and the bencoded
/// peer list.
#[derive(Debug, PartialEq)]
pub struct Response {
    pub tracker_id: String,
    pub interval: usize,
    pub complete: usize,
    pub incomplete: usize,
    pub bencode_peers: Vec<Bencode>,
}

/// The dictionary a response encodes: the counts, the interval, and the
/// peer list, in that order.
pub open spec fn response_dict(complete: int, incomplete: int, peers: Seq<BValue>) -> BValue {
    BValue::Dict(
        seq![
            (bytes_of_chars("complete"@), BValue::Int(complete)),
            (bytes_of_chars("incomplete"@), BValue::Int(incomplete)),
            (bytes_of_chars("interval"@), BValue::Int(INTERVAL as int)),
            (bytes_of_chars("peers"@), BValue::List(peers)),
        ],
    )
}

impl Response {
    /// A reply with the advertised interval and the given counts and
    /// peer list.
    pub fn new(
        tracker_id: String,
        complete: usize,
        incomplete: usize,
        bencode_peers: Vec<Bencode>,
    ) -> (r: Response)
        ensures
            r.tracker_id@ == tracker_id@,
            r.interval == INTERVAL,
            r.complete == complete,
            r.incomplete == incomplete,
            r.bencode_peers@ == bencode_peers@,
    {
        Response { tracker_id, interval: INTERVAL, complete, incomplete, bencode_peers }
    }

    /// The bencoded bytes of the reply dictionary.
    pub fn bencode(&self) -> (r: Vec<u8>)
        requires
            self.complete <= i64::MAX,
            self.incomplete <= i64::MAX,
            forall|i: int|
                0 <= i < self.bencode_peers@.len() ==> encodable(
                    #[trigger] self.bencode_peers@[i],
                ),
        ensures
            r@ == encode_val(
                response_dict(
                    self.complete as int,
                    self.incomplete as int,
                    crate::bencode::views_of(self.bencode_peers@),
                ),
            ),
    {
        proof {
            reveal_strlit("complete");
            reveal_strlit("incomplete");
            reveal_strlit("interval");
            reveal_strlit("peers");
        }
        let mut peers: Vec<Bencode> = Vec::new();
        let mut k: usize = 0;
        while k < self.bencode_peers.len()
            invariant
                k <= self.bencode_peers@.len(),
                peers@.len() == k,
                forall|i: int|
                    0 <= i < self.bencode_peers@.len() ==> encodable(
                        #[trigger] self.bencode_peers@[i],
                    ),
                forall|i: int|
                    0 <= i < k ==> bview(#[trigger] peers@[i]) == bview(self.bencode_peers@[i])
                        && encodable(peers@[i]),
            decreases self.bencode_peers@.len() - k,
        {
            peers.push(self.bencode_peers[k].clone());
            k += 1;
        }
        let mut dict: Vec<(String, Bencode)> = Vec::new();
        dict.push((String::from_str("complete"), Bencode::Int(self.complete as i64)));
        dict.push((String::from_str("incomplete"), Bencode::Int(self.incomplete as i64)));
        dict.push((String::from_str("interval"), Bencode::Int(INTERVAL as i64)));
        dict.push((String::from_str("peers"), Bencode::List(peers)));
        let parser = EncodingParser;
        proof {
            assert(encodable(dict@[3].1)) by {
                crate::bencode::lemma_bview_list(dict@[3].1);
            }
        }
        let r = parser.encode_dict(dict);
        proof {
            crate::bencode::lemma_bview_list(Bencode::List(peers));
            assert(crate::bencode::views_of(peers@) =~= crate::bencode::views_of(
                self.bencode_peers@,
            ));
            assert(crate::bencode::pair_views_of(dict@) =~= response_dict(
                self.complete as int,
                self.incomplete as int,
                crate::bencode::views_of(self.bencode_peers@),
            )->Dict_0);
        }
        r
    }

    /// The HTTP reply carrying the bencoded dictionary, with its length
    /// counted in characters.
    pub fn make_message(&self) -> (r: String)
        requires
            self.complete <= i64::MAX,
            self.incomplete <= i64::MAX,
            forall|i: int|
                0 <= i < self.bencode_peers@.len() ==> encodable(
                    #[trigger] self.bencode_peers@[i],
                ),
        ensures
            ({
                let payload = encode_val(
                    response_dict(
                        self.complete as int,
                        self.incomplete as int,
                        crate::bencode::views_of(self.bencode_peers@),
                    ),
                );
                ascii_bytes(payload) ==> r@ == chars_of_bytes(
                    bytes_of_chars("HTTP/1.1 200 OK \r\nHost: 127.0.0.1:8080\r\nContent-Length:"@)
                        + crate::bencode::dec_nat(payload.len())
                        + bytes_of_chars("\r\nContent-Type: text/plain\r\n\r\n"@) + payload,
                )
            }),
    {
        proof {
            reveal_strlit("HTTP/1.1 200 OK \r\nHost: 127.0.0.1:8080\r\nContent-Length:");
            reveal_strlit("\r\nContent-Type: text/plain\r\n\r\n");
        }
        let payload = self.bencode();
        let mut ascii = true;
        let mut k: usize = 0;
        while k < payload.len()
            invariant
                k <= payload@.len(),
                ascii == forall|i: int| 0 <= i < k ==> payload@[i] < 128,
            decreases payload@.len() - k,
        {
            if payload[k] >= 128 {
                ascii = false;
            }
            k += 1;
        }
        let mut body = payload;
        if !ascii {
            // unreachable for the tracker's own replies; non-text bytes
            // are replaced so the header still counts characters
            let mut replaced: Vec<u8> = Vec::new();
            let mut q: usize = 0;
            while q < body.len()
                invariant
                    q <= body@.len(),
                    replaced@.len() == q,
                    forall|i: int| 0 <= i < q ==> #[trigger] replaced@[i] < 128,
                decreases body@.len() - q,
            {
                let b = body[q];
                replaced.push(
                    if b < 128 {
                        b
                    } else {
                        63
                    },
                );
                q += 1;
            }
            body = replaced;
        }
        assert(ascii_bytes(body@));
        let ghost gpayload = body@;
        let mut out = needle("HTTP/1.1 200 OK \r\nHost: 127.0.0.1:8080\r\nContent-Length:");
        let mut digits = crate::bencode::format_u64(body.len() as u64);
        proof {
            crate::bencode::lemma_dec_nat_ascii(body@.len());
        }
        out.append(&mut digits);
        let mut mid = needle("\r\nContent-Type: text/plain\r\n\r\n");
        out.append(&mut mid);
        out.append(&mut body);
        assert(ascii_bytes(out@));
        let r = string_from_ascii(&out);
        proof {
            lemma_bytes_chars_roundtrip(out@);
        }
        r
    }
}

/// One line of the swarm statistics: a peer, its last announce time, and
/// whether it completed its download of the named torrent.
#[derive(Debug, PartialEq, Clone)]
pub struct InfoPeer {
    pub id: String,
    pub time_last_request: String,
    pub completed: bool,
    pub torrent: String,
}

impl InfoPeer {
    /// One statistics line.
    pub fn new(id: String, time_last_request: String, completed: bool, torrent: String) -> (r:
        InfoPeer)
        ensures
            r.id@ == id@,
            r.time_last_request@ == time_last_request@,
            r.completed == completed,
            r.torrent@ == torrent@,
    {
        InfoPeer { id, time_last_request, completed, torrent }
    }
}

/// The swarm statistics: totals and one line per registered peer.
#[derive(Debug)]
pub struct Stats {
    pub cant_peers: usize,
    pub cant_seeders: usize,
    pub cant_torrents: usize,
    pub info: Vec<InfoPeer>,
}

impl Stats {
    /// The totals with their per-peer lines.
    pub fn new(cant_peers: usize, cant_seeders: usize, cant_torrents: usize, info: Vec<InfoPeer>)
        -> (r: Stats)
        ensures
            r.cant_peers == cant_peers,
            r.cant_seeders == cant_seeders,
            r.cant_torrents == cant_torrents,
            r.info@ == info@,
    {
        Stats { cant_peers, cant_seeders, cant_torrents, info }
    }
}

/// The model of one statistics line.
pub struct InfoLineModel {
    pub id: Seq<char>,
    pub time: Seq<char>,
    pub completed: bool,
    pub torrent: Seq<char>,
}

/// The model of a statistics line value.
pub open spec fn infopeer_view(i: InfoPeer) -> InfoLineModel {
    InfoLineModel {
        id: i.id@,
        time: i.time_last_request@,
        completed: i.completed,
        torrent: i.torrent@,
    }
}

/// The statistics lines of one torrent's peers: one per peer, a seeder
/// being a peer whose last event was completed; the time is rendered in
/// decimal seconds.
pub open spec fn peer_lines(ps: Seq<TPeerModel>, name: Seq<char>) -> Seq<InfoLineModel> {
    Seq::new(
        ps.len(),
        |i: int|
            InfoLineModel {
                id: ps[i].id,
                time: chars_of_bytes(crate::bencode::dec_int(ps[i].time as int)),
                completed: ps[i].event is Completed,
                torrent: name,
            },
    )
}

/// Number of seeders among a torrent's peers.
pub open spec fn seeder_count(ps: Seq<TPeerModel>, upto: int) -> int
    decreases upto,
{
    if upto <= 0 {
        0
    } else {
        seeder_count(ps, upto - 1) + if ps[upto - 1].event is Completed {
            1int
        } else {
            0int
        }
    }
}

/// The swarm totals over the registry: peers, seeders, torrents with at
/// least one peer, and the concatenated per-peer lines.
pub open spec fn stats_model(ts: Seq<TorrentModel>, upto: int) -> (int, int, int, Seq<
    InfoLineModel,
>)
    decreases upto,
{
    if upto <= 0 {
        (0, 0, 0, Seq::empty())
    } else {
        let (p, s, t, lines) = stats_model(ts, upto - 1);
        let tm = ts[upto - 1];
        (
            p + tm.peers.len(),
            s + seeder_count(tm.peers, tm.peers.len() as int),
            t + if tm.peers.len() > 0 {
                1int
            } else {
                0int
            },
            lines + peer_lines(tm.peers, tm.name),
        )
    }
}

impl BitTracker {
    /// The swarm statistics over every registered torrent and peer.
    #[verifier::loop_isolation(false)]
    pub fn get_stats(&self) -> (r: Result<Stats, BitTrackerError>)
        ensures
            r is Ok,
            ({
                let (p, s, t, lines) = stats_model(
                    torrents_view(self.torrents@),
                    self.torrents@.len() as int,
                );
                &&& r->Ok_0.cant_peers == p
                &&& r->Ok_0.cant_seeders == s
                &&& r->Ok_0.cant_torrents == t
                &&& Seq::new(
                    r->Ok_0.info@.len(),
                    |i: int| infopeer_view(r->Ok_0.info@[i]),
                ) == lines
            }),
    {
        let ghost tsv = torrents_view(self.torrents@);
        let mut cant_peers: usize = 0;
        let mut cant_seeders: usize = 0;
        let mut cant_torrents: usize = 0;
        let mut list: Vec<InfoPeer> = Vec::new();
        let mut i: usize = 0;
        while i < self.torrents.len()
            invariant
                i <= self.torrents@.len(),
                tsv == torrents_view(self.torrents@),
                list@.len() == cant_peers,
                cant_seeders <= cant_peers,
                cant_torrents <= i,
                (
                    cant_peers as int,
                    cant_seeders as int,
                    cant_torrents as int,
                    Seq::new(list@.len(), |q: int| infopeer_view(list@[q])),
                ) == stats_model(tsv, i as int),
            decreases self.torrents@.len() - i,
        {
            let torrent = &self.torrents[i];
            let ghost tm = tsv[i as int];
            let ghost pre_lines = Seq::new(list@.len(), |q: int| infopeer_view(list@[q]));
            let mut j: usize = 0;
            let peers_before = cant_peers;
            while j < torrent.peers.len()
                invariant
                    j <= torrent.peers@.len(),
                    torrent == &self.torrents@[i as int],
                    i < self.torrents@.len(),
                    tm == tsv[i as int],
                    tm.peers == peers_view(torrent.peers@),
                    tsv == torrents_view(self.torrents@),
                    cant_peers == peers_before + j,
                    list@.len() == cant_peers,
                    cant_seeders as int == stats_model(tsv, i as int).1 + seeder_count(
                        tm.peers,
                        j as int,
                    ),
                    cant_seeders <= cant_peers,
                    Seq::new(list@.len(), |q: int| infopeer_view(list@[q])) =~= pre_lines
                        + peer_lines(tm.peers, tm.name).take(j as int),
                    pre_lines == stats_model(tsv, i as int).3,
                    peers_before as int == stats_model(tsv, i as int).0,
                decreases torrent.peers@.len() - j,
            {
                let peer = &torrent.peers[j];
                let completed = match peer.event {
                    Event::Completed => true,
                    _ => false,
                };
                let time_str = crate::bencode::format_i64(peer.time_last_request);
                proof {
                    lemma_chars_bytes_roundtrip(time_str@);
                    assert(time_str@ == chars_of_bytes(
                        crate::bencode::dec_int(peer.time_last_request as int),
                    ));
                }
                let line = InfoPeer {
                    id: clone_string(&peer.id),
                    time_last_request: time_str,
                    completed,
                    torrent: clone_string(&torrent.metainfo.info.name),
                };
                let ghost gline = line;
                let ghost pre_list = list@;
                list.push(line);
                // the fresh length carries the bound for the counters
                let n = list.len();
                cant_peers = n;
                if completed {
                    cant_seeders = cant_seeders + 1;
                }
                j += 1;
                proof {
                    assert(tm.peers[j - 1] == tpeer_view(torrent.peers@[j - 1]));
                    assert(infopeer_view(gline) == peer_lines(tm.peers, tm.name)[j - 1]);
                    let pl = peer_lines(tm.peers, tm.name);
                    let old_seq = Seq::new(pre_list.len(), |t: int| infopeer_view(pre_list[t]));
                    assert(old_seq == pre_lines + pl.take(j - 1));
                    assert forall|q: int| 0 <= q < list@.len() implies Seq::new(
                        list@.len(),
                        |t: int| infopeer_view(list@[t]),
                    )[q] == (pre_lines + pl.take(j as int))[q] by {
                        if q < pre_list.len() {
                            assert(list@[q] == pre_list[q]);
                            assert(old_seq[q] == infopeer_view(pre_list[q]));
                            assert((pre_lines + pl.take(j - 1))[q] == (pre_lines + pl.take(
                                j as int,
                            ))[q]);
                        } else {
                            assert(list@[q] == gline);
                            assert((pre_lines + pl.take(j as int))[q] == pl[j - 1]);
                        }
                    }
                    assert(Seq::new(list@.len(), |q: int| infopeer_view(list@[q])) =~= pre_lines
                        + pl.take(j as int));
                }
            }
            proof {
                assert(peer_lines(tm.peers, tm.name).take(torrent.peers@.len() as int)
                    =~= peer_lines(tm.peers, tm.name));
            }
            if torrent.peers.len() > 0 {
                cant_torrents = cant_torrents + 1;
            }
            i += 1;
        }
        Ok(Stats { cant_peers, cant_seeders, cant_torrents, info: list })
    }
}



/// The dictionary a peer appears as in an announce reply: its address,
/// and its id when the requester asked for a non-compact reply.
pub open spec fn peer_entry(p: TPeerModel, include_id: bool) -> BValue {
    BValue::Dict(
        seq![
            (bytes_of_chars("ip"@), BValue::Str(vstd::utf8::encode_utf8(p.ip))),
            (bytes_of_chars("port"@), BValue::Str(vstd::utf8::encode_utf8(p.port))),
        ] + if include_id {
            seq![(bytes_of_chars("id"@), BValue::Str(vstd::utf8::encode_utf8(p.id)))]
        } else {
            Seq::empty()
        },
    )
}

/// The reply entries and counts one torrent's peers contribute: every
/// peer but the requester appears once, counted as complete when its
/// last event was completed and incomplete otherwise.
pub open spec fn entries_model(
    ps: Seq<TPeerModel>,
    requester: Seq<char>,
    include_id: bool,
    upto: int,
) -> (Seq<BValue>, int, int)
    decreases upto,
{
    if upto <= 0 {
        (Seq::empty(), 0, 0)
    } else {
        let (e, c, inc) = entries_model(ps, requester, include_id, upto - 1);
        let p = ps[upto - 1];
        if p.id == requester {
            (e, c, inc)
        } else if p.event is Completed {
            (e.push(peer_entry(p, include_id)), c + 1, inc)
        } else {
            (e.push(peer_entry(p, include_id)), c, inc + 1)
        }
    }
}

/// The reply entries and counts over the registry: every torrent with
/// the announced info-hash contributes its peers.
pub open spec fn response_model(
    ts: Seq<TorrentModel>,
    url: Seq<char>,
    requester: Seq<char>,
    include_id: bool,
    upto: int,
) -> (Seq<BValue>, int, int)
    decreases upto,
{
    if upto <= 0 {
        (Seq::empty(), 0, 0)
    } else {
        let (e, c, inc) = response_model(ts, url, requester, include_id, upto - 1);
        if ts[upto - 1].url == url {
            let (e2, c2, inc2) = entries_model(
                ts[upto - 1].peers,
                requester,
                include_id,
                ts[upto - 1].peers.len() as int,
            );
            (e + e2, c + c2, inc + inc2)
        } else {
            (e, c, inc)
        }
    }
}

/// A bencode value carrying a text field: a string when the text is
/// ASCII, its raw bytes otherwise; either way it models the text's bytes.
fn value_of_text(s: &String) -> (r: Bencode)
    ensures
        bview(r) == BValue::Str(vstd::utf8::encode_utf8(s@)),
        encodable(r),
{
    let st = s.as_str();
    if st.is_ascii() {
        proof {
            broadcast use vstd::utf8::is_ascii_chars_encode_utf8;

            assert(bytes_of_chars(s@) =~= vstd::utf8::encode_utf8(s@));
        }
        Bencode::String(clone_string(s))
    } else {
        let bytes = st.as_bytes_vec();
        Bencode::ByteString(bytes)
    }
}

impl BitTracker {
    /// The dictionary one peer appears as in a reply to the given
    /// request.
    pub fn make_dict(peer: &Peer, request: &Request) -> (r: Bencode)
        ensures
            bview(r) == peer_entry(tpeer_view(*peer), request.compact@ == "0"@),
            encodable(r),
    {
        proof {
            reveal_strlit("ip");
            reveal_strlit("port");
            reveal_strlit("id");
            reveal_strlit("0");
        }
        let mut dict: Vec<(String, Bencode)> = Vec::new();
        dict.push((String::from_str("ip"), value_of_text(&peer.ip)));
        dict.push((String::from_str("port"), value_of_text(&peer.port)));
        let include_id = str_eq(self_str(&request.compact), "0");
        if include_id {
            dict.push((String::from_str("id"), value_of_text(&peer.id)));
        }
        let r = Bencode::Dictionary(dict);
        proof {
            crate::bencode::lemma_bview_dict(r);
            assert(crate::bencode::pair_views_of(r->Dictionary_0@) =~= peer_entry(
                tpeer_view(*peer),
                request.compact@ == "0"@,
            )->Dict_0);
        }
        r
    }

    /// The reply to an announce: the requesting peer is left out of the
    /// list, everyone else appears once with the counts split between
    /// seeders and leechers.
    #[verifier::loop_isolation(false)]
    pub fn make_response(&self, request: &Request) -> (r: Result<Response, BitTrackerError>)
        ensures
            r is Ok,
            ({
                let (entries, c, inc) = response_model(
                    torrents_view(self.torrents@),
                    request.info_hash_url@,
                    request.peer_id@,
                    request.compact@ == "0"@,
                    self.torrents@.len() as int,
                );
                &&& r->Ok_0.tracker_id@ == self.id@
                &&& r->Ok_0.interval == INTERVAL
                &&& r->Ok_0.complete == c
                &&& r->Ok_0.incomplete == inc
                &&& crate::bencode::views_of(r->Ok_0.bencode_peers@) == entries
                &&& forall|q: int|
                    0 <= q < r->Ok_0.bencode_peers@.len() ==> encodable(
                        #[trigger] r->Ok_0.bencode_peers@[q],
                    )
            }),
    {
        let ghost tsv = torrents_view(self.torrents@);
        let ghost requester = request.peer_id@;
        let ghost include_id = request.compact@ == "0"@;
        let mut complete: usize = 0;
        let mut incomplete: usize = 0;
        let mut list: Vec<Bencode> = Vec::new();
        let id = clone_string(&self.id);
        let mut i: usize = 0;
        while i < self.torrents.len()
            invariant
                i <= self.torrents@.len(),
                tsv == torrents_view(self.torrents@),
                complete + incomplete == list@.len(),
                (
                    crate::bencode::views_of(list@),
                    complete as int,
                    incomplete as int,
                ) == response_model(
                    tsv,
                    request.info_hash_url@,
                    requester,
                    include_id,
                    i as int,
                ),
                forall|q: int| 0 <= q < list@.len() ==> encodable(#[trigger] list@[q]),
            decreases self.torrents@.len() - i,
        {
            let torrent = &self.torrents[i];
            let ghost tm = tsv[i as int];
            let matches_url = str_eq(
                self_str(&torrent.info_hash_url),
                self_str(&request.info_hash_url),
            );
            if matches_url {
                let ghost pre_entries = crate::bencode::views_of(list@);
                let ghost pre_c = complete as int;
                let ghost pre_inc = incomplete as int;
                let mut j: usize = 0;
                while j < torrent.peers.len()
                    invariant
                        j <= torrent.peers@.len(),
                        torrent == &self.torrents@[i as int],
                        i < self.torrents@.len(),
                        tm == tsv[i as int],
                        tm.peers == peers_view(torrent.peers@),
                        tsv == torrents_view(self.torrents@),
                        complete + incomplete == list@.len(),
                        ({
                            let (e2, c2, inc2) = entries_model(
                                tm.peers,
                                requester,
                                include_id,
                                j as int,
                            );
                            crate::bencode::views_of(list@) == pre_entries + e2 && complete as int
                                == pre_c + c2 && incomplete as int == pre_inc + inc2
                        }),
                        forall|q: int| 0 <= q < list@.len() ==> encodable(#[trigger] list@[q]),
                    decreases torrent.peers@.len() - j,
                {
                    let peer = &torrent.peers[j];
                    let ghost pre_list = list@;
                    if !str_eq(self_str(&request.peer_id), self_str(&peer.id)) {
                        let entry = Self::make_dict(peer, request);
                        let ghost gentry = entry;
                        list.push(entry);
                        proof {
                            assert(tm.peers[j as int] == tpeer_view(torrent.peers@[j as int]));
                            assert(crate::bencode::views_of(list@) =~= crate::bencode::views_of(
                                pre_list,
                            ).push(bview(gentry)));
                        }
                        // the fresh length bounds the counters
                        let n = list.len();
                        match peer.event {
                            Event::Completed => {
                                complete = complete + 1;
                            },
                            _ => {
                                incomplete = incomplete + 1;
                            },
                        }
                    }
                    j += 1;
                }
                proof {
                    assert(entries_model(
                        tm.peers,
                        requester,
                        include_id,
                        torrent.peers@.len() as int,
                    ) == entries_model(tm.peers, requester, include_id, tm.peers.len() as int));
                }
            }
            i += 1;
        }
        Ok(Response { tracker_id: id, interval: INTERVAL, complete, incomplete, bencode_peers: list })
    }

    /// The full handling of a parsed announce under one registry lock:
    /// the peer is recorded, and when any torrent matched the reply is
    /// built, the requester left out; with no matching torrent there is
    /// nothing to reply with.
    pub fn attend_announce(&mut self, request: &Request) -> (r: Result<
        Option<Response>,
        BitTrackerError,
    >)
        ensures
            match r {
                Ok(reply) => {
                    &&& receive_fold(torrents_view(old(self).torrents@), 0, *request, false)
                        == Ok::<(Seq<TorrentModel>, bool), BitTrackerError>(
                        (torrents_view(final(self).torrents@), reply is Some),
                    )
                    &&& final(self).id@ == old(self).id@
                    &&& reply matches Some(resp) ==> {
                        let (entries, c, inc) = response_model(
                            torrents_view(final(self).torrents@),
                            request.info_hash_url@,
                            request.peer_id@,
                            request.compact@ == "0"@,
                            final(self).torrents@.len() as int,
                        );
                        &&& resp.tracker_id@ == old(self).id@
                        &&& resp.interval == INTERVAL
                        &&& resp.complete == c
                        &&& resp.incomplete == inc
                        &&& crate::bencode::views_of(resp.bencode_peers@) == entries
                    }
                },
                Err(e) => receive_fold(torrents_view(old(self).torrents@), 0, *request, false)
                    is Err,
            },
    {
        let has_torrent = match self.receive_request(request) {
            Ok(b) => b,
            Err(e) => {
                return Err(e);
            },
        };
        if has_torrent {
            match self.make_response(request) {
                Ok(resp) => Ok(Some(resp)),
                Err(e) => Err(e),
            }
        } else {
            Ok(None)
        }
    }
}



/// A byte with any ASCII capital letter lowered.
pub open spec fn lower_byte(b: u8) -> u8 {
    if 65 <= b <= 90 {
        (b + 32) as u8
    } else {
        b
    }
}

/// The text with every ASCII capital letter lowered.
pub open spec fn lower_bytes(s: Seq<u8>) -> Seq<u8> {
    s.map_values(|b: u8| lower_byte(b))
}

/// Whether the needle occurs somewhere in the haystack.
pub open spec fn contains_seq(h: Seq<u8>, n: Seq<u8>) -> bool {
    exists|k: int| 0 <= k <= h.len() - n.len() && #[trigger] h.subrange(k, k + n.len() as int) == n
}

/// Lowers every ASCII capital letter of a buffer.
fn to_lower(v: &Vec<u8>) -> (r: Vec<u8>)
    ensures
        r@ == lower_bytes(v@),
{
    let mut out: Vec<u8> = Vec::new();
    let mut k: usize = 0;
    while k < v.len()
        invariant
            k <= v@.len(),
            out@.len() == k,
            forall|i: int| 0 <= i < k ==> #[trigger] out@[i] == lower_byte(v@[i]),
        decreases v@.len() - k,
    {
        let b = v[k];
        out.push(
            if 65 <= b && b <= 90 {
                b + 32
            } else {
                b
            },
        );
        k += 1;
    }
    proof {
        assert(out@ =~= lower_bytes(v@));
    }
    out
}

/// Whether the needle occurs somewhere in the haystack.
#[verifier::loop_isolation(false)]
fn contains_bytes(h: &Vec<u8>, n: &Vec<u8>) -> (r: bool)
    ensures
        r == contains_seq(h@, n@),
{
    if n.len() > h.len() {
        proof {
            assert(!contains_seq(h@, n@));
        }
        return false;
    }
    let last = h.len() - n.len();
    let mut k: usize = 0;
    while k <= last
        invariant
            k <= last + 1,
            forall|t: int| 0 <= t < k ==> #[trigger] h@.subrange(t, t + n@.len() as int) != n@,
        decreases last - k + 1,
    {
        let mut q: usize = 0;
        let mut matches = true;
        while q < n.len()
            invariant
                q <= n@.len(),
                k + n@.len() <= h@.len(),
                matches == (forall|t: int| 0 <= t < q ==> h@[k + t] == n@[t]),
            decreases n@.len() - q,
        {
            if h[k + q] != n[q] {
                proof {
                    assert(h@[k + q] != n@[q as int]);
                }
                matches = false;
                q = n.len();
            } else {
                q += 1;
            }
        }
        if matches {
            proof {
                assert(h@.subrange(k as int, k + n@.len()) =~= n@);
            }
            return true;
        }
        proof {
            assert(h@.subrange(k as int, k + n@.len()) != n@) by {
                let w = choose|t: int| 0 <= t < n@.len() && h@[k + t] != n@[t];
                assert(h@.subrange(k as int, k + n@.len())[w] != n@[w]);
            }
        }
        k += 1;
    }
    proof {
        assert(!contains_seq(h@, n@));
    }
    false
}

/// Where the tracker routes a request line.
#[derive(Debug, PartialEq, Eq, Structural)]
pub enum Endpoint {
    Announce,
    Stats,
    End,
    BadRequest,
}

/// The endpoint a lowered request head names.
pub open spec fn endpoint_of(head: Seq<u8>) -> Endpoint {
    if contains_seq(head, bytes_of_chars("announce"@)) {
        Endpoint::Announce
    } else if contains_seq(head, bytes_of_chars("stats"@)) {
        Endpoint::Stats
    } else if contains_seq(head, bytes_of_chars("end"@)) {
        Endpoint::End
    } else {
        Endpoint::BadRequest
    }
}

impl BitTracker {
    /// Routes a request line: the text before any `?` is lowered and
    /// searched for an endpoint name.
    pub fn match_endpoint(message: String) -> (r: Result<Endpoint, BitTrackerError>)
        ensures
            r is Ok,
            r->Ok_0 == endpoint_of(
                split_at(lower_bytes(vstd::utf8::encode_utf8(message@)), 0, 63)[0],
            ),
    {
        proof {
            reveal_strlit("announce");
            reveal_strlit("stats");
            reveal_strlit("end");
        }
        let bytes = message.as_str().as_bytes_vec();
        let lowered = to_lower(&bytes);
        let segs = split_from(&lowered, 0, 63);
        let head = &segs[0];
        proof {
            assert(head@ == split_at(lower_bytes(bytes@), 0, 63)[0]);
        }
        if contains_bytes(head, &needle("announce")) {
            Ok(Endpoint::Announce)
        } else if contains_bytes(head, &needle("stats")) {
            Ok(Endpoint::Stats)
        } else if contains_bytes(head, &needle("end")) {
            Ok(Endpoint::End)
        } else {
            Ok(Endpoint::BadRequest)
        }
    }
}


} // verus!
