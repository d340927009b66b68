//! Tracker announce client: builds the HTTP announce line for a torrent
//! and reads the bencoded peer list out of the tracker's reply. The
//! network round trip itself lives outside; this module produces the
//! request bytes and interprets the response bytes.

use vstd::prelude::*;

use crate::bencode::{bview, dec_int, format_i64, normalized, parse_top, Bencode, DecodingParser};
use crate::peer::Peer;
use crate::strutil::{
    ascii_bytes, ascii_str, bytes_of_chars, chars_of_bytes, lemma_bytes_chars_roundtrip,
    lemma_chars_bytes_roundtrip, string_from_ascii,
};
use crate::urlencode::{urlencode_bytes, URLEncoder};
use vstd::string::{StrSliceExecFns, StringSliceAdditionalSpecFns};

verus! {

#[derive(Debug, PartialEq, Eq, Structural)]
pub enum TrackerError {
    WriteConnectionError,
    ReadConnectionError,
    FailToConnectError,
    URLEncodingError,
    InvalidSyntaxError,
    RequestError,
}

impl TrackerError {
    /// Human-readable description of the error.
    pub fn message(&self) -> (r: String)
        ensures
            self is FailToConnectError ==> r@ == "No se pudo establecer la conexion"@,
            self is InvalidSyntaxError ==> r@ == "No se pudo parsear el diccionario"@,
    {
        match self {
            TrackerError::WriteConnectionError => String::from_str(
                "No se pudo escribir en la conexion",
            ),
            TrackerError::ReadConnectionError => String::from_str(
                "No se pudo leer desde la conexion",
            ),
            TrackerError::FailToConnectError => String::from_str(
                "No se pudo establecer la conexion",
            ),
            TrackerError::URLEncodingError => String::from_str(
                "No se pudo encodear en formato URL el valor recibido",
            ),
            TrackerError::InvalidSyntaxError => String::from_str(
                "No se pudo parsear el diccionario",
            ),
            TrackerError::RequestError => String::from_str("No se pudo realizar la request"),
        }
    }
}

/// Position just past the last CRLF of a reply, minus one: the index of
/// the newline that separates the headers from the bencoded body.
pub open spec fn last_crlf(s: Seq<u8>) -> int
    decreases s.len(),
{
    if s.len() < 2 {
        -1
    } else if s[s.len() - 2] == 13 && s[s.len() - 1] == 10 {
        s.len() - 2
    } else {
        last_crlf(s.drop_last())
    }
}

/// An announce to send: the torrent's identity, our peer identity, the
/// port we serve on, and the tracker's protocol and host from its URL.
#[derive(Debug, PartialEq, Clone)]
pub struct TrackerRequest {
    pub info_hash: Vec<u8>,
    pub peer_id: String,
    pub port_to_peers: String,
    pub protocol: String,
    pub host: String,
}

/// The scheme of a URL: the text before the first colon of the part
/// before the first slash.
pub open spec fn url_protocol(url: Seq<u8>) -> Seq<u8> {
    let head = crate::tracker::split_at(url, 0, 47)[0];
    crate::tracker::split_at(head, 0, 58)[0]
}

/// The host of a URL: the text before the first colon of the third
/// slash-separated part (`scheme://host:port/...`).
pub open spec fn url_host(url: Seq<u8>) -> Seq<u8> {
    let part = crate::tracker::split_at(url, 0, 47)[2];
    crate::tracker::split_at(part, 0, 58)[0]
}

impl TrackerRequest {
    /// An announce for a torrent, addressed by its tracker URL: the
    /// scheme picks the transport and the host names the tracker.
    pub fn new(info_hash: Vec<u8>, peer_id: String, port_to_peers: String, url: String) -> (r:
        TrackerRequest)
        requires
            ascii_str(url@),
            crate::tracker::split_at(bytes_of_chars(url@), 0, 47).len() >= 3,
        ensures
            r.info_hash@ == info_hash@,
            r.peer_id@ == peer_id@,
            r.port_to_peers@ == port_to_peers@,
            bytes_of_chars(r.protocol@) == url_protocol(bytes_of_chars(url@)),
            bytes_of_chars(r.host@) == url_host(bytes_of_chars(url@)),
    {
        proof {
            lemma_chars_bytes_roundtrip(url@);
        }
        let url_str = url.as_str();
        proof {
            broadcast use vstd::string::is_ascii_spec_bytes;

            assert(url_str.is_ascii());
        }
        let bytes = url_str.as_bytes_vec();
        proof {
            assert(bytes@ =~= bytes_of_chars(url@));
        }
        let announce = crate::tracker::split_bytes(&bytes, 47);
        proof {
            crate::tracker::lemma_split_at_ascii(bytes@, 0, 47);
            assert(announce@[0]@ == crate::tracker::seg_views(announce@)[0]);
            assert(announce@[2]@ == crate::tracker::seg_views(announce@)[2]);
            assert(ascii_bytes(announce@[0]@));
            assert(ascii_bytes(announce@[2]@));
        }
        let head = crate::tracker::split_bytes(&announce[0], 58);
        let hostpart = crate::tracker::split_bytes(&announce[2], 58);
        proof {
            crate::tracker::lemma_split_at_ascii(announce@[0]@, 0, 58);
            crate::tracker::lemma_split_at_ascii(announce@[2]@, 0, 58);
            assert(head@[0]@ == crate::tracker::seg_views(head@)[0]);
            assert(hostpart@[0]@ == crate::tracker::seg_views(hostpart@)[0]);
            assert(ascii_bytes(head@[0]@));
            assert(ascii_bytes(hostpart@[0]@));
        }
        let protocol = string_from_ascii(&head[0]);
        let host = string_from_ascii(&hostpart[0]);
        proof {
            lemma_bytes_chars_roundtrip(head@[0]@);
            lemma_bytes_chars_roundtrip(hostpart@[0]@);
        }
        TrackerRequest { info_hash, peer_id, port_to_peers, protocol, host }
    }

    /// The query string of an announce: the pairs joined with `&`, the
    /// HTTP request line around them, and the host header.
    #[verifier::loop_isolation(false)]
    pub fn join_parameter_request(parameters: Vec<(Vec<u8>, Vec<u8>)>, host: &Vec<u8>) -> (r: Vec<
        u8,
    >)
        ensures
            r@ == bytes_of_chars("GET /announce?"@) + joined_params(
                Seq::new(parameters@.len(), |i: int| (parameters@[i].0@, parameters@[i].1@)),
                parameters@.len() as int,
            ) + bytes_of_chars(" HTTP/1.0\r\nHost: "@) + host@ + bytes_of_chars("\r\n\r\n"@),
    {
        proof {
            reveal_strlit("GET /announce?");
            reveal_strlit(" HTTP/1.0\r\nHost: ");
            reveal_strlit("\r\n\r\n");
            reveal_strlit("=");
            reveal_strlit("&");
        }
        let ghost pv = Seq::new(
            parameters@.len(),
            |i: int| (parameters@[i].0@, parameters@[i].1@),
        );
        let mut out = ascii_lit("GET /announce?");
        proof {
            assert(out@ =~= bytes_of_chars("GET /announce?"@) + joined_params(pv, 0));
        }
        let mut k: usize = 0;
        while k < parameters.len()
            invariant
                k <= parameters@.len(),
                pv == Seq::new(
                    parameters@.len(),
                    |i: int| (parameters@[i].0@, parameters@[i].1@),
                ),
                out@ == bytes_of_chars("GET /announce?"@) + joined_params(pv, k as int),
            decreases parameters@.len() - k,
        {
            let ghost pre = out@;
            if k > 0 {
                out.push(38);
            }
            append_copy(&mut out, &parameters[k].0);
            out.push(61);
            append_copy(&mut out, &parameters[k].1);
            proof {
                assert(out@ =~= bytes_of_chars("GET /announce?"@) + joined_params(
                    pv,
                    k as int + 1,
                ));
            }
            k += 1;
        }
        let mut tail = ascii_lit(" HTTP/1.0\r\nHost: ");
        out.append(&mut tail);
        append_copy(&mut out, host);
        let mut crlf = ascii_lit("\r\n\r\n");
        out.append(&mut crlf);
        proof {
            assert(out@ =~= bytes_of_chars("GET /announce?"@) + joined_params(
                pv,
                parameters@.len() as int,
            ) + bytes_of_chars(" HTTP/1.0\r\nHost: "@) + host@ + bytes_of_chars("\r\n\r\n"@));
        }
        out
    }

    /// The full announce line for this request: the URL-encoded
    /// info-hash and peer id, our address data, fresh transfer counters
    /// and the started event, joined into the HTTP request.
    pub fn generate_tracker_request(&self) -> (r: Result<Vec<u8>, TrackerError>)
        ensures
            r is Ok,
            r->Ok_0@ == bytes_of_chars("GET /announce?"@) + joined_params(
                announce_params(*self),
                announce_params(*self).len() as int,
            ) + bytes_of_chars(" HTTP/1.0\r\nHost: "@) + vstd::utf8::encode_utf8(self.host@)
                + bytes_of_chars("\r\n\r\n"@),
    {
        proof {
            reveal_strlit("info_hash");
            reveal_strlit("peer_id");
            reveal_strlit("ip");
            reveal_strlit("port");
            reveal_strlit("uploaded");
            reveal_strlit("downloaded");
            reveal_strlit("left");
            reveal_strlit("event");
            reveal_strlit("186.189.238.5");
            reveal_strlit("0");
            reveal_strlit("started");
        }
        let info_url = match (URLEncoder).urlencode(
            crate::strutil::copy_bytes_range(&self.info_hash, 0, self.info_hash.len()),
        ) {
            Ok(u) => u,
            Err(e) => {
                proof {
                    assert(false);
                }
                String::new()
            },
        };
        let id_bytes = string_bytes(&self.peer_id);
        let id_url = match (URLEncoder).urlencode(id_bytes) {
            Ok(u) => u,
            Err(e) => {
                proof {
                    assert(false);
                }
                String::new()
            },
        };
        proof {
            crate::urlencode::lemma_urlencode_ascii(self.info_hash@);
            crate::urlencode::lemma_urlencode_ascii(
                vstd::utf8::encode_utf8(self.peer_id@),
            );
            assert(self.info_hash@.subrange(0, self.info_hash@.len() as int)
                =~= self.info_hash@);
        }
        let mut parameters: Vec<(Vec<u8>, Vec<u8>)> = Vec::new();
        parameters.push((ascii_lit("info_hash"), string_bytes(&info_url)));
        parameters.push((ascii_lit("peer_id"), string_bytes(&id_url)));
        parameters.push((ascii_lit("ip"), ascii_lit("186.189.238.5")));
        parameters.push((ascii_lit("port"), string_bytes(&self.port_to_peers)));
        parameters.push((ascii_lit("uploaded"), ascii_lit("0")));
        parameters.push((ascii_lit("downloaded"), ascii_lit("0")));
        parameters.push((ascii_lit("left"), ascii_lit("0")));
        parameters.push((ascii_lit("event"), ascii_lit("started")));
        let host = string_bytes(&self.host);
        let r = Self::join_parameter_request(parameters, &host);
        proof {
            lemma_bytes_chars_roundtrip(urlencode_bytes(self.info_hash@));
            lemma_bytes_chars_roundtrip(urlencode_bytes(vstd::utf8::encode_utf8(self.peer_id@)));
            let got = Seq::new(parameters@.len(), |i: int| (parameters@[i].0@, parameters@[i].1@));
            let want = announce_params(*self);
            assert(got.len() == want.len());
            assert(ascii_str(info_url@) && ascii_str(id_url@));
            crate::strutil::lemma_ascii_encode("186.189.238.5"@);
            crate::strutil::lemma_ascii_encode("0"@);
            crate::strutil::lemma_ascii_encode("started"@);
            crate::strutil::lemma_ascii_encode(info_url@);
            crate::strutil::lemma_ascii_encode(id_url@);
            assert(got[0] == want[0]);
            assert(got[1] == want[1]);
            assert(got[2] == want[2]);
            assert(got[3] == want[3]);
            assert(got[4] == want[4]);
            assert(got[5] == want[5]);
            assert(got[6] == want[6]);
            assert(got[7] == want[7]);
            assert(got =~= want);
        }
        Ok(r)
    }

    /// Index of the newline closing the last header line: the byte just
    /// before it is the carriage return of the last CRLF; the bencoded
    /// body starts right after. With no CRLF at all the index is one.
    #[verifier::loop_isolation(false)]
    pub fn index(vec: Vec<u8>) -> (r: usize)
        ensures
            last_crlf(vec@) >= 0 ==> r as int == last_crlf(vec@) + 1,
            last_crlf(vec@) < 0 ==> r == 1,
    {
        let mut k: usize = vec.len();
        proof {
            assert(vec@.take(vec@.len() as int) =~= vec@);
        }
        while k >= 2
            invariant
                k <= vec@.len(),
                last_crlf(vec@) == last_crlf(vec@.take(k as int)),
            decreases k,
        {
            if vec[k - 2] == 13 && vec[k - 1] == 10 {
                proof {
                    assert(vec@.take(k as int).len() == k);
                    assert(vec@.take(k as int)[k - 2] == 13 && vec@.take(k as int)[k - 1] == 10);
                }
                return k - 1;
            }
            proof {
                assert(vec@.take(k as int).drop_last() =~= vec@.take(k as int - 1));
            }
            k -= 1;
        }
        proof {
            assert(last_crlf(vec@.take(k as int)) == -1);
        }
        1
    }
}

/// The query pairs joined with ampersands, each as `key=value`.
pub open spec fn joined_params(pv: Seq<(Seq<u8>, Seq<u8>)>, upto: int) -> Seq<u8>
    decreases upto,
{
    if upto <= 0 {
        Seq::empty()
    } else if upto == 1 {
        pv[0].0 + bytes_of_chars("="@) + pv[0].1
    } else {
        joined_params(pv, upto - 1) + bytes_of_chars("&"@) + pv[upto - 1].0 + bytes_of_chars("="@)
            + pv[upto - 1].1
    }
}

/// The bytes of a text, as sent on the wire.
pub open spec fn chars_to_bytes_of(chars: Seq<char>) -> Seq<u8> {
    bytes_of_chars(chars)
}

/// The parameters of an announce, in the order they are sent.
pub open spec fn announce_param_list(t: TrackerRequest) -> Seq<(Seq<char>, Seq<char>)> {
    seq![
        ("info_hash"@, chars_of_bytes(urlencode_bytes(t.info_hash@))),
        ("peer_id"@, chars_of_bytes(urlencode_bytes(vstd::utf8::encode_utf8(t.peer_id@)))),
        ("ip"@, "186.189.238.5"@),
        ("port"@, t.port_to_peers@),
        ("uploaded"@, "0"@),
        ("downloaded"@, "0"@),
        ("left"@, "0"@),
        ("event"@, "started"@),
    ]
}

/// The parameters of an announce as wire bytes: ASCII keys, UTF-8 values.
pub open spec fn announce_params(t: TrackerRequest) -> Seq<(Seq<u8>, Seq<u8>)> {
    Seq::new(
        announce_param_list(t).len(),
        |i: int|
            (
                bytes_of_chars(announce_param_list(t)[i].0),
                vstd::utf8::encode_utf8(announce_param_list(t)[i].1),
            ),
    )
}

/// The byte text of an ASCII literal.
fn ascii_lit(lit: &str) -> (r: Vec<u8>)
    requires
        ascii_str(lit@),
    ensures
        r@ == bytes_of_chars(lit@),
{
    proof {
        broadcast use vstd::string::is_ascii_spec_bytes;

        assert(lit.is_ascii());
    }
    let r = lit.as_bytes_vec();
    proof {
        assert(r@ =~= bytes_of_chars(lit@));
    }
    r
}

/// The UTF-8 bytes of a string.
fn string_bytes(s: &String) -> (r: Vec<u8>)
    ensures
        r@ == vstd::utf8::encode_utf8(s@),
        ascii_str(s@) ==> r@ == bytes_of_chars(s@),
{
    let st = s.as_str();
    let r = st.as_bytes_vec();
    proof {
        if ascii_str(s@) {
            broadcast use vstd::string::is_ascii_spec_bytes;

            assert(st.is_ascii());
            assert(r@ =~= bytes_of_chars(s@));
        }
    }
    r
}

/// Appends a copy of a buffer.
fn append_copy(out: &mut Vec<u8>, extra: &Vec<u8>)
    ensures
        final(out)@ == old(out)@ + extra@,
{
    let mut k: usize = 0;
    while k < extra.len()
        invariant
            k <= extra@.len(),
            out@ == old(out)@ + extra@.take(k as int),
        decreases extra@.len() - k,
    {
        out.push(extra[k]);
        assert(out@ =~= old(out)@ + extra@.take(k as int + 1));
        k += 1;
    }
    assert(out@ =~= old(out)@ + extra@);
}


/// The fields of one peer in a tracker reply.
pub struct PeerEntryModel {
    pub id: Seq<char>,
    pub ip: Seq<char>,
    pub port: Seq<char>,
}

/// The model of a reply: the three counters as text and the peer list.
pub struct TrackerResponseModel {
    pub interval: Seq<char>,
    pub complete: Seq<char>,
    pub incomplete: Seq<char>,
    pub peers: Seq<PeerEntryModel>,
}

/// The tracker's reply to an announce, as the client reads it.
#[derive(Debug, PartialEq, Clone)]
pub struct TrackerResponse {
    pub interval: String,
    pub complete: String,
    pub incomplete: String,
    pub peers: Vec<Peer>,
}

/// The model of a reply value.
pub open spec fn tresp_view(t: TrackerResponse) -> TrackerResponseModel {
    TrackerResponseModel {
        interval: t.interval@,
        complete: t.complete@,
        incomplete: t.incomplete@,
        peers: Seq::new(
            t.peers@.len(),
            |i: int|
                PeerEntryModel {
                    id: t.peers@[i].id@,
                    ip: t.peers@[i].ip@,
                    port: t.peers@[i].port@,
                },
        ),
    }
}

/// What one entry of a peer dictionary does to the fields carried so far:
/// text values fill `peer id`, `ip` and `port`; an integer fills `port`
/// with its decimal text; anything else is skipped.
pub open spec fn peer_field_step(c: PeerEntryModel, key: Seq<char>, v: Bencode) -> PeerEntryModel {
    match v {
        Bencode::String(s) => if key == "peer id"@ {
            PeerEntryModel { id: s@, ..c }
        } else if key == "ip"@ {
            PeerEntryModel { ip: s@, ..c }
        } else if key == "port"@ {
            PeerEntryModel { port: s@, ..c }
        } else {
            c
        },
        Bencode::Int(n) => if key == "port"@ {
            PeerEntryModel { port: chars_of_bytes(dec_int(n as int)), ..c }
        } else {
            c
        },
        _ => c,
    }
}

/// Reading the entries of one peer dictionary in order.
pub open spec fn peer_fields_fold(d: Seq<(String, Bencode)>, i: int, c: PeerEntryModel)
    -> PeerEntryModel
    decreases d.len() - i,
{
    if i < 0 || i >= d.len() {
        c
    } else {
        peer_fields_fold(d, i + 1, peer_field_step(c, d[i].0@, d[i].1))
    }
}

/// Reading a peer list: each dictionary item updates the carried fields
/// and appends one peer with them; other items are skipped. Fields not
/// set by an item carry over from the one before.
pub open spec fn peers_fold(
    items: Seq<Bencode>,
    i: int,
    c: PeerEntryModel,
    acc: Seq<PeerEntryModel>,
) -> Seq<PeerEntryModel>
    decreases items.len() - i,
{
    if i < 0 || i >= items.len() {
        acc
    } else {
        match items[i] {
            Bencode::Dictionary(d) => {
                let c2 = peer_fields_fold(d@, 0, c);
                peers_fold(items, i + 1, c2, acc.push(c2))
            },
            _ => peers_fold(items, i + 1, c, acc),
        }
    }
}

/// The empty carried fields a peer list starts from.
pub open spec fn empty_entry() -> PeerEntryModel {
    PeerEntryModel { id: Seq::empty(), ip: Seq::empty(), port: Seq::empty() }
}

/// What one reply-dictionary entry does: `interval`, `complete` and
/// `incomplete` take an integer's decimal text; any list becomes the peer
/// list; anything else is ignored.
pub open spec fn tresp_step(m: TrackerResponseModel, key: Seq<char>, v: Bencode)
    -> TrackerResponseModel {
    match v {
        Bencode::Int(n) => if key == "interval"@ {
            TrackerResponseModel { interval: chars_of_bytes(dec_int(n as int)), ..m }
        } else if key == "complete"@ {
            TrackerResponseModel { complete: chars_of_bytes(dec_int(n as int)), ..m }
        } else if key == "incomplete"@ {
            TrackerResponseModel { incomplete: chars_of_bytes(dec_int(n as int)), ..m }
        } else {
            m
        },
        Bencode::List(l) => TrackerResponseModel {
            peers: peers_fold(l@, 0, empty_entry(), Seq::empty()),
            ..m
        },
        _ => m,
    }
}

/// Reading a reply dictionary in order.
pub open spec fn tresp_fold(d: Seq<(String, Bencode)>, i: int, m: TrackerResponseModel)
    -> TrackerResponseModel
    decreases d.len() - i,
{
    if i < 0 || i >= d.len() {
        m
    } else {
        tresp_fold(d, i + 1, tresp_step(m, d[i].0@, d[i].1))
    }
}

/// The empty reply the reading starts from.
pub open spec fn empty_tresp() -> TrackerResponseModel {
    TrackerResponseModel {
        interval: Seq::empty(),
        complete: Seq::empty(),
        incomplete: Seq::empty(),
        peers: Seq::empty(),
    }
}

impl Default for TrackerResponse {
    /// An empty reply.
    fn default() -> (r: Self)
        ensures
            tresp_view(r) == empty_tresp(),
    {
        Self::new()
    }
}

impl TrackerResponse {
    /// An empty reply.
    pub fn new() -> (r: TrackerResponse)
        ensures
            tresp_view(r) == empty_tresp(),
    {
        let r = TrackerResponse {
            interval: String::new(),
            complete: String::new(),
            incomplete: String::new(),
            peers: Vec::new(),
        };
        proof {
            assert(tresp_view(r).peers =~= empty_tresp().peers);
        }
        r
    }

    /// Reads a reply out of its bencoded bytes: the body must decode to a
    /// value, whose dictionary entries fill the counters and the peer
    /// list.
    #[verifier::loop_isolation(false)]
    pub fn from(&mut self, vec: Vec<u8>) -> (r: Result<TrackerResponse, TrackerError>)
        ensures
            *final(self) == *old(self),
            match r {
                Ok(resp) => parse_top(vec@) matches Some(model) && (exists|b: Bencode|
                    {
                        &&& normalized(b)
                        &&& parse_top(vec@) == Some(#[trigger] bview(b))
                        &&& tresp_view(resp) == (match b {
                            Bencode::Dictionary(d) => tresp_fold(d@, 0, empty_tresp()),
                            _ => empty_tresp(),
                        })
                    }),
                Err(e) => parse_top(vec@) is None && e == TrackerError::InvalidSyntaxError,
            },
    {
        let parser = DecodingParser;
        let decoded = match parser.decode_from_u8(vec) {
            Ok(v) => v,
            Err(e) => {
                return Err(TrackerError::InvalidSyntaxError);
            },
        };
        let ghost gb = decoded;
        let mut response = TrackerResponse::new();
        match decoded {
            Bencode::Dictionary(dict) => {
                proof {
                    reveal_strlit("interval");
                    reveal_strlit("complete");
                    reveal_strlit("incomplete");
                }
                let needle_interval = String::from_str("interval");
                let needle_complete = String::from_str("complete");
                let needle_incomplete = String::from_str("incomplete");
                let mut dict = dict;
                let n0 = dict.len();
                let ghost odict = dict@;
                let mut k_done: usize = 0;
                while dict.len() > 0
                    invariant
                        odict.len() == n0 as int,
                        odict.len() - dict@.len() == k_done,
                        dict@ =~= odict.subrange(k_done as int, odict.len() as int),
                        tresp_fold(odict, 0, empty_tresp()) == tresp_fold(
                            odict,
                            k_done as int,
                            tresp_view(response),
                        ),
                    decreases dict@.len(),
                {
                    let ghost before = tresp_view(response);
                    let (key, value) = dict.remove(0);
                    let ghost gkey = key;
                    let ghost gv = value;
                    proof {
                        assert(odict[k_done as int] == (key, value));
                    }
                    match value {
                        Bencode::Int(num) => {
                            let text = format_i64(num);
                            proof {
                                lemma_chars_bytes_roundtrip(text@);
                            }
                            if key == needle_interval {
                                response.interval = text;
                            } else if key == needle_complete {
                                response.complete = text;
                            } else if key == needle_incomplete {
                                response.incomplete = text;
                            }
                        },
                        Bencode::List(l) => {
                            response.peers = Self::read_peers(l);
                        },
                        _ => {},
                    }
                    k_done += 1;
                    proof {
                        assert(tresp_step(before, gkey@, gv) == tresp_view(response));
                        assert(tresp_fold(odict, k_done - 1, before) == tresp_fold(
                            odict,
                            k_done as int,
                            tresp_view(response),
                        ));
                    }
                }
            },
            _ => {},
        }
        Ok(response)
    }

    /// Reads the peers out of a decoded peer list: each dictionary item
    /// fills in whichever fields it carries and contributes one peer.
    #[verifier::loop_isolation(false)]
    pub fn read_peers(list: Vec<Bencode>) -> (r: Vec<Peer>)
        ensures
            Seq::new(
                r@.len(),
                |i: int|
                    PeerEntryModel { id: r@[i].id@, ip: r@[i].ip@, port: r@[i].port@ },
            ) == peers_fold(list@, 0, empty_entry(), Seq::empty()),
            forall|i: int|
                0 <= i < r@.len() ==> (#[trigger] r@[i]).bitfield@.len() == 0 && !r@[i].choked
                    && !r@[i].interested,
    {
        proof {
            reveal_strlit("peer id");
            reveal_strlit("ip");
            reveal_strlit("port");
        }
        let needle_id = String::from_str("peer id");
        let needle_ip = String::from_str("ip");
        let needle_port = String::from_str("port");
        let mut id = String::new();
        let mut ip = String::new();
        let mut port = String::new();
        let mut peers: Vec<Peer> = Vec::new();
        let mut list = list;
        let n0 = list.len();
        let ghost olist = list@;
        let mut k_done: usize = 0;
        proof {
            assert(Seq::new(
                peers@.len(),
                |i: int|
                    PeerEntryModel {
                        id: peers@[i].id@,
                        ip: peers@[i].ip@,
                        port: peers@[i].port@,
                    },
            ) =~= Seq::<PeerEntryModel>::empty());
            assert(PeerEntryModel { id: id@, ip: ip@, port: port@ } == empty_entry());
        }
        while list.len() > 0
            invariant
                olist.len() == n0 as int,
                olist.len() - list@.len() == k_done,
                list@ =~= olist.subrange(k_done as int, olist.len() as int),
                peers_fold(olist, 0, empty_entry(), Seq::empty()) == peers_fold(
                    olist,
                    k_done as int,
                    PeerEntryModel { id: id@, ip: ip@, port: port@ },
                    Seq::new(
                        peers@.len(),
                        |i: int|
                            PeerEntryModel {
                                id: peers@[i].id@,
                                ip: peers@[i].ip@,
                                port: peers@[i].port@,
                            },
                    ),
                ),
                forall|i: int|
                    0 <= i < peers@.len() ==> (#[trigger] peers@[i]).bitfield@.len() == 0
                        && !peers@[i].choked && !peers@[i].interested,
            decreases list@.len(),
        {
            let ghost carry_before = PeerEntryModel { id: id@, ip: ip@, port: port@ };
            let ghost acc_before = Seq::new(
                peers@.len(),
                |i: int|
                    PeerEntryModel {
                        id: peers@[i].id@,
                        ip: peers@[i].ip@,
                        port: peers@[i].port@,
                    },
            );
            let item = list.remove(0);
            let ghost gitem = item;
            proof {
                assert(olist[k_done as int] == item);
            }
            if let Bencode::Dictionary(entries) = item {
                let mut entries = entries;
                let m0 = entries.len();
                let ghost oentries = entries@;
                let mut q_done: usize = 0;
                while entries.len() > 0
                    invariant
                        oentries.len() == m0 as int,
                        oentries.len() - entries@.len() == q_done,
                        entries@ =~= oentries.subrange(q_done as int, oentries.len() as int),
                        peer_fields_fold(oentries, 0, carry_before) == peer_fields_fold(
                            oentries,
                            q_done as int,
                            PeerEntryModel { id: id@, ip: ip@, port: port@ },
                        ),
                    decreases entries@.len(),
                {
                    let ghost c_before = PeerEntryModel { id: id@, ip: ip@, port: port@ };
                    let (key, value) = entries.remove(0);
                    let ghost gkey = key;
                    let ghost gval = value;
                    proof {
                        assert(oentries[q_done as int] == (key, value));
                    }
                    match value {
                        Bencode::String(sv) => {
                            if key == needle_id {
                                id = sv;
                            } else if key == needle_ip {
                                ip = sv;
                            } else if key == needle_port {
                                port = sv;
                            }
                        },
                        Bencode::Int(num) => {
                            if key == needle_port {
                                let text = format_i64(num);
                                proof {
                                    lemma_chars_bytes_roundtrip(text@);
                                }
                                port = text;
                            }
                        },
                        _ => {},
                    }
                    q_done += 1;
                    proof {
                        assert(peer_field_step(c_before, gkey@, gval) == (PeerEntryModel {
                            id: id@,
                            ip: ip@,
                            port: port@,
                        }));
                        assert(peer_fields_fold(oentries, q_done - 1, c_before)
                            == peer_fields_fold(
                            oentries,
                            q_done as int,
                            PeerEntryModel { id: id@, ip: ip@, port: port@ },
                        ));
                    }
                }
                let peer = Peer::new(clone_text(&id), clone_text(&ip), clone_text(&port));
                let ghost gpeer = peer;
                peers.push(peer);
                proof {
                    assert(gitem->Dictionary_0@ == oentries);
                    assert(peer_fields_fold(oentries, 0, carry_before) == (PeerEntryModel {
                        id: id@,
                        ip: ip@,
                        port: port@,
                    }));
                    assert(Seq::new(
                        peers@.len(),
                        |i: int|
                            PeerEntryModel {
                                id: peers@[i].id@,
                                ip: peers@[i].ip@,
                                port: peers@[i].port@,
                            },
                    ) =~= acc_before.push(
                        PeerEntryModel { id: id@, ip: ip@, port: port@ },
                    ));
                }
            }
            k_done += 1;
        }
        peers
    }
}

/// A copy of a string with the same characters.
fn clone_text(s: &String) -> (r: String)
    ensures
        r@ == s@,
{
    s.clone()
}


} // verus!
