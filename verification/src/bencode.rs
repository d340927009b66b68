//! Bencoding codec: the four bencode value kinds, a byte-stable and
//! insertion-order-preserving encoder, and a decoder. The byte-exact
//! round trip (decode then encode gives the input back, for canonically
//! encoded input) is stated and proved at the end of this module.

use vstd::prelude::*;

use crate::strutil::{ascii_bytes, ascii_str, bytes_of_chars, chars_of_bytes, lemma_bytes_chars_roundtrip, string_from_ascii};
use vstd::string::{StrSliceExecFns, StringSliceAdditionalSpecFns};

verus! {

#[derive(Debug, PartialEq, Eq, Structural)]
pub enum DecodingError {
    CannotParseError,
    InvalidUTF8CharError,
    InvalidSyntaxError,
    URLEncodingError,
}

impl DecodingError {
    /// Human-readable description of the error.
    pub fn message(&self) -> (r: String)
        ensures
            self is CannotParseError ==> r@ == "El string no puede ser parseado a numero"@,
            self is InvalidSyntaxError ==> r@ == "Sintaxis invalida"@,
            self is InvalidUTF8CharError ==> r@
                == "El byte no puede ser convertido a un caracter UTF-8 valido"@,
            self is URLEncodingError ==> r@
                == "No se pudo encodear en formato URL el valor recibido"@,
    {
        match self {
            DecodingError::CannotParseError => String::from_str(
                "El string no puede ser parseado a numero",
            ),
            DecodingError::InvalidSyntaxError => String::from_str("Sintaxis invalida"),
            DecodingError::InvalidUTF8CharError => String::from_str(
                "El byte no puede ser convertido a un caracter UTF-8 valido",
            ),
            DecodingError::URLEncodingError => String::from_str(
                "No se pudo encodear en formato URL el valor recibido",
            ),
        }
    }
}

/// A decoded bencode value. Strings that are pure ASCII surface as
/// `String`; any other byte string surfaces as `ByteString`. Dictionaries
/// keep their entries in the order in which they were decoded or built.
#[derive(Debug, PartialEq)]
pub enum Bencode {
    Int(i64),
    String(String),
    ByteString(Vec<u8>),
    List(Vec<Bencode>),
    Dictionary(Vec<(String, Bencode)>),
}

/// The mathematical model of a bencode value: integers are unbounded,
/// strings are byte sequences, dictionaries are ordered pair sequences.
pub enum BValue {
    Int(int),
    Str(Seq<u8>),
    List(Seq<BValue>),
    Dict(Seq<(Seq<u8>, BValue)>),
}

/// The model of an executable bencode value.
pub open spec fn bview(b: Bencode) -> BValue
    decreases b,
{
    match b {
        Bencode::Int(i) => BValue::Int(i as int),
        Bencode::String(s) => BValue::Str(bytes_of_chars(s@)),
        Bencode::ByteString(v) => BValue::Str(v@),
        Bencode::List(l) => BValue::List(
            Seq::new(
                l@.len(),
                |i: int|
                    if 0 <= i < l@.len() {
                        bview(l@[i])
                    } else {
                        BValue::Int(0)
                    },
            ),
        ),
        Bencode::Dictionary(d) => BValue::Dict(
            Seq::new(
                d@.len(),
                |i: int|
                    if 0 <= i < d@.len() {
                        (bytes_of_chars(d@[i].0@), bview(d@[i].1))
                    } else {
                        (Seq::empty(), BValue::Int(0))
                    },
            ),
        ),
    }
}

/// The models of a sequence of executable bencode values.
pub open spec fn views_of(l: Seq<Bencode>) -> Seq<BValue> {
    Seq::new(l.len(), |i: int| bview(l[i]))
}

/// The models of a sequence of executable dictionary entries.
pub open spec fn pair_views_of(d: Seq<(String, Bencode)>) -> Seq<(Seq<u8>, BValue)> {
    Seq::new(d.len(), |i: int| (bytes_of_chars(d[i].0@), bview(d[i].1)))
}



/// The model of a list value is the list of its elements' models.
pub proof fn lemma_bview_list(b: Bencode)
    requires
        b is List,
    ensures
        bview(b) == BValue::List(views_of(b->List_0@)),
{
    let l = b->List_0@;
    assert(bview(b) is List);
    assert(bview(b)->List_0 =~= views_of(l));
    assert(bview(b) == BValue::List(bview(b)->List_0));
}

/// The model of a dictionary value is the list of its entries' models.
pub proof fn lemma_bview_dict(b: Bencode)
    requires
        b is Dictionary,
    ensures
        bview(b) == BValue::Dict(pair_views_of(b->Dictionary_0@)),
{
    let d = b->Dictionary_0@;
    assert(bview(b) is Dict);
    assert(bview(b)->Dict_0 =~= pair_views_of(d));
    assert(bview(b) == BValue::Dict(bview(b)->Dict_0));
}

impl Clone for Bencode {
    /// A deep copy: the copy has the same model as the original.
    fn clone(&self) -> (res: Self)
        ensures
            bview(res) == bview(*self),
            encodable(*self) ==> encodable(res),
    {
        clone_bencode(self)
    }
}

/// Deep copy of a bencode value, preserving its model.
#[verifier::loop_isolation(false)]
fn clone_bencode(b: &Bencode) -> (res: Bencode)
    ensures
        bview(res) == bview(*b),
        encodable(*b) ==> encodable(res),
    decreases *b,
{
    match b {
        Bencode::Int(n) => Bencode::Int(*n),
        Bencode::String(s) => Bencode::String(s.clone()),
        Bencode::ByteString(v) => {
            let mut w: Vec<u8> = Vec::new();
            let mut k: usize = 0;
            while k < v.len()
                invariant
                    k <= v@.len(),
                    w@ == v@.take(k as int),
                decreases v@.len() - k,
            {
                w.push(v[k]);
                k += 1;
            }
            assert(w@ =~= v@);
            Bencode::ByteString(w)
        },
        Bencode::List(l) => {
            let mut out: Vec<Bencode> = Vec::new();
            let mut k: usize = 0;
            while k < l.len()
                invariant
                    k <= l@.len(),
                    out@.len() == k,
                    forall|i: int|
                        0 <= i < k ==> bview(#[trigger] out@[i]) == bview(l@[i]) && (encodable(
                            l@[i],
                        ) ==> encodable(out@[i])),
                decreases l@.len() - k,
            {
                proof {
                    assert(b->List_0 == *l);
                    assert(decreases_to!(*b => b->List_0));
                    assert(decreases_to!(*l => l[k as int]));
                }
                out.push(clone_bencode(&l[k]));
                k += 1;
            }
            let r = Bencode::List(out);
            proof {
                lemma_bview_list_pointwise(&r, b);
            }
            r
        },
        Bencode::Dictionary(d) => {
            let mut out: Vec<(String, Bencode)> = Vec::new();
            let mut k: usize = 0;
            while k < d.len()
                invariant
                    k <= d@.len(),
                    out@.len() == k,
                    forall|i: int|
                        0 <= i < k ==> (#[trigger] out@[i]).0@ == d@[i].0@ && bview(out@[i].1)
                            == bview(d@[i].1) && (encodable(d@[i].1) ==> encodable(out@[i].1)) && (
                        ascii_str(d@[i].0@) ==> ascii_str(out@[i].0@)),
                decreases d@.len() - k,
            {
                proof {
                    assert(b->Dictionary_0 == *d);
                    assert(decreases_to!(*b => b->Dictionary_0));
                    assert(decreases_to!(*d => d[k as int]));
                    assert(decreases_to!(d@[k as int] => d@[k as int].1));
                }
                let key = d[k].0.clone();
                let val = clone_bencode(&d[k].1);
                out.push((key, val));
                k += 1;
            }
            let r = Bencode::Dictionary(out);
            proof {
                lemma_bview_dict_pointwise(&r, b);
            }
            r
        },
    }
}


/// Two lists whose elements have pairwise equal models (and matching
/// encodability) have equal models as a whole.
proof fn lemma_bview_list_pointwise(a: &Bencode, b: &Bencode)
    requires
        a is List,
        b is List,
        a->List_0@.len() == b->List_0@.len(),
        forall|i: int|
            0 <= i < a->List_0@.len() ==> bview(#[trigger] a->List_0@[i]) == bview(b->List_0@[i])
                && (encodable(b->List_0@[i]) ==> encodable(a->List_0@[i])),
    ensures
        bview(*a) == bview(*b),
        encodable(*b) ==> encodable(*a),
{
    let la = a->List_0@;
    let lb = b->List_0@;
    let va = bview(*a);
    let vb = bview(*b);
    assert(va is List && vb is List);
    assert forall|i: int| 0 <= i < la.len() implies va->List_0[i] == vb->List_0[i] by {
        assert(va->List_0[i] == bview(la[i]));
        assert(vb->List_0[i] == bview(lb[i]));
    }
    assert(va->List_0 =~= vb->List_0);
    assert(va == BValue::List(va->List_0));
    assert(vb == BValue::List(vb->List_0));
    if encodable(*b) {
        assert forall|i: int| 0 <= i < la.len() implies encodable(#[trigger] la[i]) by {
            assert(encodable(lb[i]));
        }
        assert(encodable(*a));
    }
}

/// Two dictionaries whose entries have pairwise equal keys and value
/// models (and matching encodability) have equal models as a whole.
proof fn lemma_bview_dict_pointwise(a: &Bencode, b: &Bencode)
    requires
        a is Dictionary,
        b is Dictionary,
        a->Dictionary_0@.len() == b->Dictionary_0@.len(),
        forall|i: int|
            0 <= i < a->Dictionary_0@.len() ==> (#[trigger] a->Dictionary_0@[i]).0@
                == b->Dictionary_0@[i].0@ && bview(a->Dictionary_0@[i].1) == bview(
                b->Dictionary_0@[i].1,
            ) && (ascii_str(b->Dictionary_0@[i].0@) ==> ascii_str(a->Dictionary_0@[i].0@)) && (
            encodable(b->Dictionary_0@[i].1) ==> encodable(a->Dictionary_0@[i].1)),
    ensures
        bview(*a) == bview(*b),
        encodable(*b) ==> encodable(*a),
{
    let da = a->Dictionary_0@;
    let db = b->Dictionary_0@;
    let va = bview(*a);
    let vb = bview(*b);
    assert(va is Dict && vb is Dict);
    assert forall|i: int| 0 <= i < da.len() implies va->Dict_0[i] == vb->Dict_0[i] by {
        assert(va->Dict_0[i] == (bytes_of_chars(da[i].0@), bview(da[i].1)));
        assert(vb->Dict_0[i] == (bytes_of_chars(db[i].0@), bview(db[i].1)));
    }
    assert(va->Dict_0 =~= vb->Dict_0);
    assert(va == BValue::Dict(va->Dict_0));
    assert(vb == BValue::Dict(vb->Dict_0));
    if encodable(*b) {
        assert forall|i: int| 0 <= i < da.len() implies ascii_str(
            (#[trigger] da[i]).0@,
        ) && encodable(da[i].1) by {
            assert(ascii_str(db[i].0@) && encodable(db[i].1));
        }
        assert(encodable(*a));
    }
}









/// An executable value the encoder accepts: every `String` in it is ASCII.
/// (Non-ASCII text rides in `ByteString`s.)
pub open spec fn encodable(b: Bencode) -> bool
    decreases b,
{
    match b {
        Bencode::Int(i) => true,
        Bencode::String(s) => ascii_str(s@),
        Bencode::ByteString(v) => true,
        Bencode::List(l) => forall|i: int| 0 <= i < l@.len() ==> encodable(#[trigger] l@[i]),
        Bencode::Dictionary(d) => forall|i: int|
            0 <= i < d@.len() ==> ascii_str(#[trigger] d@[i].0@) && encodable(d@[i].1),
    }
}

/// The decimal digits of a natural number, most significant first.
pub open spec fn dec_nat(n: nat) -> Seq<u8>
    decreases n,
{
    if n < 10 {
        seq![(48 + n) as u8]
    } else {
        dec_nat(n / 10).push((48 + n % 10) as u8)
    }
}

/// The decimal rendering of an integer: a minus sign for negatives,
/// then the digits of its magnitude.
pub open spec fn dec_int(i: int) -> Seq<u8> {
    if i < 0 {
        seq![45u8] + dec_nat((-i) as nat)
    } else {
        dec_nat(i as nat)
    }
}

/// The encoding of a byte string: its length in decimal, a colon, the bytes.
pub open spec fn enc_str(b: Seq<u8>) -> Seq<u8> {
    dec_nat(b.len()) + seq![58u8] + b
}

/// The encoding of an integer: `i`, its decimal rendering, `e`.
pub open spec fn enc_int_bytes(i: int) -> Seq<u8> {
    seq![105u8] + dec_int(i) + seq![101u8]
}

/// The bencoding of a value: `i<decimal>e` for integers,
/// `<length>:<bytes>` for strings, `l<items>e` for lists and
/// `d<key-value pairs>e` for dictionaries, entries in their stored order.
pub open spec fn encode_val(v: BValue) -> Seq<u8>
    decreases v, 1int,
{
    match v {
        BValue::Int(i) => enc_int_bytes(i),
        BValue::Str(b) => enc_str(b),
        BValue::List(l) => seq![108u8] + encode_items(l) + seq![101u8],
        BValue::Dict(d) => seq![100u8] + encode_pairs(d) + seq![101u8],
    }
}

/// The concatenated encodings of a sequence of values.
pub open spec fn encode_items(l: Seq<BValue>) -> Seq<u8>
    decreases l, 0int,
{
    if l.len() == 0 {
        Seq::empty()
    } else {
        encode_val(l[0]) + encode_items(l.drop_first())
    }
}

/// The concatenated encodings of dictionary entries: each key as a
/// string, then its value.
pub open spec fn encode_pairs(d: Seq<(Seq<u8>, BValue)>) -> Seq<u8>
    decreases d, 0int,
{
    if d.len() == 0 {
        Seq::empty()
    } else {
        enc_str(d[0].0) + encode_val(d[0].1) + encode_pairs(d.drop_first())
    }
}

/// Appends the decimal digits of `n` to the buffer.
fn push_dec_u64(buf: &mut Vec<u8>, n: u64)
    ensures
        final(buf)@ == old(buf)@ + dec_nat(n as nat),
    decreases n,
{
    if n < 10 {
        buf.push(48 + (n as u8));
        assert(buf@ =~= old(buf)@ + dec_nat(n as nat));
    } else {
        push_dec_u64(buf, n / 10);
        buf.push(48 + ((n % 10) as u8));
        assert(buf@ =~= old(buf)@ + dec_nat(n as nat));
    }
}

pub struct EncodingParser;

impl EncodingParser {
    /// Encodes an ASCII string as `<length>:<bytes>`.
    pub fn encode_string(&self, string: String) -> (r: Vec<u8>)
        requires
            ascii_str(string@),
        ensures
            r@ == encode_val(BValue::Str(bytes_of_chars(string@))),
    {
        let mut buf: Vec<u8> = Vec::new();
        self.enc_str_bytes(&mut buf, &string);
        buf
    }

    /// Encodes a raw byte string as `<length>:<bytes>`.
    pub fn encode_byte_string(&self, bytestring: Vec<u8>) -> (r: Vec<u8>)
        ensures
            r@ == encode_val(BValue::Str(bytestring@)),
    {
        let mut buf: Vec<u8> = Vec::new();
        self.enc_bytes(&mut buf, &bytestring);
        buf
    }

    /// Encodes an integer as `i<decimal>e`.
    pub fn encode_number(&self, number: i64) -> (r: Vec<u8>)
        ensures
            r@ == encode_val(BValue::Int(number as int)),
    {
        let mut buf: Vec<u8> = Vec::new();
        self.enc_int(&mut buf, number);
        buf
    }

    /// Encodes a list as `l<items>e`, items in order.
    pub fn encode_list(&self, list: Vec<Bencode>) -> (r: Vec<u8>)
        requires
            forall|i: int| 0 <= i < list@.len() ==> encodable(#[trigger] list@[i]),
        ensures
            r@ == encode_val(BValue::List(views_of(list@))),
    {
        let mut buf: Vec<u8> = Vec::new();
        buf.push(108);
        self.enc_items(&mut buf, &list);
        buf.push(101);
        assert(buf@ =~= seq![108u8] + encode_items(views_of(list@)) + seq![101u8]);
        buf
    }

    /// Encodes a dictionary as `d<pairs>e`, entries in their stored order.
    pub fn encode_dict(&self, dict: Vec<(String, Bencode)>) -> (r: Vec<u8>)
        requires
            forall|i: int|
                0 <= i < dict@.len() ==> ascii_str(#[trigger] dict@[i].0@) && encodable(
                    dict@[i].1,
                ),
        ensures
            r@ == encode_val(BValue::Dict(pair_views_of(dict@))),
    {
        let mut buf: Vec<u8> = Vec::new();
        buf.push(100);
        self.enc_entries(&mut buf, &dict);
        buf.push(101);
        assert(buf@ =~= seq![100u8] + encode_pairs(pair_views_of(dict@)) + seq![101u8]);
        buf
    }

    /// Encodes any bencode value.
    pub fn encode(&self, bencode: Bencode) -> (r: Vec<u8>)
        requires
            encodable(bencode),
        ensures
            r@ == encode_val(bview(bencode)),
    {
        let mut buf: Vec<u8> = Vec::new();
        self.enc_value(&mut buf, &bencode);
        buf
    }

    /// Appends the encoding of one value to the buffer.
    pub(crate) fn enc_value(&self, buf: &mut Vec<u8>, b: &Bencode)
        requires
            encodable(*b),
        ensures
            final(buf)@ == old(buf)@ + encode_val(bview(*b)),
        decreases *b,
    {
        match b {
            Bencode::Int(n) => {
                self.enc_int(buf, *n);
                proof {
                    assert(*b is Int);
                    assert(b->Int_0 == *n);
                    assert(bview(*b) == BValue::Int(*n as int));
                    assert(buf@ == old(buf)@ + encode_val(BValue::Int(*n as int)));
                    assert(buf@ == old(buf)@ + encode_val(bview(*b)));
                }
            },
            Bencode::String(s) => {
                self.enc_str_bytes(buf, s);
            },
            Bencode::ByteString(v) => {
                self.enc_bytes(buf, v);
            },
            Bencode::List(l) => {
                buf.push(108);
                self.enc_items(buf, l);
                buf.push(101);
                proof {
                    lemma_bview_list(*b);
                    assert(buf@ =~= old(buf)@ + (seq![108u8] + encode_items(views_of(l@))
                        + seq![101u8]));
                }
            },
            Bencode::Dictionary(d) => {
                buf.push(100);
                self.enc_entries(buf, d);
                buf.push(101);
                proof {
                    lemma_bview_dict(*b);
                    assert(buf@ =~= old(buf)@ + (seq![100u8] + encode_pairs(pair_views_of(d@))
                        + seq![101u8]));
                }
            },
        }
    }

    /// Appends the encodings of all values of a list, in order.
    #[verifier::loop_isolation(false)]
    fn enc_items(&self, buf: &mut Vec<u8>, l: &Vec<Bencode>)
        requires
            forall|i: int| 0 <= i < l@.len() ==> encodable(#[trigger] l@[i]),
        ensures
            final(buf)@ == old(buf)@ + encode_items(views_of(l@)),
        decreases l@,
    {
        let ghost full = views_of(l@);
        let mut k: usize = 0;
        while k < l.len()
            invariant
                k <= l@.len(),
                full == views_of(l@),
                buf@ == old(buf)@ + encode_items(full.take(k as int)),
            decreases l@.len() - k,
        {
            proof {
                assert(decreases_to!(*l => l[k as int]));
                lemma_encode_items_take_step(full, k as int);
                assert(full[k as int] == bview(l@[k as int]));
            }
            self.enc_value(buf, &l[k]);
            proof {
                assert(buf@ =~= old(buf)@ + encode_items(full.take(k as int + 1)));
            }
            k += 1;
        }
        proof {
            assert(full.take(l@.len() as int) =~= full);
        }
    }

    /// Appends the encodings of all dictionary entries, in order.
    #[verifier::loop_isolation(false)]
    fn enc_entries(&self, buf: &mut Vec<u8>, d: &Vec<(String, Bencode)>)
        requires
            forall|i: int|
                0 <= i < d@.len() ==> ascii_str(#[trigger] d@[i].0@) && encodable(d@[i].1),
        ensures
            final(buf)@ == old(buf)@ + encode_pairs(pair_views_of(d@)),
        decreases d@,
    {
        let ghost full = pair_views_of(d@);
        let mut k: usize = 0;
        while k < d.len()
            invariant
                k <= d@.len(),
                full == pair_views_of(d@),
                buf@ == old(buf)@ + encode_pairs(full.take(k as int)),
            decreases d@.len() - k,
        {
            proof {
                assert(decreases_to!(*d => d[k as int]));
                assert(decreases_to!(d@[k as int] => d@[k as int].1));
                lemma_encode_pairs_take_step(full, k as int);
                assert(full[k as int] == (bytes_of_chars(d@[k as int].0@), bview(
                    d@[k as int].1,
                )));
            }
            self.enc_str_bytes(buf, &d[k].0);
            self.enc_value(buf, &d[k].1);
            proof {
                assert(buf@ =~= old(buf)@ + encode_pairs(full.take(k as int + 1)));
            }
            k += 1;
        }
        proof {
            assert(full.take(d@.len() as int) =~= full);
        }
    }

    /// Appends `i<decimal>e`.
    fn enc_int(&self, buf: &mut Vec<u8>, n: i64)
        ensures
            final(buf)@ == old(buf)@ + encode_val(BValue::Int(n as int)),
    {
        buf.push(105);
        if n < 0 {
            buf.push(45);
            let magnitude: u64 = ((-(n as i128)) as u64);
            push_dec_u64(buf, magnitude);
        } else {
            push_dec_u64(buf, n as u64);
        }
        buf.push(101);
        assert(buf@ =~= old(buf)@ + (seq![105u8] + dec_int(n as int) + seq![101u8]));
    }

    /// Appends `<length>:<bytes>` for an ASCII string.
    fn enc_str_bytes(&self, buf: &mut Vec<u8>, s: &String)
        requires
            ascii_str(s@),
        ensures
            final(buf)@ == old(buf)@ + encode_val(BValue::Str(bytes_of_chars(s@))),
    {
        let st = s.as_str();
        proof {
            broadcast use vstd::string::is_ascii_spec_bytes;

            assert(st.is_ascii());
            assert(st.spec_bytes() =~= Seq::new(st@.len(), |i: int| st@.index(i) as u8));
        }
        let bytes = st.as_bytes_vec();
        assert(bytes@ =~= bytes_of_chars(s@));
        self.enc_bytes(buf, &bytes);
    }

    /// Appends `<length>:<bytes>` for a raw byte string.
    #[verifier::loop_isolation(false)]
    fn enc_bytes(&self, buf: &mut Vec<u8>, bytes: &Vec<u8>)
        ensures
            final(buf)@ == old(buf)@ + encode_val(BValue::Str(bytes@)),
    {
        push_dec_u64(buf, bytes.len() as u64);
        buf.push(58);
        let mut k: usize = 0;
        while k < bytes.len()
            invariant
                k <= bytes@.len(),
                buf@ == old(buf)@ + dec_nat(bytes@.len()) + seq![58u8] + bytes@.take(k as int),
            decreases bytes@.len() - k,
        {
            buf.push(bytes[k]);
            assert(buf@ =~= old(buf)@ + dec_nat(bytes@.len()) + seq![58u8] + bytes@.take(
                k as int + 1,
            ));
            k += 1;
        }
        assert(bytes@.take(bytes@.len() as int) =~= bytes@);
        assert(buf@ =~= old(buf)@ + (dec_nat(bytes@.len()) + seq![58u8] + bytes@));
    }
}

/// Encoding a prefix of a value sequence, one value longer, appends that
/// value's encoding.
proof fn lemma_encode_items_take_step(l: Seq<BValue>, k: int)
    requires
        0 <= k < l.len(),
    ensures
        encode_items(l.take(k + 1)) == encode_items(l.take(k)) + encode_val(l[k]),
    decreases k,
{
    if k == 0 {
        let t = l.take(1);
        assert(t.drop_first() =~= Seq::<BValue>::empty());
        assert(t[0] == l[0]);
        assert(encode_items(t.drop_first()) == Seq::<u8>::empty());
        assert(encode_items(t) == encode_val(l[0]) + Seq::<u8>::empty());
        assert(l.take(0).len() == 0);
        assert(encode_items(l.take(0)) == Seq::<u8>::empty());
        assert(encode_items(l.take(1)) =~= encode_items(l.take(0)) + encode_val(l[0]));
    } else {
        let t1 = l.take(k + 1);
        let t0 = l.take(k);
        assert(t1.drop_first() =~= l.drop_first().take(k));
        assert(t0.drop_first() =~= l.drop_first().take(k - 1));
        lemma_encode_items_take_step(l.drop_first(), k - 1);
        assert(l.drop_first()[k - 1] == l[k]);
        assert(encode_items(t1) == encode_val(l[0]) + encode_items(l.drop_first().take(k)));
        assert(encode_items(t0) == encode_val(l[0]) + encode_items(l.drop_first().take(k - 1)));
        assert(encode_items(l.take(k + 1)) =~= encode_items(l.take(k)) + encode_val(l[k]));
    }
}

/// Encoding a prefix of an entry sequence, one entry longer, appends that
/// entry's key and value encodings.
proof fn lemma_encode_pairs_take_step(d: Seq<(Seq<u8>, BValue)>, k: int)
    requires
        0 <= k < d.len(),
    ensures
        encode_pairs(d.take(k + 1)) == encode_pairs(d.take(k)) + enc_str(d[k].0) + encode_val(
            d[k].1,
        ),
    decreases k,
{
    if k == 0 {
        let t = d.take(1);
        assert(t.drop_first() =~= Seq::<(Seq<u8>, BValue)>::empty());
        assert(t[0] == d[0]);
        assert(encode_pairs(t.drop_first()) == Seq::<u8>::empty());
        assert(encode_pairs(t) == enc_str(d[0].0) + encode_val(d[0].1) + Seq::<u8>::empty());
        assert(d.take(0).len() == 0);
        assert(encode_pairs(d.take(0)) == Seq::<u8>::empty());
        assert(encode_pairs(d.take(1)) =~= encode_pairs(d.take(0)) + enc_str(d[0].0) + encode_val(
            d[0].1,
        ));
    } else {
        let t1 = d.take(k + 1);
        let t0 = d.take(k);
        assert(t1.drop_first() =~= d.drop_first().take(k));
        assert(t0.drop_first() =~= d.drop_first().take(k - 1));
        lemma_encode_pairs_take_step(d.drop_first(), k - 1);
        assert(d.drop_first()[k - 1] == d[k]);
        assert(encode_pairs(t1) == enc_str(d[0].0) + encode_val(d[0].1) + encode_pairs(
            d.drop_first().take(k),
        ));
        assert(encode_pairs(t0) == enc_str(d[0].0) + encode_val(d[0].1) + encode_pairs(
            d.drop_first().take(k - 1),
        ));
        assert(encode_pairs(d.take(k + 1)) =~= encode_pairs(d.take(k)) + enc_str(d[k].0)
            + encode_val(d[k].1));
    }
}


// ---------------------------------------------------------------------------
// Decoding: mathematical parser
// ---------------------------------------------------------------------------

/// ASCII decimal digit.
pub open spec fn is_digit(b: u8) -> bool {
    48 <= b && b <= 57
}

/// Every byte of the sequence is a decimal digit.
pub open spec fn all_digits(ds: Seq<u8>) -> bool {
    forall|i: int| 0 <= i < ds.len() ==> is_digit(#[trigger] ds[i])
}

/// First index at or after `from` where byte `b` occurs, or -1 if none.
pub open spec fn find_byte(s: Seq<u8>, from: int, b: u8) -> int
    decreases s.len() - from,
{
    if from < 0 || from >= s.len() {
        -1
    } else if s[from] == b {
        from
    } else {
        find_byte(s, from + 1, b)
    }
}

/// First index at or after `from` holding a non-digit, or the length.
pub open spec fn digits_end(s: Seq<u8>, from: int) -> int
    decreases s.len() - from,
{
    if from < 0 || from >= s.len() {
        s.len() as int
    } else if is_digit(s[from]) {
        digits_end(s, from + 1)
    } else {
        from
    }
}

/// The value of a run of decimal digits, most significant first.
pub open spec fn dec_value(ds: Seq<u8>) -> nat
    decreases ds.len(),
{
    if ds.len() == 0 {
        0
    } else {
        dec_value(ds.drop_last()) * 10 + (if is_digit(ds.last()) {
            (ds.last() - 48) as nat
        } else {
            0
        })
    }
}

/// The value of a signed decimal token: an optional minus sign, then at
/// least one digit. Values outside the signed 64-bit range are rejected,
/// and so is negative zero.
pub open spec fn parse_signed(c: Seq<u8>) -> Option<int> {
    if c.len() == 0 {
        None
    } else if c[0] == 45 {
        let d = c.drop_first();
        if d.len() == 0 || !all_digits(d) {
            None
        } else {
            let v = dec_value(d);
            if v == 0 || v > 0x8000000000000000 {
                None
            } else {
                Some(-(v as int))
            }
        }
    } else if all_digits(c) {
        let v = dec_value(c);
        if v > 0x7fffffffffffffff {
            None
        } else {
            Some(v as int)
        }
    } else {
        None
    }
}

/// Parses `i<decimal>e` starting at `i`; on success gives the value and
/// the index just past the `e`.
pub open spec fn parse_int_at(s: Seq<u8>, i: int) -> Option<(BValue, int)> {
    let e = find_byte(s, i + 1, 101);
    if e < 0 {
        None
    } else {
        match parse_signed(s.subrange(i + 1, e)) {
            Option::None => None,
            Option::Some(v) => Some((BValue::Int(v), e + 1)),
        }
    }
}

/// Parses `<length>:<bytes>` starting at `i`; on success gives the string
/// and the index just past its last byte.
pub open spec fn parse_str_at(s: Seq<u8>, i: int) -> Option<(BValue, int)> {
    let de = digits_end(s, i);
    let len = dec_value(s.subrange(i, de)) as int;
    if de >= s.len() || s[de] != 58 || de + 1 + len > s.len() {
        None
    } else {
        Some((BValue::Str(s.subrange(de + 1, de + 1 + len)), de + 1 + len))
    }
}

/// Pairs up a flat item list into dictionary entries: each kept entry is
/// an ASCII string key followed by its value; any other key is skipped
/// together with its value, and a trailing odd item is dropped.
pub open spec fn make_pairs(items: Seq<BValue>) -> Seq<(Seq<u8>, BValue)>
    decreases items.len(),
{
    if items.len() < 2 {
        seq![]
    } else {
        let rest = make_pairs(items.subrange(2, items.len() as int));
        match items[0] {
            BValue::Str(k) => if ascii_bytes(k) {
                seq![(k, items[1])] + rest
            } else {
                rest
            },
            _ => rest,
        }
    }
}

/// Parses one bencode value starting at `i`; on success gives the value
/// and the index just past it.
pub open spec fn parse_val(s: Seq<u8>, i: int) -> Option<(BValue, int)>
    decreases s.len() - i, 1int,
{
    if i < 0 || i >= s.len() {
        None
    } else if s[i] == 108 {
        match parse_items(s, i + 1) {
            Option::None => None,
            Option::Some((items, j)) => Some((BValue::List(items), j)),
        }
    } else if s[i] == 100 {
        match parse_items(s, i + 1) {
            Option::None => None,
            Option::Some((items, j)) => Some((BValue::Dict(make_pairs(items)), j)),
        }
    } else if s[i] == 105 {
        parse_int_at(s, i)
    } else if is_digit(s[i]) {
        parse_str_at(s, i)
    } else {
        None
    }
}

/// Parses values until a bare `e`; on success gives the items and the
/// index just past the `e`.
pub open spec fn parse_items(s: Seq<u8>, i: int) -> Option<(Seq<BValue>, int)>
    decreases s.len() - i, 2int,
{
    if i < 0 || i >= s.len() {
        None
    } else if s[i] == 101 {
        Some((seq![], i + 1))
    } else {
        match parse_val(s, i) {
            Option::None => None,
            Option::Some((v, j)) => {
                if j <= i || j > s.len() {
                    None
                } else {
                    match parse_items(s, j) {
                        Option::None => None,
                        Option::Some((rest, k)) => Some((seq![v] + rest, k)),
                    }
                }
            },
        }
    }
}

/// The token the integer decoder reads: a leading `i` is stripped, and
/// everything from the first `e` on is cut off.
pub open spec fn int_token(s: Seq<u8>) -> Seq<u8> {
    let start: int = if s.len() > 0 && s[0] == 105 {
        1
    } else {
        0
    };
    let e = find_byte(s, start, 101);
    if e >= 0 {
        s.subrange(start, e)
    } else {
        s.subrange(start, s.len() as int)
    }
}

/// Position of the first colon, or -1.
pub open spec fn colon_pos(s: Seq<u8>) -> int {
    find_byte(s, 0, 58)
}

/// What decoding a whole input yields. The head byte picks the kind;
/// for lists and dictionaries anything after the closing `e` is ignored,
/// a top-level string takes everything after the first colon, and a
/// top-level integer reads its token up to the first `e`.
pub open spec fn parse_top(s: Seq<u8>) -> Option<BValue> {
    if s.len() == 0 {
        None
    } else if s[0] == 108 {
        match parse_items(s, 1) {
            Option::None => None,
            Option::Some((items, j)) => Some(BValue::List(items)),
        }
    } else if s[0] == 100 {
        match parse_items(s, 1) {
            Option::None => None,
            Option::Some((items, j)) => Some(BValue::Dict(make_pairs(items))),
        }
    } else if s[0] == 105 {
        match parse_signed(int_token(s)) {
            Option::None => None,
            Option::Some(v) => Some(BValue::Int(v)),
        }
    } else if is_digit(s[0]) {
        if colon_pos(s) < 0 {
            None
        } else {
            Some(BValue::Str(s.subrange(colon_pos(s) + 1, s.len() as int)))
        }
    } else {
        None
    }
}

/// A decoded value in the decoder's normal form: ASCII byte strings
/// surface as `String`, all others as `ByteString`; dictionary keys are
/// ASCII strings.
pub open spec fn normalized(b: Bencode) -> bool
    decreases b,
{
    match b {
        Bencode::Int(i) => true,
        Bencode::String(s) => ascii_str(s@),
        Bencode::ByteString(v) => !ascii_bytes(v@),
        Bencode::List(l) => forall|i: int| 0 <= i < l@.len() ==> normalized(#[trigger] l@[i]),
        Bencode::Dictionary(d) => forall|i: int|
            0 <= i < d@.len() ==> ascii_str(#[trigger] d@[i].0@) && normalized(d@[i].1),
    }
}

/// Every value in the decoder's normal form is accepted by the encoder.
pub proof fn lemma_normalized_encodable(b: Bencode)
    requires
        normalized(b),
    ensures
        encodable(b),
    decreases b,
{
    if b is List {
        let l = b->List_0;
        assert forall|i: int| 0 <= i < l@.len() implies encodable(#[trigger] l@[i]) by {
            assert(decreases_to!(b => l));
            assert(decreases_to!(l => l[i]));
            assert(normalized(l@[i]));
            lemma_normalized_encodable(l@[i]);
        }
    } else if b is Dictionary {
        let d = b->Dictionary_0;
        assert forall|i: int| 0 <= i < d@.len() implies ascii_str(
            (#[trigger] d@[i]).0@,
        ) && encodable(d@[i].1) by {
            assert(decreases_to!(b => d));
            assert(decreases_to!(d => d[i]));
            assert(decreases_to!(d@[i] => d@[i].1));
            let e = d@[i];
            assert(ascii_str(e.0@));
            assert(normalized(e.1));
            lemma_normalized_encodable(d@[i].1);
        }
    }
}



// ---------------------------------------------------------------------------
// Decoding: executable parser
// ---------------------------------------------------------------------------

/// Every value of the sequence is in the decoder's normal form.
pub open spec fn all_normalized(l: Seq<Bencode>) -> bool {
    forall|i: int| 0 <= i < l.len() ==> normalized(#[trigger] l[i])
}

/// Every `String` item of the sequence is ASCII.
pub open spec fn strings_ascii(l: Seq<Bencode>) -> bool {
    forall|i: int| 0 <= i < l.len() ==> ((#[trigger] l[i]) is String ==> ascii_str(l[i]->String_0@))
}

/// Wraps raw bytes as the decoder does: ASCII bytes become a `String`,
/// anything else a `ByteString`.
fn bytes_to_bencode_string(bytes: Vec<u8>) -> (r: Bencode)
    ensures
        bview(r) == BValue::Str(bytes@),
        normalized(r),
{
    let mut ascii = true;
    let mut k: usize = 0;
    while k < bytes.len()
        invariant
            k <= bytes@.len(),
            ascii == forall|i: int| 0 <= i < k ==> bytes@[i] < 128,
        decreases bytes@.len() - k,
    {
        if bytes[k] >= 128 {
            ascii = false;
        }
        k += 1;
    }
    if ascii {
        assert(ascii_bytes(bytes@));
        let s = crate::strutil::string_from_ascii(&bytes);
        proof {
            lemma_bytes_chars_roundtrip(bytes@);
        }
        Bencode::String(s)
    } else {
        assert(!ascii_bytes(bytes@));
        Bencode::ByteString(bytes)
    }
}

/// Scans for the first occurrence of a byte at or after `from`.
fn find_byte_from(s: &[u8], from: usize, b: u8) -> (r: Option<usize>)
    ensures
        match r {
            Some(j) => find_byte(s@, from as int, b) == j as int && from <= j < s@.len(),
            None => find_byte(s@, from as int, b) == -1,
        },
{
    let mut k: usize = from;
    if k >= s.len() {
        return None;
    }
    while k < s.len()
        invariant
            from <= k,
            find_byte(s@, from as int, b) == find_byte(s@, k as int, b),
        decreases s@.len() - k,
    {
        if s[k] == b {
            return Some(k);
        }
        k += 1;
    }
    None
}

/// Scans for the end of a digit run starting at `from`.
fn digits_end_from(s: &[u8], from: usize) -> (r: usize)
    requires
        from <= s@.len(),
    ensures
        r as int == digits_end(s@, from as int),
        from <= r <= s@.len(),
{
    let mut k: usize = from;
    while k < s.len()
        invariant
            from <= k <= s@.len(),
            digits_end(s@, from as int) == digits_end(s@, k as int),
        decreases s@.len() - k,
    {
        if !(48 <= s[k] && s[k] <= 57) {
            return k;
        }
        k += 1;
    }
    k
}

/// A longer digit run never has a smaller value.
proof fn lemma_dec_value_grows(ds: Seq<u8>, k: int)
    requires
        0 <= k <= ds.len(),
    ensures
        dec_value(ds) >= dec_value(ds.subrange(0, k)),
    decreases ds.len() - k,
{
    if k == ds.len() {
        assert(ds.subrange(0, k) =~= ds);
    } else {
        lemma_dec_value_grows(ds, k + 1);
        assert(ds.subrange(0, k + 1).drop_last() =~= ds.subrange(0, k));
        assert(dec_value(ds.subrange(0, k + 1)) >= dec_value(ds.subrange(0, k)));
    }
}

/// Reads the value of a digit run; values above the given cap report
/// only that they exceed it.
fn dec_value_capped(s: &[u8], from: usize, to: usize, cap: u64) -> (r: Option<u64>)
    requires
        from <= to <= s@.len(),
        all_digits(s@.subrange(from as int, to as int)),
    ensures
        match r {
            Some(v) => v as nat == dec_value(s@.subrange(from as int, to as int)) && v <= cap,
            None => dec_value(s@.subrange(from as int, to as int)) > cap,
        },
{
    let ghost ds = s@.subrange(from as int, to as int);
    let mut acc: u128 = 0;
    let mut k: usize = from;
    while k < to
        invariant
            from <= k <= to <= s@.len(),
            ds == s@.subrange(from as int, to as int),
            all_digits(ds),
            acc as nat == dec_value(ds.subrange(0, k - from)),
            acc <= cap,
        decreases to - k,
    {
        let d = s[k];
        proof {
            assert(ds[k - from] == d);
            assert(is_digit(d));
            assert(ds.subrange(0, k - from + 1).drop_last() =~= ds.subrange(0, k - from));
            assert(ds.subrange(0, k - from + 1).last() == d);
            assert(dec_value(ds.subrange(0, k - from + 1)) == acc * 10 + (d - 48));
        }
        let next: u128 = acc * 10 + (d - 48) as u128;
        if next > cap as u128 {
            proof {
                lemma_dec_value_grows(ds, k - from + 1);
            }
            return None;
        }
        acc = next;
        k += 1;
    }
    proof {
        assert(ds.subrange(0, to - from) =~= ds);
    }
    Some(acc as u64)
}


/// Bytes in a digit run are digits, and the run ends at a non-digit or
/// the end of input.
proof fn lemma_digits_end_props(s: Seq<u8>, from: int)
    requires
        0 <= from <= s.len(),
    ensures
        from <= digits_end(s, from) <= s.len(),
        all_digits(s.subrange(from, digits_end(s, from))),
    decreases s.len() - from,
{
    if from < s.len() && is_digit(s[from]) {
        lemma_digits_end_props(s, from + 1);
        let de = digits_end(s, from);
        assert forall|i: int| 0 <= i < de - from implies is_digit(
            #[trigger] s.subrange(from, de)[i],
        ) by {
            if i > 0 {
                assert(s.subrange(from + 1, de)[i - 1] == s.subrange(from, de)[i]);
            }
        }
    }
}

/// Copies a byte range out of a slice.
fn copy_range(s: &[u8], from: usize, to: usize) -> (r: Vec<u8>)
    requires
        from <= to <= s@.len(),
    ensures
        r@ == s@.subrange(from as int, to as int),
{
    let mut out: Vec<u8> = Vec::new();
    let mut k: usize = from;
    while k < to
        invariant
            from <= k <= to <= s@.len(),
            out@ == s@.subrange(from as int, k as int),
        decreases to - k,
    {
        out.push(s[k]);
        assert(out@ =~= s@.subrange(from as int, k as int + 1));
        k += 1;
    }
    out
}

/// Checks that a byte range is all decimal digits.
fn all_digits_range(s: &[u8], from: usize, to: usize) -> (r: bool)
    requires
        from <= to <= s@.len(),
    ensures
        r == all_digits(s@.subrange(from as int, to as int)),
{
    let ghost ds = s@.subrange(from as int, to as int);
    let mut k: usize = from;
    while k < to
        invariant
            from <= k <= to <= s@.len(),
            ds == s@.subrange(from as int, to as int),
            forall|i: int| 0 <= i < k - from ==> is_digit(#[trigger] ds[i]),
        decreases to - k,
    {
        if !(48 <= s[k] && s[k] <= 57) {
            assert(!is_digit(ds[k - from]));
            return false;
        }
        k += 1;
    }
    true
}

/// Reads a signed decimal token out of a byte range.
fn parse_signed_range(s: &[u8], from: usize, to: usize) -> (r: Option<i64>)
    requires
        from <= to <= s@.len(),
    ensures
        match r {
            Some(v) => parse_signed(s@.subrange(from as int, to as int)) == Some(v as int),
            None => parse_signed(s@.subrange(from as int, to as int)) is None,
        },
{
    let ghost c = s@.subrange(from as int, to as int);
    if from == to {
        return None;
    }
    if s[from] == 45 {
        proof {
            assert(c[0] == 45);
            assert(c.drop_first() =~= s@.subrange(from as int + 1, to as int));
        }
        if from + 1 == to {
            return None;
        }
        if !all_digits_range(s, from + 1, to) {
            return None;
        }
        match dec_value_capped(s, from + 1, to, 0x8000000000000000u64) {
            None => None,
            Some(v) => {
                if v == 0 {
                    None
                } else if v == 0x8000000000000000u64 {
                    Some(-0x7fffffffffffffffi64 - 1)
                } else {
                    Some(-(v as i64))
                }
            },
        }
    } else if !all_digits_range(s, from, to) {
        proof {
            assert(c[0] != 45);
        }
        None
    } else {
        proof {
            assert(c[0] != 45);
            assert(is_digit(c[0]));
        }
        match dec_value_capped(s, from, to, 0x7fffffffffffffffu64) {
            None => None,
            Some(v) => Some(v as i64),
        }
    }
}



/// The decoder's normal form of dictionary entries: ASCII string keys,
/// normalized values.
pub open spec fn dict_normalized(d: Seq<(String, Bencode)>) -> bool {
    forall|i: int| 0 <= i < d.len() ==> ascii_str((#[trigger] d[i]).0@) && normalized(d[i].1)
}

/// Parses one bencode value starting at index `i` of the input; on
/// success returns the value and the index just past it.
fn parse_value_at(s: &[u8], i: usize) -> (r: Result<(Bencode, usize), DecodingError>)
    ensures
        match r {
            Ok(p) => parse_val(s@, i as int) == Some((bview(p.0), p.1 as int)) && normalized(p.0)
                && i < p.1 <= s@.len(),
            Err(e) => parse_val(s@, i as int) is None && e == DecodingError::InvalidSyntaxError,
        },
    decreases s@.len() - i, 1int,
{
    if i >= s.len() {
        return Err(DecodingError::InvalidSyntaxError);
    }
    let c = s[i];
    if c == 108 {
        match parse_items_at(s, i + 1) {
            Ok((items, j)) => {
                let r = Bencode::List(items);
                proof {
                    lemma_bview_list(r);
                }
                Ok((r, j))
            },
            Err(e) => Err(e),
        }
    } else if c == 100 {
        match parse_items_at(s, i + 1) {
            Ok((items, j)) => {
                let ghost item_views = views_of(items@);
                let dict = pairs_from_items(items);
                let r = Bencode::Dictionary(dict);
                proof {
                    lemma_bview_dict(r);
                }
                Ok((r, j))
            },
            Err(e) => Err(e),
        }
    } else if c == 105 {
        match find_byte_from(s, i + 1, 101) {
            None => Err(DecodingError::InvalidSyntaxError),
            Some(e) => {
                match parse_signed_range(s, i + 1, e) {
                    None => Err(DecodingError::InvalidSyntaxError),
                    Some(v) => Ok((Bencode::Int(v), e + 1)),
                }
            },
        }
    } else if 48 <= c && c <= 57 {
        let de = digits_end_from(s, i);
        proof {
            lemma_digits_end_props(s@, i as int);
        }
        if de >= s.len() {
            return Err(DecodingError::InvalidSyntaxError);
        }
        if s[de] != 58 {
            return Err(DecodingError::InvalidSyntaxError);
        }
        let cap: u64 = (s.len() - de - 1) as u64;
        match dec_value_capped(s, i, de, cap) {
            None => Err(DecodingError::InvalidSyntaxError),
            Some(len_v) => {
                let len_u: usize = len_v as usize;
                let start = de + 1;
                let bytes = copy_range(s, start, start + len_u);
                let v = bytes_to_bencode_string(bytes);
                Ok((v, start + len_u))
            },
        }
    } else {
        Err(DecodingError::InvalidSyntaxError)
    }
}

/// A normalized `String` value models an ASCII byte string.
proof fn lemma_bytes_chars_roundtrip_str(b: Bencode)
    requires
        b is String,
        normalized(b),
    ensures
        ascii_bytes(bview(b)->Str_0),
{
    let chars = b->String_0@;
    assert(bview(b)->Str_0 == bytes_of_chars(chars));
    assert forall|i: int| 0 <= i < chars.len() implies bytes_of_chars(chars)[i] < 128 by {
        assert('\0' <= chars[i] <= '\u{7f}');
        assert(bytes_of_chars(chars)[i] == chars[i] as u8);
    }
}

/// Parses values until a bare `e`; on success returns the items and the
/// index just past the `e`.
fn parse_items_at(s: &[u8], i: usize) -> (r: Result<(Vec<Bencode>, usize), DecodingError>)
    ensures
        match r {
            Ok(p) => parse_items(s@, i as int) == Some((views_of(p.0@), p.1 as int))
                && all_normalized(p.0@) && i < p.1 <= s@.len(),
            Err(e) => parse_items(s@, i as int) is None && e == DecodingError::InvalidSyntaxError,
        },
    decreases s@.len() - i, 2int,
{
    if i >= s.len() {
        return Err(DecodingError::InvalidSyntaxError);
    }
    if s[i] == 101 {
        let empty: Vec<Bencode> = Vec::new();
        assert(views_of(empty@) =~= Seq::<BValue>::empty());
        return Ok((empty, i + 1));
    }
    match parse_value_at(s, i) {
        Err(e) => Err(e),
        Ok((v, j)) => {
            match parse_items_at(s, j) {
                Err(e) => Err(e),
                Ok((mut rest, k)) => {
                    let ghost tail = rest@;
                    rest.insert(0, v);
                    proof {
                        assert(views_of(rest@) =~= seq![bview(v)] + views_of(tail));
                    }
                    Ok((rest, k))
                },
            }
        },
    }
}

/// Pairs up decoded items into dictionary entries, keeping entries whose
/// key is an ASCII string, as `make_pairs` describes.
#[verifier::loop_isolation(false)]
fn pairs_from_items(list: Vec<Bencode>) -> (r: Vec<(String, Bencode)>)
    ensures
        all_normalized(list@) ==> pair_views_of(r@) == make_pairs(views_of(list@))
            && dict_normalized(r@),
{
    let ghost olist = list@;
    let mut rest = list;
    let mut out: Vec<(String, Bencode)> = Vec::new();
    while rest.len() >= 2
        invariant
            all_normalized(olist) ==> all_normalized(rest@) && dict_normalized(out@)
                && pair_views_of(out@) + make_pairs(views_of(rest@)) == make_pairs(views_of(olist)),
        decreases rest@.len(),
    {
        let ghost before = rest@;
        let ghost out_before = out@;
        let key = rest.remove(0);
        let val = rest.remove(0);
        proof {
            assert(key == before[0]);
            assert(val == before[1]);
            assert(rest@ =~= before.subrange(2, before.len() as int));
        }
        let kept = match key {
            Bencode::String(ks) => {
                if ks.as_str().is_ascii() {
                    out.push((ks, val));
                    true
                } else {
                    false
                }
            },
            _ => false,
        };
        proof {
            if all_normalized(olist) {
                let vb = views_of(before);
                let va = views_of(rest@);
                assert(va =~= vb.subrange(2, vb.len() as int));
                assert(vb[0] == bview(before[0]));
                assert(vb[1] == bview(before[1]));
                assert(normalized(before[0]) && normalized(before[1]));
                if before[0] is String {
                    lemma_bytes_chars_roundtrip_str(before[0]);
                    assert(kept);
                    assert(out@ =~= out_before.push(
                        (before[0]->String_0, val),
                    ));
                    assert(pair_views_of(out@) =~= pair_views_of(out_before).push(
                        (bytes_of_chars(before[0]->String_0@), bview(val)),
                    ));
                    assert(make_pairs(vb) == seq![(vb[0]->Str_0, vb[1])] + make_pairs(va));
                    assert(pair_views_of(out@) + make_pairs(va) =~= pair_views_of(out_before)
                        + make_pairs(vb));
                    assert(dict_normalized(out@));
                } else {
                    if before[0] is ByteString {
                        assert(vb[0] is Str && !ascii_bytes(vb[0]->Str_0));
                    }
                    assert(!kept);
                    assert(make_pairs(vb) == make_pairs(va));
                    assert(out@ == out_before);
                }
                assert(pair_views_of(out@) + make_pairs(views_of(rest@)) == make_pairs(
                    views_of(olist),
                ));
            }
        }
    }
    proof {
        if all_normalized(olist) {
            assert(views_of(rest@).len() < 2);
            assert(make_pairs(views_of(rest@)) == Seq::<(Seq<u8>, BValue)>::empty());
            assert(pair_views_of(out@) =~= pair_views_of(out@) + Seq::<(
                Seq<u8>,
                BValue,
            )>::empty());
        }
    }
    out
}


/// The items of a bencoded container body, when it parses.
pub open spec fn items_of(s: Seq<u8>) -> Seq<BValue> {
    match parse_items(s, 1) {
        Option::Some((items, j)) => items,
        Option::None => seq![],
    }
}

pub struct DecodingParser;

impl DecodingParser {
    /// Decodes a bencoded integer token: an optional leading `i` is
    /// skipped and everything from the first `e` on is ignored.
    pub fn decode_number(&self, byte_string: &[u8]) -> (r: Result<i64, DecodingError>)
        ensures
            match r {
                Ok(v) => parse_signed(int_token(byte_string@)) == Some(v as int),
                Err(e) => parse_signed(int_token(byte_string@)) is None && e
                    == DecodingError::CannotParseError,
            },
    {
        let start: usize = if byte_string.len() > 0 && byte_string[0] == 105 {
            1
        } else {
            0
        };
        let to: usize = match find_byte_from(byte_string, start, 101) {
            Some(j) => j,
            None => byte_string.len(),
        };
        proof {
            assert(int_token(byte_string@) =~= byte_string@.subrange(start as int, to as int));
        }
        match parse_signed_range(byte_string, start, to) {
            Some(v) => Ok(v),
            None => Err(DecodingError::CannotParseError),
        }
    }

    /// Decodes a bencoded string: everything after the first colon, as a
    /// `String` when it is ASCII and a `ByteString` otherwise.
    pub fn decode_string(&self, byte_string: &[u8]) -> (r: Result<Bencode, DecodingError>)
        ensures
            match r {
                Ok(v) => colon_pos(byte_string@) >= 0 && bview(v) == BValue::Str(
                    byte_string@.subrange(colon_pos(byte_string@) + 1, byte_string@.len() as int),
                ) && normalized(v),
                Err(e) => colon_pos(byte_string@) < 0 && e == DecodingError::InvalidSyntaxError,
            },
    {
        match find_byte_from(byte_string, 0, 58) {
            None => Err(DecodingError::InvalidSyntaxError),
            Some(c) => {
                let n = byte_string.len();
                assert(c < n);
                let bytes = copy_range(byte_string, c + 1, n);
                Ok(bytes_to_bencode_string(bytes))
            },
        }
    }

    /// Splits the items of a bencoded list or dictionary body, starting
    /// after the opening byte and stopping at the closing `e`, whose
    /// index is left in `end`.
    pub fn string_splitter(&self, byte_string: &[u8], end: &mut usize) -> (r: Result<
        Vec<Bencode>,
        DecodingError,
    >)
        ensures
            match r {
                Ok(items) => parse_items(byte_string@, 1) == Some(
                    (views_of(items@), *final(end) + 1),
                ) && all_normalized(items@) && *final(end) < byte_string@.len(),
                Err(e) => parse_items(byte_string@, 1) is None && e
                    == DecodingError::InvalidSyntaxError && *final(end) == *old(end),
            },
    {
        match parse_items_at(byte_string, 1) {
            Ok((items, j)) => {
                *end = j - 1;
                Ok(items)
            },
            Err(e) => Err(e),
        }
    }

    /// Decodes the items of a bencoded list, `l<items>e`.
    pub fn decode_list(&self, byte_string: &[u8]) -> (r: Result<Vec<Bencode>, DecodingError>)
        ensures
            match r {
                Ok(items) => parse_items(byte_string@, 1) is Some && views_of(items@) == items_of(
                    byte_string@,
                ) && all_normalized(items@),
                Err(e) => parse_items(byte_string@, 1) is None && e
                    == DecodingError::InvalidSyntaxError,
            },
    {
        let mut init: usize = 1;
        self.string_splitter(byte_string, &mut init)
    }

    /// Decodes the entries of a bencoded dictionary, `d<pairs>e`.
    pub fn decode_dict(&self, byte_string: &[u8]) -> (r: Result<
        Vec<(String, Bencode)>,
        DecodingError,
    >)
        ensures
            match r {
                Ok(d) => parse_items(byte_string@, 1) is Some && pair_views_of(d@) == make_pairs(
                    items_of(byte_string@),
                ) && dict_normalized(d@),
                Err(e) => parse_items(byte_string@, 1) is None && e
                    == DecodingError::InvalidSyntaxError,
            },
    {
        let mut init: usize = 1;
        match self.string_splitter(byte_string, &mut init) {
            Err(e) => Err(e),
            Ok(items) => Self::make_dict(items),
        }
    }

    /// First index at or after `init` holding an `e`.
    pub fn find_end_of_int(&self, byte_string: &[u8], init: usize) -> (r: usize)
        requires
            find_byte(byte_string@, init as int, 101) >= 0,
        ensures
            r as int == find_byte(byte_string@, init as int, 101),
    {
        match find_byte_from(byte_string, init, 101) {
            Some(j) => j,
            None => {
                proof {
                    assert(false);
                }
                0
            },
        }
    }

    /// Reads the length prefix of a bencoded string starting at `init`
    /// and returns the index of the string's last byte.
    pub fn find_end_of_string(&self, byte_string: &[u8], init: usize) -> (r: Result<
        usize,
        DecodingError,
    >)
        requires
            init <= byte_string@.len(),
        ensures
            ({
                let de = digits_end(byte_string@, init as int);
                let v = dec_value(byte_string@.subrange(init as int, de));
                match r {
                    Ok(w) => de > init && v <= usize::MAX - de && w as int == de + v,
                    Err(e) => (de == init || v > usize::MAX - de) && e
                        == DecodingError::CannotParseError,
                }
            }),
    {
        let de = digits_end_from(byte_string, init);
        proof {
            lemma_digits_end_props(byte_string@, init as int);
        }
        if de == init {
            return Err(DecodingError::CannotParseError);
        }
        let cap: u64 = (usize::MAX - de) as u64;
        match dec_value_capped(byte_string, init, de, cap) {
            None => Err(DecodingError::CannotParseError),
            Some(l) => Ok(de + (l as usize)),
        }
    }

    /// Pairs up a flat item list into a dictionary, as the decoder does.
    pub fn make_dict(list: Vec<Bencode>) -> (r: Result<Vec<(String, Bencode)>, DecodingError>)
        ensures
            r is Ok,
            all_normalized(list@) ==> pair_views_of(r->Ok_0@) == make_pairs(views_of(list@))
                && dict_normalized(r->Ok_0@),
    {
        Ok(pairs_from_items(list))
    }

    /// Decodes one bencode value from a string's bytes.
    pub fn decode_from_string(&self, string: String) -> (r: Result<Bencode, DecodingError>)
        ensures
            match r {
                Ok(v) => parse_top(vstd::utf8::encode_utf8(string@)) == Some(bview(v))
                    && normalized(v) && encodable(v),
                Err(e) => parse_top(vstd::utf8::encode_utf8(string@)) is None && e
                    == DecodingError::InvalidSyntaxError,
            },
    {
        let bytes = string.as_str().as_bytes_vec();
        self.decode_from_u8(bytes)
    }

    /// Decodes one bencode value from raw bytes. The head byte picks the
    /// kind; malformed input is rejected as invalid syntax.
    pub fn decode_from_u8(&self, byte_string: Vec<u8>) -> (r: Result<Bencode, DecodingError>)
        ensures
            match r {
                Ok(v) => parse_top(byte_string@) == Some(bview(v)) && normalized(v) && encodable(
                    v,
                ),
                Err(e) => parse_top(byte_string@) is None && e
                    == DecodingError::InvalidSyntaxError,
            },
    {
        if byte_string.len() == 0 {
            return Err(DecodingError::InvalidSyntaxError);
        }
        let b0 = byte_string[0];
        if b0 == 100 {
            match self.decode_dict(byte_string.as_slice()) {
                Ok(d) => {
                    let r = Bencode::Dictionary(d);
                    proof {
                        lemma_bview_dict(r);
                        lemma_normalized_encodable(r);
                    }
                    Ok(r)
                },
                Err(e) => Err(DecodingError::InvalidSyntaxError),
            }
        } else if b0 == 108 {
            match self.decode_list(byte_string.as_slice()) {
                Ok(items) => {
                    let r = Bencode::List(items);
                    proof {
                        lemma_bview_list(r);
                        lemma_normalized_encodable(r);
                    }
                    Ok(r)
                },
                Err(e) => Err(DecodingError::InvalidSyntaxError),
            }
        } else if b0 == 105 {
            match self.decode_number(byte_string.as_slice()) {
                Ok(n) => Ok(Bencode::Int(n)),
                Err(e) => Err(DecodingError::InvalidSyntaxError),
            }
        } else if 48 <= b0 && b0 <= 57 {
            match self.decode_string(byte_string.as_slice()) {
                Ok(v) => {
                    proof {
                        lemma_normalized_encodable(v);
                    }
                    Ok(v)
                },
                Err(e) => Err(DecodingError::InvalidSyntaxError),
            }
        } else {
            Err(DecodingError::InvalidSyntaxError)
        }
    }
}



// ---------------------------------------------------------------------------
// The round-trip law: decoding a canonical encoding gives the value back,
// so re-encoding reproduces the input bytes exactly.
// ---------------------------------------------------------------------------

/// A value whose encoding decodes back to itself: integers fit in signed
/// 64 bits and dictionary keys are ASCII. (A non-ASCII key would not
/// surface as a string on decoding, so its entry would be dropped.)
pub open spec fn canonical_val(v: BValue) -> bool
    decreases v,
{
    match v {
        BValue::Int(i) => -0x8000000000000000 <= i <= 0x7fffffffffffffff,
        BValue::Str(b) => true,
        BValue::List(l) => forall|i: int| 0 <= i < l.len() ==> canonical_val(#[trigger] l[i]),
        BValue::Dict(d) => forall|i: int|
            0 <= i < d.len() ==> ascii_bytes((#[trigger] d[i]).0) && canonical_val(d[i].1),
    }
}

/// Size of a value, counting one for every node.
pub open spec fn vsize(v: BValue) -> nat
    decreases v, 1int,
{
    match v {
        BValue::Int(i) => 1,
        BValue::Str(b) => 1,
        BValue::List(l) => 1 + vsizes(l),
        BValue::Dict(d) => 1 + psizes(d),
    }
}

/// Total size of a sequence of values.
pub open spec fn vsizes(l: Seq<BValue>) -> nat
    decreases l, 0int,
{
    if l.len() == 0 {
        0
    } else {
        vsize(l[0]) + vsizes(l.drop_first())
    }
}

/// Total size of a sequence of dictionary entries, counting one for each
/// key.
pub open spec fn psizes(d: Seq<(Seq<u8>, BValue)>) -> nat
    decreases d, 0int,
{
    if d.len() == 0 {
        0
    } else {
        1 + vsize(d[0].1) + psizes(d.drop_first())
    }
}

/// The flat item sequence a dictionary's body encodes: key, value, key,
/// value, in order.
pub open spec fn flat_pairs(d: Seq<(Seq<u8>, BValue)>) -> Seq<BValue>
    decreases d,
{
    if d.len() == 0 {
        seq![]
    } else {
        seq![BValue::Str(d[0].0), d[0].1] + flat_pairs(d.drop_first())
    }
}

proof fn lemma_vsize_pos(v: BValue)
    ensures
        vsize(v) >= 1,
{
}

proof fn lemma_vsizes_first(l: Seq<BValue>)
    requires
        l.len() > 0,
    ensures
        vsize(l[0]) <= vsizes(l),
        vsizes(l.drop_first()) < vsizes(l),
{
    lemma_vsize_pos(l[0]);
}

/// The flat item sequence of a dictionary has the size of the dictionary.
proof fn lemma_flat_pairs_size(d: Seq<(Seq<u8>, BValue)>)
    ensures
        vsizes(flat_pairs(d)) == psizes(d),
    decreases d,
{
    if d.len() > 0 {
        lemma_flat_pairs_size(d.drop_first());
        let f = flat_pairs(d);
        assert(f[0] == BValue::Str(d[0].0));
        assert(f[1] == d[0].1);
        assert(f.drop_first()[0] == d[0].1);
        assert(f.drop_first().drop_first() =~= flat_pairs(d.drop_first()));
        assert(vsizes(f) == vsize(f[0]) + vsizes(f.drop_first()));
        assert(vsizes(f.drop_first()) == vsize(d[0].1) + vsizes(flat_pairs(d.drop_first())));
    }
}

/// The body of a dictionary encodes its flat item sequence.
proof fn lemma_encode_flat_pairs(d: Seq<(Seq<u8>, BValue)>)
    ensures
        encode_items(flat_pairs(d)) == encode_pairs(d),
    decreases d,
{
    if d.len() == 0 {
        assert(encode_items(flat_pairs(d)) =~= encode_pairs(d));
    } else {
        lemma_encode_flat_pairs(d.drop_first());
        let f = flat_pairs(d);
        assert(f[0] == BValue::Str(d[0].0));
        assert(f.drop_first()[0] == d[0].1);
        assert(f.drop_first().drop_first() =~= flat_pairs(d.drop_first()));
        assert(encode_items(f) == encode_val(f[0]) + encode_items(f.drop_first()));
        assert(encode_items(f.drop_first()) == encode_val(d[0].1) + encode_items(
            flat_pairs(d.drop_first()),
        ));
        assert(encode_items(flat_pairs(d)) =~= encode_pairs(d));
    }
}

/// Pairing up a dictionary's flat item sequence restores the dictionary,
/// provided its keys are ASCII.
proof fn lemma_make_pairs_flat(d: Seq<(Seq<u8>, BValue)>)
    requires
        forall|i: int| 0 <= i < d.len() ==> ascii_bytes((#[trigger] d[i]).0),
    ensures
        make_pairs(flat_pairs(d)) == d,
    decreases d,
{
    if d.len() == 0 {
        assert(make_pairs(flat_pairs(d)) =~= d);
    } else {
        assert(ascii_bytes(d[0].0));
        assert forall|i: int| 0 <= i < d.drop_first().len() implies ascii_bytes(
            (#[trigger] d.drop_first()[i]).0,
        ) by {
            assert(d.drop_first()[i] == d[i + 1]);
        }
        lemma_make_pairs_flat(d.drop_first());
        let f = flat_pairs(d);
        assert(f.len() >= 2);
        assert(f[0] == BValue::Str(d[0].0));
        assert(f[1] == d[0].1);
        assert(f.subrange(2, f.len() as int) =~= flat_pairs(d.drop_first()));
        assert(make_pairs(f) == seq![(d[0].0, d[0].1)] + make_pairs(flat_pairs(d.drop_first())));
        assert(make_pairs(flat_pairs(d)) =~= d);
    }
}

/// All digits of a decimal rendering are digits, and its value is the
/// number it renders.
proof fn lemma_dec_nat_props(n: nat)
    ensures
        dec_nat(n).len() >= 1,
        all_digits(dec_nat(n)),
        dec_value(dec_nat(n)) == n,
    decreases n,
{
    if n < 10 {
        assert(dec_nat(n) =~= seq![(48 + n) as u8]);
        assert(dec_nat(n).drop_last() =~= Seq::<u8>::empty());
        assert(dec_value(Seq::<u8>::empty()) == 0);
        assert(dec_nat(n).last() == (48 + n) as u8);
        assert(is_digit((48 + n) as u8));
        assert(dec_value(dec_nat(n)) == 0 * 10 + ((48 + n) as u8 - 48));
        assert(dec_value(dec_nat(n)) == n);
    } else {
        lemma_dec_nat_props(n / 10);
        let w = dec_nat(n / 10);
        let ds = dec_nat(n);
        assert(ds == w.push((48 + n % 10) as u8));
        assert(ds.drop_last() =~= w);
        assert forall|i: int| 0 <= i < ds.len() implies is_digit(#[trigger] ds[i]) by {
            if i < w.len() {
                assert(ds[i] == w[i]);
            }
        }
        assert(dec_value(ds) == dec_value(w) * 10 + (n % 10));
        assert(dec_value(w) == n / 10);
        assert((n / 10) * 10 + (n % 10) == n) by (nonlinear_arith)
            requires
                n >= 10,
        ;
    }
}

/// Scanning for a byte finds exactly the first occurrence.
proof fn lemma_find_byte_exact(s: Seq<u8>, from: int, target: int, b: u8)
    requires
        0 <= from <= target < s.len(),
        s[target] == b,
        forall|j: int| from <= j < target ==> s[j] != b,
    ensures
        find_byte(s, from, b) == target,
    decreases target - from,
{
    if from < target {
        lemma_find_byte_exact(s, from + 1, target, b);
    }
}

/// Scanning for the end of a digit run finds exactly the first non-digit.
proof fn lemma_digits_end_exact(s: Seq<u8>, from: int, target: int)
    requires
        0 <= from <= target < s.len(),
        !is_digit(s[target]),
        forall|j: int| from <= j < target ==> is_digit(s[j]),
    ensures
        digits_end(s, from) == target,
    decreases target - from,
{
    if from < target {
        lemma_digits_end_exact(s, from + 1, target);
    }
}

/// The decimal rendering of an integer in the signed 64-bit range parses
/// back to the integer.
proof fn lemma_parse_signed_dec_int(n: int)
    requires
        -0x8000000000000000 <= n <= 0x7fffffffffffffff,
    ensures
        parse_signed(dec_int(n)) == Some(n),
{
    if n < 0 {
        lemma_dec_nat_props((-n) as nat);
        let c = dec_int(n);
        assert(c[0] == 45);
        assert(c.drop_first() =~= dec_nat((-n) as nat));
        assert(!is_digit(45u8));
    } else {
        lemma_dec_nat_props(n as nat);
        let c = dec_int(n);
        assert(c == dec_nat(n as nat));
        assert(is_digit(c[0]));
        assert(c[0] != 45);
    }
}



/// An encoding is never empty and never starts with the terminator `e`.
proof fn lemma_encode_first_byte(v: BValue)
    ensures
        encode_val(v).len() >= 1,
        encode_val(v)[0] != 101,
{
    match v {
        BValue::Int(x) => {
            assert(encode_val(v)[0] == 105);
        },
        BValue::Str(b) => {
            lemma_dec_nat_props(b.len());
            assert(encode_val(v)[0] == dec_nat(b.len())[0]);
            assert(is_digit(dec_nat(b.len())[0]));
        },
        BValue::List(l) => {
            assert(encode_val(v)[0] == 108);
        },
        BValue::Dict(d) => {
            assert(encode_val(v)[0] == 100);
        },
    }
}

/// Every item of a canonical dictionary's flat item sequence is canonical.
proof fn lemma_flat_pairs_canonical(d: Seq<(Seq<u8>, BValue)>)
    requires
        forall|i: int| 0 <= i < d.len() ==> canonical_val((#[trigger] d[i]).1),
    ensures
        forall|k: int| 0 <= k < flat_pairs(d).len() ==> canonical_val(#[trigger] flat_pairs(d)[k]),
    decreases d,
{
    if d.len() > 0 {
        assert forall|i: int| 0 <= i < d.drop_first().len() implies canonical_val(
            (#[trigger] d.drop_first()[i]).1,
        ) by {
            assert(d.drop_first()[i] == d[i + 1]);
        }
        lemma_flat_pairs_canonical(d.drop_first());
        let f = flat_pairs(d);
        assert forall|k: int| 0 <= k < f.len() implies canonical_val(#[trigger] f[k]) by {
            if k == 0 {
                assert(f[0] == BValue::Str(d[0].0));
            } else if k == 1 {
                assert(f[1] == d[0].1);
                assert(canonical_val(d[0].1));
            } else {
                assert(f[k] == flat_pairs(d.drop_first())[k - 2]);
            }
        }
    }
}

/// Parsing at the start of an embedded canonical encoding yields the
/// encoded value and stops right after it.
proof fn lemma_parse_val_encoded(v: BValue, s: Seq<u8>, i: int)
    requires
        canonical_val(v),
        0 <= i,
        i + encode_val(v).len() <= s.len(),
        s.subrange(i, i + encode_val(v).len() as int) == encode_val(v),
    ensures
        parse_val(s, i) == Some((v, i + encode_val(v).len() as int)),
    decreases vsize(v), 0int,
{
    let es = encode_val(v);
    let n = es.len() as int;
    assert forall|k: int| 0 <= k < n implies s[i + k] == es[k] by {
        assert(s.subrange(i, i + n)[k] == s[i + k]);
    }
    lemma_encode_first_byte(v);
    match v {
        BValue::Int(x) => {
            let dm = dec_int(x);
            let dl = dm.len() as int;
            assert(es == seq![105u8] + dm + seq![101u8]);
            assert(s[i] == 105);
            if x < 0 {
                lemma_dec_nat_props((-x) as nat);
                assert(dm[0] == 45);
                assert forall|k: int| 0 <= k < dl implies dm[k] != 101 by {
                    if k > 0 {
                        assert(dm[k] == dec_nat((-x) as nat)[k - 1]);
                        assert(is_digit(dm[k]));
                    }
                }
            } else {
                lemma_dec_nat_props(x as nat);
                assert forall|k: int| 0 <= k < dl implies dm[k] != 101 by {
                    assert(is_digit(dm[k]));
                }
            }
            assert forall|j: int| i + 1 <= j < i + 1 + dl implies s[j] != 101 by {
                assert(es[j - i] == dm[j - i - 1]);
            }
            assert(s[i + 1 + dl] == es[1 + dl] == 101);
            lemma_find_byte_exact(s, i + 1, i + 1 + dl, 101);
            assert(s.subrange(i + 1, i + 1 + dl) =~= dm) by {
                assert forall|q: int| 0 <= q < dl implies s.subrange(i + 1, i + 1 + dl)[q]
                    == dm[q] by {
                    assert(s[i + (1 + q)] == es[1 + q]);
                    assert(es[1 + q] == dm[q]);
                }
            }
            lemma_parse_signed_dec_int(x);
            assert(parse_val(s, i) == Some((v, i + n)));
        },
        BValue::Str(b) => {
            let dm = dec_nat(b.len());
            let dl = dm.len() as int;
            lemma_dec_nat_props(b.len());
            assert(es == dm + seq![58u8] + b);
            assert(is_digit(s[i]));
            assert(s[i] != 108 && s[i] != 100 && s[i] != 105);
            assert forall|j: int| i <= j < i + dl implies is_digit(s[j]) by {
                assert(es[j - i] == dm[j - i]);
            }
            assert(s[i + dl] == es[dl] == 58);
            assert(!is_digit(58u8));
            lemma_digits_end_exact(s, i, i + dl);
            let de = i + dl;
            assert(s.subrange(i, de) =~= dm) by {
                assert forall|q: int| 0 <= q < dl implies s.subrange(i, de)[q] == dm[q] by {
                    assert(s[i + q] == es[q]);
                    assert(es[q] == dm[q]);
                }
            }
            assert(dec_value(s.subrange(i, de)) == b.len());
            assert(s.subrange(de + 1, de + 1 + b.len()) =~= b) by {
                assert forall|q: int| 0 <= q < b.len() implies s.subrange(
                    de + 1,
                    de + 1 + b.len(),
                )[q] == b[q] by {
                    assert(s[i + (dl + 1 + q)] == es[dl + 1 + q]);
                    assert(es[dl + 1 + q] == b[q]);
                }
            }
            assert(parse_val(s, i) == Some((v, i + n)));
        },
        BValue::List(l) => {
            assert(s[i] == 108);
            let il = encode_items(l).len() as int;
            assert(s.subrange(i + 1, i + 1 + il + 1) =~= encode_items(l) + seq![101u8]) by {
                assert forall|q: int| 0 <= q < il + 1 implies s.subrange(i + 1, i + 1 + il + 1)[q]
                    == (encode_items(l) + seq![101u8])[q] by {
                    assert(s[i + (1 + q)] == es[1 + q]);
                    assert(es[1 + q] == (encode_items(l) + seq![101u8])[q]);
                }
            }
            assert(vsizes(l) < vsize(v));
            lemma_parse_items_encoded(l, s, i + 1);
            assert(parse_val(s, i) == Some((v, i + n)));
        },
        BValue::Dict(d) => {
            assert(s[i] == 100);
            lemma_encode_flat_pairs(d);
            lemma_flat_pairs_size(d);
            lemma_flat_pairs_canonical(d);
            let f = flat_pairs(d);
            let il = encode_items(f).len() as int;
            assert(s.subrange(i + 1, i + 1 + il + 1) =~= encode_items(f) + seq![101u8]) by {
                assert forall|q: int| 0 <= q < il + 1 implies s.subrange(i + 1, i + 1 + il + 1)[q]
                    == (encode_items(f) + seq![101u8])[q] by {
                    assert(s[i + (1 + q)] == es[1 + q]);
                    assert(es[1 + q] == (encode_items(f) + seq![101u8])[q]);
                }
            }
            assert(vsizes(f) < vsize(v));
            lemma_parse_items_encoded(f, s, i + 1);
            lemma_make_pairs_flat(d);
            assert(parse_val(s, i) == Some((v, i + n)));
        },
    }
}

/// Parsing at the start of an embedded sequence of canonical encodings,
/// followed by the terminator `e`, yields exactly those values.
proof fn lemma_parse_items_encoded(l: Seq<BValue>, s: Seq<u8>, i: int)
    requires
        forall|k: int| 0 <= k < l.len() ==> canonical_val(#[trigger] l[k]),
        0 <= i,
        i + encode_items(l).len() + 1 <= s.len(),
        s.subrange(i, i + encode_items(l).len() + 1) == encode_items(l) + seq![101u8],
    ensures
        parse_items(s, i) == Some((l, i + encode_items(l).len() + 1)),
    decreases vsizes(l), 1int,
{
    let n = encode_items(l).len() as int;
    if l.len() == 0 {
        assert(s[i] == 101) by {
            assert(s.subrange(i, i + n + 1)[0] == s[i]);
        }
        assert(parse_items(s, i) == Some((Seq::<BValue>::empty(), i + 1)));
        assert(l =~= Seq::<BValue>::empty());
    } else {
        let e0 = encode_val(l[0]);
        let rest = l.drop_first();
        let re = encode_items(rest);
        assert(encode_items(l) == e0 + re);
        lemma_encode_first_byte(l[0]);
        assert(s[i] == e0[0]) by {
            assert(s.subrange(i, i + n + 1)[0] == s[i]);
            assert((encode_items(l) + seq![101u8])[0] == e0[0]);
        }
        assert(s[i] != 101);
        assert(s.subrange(i, i + e0.len() as int) =~= e0) by {
            assert forall|q: int| 0 <= q < e0.len() implies s.subrange(
                i,
                i + e0.len() as int,
            )[q] == e0[q] by {
                assert(s.subrange(i, i + n + 1)[q] == s[i + q]);
                assert((encode_items(l) + seq![101u8])[q] == e0[q]);
            }
        }
        lemma_vsizes_first(l);
        lemma_parse_val_encoded(l[0], s, i);
        let j = i + e0.len() as int;
        assert(parse_val(s, i) == Some((l[0], j)));
        assert(i < j <= s.len());
        assert forall|k: int| 0 <= k < rest.len() implies canonical_val(#[trigger] rest[k]) by {
            assert(rest[k] == l[k + 1]);
        }
        assert(s.subrange(j, j + re.len() + 1) =~= re + seq![101u8]) by {
            let w = e0.len() as int;
            assert forall|q: int| 0 <= q < re.len() + 1 implies s.subrange(
                j,
                j + re.len() + 1,
            )[q] == (re + seq![101u8])[q] by {
                assert(s.subrange(i, i + n + 1)[w + q] == s[i + (w + q)]);
                assert((encode_items(l) + seq![101u8])[w + q] == (re + seq![101u8])[q]);
            }
        }
        lemma_parse_items_encoded(rest, s, j);
        assert(parse_items(s, j) == Some((rest, j + re.len() + 1)));
        assert(seq![l[0]] + rest =~= l);
        assert(parse_items(s, i) == Some((l, i + n + 1)));
    }
}

/// Law: decoding the encoding of a canonical value yields exactly that
/// value. In particular the decoder accepts every canonical encoding.
pub proof fn lemma_parse_top_encode(v: BValue)
    requires
        canonical_val(v),
    ensures
        parse_top(encode_val(v)) == Some(v),
{
    let es = encode_val(v);
    lemma_encode_first_byte(v);
    match v {
        BValue::Int(x) => {
            let dm = dec_int(x);
            let dl = dm.len() as int;
            assert(es == seq![105u8] + dm + seq![101u8]);
            assert(es[0] == 105);
            if x < 0 {
                lemma_dec_nat_props((-x) as nat);
                assert(dm[0] == 45);
                assert forall|k: int| 0 <= k < dl implies dm[k] != 101 by {
                    if k > 0 {
                        assert(dm[k] == dec_nat((-x) as nat)[k - 1]);
                        assert(is_digit(dm[k]));
                    }
                }
            } else {
                lemma_dec_nat_props(x as nat);
                assert forall|k: int| 0 <= k < dl implies dm[k] != 101 by {
                    assert(is_digit(dm[k]));
                }
            }
            assert forall|j: int| 1 <= j < 1 + dl implies es[j] != 101 by {
                assert(es[j] == dm[j - 1]);
            }
            assert(es[1 + dl] == 101);
            lemma_find_byte_exact(es, 1, 1 + dl, 101);
            assert(int_token(es) =~= dm);
            lemma_parse_signed_dec_int(x);
        },
        BValue::Str(b) => {
            let dm = dec_nat(b.len());
            let dl = dm.len() as int;
            lemma_dec_nat_props(b.len());
            assert(es == dm + seq![58u8] + b);
            assert(es[0] == dm[0]);
            assert(is_digit(es[0]));
            assert forall|j: int| 0 <= j < dl implies es[j] != 58 by {
                assert(es[j] == dm[j]);
                assert(is_digit(dm[j]));
            }
            assert(es[dl] == 58);
            lemma_find_byte_exact(es, 0, dl, 58);
            assert(colon_pos(es) == dl);
            assert(es.subrange(dl + 1, es.len() as int) =~= b);
        },
        BValue::List(l) => {
            assert(es[0] == 108);
            let il = encode_items(l).len() as int;
            assert(es.subrange(1, 1 + il + 1) =~= encode_items(l) + seq![101u8]);
            lemma_parse_items_encoded(l, es, 1);
        },
        BValue::Dict(d) => {
            assert(es[0] == 100);
            lemma_encode_flat_pairs(d);
            lemma_flat_pairs_canonical(d);
            let f = flat_pairs(d);
            let il = encode_items(f).len() as int;
            assert(es.subrange(1, 1 + il + 1) =~= encode_items(f) + seq![101u8]);
            lemma_parse_items_encoded(f, es, 1);
            lemma_make_pairs_flat(d);
        },
    }
}

/// Law (byte-exact round trip): a canonically bencoded input — a torrent
/// file in particular — decodes to its value, and re-encoding that value
/// reproduces the input byte for byte.
pub proof fn lemma_encode_decode_roundtrip(x: Seq<u8>, v: BValue)
    requires
        canonical_val(v),
        x == encode_val(v),
    ensures
        parse_top(x) == Some(v),
        encode_val(v) == x,
{
    lemma_parse_top_encode(v);
}

/// Every value the encoder accepts has a canonical model, so what the
/// encoder produces always decodes back to the same model.
pub proof fn lemma_encodable_canonical(b: Bencode)
    requires
        encodable(b),
    ensures
        canonical_val(bview(b)),
    decreases b,
{
    match b {
        Bencode::Int(x) => {},
        Bencode::String(st) => {},
        Bencode::ByteString(bs) => {},
        Bencode::List(l) => {
            lemma_bview_list(b);
            let vs = views_of(l@);
            assert forall|i: int| 0 <= i < vs.len() implies canonical_val(#[trigger] vs[i]) by {
                assert(decreases_to!(b => l));
                assert(decreases_to!(l => l[i]));
                assert(encodable(l@[i]));
                lemma_encodable_canonical(l@[i]);
                assert(vs[i] == bview(l@[i]));
            }
        },
        Bencode::Dictionary(d) => {
            lemma_bview_dict(b);
            let ps = pair_views_of(d@);
            assert forall|i: int| 0 <= i < ps.len() implies ascii_bytes((#[trigger] ps[i]).0)
                && canonical_val(ps[i].1) by {
                assert(decreases_to!(b => d));
                assert(decreases_to!(d => d[i]));
                assert(decreases_to!(d@[i] => d@[i].1));
                let e = d@[i];
                assert(ascii_str(e.0@));
                assert(encodable(e.1));
                lemma_encodable_canonical(e.1);
                lemma_bytes_chars_ascii(e.0@);
                assert(ps[i] == (bytes_of_chars(e.0@), bview(e.1)));
            }
        },
    }
}

/// The bytes of an ASCII character sequence are ASCII bytes.
proof fn lemma_bytes_chars_ascii(chars: Seq<char>)
    requires
        ascii_str(chars),
    ensures
        ascii_bytes(bytes_of_chars(chars)),
{
    assert forall|i: int| 0 <= i < bytes_of_chars(chars).len() implies #[trigger] bytes_of_chars(
        chars,
    )[i] < 128 by {
        assert('\0' <= chars[i] <= '\u{7f}');
        assert(bytes_of_chars(chars)[i] == chars[i] as u8);
    }
}



/// The decimal text of an unsigned number.
pub fn format_u64(n: u64) -> (r: Vec<u8>)
    ensures
        r@ == dec_nat(n as nat),
{
    let mut buf: Vec<u8> = Vec::new();
    push_dec_u64(&mut buf, n);
    buf
}

/// Digits of a decimal rendering are ASCII.
pub proof fn lemma_dec_nat_ascii(n: nat)
    ensures
        ascii_bytes(dec_nat(n)),
        dec_nat(n).len() >= 1,
{
    lemma_dec_nat_props(n);
    assert forall|i: int| 0 <= i < dec_nat(n).len() implies #[trigger] dec_nat(n)[i] < 128 by {
        assert(is_digit(dec_nat(n)[i]));
    }
}

/// The decimal text of a signed number: a minus sign for negatives, then
/// the digits of its magnitude.
pub fn format_i64(n: i64) -> (r: String)
    ensures
        bytes_of_chars(r@) == dec_int(n as int),
        ascii_str(r@),
{
    let mut buf: Vec<u8> = Vec::new();
    if n < 0 {
        buf.push(45);
        let magnitude: u64 = ((-(n as i128)) as u64);
        push_dec_u64(&mut buf, magnitude);
        proof {
            assert(buf@ =~= seq![45u8] + dec_nat(((-(n as int))) as nat));
        }
    } else {
        push_dec_u64(&mut buf, n as u64);
    }
    proof {
        if n < 0 {
            lemma_dec_nat_ascii((-(n as int)) as nat);
        } else {
            lemma_dec_nat_ascii((n as int) as nat);
        }
        assert(ascii_bytes(buf@));
    }
    let r = crate::strutil::string_from_ascii(&buf);
    proof {
        crate::strutil::lemma_bytes_chars_roundtrip(buf@);
    }
    r
}





} // verus!
