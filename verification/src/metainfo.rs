//! Torrent metafile loader: decodes a metafile, extracts the announce URL
//! and the info dictionary, and computes the info-hash — the SHA-1 digest
//! of the re-encoded info sub-dictionary, the identity of the torrent.

use vstd::prelude::*;

use crate::bencode::{
    bview, encodable, encode_val, normalized, parse_top, Bencode, DecodingParser, EncodingParser,
};
use crate::errors::BitTrackerError;
use crate::strutil::ascii_str;

verus! {

#[derive(Debug, PartialEq, Eq, Structural)]
pub enum MetaInfoError {
    ReadFileError,
    OpenFileError,
    DecodingError,
    IntegerConvertionError,
}

impl MetaInfoError {
    /// Human-readable description of the error.
    pub fn message(&self) -> (r: String)
        ensures
            self is ReadFileError ==> r@ == "No se pudo leer el archivo"@,
            self is OpenFileError ==> r@ == "No se pudo abrir el archivo"@,
            self is DecodingError ==> r@ == "No se pudo parsear el archivo"@,
            self is IntegerConvertionError ==> r@ == "Fallo al intentar castear un entero"@,
    {
        match self {
            MetaInfoError::ReadFileError => String::from_str("No se pudo leer el archivo"),
            MetaInfoError::OpenFileError => String::from_str("No se pudo abrir el archivo"),
            MetaInfoError::DecodingError => String::from_str("No se pudo parsear el archivo"),
            MetaInfoError::IntegerConvertionError => String::from_str(
                "Fallo al intentar castear un entero",
            ),
        }
    }
}

/// The SHA-1 digest of a byte sequence; it depends on the bytes alone.
pub uninterp spec fn sha1_of(data: Seq<u8>) -> Seq<u8>;

/// The info dictionary of a torrent metafile.
#[derive(Debug, PartialEq, Clone)]
pub struct Info {
    pub piece_length: u32,
    pub pieces: Vec<Vec<u8>>,
    pub num_pieces: usize,
    pub name: String,
    pub length: u64,
}

/// A torrent metafile: the tracker URL, the info dictionary, and the
/// torrent's identity.
#[derive(Debug, PartialEq, Clone)]
pub struct MetaInfo {
    pub announce: String,
    pub info: Info,
    pub info_hash: Vec<u8>,
}

/// The model of an info dictionary.
pub struct InfoModel {
    pub piece_length: u32,
    pub pieces: Seq<Seq<u8>>,
    pub num_pieces: int,
    pub name: Seq<char>,
    pub length: u64,
}

/// The model of a loaded metafile.
pub struct MetaModel {
    pub announce: Seq<char>,
    pub info: InfoModel,
    pub info_hash: Seq<u8>,
}

/// The model of an info dictionary value.
pub open spec fn info_view(i: Info) -> InfoModel {
    InfoModel {
        piece_length: i.piece_length,
        pieces: Seq::new(i.pieces@.len(), |k: int| i.pieces@[k]@),
        num_pieces: i.num_pieces as int,
        name: i.name@,
        length: i.length,
    }
}

/// The model of a loaded metafile value.
pub open spec fn meta_view(m: MetaInfo) -> MetaModel {
    MetaModel { announce: m.announce@, info: info_view(m.info), info_hash: m.info_hash@ }
}

/// The fields an info dictionary starts from before its entries are read.
pub open spec fn init_info() -> InfoModel {
    InfoModel {
        piece_length: 0,
        pieces: seq![Seq::<u8>::empty()],
        num_pieces: 0,
        name: Seq::empty(),
        length: 0,
    }
}

/// A byte string split into its consecutive 20-byte groups.
pub open spec fn split20(b: Seq<u8>) -> Seq<Seq<u8>> {
    Seq::new(b.len() / 20, |k: int| b.subrange(20 * k, 20 * k + 20))
}

/// What one info-dictionary entry does to the fields collected so far:
/// `piece length` and `length` must be integers in range, `pieces` must be
/// a raw byte string of whole 20-byte hashes, `name` is taken from a text
/// value and any other key is ignored.
pub open spec fn info_step(acc: InfoModel, key: Seq<char>, v: Bencode) -> Result<
    InfoModel,
    BitTrackerError,
> {
    if key == "piece length"@ {
        match v {
            Bencode::Int(n) => if 0 <= n <= u32::MAX {
                Ok(InfoModel { piece_length: n as u32, ..acc })
            } else {
                Err(BitTrackerError::IntegerConvertionError)
            },
            _ => Err(BitTrackerError::DecodingError),
        }
    } else if key == "pieces"@ {
        match v {
            Bencode::ByteString(b) => if b@.len() % 20 == 0 {
                Ok(
                    InfoModel {
                        pieces: split20(b@),
                        num_pieces: b@.len() as int / 20,
                        ..acc
                    },
                )
            } else {
                Err(BitTrackerError::DecodingError)
            },
            _ => Err(BitTrackerError::DecodingError),
        }
    } else if key == "name"@ {
        match v {
            Bencode::String(s) => Ok(InfoModel { name: s@, ..acc }),
            _ => Ok(acc),
        }
    } else if key == "length"@ {
        match v {
            Bencode::Int(n) => if 0 <= n {
                Ok(InfoModel { length: n as u64, ..acc })
            } else {
                Err(BitTrackerError::IntegerConvertionError)
            },
            _ => Err(BitTrackerError::DecodingError),
        }
    } else {
        Ok(acc)
    }
}

/// Reading the entries of an info dictionary in order.
pub open spec fn info_fold(d: Seq<(String, Bencode)>, i: int, acc: InfoModel) -> Result<
    InfoModel,
    BitTrackerError,
>
    decreases d.len() - i,
{
    if i < 0 || i >= d.len() {
        Ok(acc)
    } else {
        match info_step(acc, d[i].0@, d[i].1) {
            Err(e) => Err(e),
            Ok(a2) => info_fold(d, i + 1, a2),
        }
    }
}

/// The starting state of a metafile read.
pub open spec fn init_meta() -> MetaModel {
    MetaModel { announce: Seq::empty(), info: init_info(), info_hash: Seq::empty() }
}

/// What one top-level metafile entry does: `info` fixes the info-hash to
/// the SHA-1 of the entry's re-encoding and, when it is a dictionary,
/// reads the info fields; `announce` takes a text tracker URL; any other
/// key is ignored.
pub open spec fn meta_step(acc: MetaModel, key: Seq<char>, v: Bencode) -> Result<
    MetaModel,
    BitTrackerError,
> {
    if key == "info"@ {
        let hashed = sha1_of(encode_val(bview(v)));
        match v {
            Bencode::Dictionary(d) => match info_fold(d@, 0, init_info()) {
                Err(e) => Err(e),
                Ok(im) => Ok(MetaModel { info: im, info_hash: hashed, ..acc }),
            },
            _ => Ok(MetaModel { info_hash: hashed, ..acc }),
        }
    } else if key == "announce"@ {
        match v {
            Bencode::String(s) => Ok(MetaModel { announce: s@, ..acc }),
            _ => Ok(acc),
        }
    } else {
        Ok(acc)
    }
}

/// Reading the top-level entries of a metafile in order.
pub open spec fn meta_fold(d: Seq<(String, Bencode)>, i: int, acc: MetaModel) -> Result<
    MetaModel,
    BitTrackerError,
>
    decreases d.len() - i,
{
    if i < 0 || i >= d.len() {
        Ok(acc)
    } else {
        match meta_step(acc, d[i].0@, d[i].1) {
            Err(e) => Err(e),
            Ok(a2) => meta_fold(d, i + 1, a2),
        }
    }
}

/// What loading a decoded metafile value yields: the field fold for a
/// dictionary, the untouched defaults for any other value.
pub open spec fn meta_of(b: Bencode) -> Result<MetaModel, BitTrackerError> {
    match b {
        Bencode::Dictionary(d) => meta_fold(d@, 0, init_meta()),
        _ => Ok(init_meta()),
    }
}

impl MetaInfo {
    /// Loads a metafile from its raw bytes: decode, then read the
    /// top-level entries.
    pub fn new(torrent: Vec<u8>) -> (r: Result<MetaInfo, BitTrackerError>)
        ensures
            parse_top(torrent@) is None ==> r == Err::<MetaInfo, BitTrackerError>(
                BitTrackerError::DecodingError,
            ),
            parse_top(torrent@) is Some ==> (exists|b: Bencode|
                {
                    &&& normalized(b)
                    &&& parse_top(torrent@) == Some(#[trigger] bview(b))
                    &&& match r {
                        Ok(m) => meta_of(b) == Ok::<MetaModel, BitTrackerError>(meta_view(m)),
                        Err(e) => meta_of(b) == Err::<MetaModel, BitTrackerError>(e),
                    }
                }),
    {
        let parser = DecodingParser;
        let decoded = match parser.decode_from_u8(torrent) {
            Ok(v) => v,
            Err(e) => {
                return Err(BitTrackerError::DecodingError);
            },
        };
        let ghost db = decoded;
        let r = Self::from_bencode(decoded);
        proof {
            assert(normalized(db) && parse_top(torrent@) == Some(bview(db)) && match r {
                Ok(m) => meta_of(db) == Ok::<MetaModel, BitTrackerError>(meta_view(m)),
                Err(e) => meta_of(db) == Err::<MetaModel, BitTrackerError>(e),
            });
        }
        r
    }

    /// Reads the top-level entries of a decoded metafile.
    #[verifier::loop_isolation(false)]
    pub fn from_bencode(bencode: Bencode) -> (r: Result<MetaInfo, BitTrackerError>)
        requires
            encodable(bencode),
        ensures
            match r {
                Ok(m) => meta_of(bencode) == Ok::<MetaModel, BitTrackerError>(meta_view(m)),
                Err(e) => meta_of(bencode) == Err::<MetaModel, BitTrackerError>(e),
            },
    {
        let ghost ob = bencode;
        let mut announce = String::new();
        let mut info = Info {
            piece_length: 0,
            pieces: vec![Vec::new()],
            num_pieces: 0,
            name: String::new(),
            length: 0,
        };
        let mut info_hash: Vec<u8> = Vec::new();
        proof {
            assert(info_view(info).pieces =~= init_info().pieces);
            assert(info_view(info) == init_info());
        }
        match bencode {
            Bencode::Dictionary(dict) => {
                let needle_info = String::from_str("info");
                let needle_announce = String::from_str("announce");
                let mut dict = dict;
                let n0 = dict.len();
                let ghost odict = dict@;
                proof {
                    assert(ob->Dictionary_0@ == odict);
                    assert forall|i: int| 0 <= i < odict.len() implies encodable(
                        (#[trigger] odict[i]).1,
                    ) by {
                        let e = odict[i];
                        assert(ascii_str(e.0@));
                        assert(encodable(e.1));
                    }
                }
                let mut k_done: usize = 0;
                while dict.len() > 0
                    invariant
                        odict.len() == n0 as int,
                        odict.len() - dict@.len() == k_done,
                        dict@ =~= odict.subrange(k_done as int, odict.len() as int),
                        meta_fold(odict, 0, init_meta()) == meta_fold(
                            odict,
                            k_done as int,
                            MetaModel {
                                announce: announce@,
                                info: info_view(info),
                                info_hash: info_hash@,
                            },
                        ),
                    decreases dict@.len(),
                {
                    let ghost acc_before = MetaModel {
                        announce: announce@,
                        info: info_view(info),
                        info_hash: info_hash@,
                    };
                    let (key, value) = dict.remove(0);
                    let ghost gkey = key;
                    let ghost gv = value;
                    proof {
                        assert(odict[k_done as int] == (key, value));
                        assert(encodable(value));
                    }
                    if key == needle_info {
                        let mut hash_buf: Vec<u8> = Vec::new();
                        let parser = EncodingParser;
                        parser.enc_value(&mut hash_buf, &value);
                        info_hash = MetaInfo::hashing(hash_buf.as_slice());
                        if let Bencode::Dictionary(d) = value {
                            match Info::new(d) {
                                Ok(i2) => {
                                    info = i2;
                                },
                                Err(e) => {
                                    proof {
                                        assert(meta_step(acc_before, gkey@, gv) == Err::<
                                            MetaModel,
                                            BitTrackerError,
                                        >(e));
                                        assert(meta_fold(odict, k_done as int, acc_before)
                                            == Err::<MetaModel, BitTrackerError>(e));
                                    }
                                    return Err(e);
                                },
                            }
                        }
                    } else if key == needle_announce {
                        if let Bencode::String(s) = value {
                            announce = s;
                        }
                    }
                    k_done += 1;
                    proof {
                        let acc_after = MetaModel {
                            announce: announce@,
                            info: info_view(info),
                            info_hash: info_hash@,
                        };
                        assert(meta_step(acc_before, gkey@, gv) == Ok::<
                            MetaModel,
                            BitTrackerError,
                        >(acc_after));
                        assert(meta_fold(odict, k_done - 1, acc_before) == meta_fold(
                            odict,
                            k_done as int,
                            acc_after,
                        ));
                    }
                }
                proof {
                    let acc = MetaModel {
                        announce: announce@,
                        info: info_view(info),
                        info_hash: info_hash@,
                    };
                    assert(meta_fold(odict, k_done as int, acc) == Ok::<
                        MetaModel,
                        BitTrackerError,
                    >(acc));
                }
            },
            _ => {},
        }
        Ok(MetaInfo { announce, info, info_hash })
    }

    /// Relies on sha1::Sha1: the 20-byte SHA-1 digest of the input, a
    /// function of the input bytes alone.
    #[verifier::external_body]
    pub fn hashing(info: &[u8]) -> (r: Vec<u8>)
        ensures
            r@ == sha1_of(info@),
            r@.len() == 20,
    {
        let mut hasher = <sha1::Sha1 as sha1::Digest>::new();
        sha1::Digest::update(&mut hasher, info);
        let hashed_info = &sha1::Digest::finalize(hasher)[..];
        hashed_info.to_owned()
    }
}

impl Info {
    /// Reads the fields of an info dictionary from its entries.
    #[verifier::loop_isolation(false)]
    pub fn new(dict: Vec<(String, Bencode)>) -> (r: Result<Info, BitTrackerError>)
        ensures
            match r {
                Ok(i) => info_fold(dict@, 0, init_info()) == Ok::<InfoModel, BitTrackerError>(
                    info_view(i),
                ),
                Err(e) => info_fold(dict@, 0, init_info()) == Err::<InfoModel, BitTrackerError>(e),
            },
    {
        let mut piece_length: u32 = 0;
        let mut pieces: Vec<Vec<u8>> = vec![Vec::new()];
        let mut num_pieces: usize = 0;
        let mut name: String = String::new();
        let mut length: u64 = 0;
        let needle_pl = String::from_str("piece length");
        let needle_pieces = String::from_str("pieces");
        let needle_name = String::from_str("name");
        let needle_length = String::from_str("length");
        let mut dict = dict;
        let n0 = dict.len();
        let ghost odict = dict@;
        let mut k_done: usize = 0;
        proof {
            assert(Seq::new(pieces@.len(), |k: int| pieces@[k]@) =~= init_info().pieces);
        }
        while dict.len() > 0
            invariant
                odict.len() == n0 as int,
                odict.len() - dict@.len() == k_done,
                dict@ =~= odict.subrange(k_done as int, odict.len() as int),
                info_fold(odict, 0, init_info()) == info_fold(
                    odict,
                    k_done as int,
                    InfoModel {
                        piece_length: piece_length,
                        pieces: Seq::new(pieces@.len(), |k: int| pieces@[k]@),
                        num_pieces: num_pieces as int,
                        name: name@,
                        length: length,
                    },
                ),
            decreases dict@.len(),
        {
            let ghost acc_before = InfoModel {
                piece_length: piece_length,
                pieces: Seq::new(pieces@.len(), |k: int| pieces@[k]@),
                num_pieces: num_pieces as int,
                name: name@,
                length: length,
            };
            let (key, value) = dict.remove(0);
            let ghost gkey = key;
            let ghost gv = value;
            proof {
                assert(odict[k_done as int] == (key, value));
            }
            if key == needle_pl {
                match Self::get_piece_length(value) {
                    Ok(pl) => {
                        piece_length = pl;
                    },
                    Err(e) => {
                        proof {
                            assert(info_step(acc_before, gkey@, gv) == Err::<
                                InfoModel,
                                BitTrackerError,
                            >(e));
                        }
                        return Err(e);
                    },
                }
            } else if key == needle_pieces {
                match Self::get_pieces(value) {
                    Ok(ps) => {
                        proof {
                            assert(Seq::new(ps@.len(), |k: int| ps@[k]@).len() == split20(
                                gv->ByteString_0@,
                            ).len());
                            assert(ps@.len() == gv->ByteString_0@.len() / 20);
                        }
                        num_pieces = ps.len();
                        pieces = ps;
                    },
                    Err(e) => {
                        proof {
                            assert(info_step(acc_before, gkey@, gv) == Err::<
                                InfoModel,
                                BitTrackerError,
                            >(e));
                        }
                        return Err(e);
                    },
                }
            } else if key == needle_name {
                if let Bencode::String(s) = value {
                    name = s;
                }
            } else if key == needle_length {
                match Self::get_length(value) {
                    Ok(l) => {
                        length = l;
                    },
                    Err(e) => {
                        proof {
                            assert(info_step(acc_before, gkey@, gv) == Err::<
                                InfoModel,
                                BitTrackerError,
                            >(e));
                        }
                        return Err(e);
                    },
                }
            }
            k_done += 1;
            proof {
                let acc_after = InfoModel {
                    piece_length: piece_length,
                    pieces: Seq::new(pieces@.len(), |k: int| pieces@[k]@),
                    num_pieces: num_pieces as int,
                    name: name@,
                    length: length,
                };
                assert(info_step(acc_before, gkey@, gv) == Ok::<InfoModel, BitTrackerError>(
                    acc_after,
                ));
                assert(info_fold(odict, k_done - 1, acc_before) == info_fold(
                    odict,
                    k_done as int,
                    acc_after,
                ));
            }
        }
        proof {
            let acc = InfoModel {
                piece_length: piece_length,
                pieces: Seq::new(pieces@.len(), |k: int| pieces@[k]@),
                num_pieces: num_pieces as int,
                name: name@,
                length: length,
            };
            assert(info_fold(odict, k_done as int, acc) == Ok::<InfoModel, BitTrackerError>(acc));
        }
        Ok(Info { piece_length, pieces, num_pieces, name, length })
    }

    /// Reads the piece length: an integer that fits in 32 bits.
    pub fn get_piece_length(bencode: Bencode) -> (r: Result<u32, BitTrackerError>)
        ensures
            match r {
                Ok(v) => bencode is Int && 0 <= bencode->Int_0 <= u32::MAX && v
                    == bencode->Int_0 as u32,
                Err(e) => {
                    &&& !(bencode is Int && 0 <= bencode->Int_0 <= u32::MAX)
                    &&& bencode is Int ==> e == BitTrackerError::IntegerConvertionError
                    &&& !(bencode is Int) ==> e == BitTrackerError::DecodingError
                },
            },
    {
        if let Bencode::Int(num) = bencode {
            if 0 <= num && num <= u32::MAX as i64 {
                return Ok(num as u32);
            }
            return Err(BitTrackerError::IntegerConvertionError);
        }
        Err(BitTrackerError::DecodingError)
    }

    /// Reads the file length: a non-negative integer.
    pub fn get_length(bencode: Bencode) -> (r: Result<u64, BitTrackerError>)
        ensures
            match r {
                Ok(v) => bencode is Int && 0 <= bencode->Int_0 && v == bencode->Int_0 as u64,
                Err(e) => {
                    &&& !(bencode is Int && 0 <= bencode->Int_0)
                    &&& bencode is Int ==> e == BitTrackerError::IntegerConvertionError
                    &&& !(bencode is Int) ==> e == BitTrackerError::DecodingError
                },
            },
    {
        if let Bencode::Int(num) = bencode {
            if 0 <= num {
                return Ok(num as u64);
            }
            return Err(BitTrackerError::IntegerConvertionError);
        }
        Err(BitTrackerError::DecodingError)
    }

    /// Splits the concatenated piece hashes into 20-byte groups.
    pub fn get_pieces(bencode: Bencode) -> (r: Result<Vec<Vec<u8>>, BitTrackerError>)
        ensures
            match r {
                Ok(ps) => {
                    &&& bencode is ByteString
                    &&& bencode->ByteString_0@.len() % 20 == 0
                    &&& Seq::new(ps@.len(), |k: int| ps@[k]@) == split20(bencode->ByteString_0@)
                },
                Err(e) => !(bencode is ByteString && bencode->ByteString_0@.len() % 20 == 0) && e
                    == BitTrackerError::DecodingError,
            },
    {
        if let Bencode::ByteString(bytes) = bencode {
            if bytes.len() % 20 != 0 {
                return Err(BitTrackerError::DecodingError);
            }
            let mut vec: Vec<Vec<u8>> = Vec::new();
            let len = bytes.len();
            let mut i: usize = 0;
            while i < len
                invariant
                    len == bytes@.len(),
                    len % 20 == 0,
                    i % 20 == 0,
                    i <= len,
                    vec@.len() == i / 20,
                    forall|k: int| 0 <= k < i / 20 ==> (#[trigger] vec@[k])@ == bytes@.subrange(
                        20 * k,
                        20 * k + 20,
                    ),
                decreases len - i,
            {
                let mut group: Vec<u8> = Vec::new();
                let mut j: usize = i;
                while j < i + 20
                    invariant
                        i <= j <= i + 20 <= len,
                        len == bytes@.len(),
                        group@ == bytes@.subrange(i as int, j as int),
                    decreases i + 20 - j,
                {
                    group.push(bytes[j]);
                    assert(group@ =~= bytes@.subrange(i as int, j as int + 1));
                    j += 1;
                }
                vec.push(group);
                i += 20;
            }
            proof {
                assert(Seq::new(vec@.len(), |k: int| vec@[k]@) =~= split20(bytes@));
            }
            return Ok(vec);
        }
        Err(BitTrackerError::DecodingError)
    }
}

} // verus!
