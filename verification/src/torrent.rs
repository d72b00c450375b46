//! The metadata of a single-file torrent, taken from a decoded dictionary,
//! and its info hash.

use vstd::prelude::*;
use vstd::string::StringSliceAdditionalSpecFns;
use vstd::utf8::{decode_utf8, valid_utf8};
use crate::encode::{encode, encode_spec};
use crate::outside::{hex_of, hex_text, sha1_digest, sha1_of, text_of};
use crate::value::{find, lookup, pairs_view, Pair, Term, Value};

verus! {

/// A key that the metadata of a torrent needs.
#[derive(Debug, Clone, Copy, PartialEq, Eq, Structural)]
pub enum Field {
    /// `announce`: the URL of the tracker.
    Announce,
    /// `info`: the dictionary that describes the file.
    Info,
    /// `name`, in `info`: the suggested name of the file.
    Name,
    /// `length`, in `info`: the length of the file in bytes.
    Length,
    /// `piece length`, in `info`: the number of bytes in each piece.
    PieceLength,
    /// `pieces`, in `info`: the SHA-1 digests of the pieces, 20 bytes each.
    Pieces,
}

impl Field {
    /// The key as text.
    pub open spec fn text(self) -> &'static str {
        match self {
            Field::Announce => "announce",
            Field::Info => "info",
            Field::Name => "name",
            Field::Length => "length",
            Field::PieceLength => "piece length",
            Field::Pieces => "pieces",
        }
    }

    /// The key as the bytes under which a dictionary holds the field.
    pub open spec fn key(self) -> Seq<u8> {
        self.text().spec_bytes()
    }

    /// The key as text.
    pub fn name(self) -> (r: &'static str)
        ensures
            r == self.text(),
    {
        match self {
            Field::Announce => "announce",
            Field::Info => "info",
            Field::Name => "name",
            Field::Length => "length",
            Field::PieceLength => "piece length",
            Field::Pieces => "pieces",
        }
    }
}

/// Why a term is not the metadata of a single-file torrent.
#[derive(Debug, Clone, Copy, PartialEq, Eq, Structural)]
pub enum ExtractError {
    /// The term is not a dictionary.
    NotADict,
    /// A dictionary does not have the key.
    MissingField(Field),
    /// The value under the key is not of the kind that the field asks for:
    /// text (a byte string that is valid UTF-8), a byte string, an integer
    /// or a dictionary.
    WrongType(Field),
    /// The value under the key is of the right kind and out of range: a
    /// negative length, a piece length that is not positive, or pieces
    /// whose length is no multiple of 20.
    InvalidValue(Field),
}

/// What the `info` dictionary of a single-file torrent says of the file.
#[derive(Debug, Clone, PartialEq, Eq)]
pub struct TorrentInfo {
    /// The length of the file in bytes; not negative.
    pub length: i64,
    /// The suggested name of the file.
    pub name: String,
    /// The number of bytes in each piece; positive.
    pub piece_length: i64,
    /// The SHA-1 digests of the pieces, 20 bytes each.
    pub pieces: Vec<u8>,
}

/// The metadata of a single-file torrent.
#[derive(Debug, Clone, PartialEq, Eq)]
pub struct TorrentMetadata {
    /// The URL of the tracker.
    pub announce: String,
    /// What the `info` dictionary says of the file.
    pub info: TorrentInfo,
    /// The SHA-1 digest of the canonical bencoding of the `info`
    /// dictionary; 20 bytes.
    pub info_hash: Vec<u8>,
}

/// The mathematical model of the fields of an `info` dictionary.
pub ghost struct InfoModel {
    pub length: int,
    pub name: Seq<char>,
    pub piece_length: int,
    pub pieces: Seq<u8>,
}

/// The mathematical model of the metadata of a torrent.
pub ghost struct MetadataModel {
    pub announce: Seq<char>,
    pub info: InfoModel,
    pub info_hash: Seq<u8>,
}

impl View for TorrentInfo {
    type V = InfoModel;

    open spec fn view(&self) -> InfoModel {
        InfoModel {
            length: self.length as int,
            name: self.name@,
            piece_length: self.piece_length as int,
            pieces: self.pieces@,
        }
    }
}

impl View for TorrentMetadata {
    type V = MetadataModel;

    open spec fn view(&self) -> MetadataModel {
        MetadataModel { announce: self.announce@, info: self.info@, info_hash: self.info_hash@ }
    }
}

impl InfoModel {
    /// Whether the fields are in range: the length is not negative, the
    /// piece length is positive, and the pieces are whole digests.
    pub open spec fn valid(self) -> bool {
        &&& self.length >= 0
        &&& self.piece_length > 0
        &&& self.pieces.len() % 20 == 0
    }
}

impl MetadataModel {
    /// Whether the fields are in range and the info hash is 20 bytes long.
    pub open spec fn valid(self) -> bool {
        &&& self.info.valid()
        &&& self.info_hash.len() == 20
    }
}

/// The text under `field`: the value must be a byte string that is valid
/// UTF-8; any other value is of the wrong type.
pub open spec fn text_field(pairs: Seq<Pair>, field: Field) -> Result<Seq<char>, ExtractError> {
    match lookup(pairs, field.key()) {
        None => Err(ExtractError::MissingField(field)),
        Some(Term::Bytes(b)) => if valid_utf8(b) {
            Ok(decode_utf8(b))
        } else {
            Err(ExtractError::WrongType(field))
        },
        Some(_) => Err(ExtractError::WrongType(field)),
    }
}

/// The pairs of the dictionary under `field`.
pub open spec fn dict_field(pairs: Seq<Pair>, field: Field) -> Result<Seq<Pair>, ExtractError> {
    match lookup(pairs, field.key()) {
        None => Err(ExtractError::MissingField(field)),
        Some(Term::Dict(inner)) => Ok(inner),
        Some(_) => Err(ExtractError::WrongType(field)),
    }
}

/// The integer under `field`.
pub open spec fn int_field(pairs: Seq<Pair>, field: Field) -> Result<i64, ExtractError> {
    match lookup(pairs, field.key()) {
        None => Err(ExtractError::MissingField(field)),
        Some(Term::Int(i)) => Ok(i),
        Some(_) => Err(ExtractError::WrongType(field)),
    }
}

/// The byte string under `field`.
pub open spec fn bytes_field(pairs: Seq<Pair>, field: Field) -> Result<Seq<u8>, ExtractError> {
    match lookup(pairs, field.key()) {
        None => Err(ExtractError::MissingField(field)),
        Some(Term::Bytes(b)) => Ok(b),
        Some(_) => Err(ExtractError::WrongType(field)),
    }
}

/// The fields of an `info` dictionary, or the first fault among `name`,
/// `length`, `piece length` and `pieces`, in this order.
pub open spec fn info_of(pairs: Seq<Pair>) -> Result<InfoModel, ExtractError> {
    match text_field(pairs, Field::Name) {
        Err(e) => Err(e),
        Ok(name) => match int_field(pairs, Field::Length) {
            Err(e) => Err(e),
            Ok(length) => if length < 0 {
                Err(ExtractError::InvalidValue(Field::Length))
            } else {
                match int_field(pairs, Field::PieceLength) {
                    Err(e) => Err(e),
                    Ok(piece_length) => if piece_length <= 0 {
                        Err(ExtractError::InvalidValue(Field::PieceLength))
                    } else {
                        match bytes_field(pairs, Field::Pieces) {
                            Err(e) => Err(e),
                            Ok(pieces) => if pieces.len() % 20 != 0 {
                                Err(ExtractError::InvalidValue(Field::Pieces))
                            } else {
                                Ok(
                                    InfoModel {
                                        length: length as int,
                                        name,
                                        piece_length: piece_length as int,
                                        pieces,
                                    },
                                )
                            },
                        }
                    },
                }
            },
        },
    }
}

/// The info hash of an `info` term: the SHA-1 digest of its canonical
/// bencoding.
pub open spec fn info_hash_of(info: Term) -> Seq<u8> {
    sha1_digest(encode_spec(info))
}

/// The metadata that a term describes, or the first fault: the term must be
/// a dictionary with text under `announce` and with a dictionary under
/// `info` that has its four fields. The info hash is taken from the `info`
/// dictionary as the term holds it, with all its pairs.
pub open spec fn metadata_of(t: Term) -> Result<MetadataModel, ExtractError> {
    match t {
        Term::Dict(pairs) => match text_field(pairs, Field::Announce) {
            Err(e) => Err(e),
            Ok(announce) => match dict_field(pairs, Field::Info) {
                Err(e) => Err(e),
                Ok(inner) => match info_of(inner) {
                    Err(e) => Err(e),
                    Ok(info) => Ok(
                        MetadataModel {
                            announce,
                            info,
                            info_hash: info_hash_of(Term::Dict(inner)),
                        },
                    ),
                },
            },
        },
        _ => Err(ExtractError::NotADict),
    }
}

/// What `extract_string` gave, as a model.
pub open spec fn text_found(r: Result<String, ExtractError>) -> Result<Seq<char>, ExtractError> {
    match r {
        Ok(s) => Ok(s@),
        Err(e) => Err(e),
    }
}

/// What `extract_bytes` gave, as a model.
pub open spec fn bytes_found(r: Result<Vec<u8>, ExtractError>) -> Result<Seq<u8>, ExtractError> {
    match r {
        Ok(b) => Ok(b@),
        Err(e) => Err(e),
    }
}

/// What `extract_dict` gave, as a model.
pub open spec fn dict_found(r: Result<&Value, ExtractError>) -> Result<Seq<Pair>, ExtractError> {
    match r {
        Ok(v) => match v@ {
            Term::Dict(inner) => Ok(inner),
            _ => Err(ExtractError::NotADict),
        },
        Err(e) => Err(e),
    }
}

/// What `extract_info` gave, as a model.
pub open spec fn info_found(r: Result<TorrentInfo, ExtractError>) -> Result<
    InfoModel,
    ExtractError,
> {
    match r {
        Ok(info) => Ok(info@),
        Err(e) => Err(e),
    }
}

/// What `extract_metadata` gave, as a model.
pub open spec fn metadata_found(r: Result<TorrentMetadata, ExtractError>) -> Result<
    MetadataModel,
    ExtractError,
> {
    match r {
        Ok(m) => Ok(m@),
        Err(e) => Err(e),
    }
}

/// The text under `field` in the dictionary that holds `pairs`.
pub fn extract_string(field: Field, pairs: &Vec<(Vec<u8>, Value)>) -> (r: Result<
    String,
    ExtractError,
>)
    ensures
        text_found(r) == text_field(pairs_view(pairs@), field),
{
    match find(pairs, field.name().as_bytes()) {
        None => Err(ExtractError::MissingField(field)),
        Some(Value::Bytes(b)) => match text_of(b.clone()) {
            Some(text) => Ok(text),
            None => Err(ExtractError::WrongType(field)),
        },
        Some(_) => Err(ExtractError::WrongType(field)),
    }
}

/// The dictionary under `field` in the dictionary that holds `pairs`.
pub fn extract_dict<'a>(field: Field, pairs: &'a Vec<(Vec<u8>, Value)>) -> (r: Result<
    &'a Value,
    ExtractError,
>)
    ensures
        dict_found(r) == dict_field(pairs_view(pairs@), field),
        r is Ok ==> r.unwrap()@ is Dict,
{
    match find(pairs, field.name().as_bytes()) {
        None => Err(ExtractError::MissingField(field)),
        Some(inner) => match inner {
            Value::Dict(_) => Ok(inner),
            _ => Err(ExtractError::WrongType(field)),
        },
    }
}

/// The integer under `field` in the dictionary that holds `pairs`.
pub fn extract_int(field: Field, pairs: &Vec<(Vec<u8>, Value)>) -> (r: Result<i64, ExtractError>)
    ensures
        r == int_field(pairs_view(pairs@), field),
{
    match find(pairs, field.name().as_bytes()) {
        None => Err(ExtractError::MissingField(field)),
        Some(Value::Int(i)) => Ok(*i),
        Some(_) => Err(ExtractError::WrongType(field)),
    }
}

/// The byte string under `field` in the dictionary that holds `pairs`.
pub fn extract_bytes(field: Field, pairs: &Vec<(Vec<u8>, Value)>) -> (r: Result<
    Vec<u8>,
    ExtractError,
>)
    ensures
        bytes_found(r) == bytes_field(pairs_view(pairs@), field),
{
    match find(pairs, field.name().as_bytes()) {
        None => Err(ExtractError::MissingField(field)),
        Some(Value::Bytes(b)) => Ok(b.clone()),
        Some(_) => Err(ExtractError::WrongType(field)),
    }
}

/// The fields of the `info` dictionary that holds `pairs`: `name`,
/// `length`, `piece length` and `pieces`, looked up and checked in this
/// order.
pub fn extract_info(pairs: &Vec<(Vec<u8>, Value)>) -> (r: Result<TorrentInfo, ExtractError>)
    ensures
        info_found(r) == info_of(pairs_view(pairs@)),
        r is Ok ==> r.unwrap()@.valid(),
{
    let name = match extract_string(Field::Name, pairs) {
        Ok(name) => name,
        Err(e) => {
            return Err(e);
        },
    };
    let length = match extract_int(Field::Length, pairs) {
        Ok(length) => length,
        Err(e) => {
            return Err(e);
        },
    };
    if length < 0 {
        return Err(ExtractError::InvalidValue(Field::Length));
    }
    let piece_length = match extract_int(Field::PieceLength, pairs) {
        Ok(piece_length) => piece_length,
        Err(e) => {
            return Err(e);
        },
    };
    if piece_length <= 0 {
        return Err(ExtractError::InvalidValue(Field::PieceLength));
    }
    let pieces = match extract_bytes(Field::Pieces, pairs) {
        Ok(pieces) => pieces,
        Err(e) => {
            return Err(e);
        },
    };
    if pieces.len() % 20 != 0 {
        return Err(ExtractError::InvalidValue(Field::Pieces));
    }
    Ok(TorrentInfo { length, name, piece_length, pieces })
}

/// The info hash of the `info` term of a torrent: the SHA-1 digest of its
/// canonical bencoding, 20 bytes.
pub fn info_hash(info: &Value) -> (digest: Vec<u8>)
    ensures
        digest@ == info_hash_of(info@),
        digest@.len() == 20,
{
    let encoded = encode(info);
    sha1_of(encoded.as_slice())
}

impl TorrentMetadata {
    /// The metadata made of the tracker URL, the fields of the `info`
    /// dictionary and the info hash.
    pub fn assemble(announce: String, info: TorrentInfo, info_hash: Vec<u8>) -> (m: TorrentMetadata)
        ensures
            m@ == (MetadataModel { announce: announce@, info: info@, info_hash: info_hash@ }),
    {
        TorrentMetadata { announce, info, info_hash }
    }

    /// The info hash as text: 40 hexadecimal digits in lower case.
    pub fn info_hash_hex(&self) -> (text: String)
        ensures
            text@ == hex_text(self.info_hash@),
    {
        hex_of(self.info_hash.as_slice())
    }
}

/// The metadata of the single-file torrent that `value` describes.
///
/// The info hash is computed from the `info` dictionary as `value` holds
/// it, so pairs of `info` that the metadata does not name are hashed too.
pub fn extract_metadata(value: &Value) -> (r: Result<TorrentMetadata, ExtractError>)
    ensures
        metadata_found(r) == metadata_of(value@),
        r is Ok ==> r.unwrap()@.valid(),
{
    let pairs = match value {
        Value::Dict(pairs) => pairs,
        _ => {
            return Err(ExtractError::NotADict);
        },
    };
    let announce = match extract_string(Field::Announce, pairs) {
        Ok(announce) => announce,
        Err(e) => {
            return Err(e);
        },
    };
    let inner = match extract_dict(Field::Info, pairs) {
        Ok(inner) => inner,
        Err(e) => {
            return Err(e);
        },
    };
    let info = match inner {
        Value::Dict(inner_pairs) => match extract_info(inner_pairs) {
            Ok(info) => info,
            Err(e) => {
                return Err(e);
            },
        },
        _ => {
            return Err(ExtractError::WrongType(Field::Info));
        },
    };
    let digest = info_hash(inner);
    Ok(TorrentMetadata::assemble(announce, info, digest))
}

} // verus!
