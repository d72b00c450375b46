//! Bencode values, their canonical encoding, and the metadata and info hash
//! of a single-file torrent.
//!
//! Two functions serve a caller that holds raw input: [`decode_value`]
//! turns a bencoded string into a tree that can be shown as JSON, and
//! [`read_torrent`] turns the content of a torrent file into its metadata.

pub mod decode;
pub mod display;
pub mod encode;
pub mod grammar;
pub mod laws;
pub mod order;
pub mod outside;
pub mod text;
pub mod torrent;
pub mod value;

use vstd::prelude::*;
use vstd::string::StringSliceAdditionalSpecFns;
use crate::decode::{decode, decode_spec, DecodeError};
use crate::display::{project, to_display_tree, DisplayValue, Json, ProjectionError};
use crate::torrent::{extract_metadata, metadata_of, ExtractError, MetadataModel, TorrentMetadata};

verus! {

/// Why an input gave no result.
#[derive(Debug, Clone, Copy, PartialEq, Eq, Structural)]
pub enum Error {
    /// The input is not the bencoding of one term.
    Decode(DecodeError),
    /// The term has no display tree.
    Projection(ProjectionError),
    /// The term is not the metadata of a single-file torrent.
    Extract(ExtractError),
}

/// The display tree of the term that `input` encodes.
pub open spec fn display_of_input(input: Seq<u8>) -> Result<Json, Error> {
    match decode_spec(input) {
        Err(e) => Err(Error::Decode(e)),
        Ok(t) => match project(t) {
            Err(e) => Err(Error::Projection(e)),
            Ok(json) => Ok(json),
        },
    }
}

/// The metadata of the torrent that `content` encodes.
pub open spec fn torrent_of(content: Seq<u8>) -> Result<MetadataModel, Error> {
    match decode_spec(content) {
        Err(e) => Err(Error::Decode(e)),
        Ok(t) => match metadata_of(t) {
            Err(e) => Err(Error::Extract(e)),
            Ok(m) => Ok(m),
        },
    }
}

/// What `decode_value` gave, as a model.
pub open spec fn value_shown(r: Result<DisplayValue, Error>) -> Result<Json, Error> {
    match r {
        Ok(d) => Ok(d@),
        Err(e) => Err(e),
    }
}

/// What `read_torrent` gave, as a model.
pub open spec fn torrent_read(r: Result<TorrentMetadata, Error>) -> Result<MetadataModel, Error> {
    match r {
        Ok(m) => Ok(m@),
        Err(e) => Err(e),
    }
}

/// Decodes the bencoded term that the bytes of `text` encode, and gives
/// its display tree.
pub fn decode_value(text: &str) -> (r: Result<DisplayValue, Error>)
    ensures
        value_shown(r) == display_of_input(text.spec_bytes()),
{
    let value = match decode(text.as_bytes()) {
        Ok(value) => value,
        Err(e) => {
            return Err(Error::Decode(e));
        },
    };
    match to_display_tree(&value) {
        Ok(tree) => Ok(tree),
        Err(e) => Err(Error::Projection(e)),
    }
}

/// Decodes the content of a torrent file and gives its metadata, with the
/// info hash.
pub fn read_torrent(content: &[u8]) -> (r: Result<TorrentMetadata, Error>)
    ensures
        torrent_read(r) == torrent_of(content@),
        r is Ok ==> r.unwrap()@.valid(),
{
    let value = match decode(content) {
        Ok(value) => value,
        Err(e) => {
            return Err(Error::Decode(e));
        },
    };
    match extract_metadata(&value) {
        Ok(metadata) => Ok(metadata),
        Err(e) => Err(Error::Extract(e)),
    }
}

} // verus!
