use bt_metainfo::decode::{decode, DecodeError};
use bt_metainfo::encode::encode;
use bt_metainfo::torrent::{
    extract_bytes, extract_dict, extract_info, extract_int, extract_metadata, extract_string,
    info_hash, ExtractError, Field, TorrentInfo, TorrentMetadata,
};
use bt_metainfo::value::Value;
use bt_metainfo::{read_torrent, Error};
use sha1::{Digest, Sha1};

fn piece_digests() -> Vec<u8> {
    (0u8..40).collect()
}

fn sample_info() -> Vec<u8> {
    let mut info = b"d6:lengthi92063e4:name10:sample.txt12:piece lengthi32768e6:pieces40:".to_vec();
    info.extend_from_slice(&piece_digests());
    info.push(b'e');
    info
}

fn sample_torrent() -> Vec<u8> {
    let mut file = b"d8:announce31:http://tracker.example/announce4:info".to_vec();
    file.extend_from_slice(&sample_info());
    file.push(b'e');
    file
}

fn shuffled_torrent() -> Vec<u8> {
    let mut file = b"d4:infod6:pieces40:".to_vec();
    file.extend_from_slice(&piece_digests());
    file.extend_from_slice(b"4:name10:sample.txt12:piece lengthi32768e6:lengthi92063ee");
    file.extend_from_slice(b"8:announce31:http://tracker.example/announcee");
    file
}

fn unhex(text: &str) -> Vec<u8> {
    hex::decode(text).unwrap()
}

fn torrent_with_info(info: &[u8]) -> Vec<u8> {
    let mut file = b"d8:announce3:url4:info".to_vec();
    file.extend_from_slice(info);
    file.push(b'e');
    file
}

fn pairs_of(input: &[u8]) -> Vec<(Vec<u8>, Value)> {
    match decode(input).unwrap() {
        Value::Dict(pairs) => pairs,
        _ => panic!("not a dictionary"),
    }
}

#[test]
fn reads_a_single_file_torrent() {
    let metadata = read_torrent(&sample_torrent()).unwrap();
    assert_eq!(metadata.announce, "http://tracker.example/announce");
    assert_eq!(metadata.info.length, 92063);
    assert_eq!(metadata.info.name, "sample.txt");
    assert_eq!(metadata.info.piece_length, 32768);
    assert_eq!(metadata.info.pieces, piece_digests());
    assert_eq!(metadata.info_hash.len(), 20);
}

#[test]
fn the_info_hash_is_the_sha1_of_the_canonical_info() {
    let metadata = read_torrent(&sample_torrent()).unwrap();
    assert_eq!(metadata.info_hash, Sha1::digest(sample_info()).to_vec());
    assert_eq!(metadata.info_hash, unhex("450a0ea469c5a5789f2c28864a1950b0e91c8d7e"));
}

#[test]
fn the_info_hash_does_not_depend_on_the_order_in_the_file() {
    let straight = read_torrent(&sample_torrent()).unwrap();
    let shuffled = read_torrent(&shuffled_torrent()).unwrap();
    assert_eq!(shuffled, straight);
    assert_eq!(shuffled.info_hash, unhex("450a0ea469c5a5789f2c28864a1950b0e91c8d7e"));
}

#[test]
fn reading_twice_gives_the_same_info_hash() {
    let content = sample_torrent();
    let first = read_torrent(&content).unwrap();
    let second = read_torrent(&content).unwrap();
    assert_eq!(first.info_hash, second.info_hash);
    assert_eq!(first, second);
}

#[test]
fn the_info_hash_as_text_is_lower_case_hexadecimal() {
    let metadata = read_torrent(&sample_torrent()).unwrap();
    assert_eq!(metadata.info_hash_hex(), "450a0ea469c5a5789f2c28864a1950b0e91c8d7e");
    let made = TorrentMetadata::assemble(
        "u".to_string(),
        TorrentInfo { length: 0, name: "n".to_string(), piece_length: 1, pieces: vec![] },
        vec![0x00, 0x0f, 0xf0, 0xff, 0xab, 0x1c],
    );
    assert_eq!(made.info_hash_hex(), "000ff0ffab1c");
}

#[test]
fn assembles_metadata_from_its_parts() {
    let info = TorrentInfo {
        length: 5,
        name: "n".to_string(),
        piece_length: 2,
        pieces: vec![7; 20],
    };
    let made = TorrentMetadata::assemble("u".to_string(), info.clone(), vec![9; 20]);
    assert_eq!(made.announce, "u");
    assert_eq!(made.info, info);
    assert_eq!(made.info_hash, vec![9; 20]);
}

#[test]
fn the_info_hash_covers_pairs_that_the_metadata_does_not_name() {
    let info = b"d5:extrali1ei2ee6:lengthi0e4:name1:a12:piece lengthi1e6:pieces0:e";
    let metadata = read_torrent(&torrent_with_info(info)).unwrap();
    assert_eq!(metadata.info_hash, unhex("ec15d6bdb87a018fe93bfdaf93bc36fe2a71bf1a"));
    assert_eq!(metadata.info.length, 0);
    assert_eq!(metadata.info.pieces, Vec::<u8>::new());
    let plain = b"d6:lengthi0e4:name1:a12:piece lengthi1e6:pieces0:e";
    let other = read_torrent(&torrent_with_info(plain)).unwrap();
    assert_ne!(other.info_hash, metadata.info_hash);
    assert_eq!(other.info, metadata.info);
}

#[test]
fn hashes_any_term() {
    assert_eq!(
        info_hash(&Value::Dict(vec![])),
        unhex("600ccd1b71569232d01d110bc63e906beab04d8c")
    );
    let value = decode(&sample_info()).unwrap();
    assert_eq!(info_hash(&value), Sha1::digest(encode(&value)).to_vec());
    assert_ne!(info_hash(&value), encode(&value));
}

#[test]
fn a_list_is_not_a_torrent() {
    assert_eq!(read_torrent(b"l5:helloe"), Err(Error::Extract(ExtractError::NotADict)));
    assert_eq!(read_torrent(b"i1e"), Err(Error::Extract(ExtractError::NotADict)));
    assert_eq!(read_torrent(b"3:foo"), Err(Error::Extract(ExtractError::NotADict)));
    assert_eq!(
        extract_metadata(&Value::List(vec![])),
        Err(ExtractError::NotADict)
    );
}

#[test]
fn a_file_that_is_not_bencode_is_a_decode_fault() {
    assert_eq!(read_torrent(b""), Err(Error::Decode(DecodeError::UnexpectedEnd)));
    assert_eq!(read_torrent(b"d8:announc"), Err(Error::Decode(DecodeError::LengthExceedsInput)));
    assert_eq!(read_torrent(b"d8:announce"), Err(Error::Decode(DecodeError::UnexpectedEnd)));
    let mut long = sample_torrent();
    long.push(b'x');
    assert_eq!(read_torrent(&long), Err(Error::Decode(DecodeError::TrailingBytes)));
    let cut = &sample_torrent()[..60];
    assert!(matches!(read_torrent(cut), Err(Error::Decode(_))));
}

#[test]
fn names_the_field_that_is_missing() {
    assert_eq!(
        read_torrent(b"de"),
        Err(Error::Extract(ExtractError::MissingField(Field::Announce)))
    );
    assert_eq!(
        read_torrent(b"d8:announce3:urle"),
        Err(Error::Extract(ExtractError::MissingField(Field::Info)))
    );
    assert_eq!(
        read_torrent(&torrent_with_info(b"de")),
        Err(Error::Extract(ExtractError::MissingField(Field::Name)))
    );
    assert_eq!(
        read_torrent(&torrent_with_info(b"d4:name1:ae")),
        Err(Error::Extract(ExtractError::MissingField(Field::Length)))
    );
    assert_eq!(
        read_torrent(&torrent_with_info(b"d6:lengthi1e4:name1:ae")),
        Err(Error::Extract(ExtractError::MissingField(Field::PieceLength)))
    );
    assert_eq!(
        read_torrent(&torrent_with_info(b"d6:lengthi1e4:name1:a12:piece lengthi1ee")),
        Err(Error::Extract(ExtractError::MissingField(Field::Pieces)))
    );
}

#[test]
fn names_the_field_of_the_wrong_kind() {
    assert_eq!(
        read_torrent(b"d8:announcei1e4:infodee"),
        Err(Error::Extract(ExtractError::WrongType(Field::Announce)))
    );
    assert_eq!(
        read_torrent(b"d8:announce3:url4:infolee"),
        Err(Error::Extract(ExtractError::WrongType(Field::Info)))
    );
    assert_eq!(
        read_torrent(&torrent_with_info(b"d4:namei1ee")),
        Err(Error::Extract(ExtractError::WrongType(Field::Name)))
    );
    assert_eq!(
        read_torrent(&torrent_with_info(b"d6:length1:14:name1:ae")),
        Err(Error::Extract(ExtractError::WrongType(Field::Length)))
    );
    assert_eq!(
        read_torrent(&torrent_with_info(b"d6:lengthi1e4:name1:a12:piece lengthlee")),
        Err(Error::Extract(ExtractError::WrongType(Field::PieceLength)))
    );
    assert_eq!(
        read_torrent(&torrent_with_info(
            b"d6:lengthi1e4:name1:a12:piece lengthi1e6:piecesi0ee"
        )),
        Err(Error::Extract(ExtractError::WrongType(Field::Pieces)))
    );
}

#[test]
fn names_the_field_that_is_out_of_range() {
    assert_eq!(
        read_torrent(&torrent_with_info(
            b"d6:lengthi-1e4:name1:a12:piece lengthi1e6:pieces0:e"
        )),
        Err(Error::Extract(ExtractError::InvalidValue(Field::Length)))
    );
    assert_eq!(
        read_torrent(&torrent_with_info(
            b"d6:lengthi1e4:name1:a12:piece lengthi0e6:pieces0:e"
        )),
        Err(Error::Extract(ExtractError::InvalidValue(Field::PieceLength)))
    );
    assert_eq!(
        read_torrent(&torrent_with_info(
            b"d6:lengthi1e4:name1:a12:piece lengthi-5e6:pieces0:e"
        )),
        Err(Error::Extract(ExtractError::InvalidValue(Field::PieceLength)))
    );
    assert_eq!(
        read_torrent(&torrent_with_info(
            b"d6:lengthi1e4:name1:a12:piece lengthi1e6:pieces19:0123456789012345678e"
        )),
        Err(Error::Extract(ExtractError::InvalidValue(Field::Pieces)))
    );
    assert_eq!(
        read_torrent(&torrent_with_info(
            b"d6:lengthi1e4:name1:a12:piece lengthi1e6:pieces21:012345678901234567890e"
        )),
        Err(Error::Extract(ExtractError::InvalidValue(Field::Pieces)))
    );
}

#[test]
fn text_fields_must_be_text() {
    let mut file = b"d8:announce2:".to_vec();
    file.extend_from_slice(&[0xff, 0xfe]);
    file.extend_from_slice(b"4:infodee");
    assert_eq!(
        read_torrent(&file),
        Err(Error::Extract(ExtractError::WrongType(Field::Announce)))
    );
    let mut info = b"d4:name1:".to_vec();
    info.push(0x80);
    info.push(b'e');
    assert_eq!(
        read_torrent(&torrent_with_info(&info)),
        Err(Error::Extract(ExtractError::WrongType(Field::Name)))
    );
}

#[test]
fn accepts_the_smallest_fields() {
    let metadata = read_torrent(&torrent_with_info(
        b"d6:lengthi0e4:name0:12:piece lengthi1e6:pieces0:e",
    ))
    .unwrap();
    assert_eq!(metadata.announce, "url");
    assert_eq!(metadata.info.length, 0);
    assert_eq!(metadata.info.name, "");
    assert_eq!(metadata.info.piece_length, 1);
    assert_eq!(metadata.info.pieces, Vec::<u8>::new());
}

#[test]
fn the_last_pair_with_a_key_is_read() {
    let metadata = read_torrent(
        b"d8:announce3:old4:infod6:lengthi1e4:name1:a12:piece lengthi1e6:pieces0:e8:announce3:newe",
    )
    .unwrap();
    assert_eq!(metadata.announce, "new");
}

#[test]
fn extracts_single_fields() {
    let pairs = pairs_of(b"d4:infod1:ai1ee6:lengthi7e4:name3:abc6:pieces2:xye");
    assert_eq!(extract_string(Field::Name, &pairs), Ok("abc".to_string()));
    assert_eq!(extract_string(Field::Pieces, &pairs), Ok("xy".to_string()));
    assert_eq!(
        extract_string(Field::Length, &pairs),
        Err(ExtractError::WrongType(Field::Length))
    );
    assert_eq!(
        extract_string(Field::Announce, &pairs),
        Err(ExtractError::MissingField(Field::Announce))
    );
    assert_eq!(extract_int(Field::Length, &pairs), Ok(7));
    assert_eq!(extract_int(Field::Name, &pairs), Err(ExtractError::WrongType(Field::Name)));
    assert_eq!(
        extract_int(Field::PieceLength, &pairs),
        Err(ExtractError::MissingField(Field::PieceLength))
    );
    assert_eq!(extract_bytes(Field::Pieces, &pairs), Ok(b"xy".to_vec()));
    assert_eq!(extract_bytes(Field::Info, &pairs), Err(ExtractError::WrongType(Field::Info)));
    assert_eq!(
        extract_bytes(Field::Announce, &pairs),
        Err(ExtractError::MissingField(Field::Announce))
    );
    assert_eq!(
        extract_dict(Field::Info, &pairs),
        Ok(&Value::Dict(vec![(b"a".to_vec(), Value::Int(1))]))
    );
    assert_eq!(extract_dict(Field::Name, &pairs), Err(ExtractError::WrongType(Field::Name)));
    assert_eq!(
        extract_dict(Field::Announce, &pairs),
        Err(ExtractError::MissingField(Field::Announce))
    );
}

#[test]
fn extracts_bytes_that_are_not_text() {
    let pairs = vec![(b"pieces".to_vec(), Value::Bytes(vec![0xff; 20]))];
    assert_eq!(extract_bytes(Field::Pieces, &pairs), Ok(vec![0xff; 20]));
    assert_eq!(
        extract_string(Field::Pieces, &pairs),
        Err(ExtractError::WrongType(Field::Pieces))
    );
}

#[test]
fn extracts_the_fields_of_an_info_dictionary() {
    let pairs = pairs_of(&sample_info());
    assert_eq!(
        extract_info(&pairs),
        Ok(TorrentInfo {
            length: 92063,
            name: "sample.txt".to_string(),
            piece_length: 32768,
            pieces: piece_digests(),
        })
    );
    assert_eq!(extract_info(&Vec::new()), Err(ExtractError::MissingField(Field::Name)));
}

#[test]
fn the_fields_have_their_keys_as_names() {
    assert_eq!(Field::Announce.name(), "announce");
    assert_eq!(Field::Info.name(), "info");
    assert_eq!(Field::Name.name(), "name");
    assert_eq!(Field::Length.name(), "length");
    assert_eq!(Field::PieceLength.name(), "piece length");
    assert_eq!(Field::Pieces.name(), "pieces");
}
