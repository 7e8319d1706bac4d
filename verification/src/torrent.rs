//! Typed torrent metadata built from a decoded bencode tree.
//!
//! The builder validates the tree against the metainfo layout (required
//! keys, types, the piece-hash length invariant, single-file/multi-file
//! exclusivity, path safety) and computes the info hash from the raw bytes
//! of the `info` value's recorded span — never from a re-serialization — so
//! the hash is bit-for-bit faithful to the source file.

use crate::bencode::{
    dict_lookup, lemma_pairs_get_member, lemma_sdec_value_bounds, pairs_get, sdecode,
    spec_info_key, view_of, well_spanned, BValue, BencodeParser, BencodeValue, ParseError,
    ParseErrorKind,
};
use vstd::prelude::*;

verus! {

/// The fields that validation can complain about.
#[derive(Debug, Clone, Copy, PartialEq, Eq, Structural)]
pub enum Field {
    Root,
    Announce,
    Info,
    Comment,
    Name,
    PieceLength,
    Pieces,
    Length,
    Files,
    Path,
}

/// A metadata validation failure. A `WrongType` is also reported for a
/// value that violates the field's invariant (a non-positive piece length,
/// a negative file length, an empty path or path component, or byte strings
/// that are not UTF-8 where text is required).
#[derive(Debug, Clone, Copy, PartialEq, Eq, Structural)]
pub enum ValidationError {
    MissingField(Field),
    WrongType(Field),
    PieceLengthNotMultipleOf20,
    BothOrNeitherLengthAndFiles,
    PathEscapesRoot,
}

/// A decoding or validation failure from the combined parse entry point.
#[derive(Debug, Clone, Copy, PartialEq, Eq, Structural)]
pub enum TorrentError {
    Parse(ParseError),
    Validation(ValidationError),
}

/// One file of a multi-file torrent.
#[derive(Debug)]
pub struct TorrentFile {
    pub length: i64,
    pub path: Vec<String>,
}

/// The `info` dictionary projected into typed form.
#[derive(Debug)]
pub struct TorrentInfo {
    pub name: String,
    pub piece_length: i64,
    pub pieces: Vec<[u8; 20]>,
    pub length: Option<i64>,
    pub files: Option<Vec<TorrentFile>>,
}

/// A fully validated torrent with its derived info hash.
#[derive(Debug)]
pub struct Torrent {
    pub announce: String,
    pub info: TorrentInfo,
    pub info_hash: [u8; 20],
    pub comment: Option<String>,
}

/// The mathematical model of a file entry: lengths as integers, strings as
/// the byte sequences they encode to.
pub struct FileModel {
    pub length: int,
    pub path: Seq<Seq<u8>>,
}

/// The mathematical model of the `info` dictionary.
pub struct InfoModel {
    pub name: Seq<u8>,
    pub piece_length: int,
    pub pieces: Seq<Seq<u8>>,
    pub length: Option<int>,
    pub files: Option<Seq<FileModel>>,
}

/// The mathematical model of a torrent.
pub struct TorrentModel {
    pub announce: Seq<u8>,
    pub info: InfoModel,
    pub info_hash: Seq<u8>,
    pub comment: Option<Seq<u8>>,
}

impl View for TorrentFile {
    type V = FileModel;

    open spec fn view(&self) -> FileModel {
        FileModel {
            length: self.length as int,
            path: Seq::new(self.path@.len(), |i: int| vstd::utf8::encode_utf8(self.path@[i]@)),
        }
    }
}

impl View for TorrentInfo {
    type V = InfoModel;

    open spec fn view(&self) -> InfoModel {
        InfoModel {
            name: vstd::utf8::encode_utf8(self.name@),
            piece_length: self.piece_length as int,
            pieces: Seq::new(self.pieces@.len(), |i: int| self.pieces@[i]@),
            length: match self.length {
                Some(l) => Some(l as int),
                None => None,
            },
            files: match self.files {
                Some(fs) => Some(Seq::new(fs@.len(), |i: int| fs@[i]@)),
                None => None,
            },
        }
    }
}

impl View for Torrent {
    type V = TorrentModel;

    open spec fn view(&self) -> TorrentModel {
        TorrentModel {
            announce: vstd::utf8::encode_utf8(self.announce@),
            info: self.info@,
            info_hash: self.info_hash@,
            comment: match self.comment {
                Some(c) => Some(vstd::utf8::encode_utf8(c@)),
                None => None,
            },
        }
    }
}

/// The 20-byte SHA-1 digest of a byte sequence, as the outside hash
/// implementation computes it.
pub uninterp spec fn sha1_of(bytes: Seq<u8>) -> Seq<u8>;

/// Relies on `sha1::Sha1` through the `Digest` trait: the digest is 20
/// bytes and a function of the input bytes alone.
#[verifier::external_body]
fn sha1_digest(bytes: &[u8]) -> (r: [u8; 20])
    ensures
        r@ == sha1_of(bytes@),
{
    <sha1::Sha1 as sha1::Digest>::digest(bytes).into()
}

/// Relies on `String::from_utf8`: it succeeds exactly on valid UTF-8 input,
/// and the characters of the resulting string encode back to the input
/// bytes.
#[verifier::external_body]
fn bytes_to_string(bytes: Vec<u8>) -> (r: Option<String>)
    ensures
        match r {
            Some(s) => vstd::utf8::valid_utf8(bytes@) && vstd::utf8::encode_utf8(s@) == bytes@,
            None => !vstd::utf8::valid_utf8(bytes@),
        },
{
    match String::from_utf8(bytes) {
        Ok(s) => Some(s),
        Err(_) => None,
    }
}

pub open spec fn key_announce() -> Seq<u8> {
    seq![97u8, 110u8, 110u8, 111u8, 117u8, 110u8, 99u8, 101u8]
}

pub open spec fn key_comment() -> Seq<u8> {
    seq![99u8, 111u8, 109u8, 109u8, 101u8, 110u8, 116u8]
}

pub open spec fn key_name() -> Seq<u8> {
    seq![110u8, 97u8, 109u8, 101u8]
}

pub open spec fn key_piece_length() -> Seq<u8> {
    seq![112u8, 105u8, 101u8, 99u8, 101u8, 32u8, 108u8, 101u8, 110u8, 103u8, 116u8, 104u8]
}

pub open spec fn key_pieces() -> Seq<u8> {
    seq![112u8, 105u8, 101u8, 99u8, 101u8, 115u8]
}

pub open spec fn key_length() -> Seq<u8> {
    seq![108u8, 101u8, 110u8, 103u8, 116u8, 104u8]
}

pub open spec fn key_files() -> Seq<u8> {
    seq![102u8, 105u8, 108u8, 101u8, 115u8]
}

pub open spec fn key_path() -> Seq<u8> {
    seq![112u8, 97u8, 116u8, 104u8]
}

/// The UTF-8 text stored under `key`: `Ok(None)` when absent, `Err` when
/// present but not a UTF-8 byte string.
pub open spec fn utf8_field(pv: Seq<(Vec<u8>, BencodeValue)>, key: Seq<u8>) -> Result<
    Option<Seq<u8>>,
    (),
> {
    match pairs_get(pv, key) {
        None => Ok(None),
        Some(node) => match node {
            BencodeValue::Str { bytes, .. } => if vstd::utf8::valid_utf8(bytes@) {
                Ok(Some(bytes@))
            } else {
                Err(())
            },
            _ => Err(()),
        },
    }
}

/// The integer stored under `key`: `Ok(None)` when absent, `Err` when
/// present but not an integer.
pub open spec fn int_field(pv: Seq<(Vec<u8>, BencodeValue)>, key: Seq<u8>) -> Result<
    Option<int>,
    (),
> {
    match pairs_get(pv, key) {
        None => Ok(None),
        Some(node) => match node {
            BencodeValue::Integer { value, .. } => Ok(Some(value as int)),
            _ => Err(()),
        },
    }
}

/// The raw byte string stored under `key`: `Ok(None)` when absent, `Err`
/// when present but not a byte string.
pub open spec fn bytes_field(pv: Seq<(Vec<u8>, BencodeValue)>, key: Seq<u8>) -> Result<
    Option<Seq<u8>>,
    (),
> {
    match pairs_get(pv, key) {
        None => Ok(None),
        Some(node) => match node {
            BencodeValue::Str { bytes, .. } => Ok(Some(bytes@)),
            _ => Err(()),
        },
    }
}

/// A `pieces` byte string split into its 20-byte hashes.
pub open spec fn pieces_split(b: Seq<u8>) -> Seq<Seq<u8>> {
    Seq::new((b.len() / 20) as nat, |i: int| b.subrange(20 * i, 20 * i + 20))
}

/// Validation of one path component list.
pub open spec fn spath(items: Seq<BencodeValue>) -> Result<Seq<Seq<u8>>, ValidationError>
    decreases items,
{
    if items.len() == 0 {
        Ok(Seq::empty())
    } else {
        match items[0] {
            BencodeValue::Str { bytes, .. } => if !vstd::utf8::valid_utf8(bytes@) {
                Err(ValidationError::WrongType(Field::Path))
            } else if bytes@.len() == 0 {
                Err(ValidationError::WrongType(Field::Path))
            } else if bytes@ == seq![46u8, 46u8] {
                Err(ValidationError::PathEscapesRoot)
            } else {
                match spath(items.drop_first()) {
                    Err(e) => Err(e),
                    Ok(rest) => Ok(seq![bytes@] + rest),
                }
            },
            _ => Err(ValidationError::WrongType(Field::Path)),
        }
    }
}

/// Validation of one entry of the `files` list.
pub open spec fn sfile(entry: BencodeValue) -> Result<FileModel, ValidationError> {
    match entry {
        BencodeValue::Dict { pairs, .. } => {
            let fpv = pairs@;
            match int_field(fpv, key_length()) {
                Err(_) => Err(ValidationError::WrongType(Field::Length)),
                Ok(None) => Err(ValidationError::MissingField(Field::Length)),
                Ok(Some(l)) => if l < 0 {
                    Err(ValidationError::WrongType(Field::Length))
                } else {
                    match pairs_get(fpv, key_path()) {
                        None => Err(ValidationError::MissingField(Field::Path)),
                        Some(pnode) => match pnode {
                            BencodeValue::List { items, .. } => if items@.len() == 0 {
                                Err(ValidationError::WrongType(Field::Path))
                            } else {
                                match spath(items@) {
                                    Err(e) => Err(e),
                                    Ok(p) => Ok(FileModel { length: l, path: p }),
                                }
                            },
                            _ => Err(ValidationError::WrongType(Field::Path)),
                        },
                    }
                },
            }
        },
        _ => Err(ValidationError::WrongType(Field::Files)),
    }
}

/// Validation of the entries of the `files` list, in order; the first
/// failing entry aborts the whole validation.
pub open spec fn sfiles(items: Seq<BencodeValue>) -> Result<Seq<FileModel>, ValidationError>
    decreases items,
{
    if items.len() == 0 {
        Ok(Seq::empty())
    } else {
        match sfile(items[0]) {
            Err(e) => Err(e),
            Ok(f) => match sfiles(items.drop_first()) {
                Err(e) => Err(e),
                Ok(rest) => Ok(seq![f] + rest),
            },
        }
    }
}

/// The `files` key: `Ok(None)` when absent; a present value must be a
/// non-empty list of valid file entries.
pub open spec fn files_field(pv: Seq<(Vec<u8>, BencodeValue)>) -> Result<
    Option<Seq<FileModel>>,
    ValidationError,
> {
    match pairs_get(pv, key_files()) {
        None => Ok(None),
        Some(fnode) => match fnode {
            BencodeValue::List { items, .. } => if items@.len() == 0 {
                Err(ValidationError::WrongType(Field::Files))
            } else {
                match sfiles(items@) {
                    Err(e) => Err(e),
                    Ok(fs) => Ok(Some(fs)),
                }
            },
            _ => Err(ValidationError::WrongType(Field::Files)),
        },
    }
}

/// Validation and projection of the `info` dictionary. Fields are checked
/// in a fixed order: name, piece length, pieces, length, files, then the
/// single-file/multi-file exclusivity.
pub open spec fn sinfo(inode: BencodeValue) -> Result<InfoModel, ValidationError> {
    match inode {
        BencodeValue::Dict { pairs, .. } => {
            let pv = pairs@;
            match utf8_field(pv, key_name()) {
                Err(_) => Err(ValidationError::WrongType(Field::Name)),
                Ok(None) => Err(ValidationError::MissingField(Field::Name)),
                Ok(Some(name)) => match int_field(pv, key_piece_length()) {
                    Err(_) => Err(ValidationError::WrongType(Field::PieceLength)),
                    Ok(None) => Err(ValidationError::MissingField(Field::PieceLength)),
                    Ok(Some(pl)) => if pl <= 0 {
                        Err(ValidationError::WrongType(Field::PieceLength))
                    } else {
                        match bytes_field(pv, key_pieces()) {
                            Err(_) => Err(ValidationError::WrongType(Field::Pieces)),
                            Ok(None) => Err(ValidationError::MissingField(Field::Pieces)),
                            Ok(Some(pb)) => if pb.len() % 20 != 0 {
                                Err(ValidationError::PieceLengthNotMultipleOf20)
                            } else {
                                match int_field(pv, key_length()) {
                                    Err(_) => Err(ValidationError::WrongType(Field::Length)),
                                    Ok(len_opt) => if len_opt matches Some(l) && l < 0 {
                                        Err(ValidationError::WrongType(Field::Length))
                                    } else {
                                        match files_field(pv) {
                                            Err(e) => Err(e),
                                            Ok(files_opt) => if (len_opt is Some) == (files_opt
                                                is Some) {
                                                Err(ValidationError::BothOrNeitherLengthAndFiles)
                                            } else {
                                                Ok(InfoModel {
                                                    name,
                                                    piece_length: pl,
                                                    pieces: pieces_split(pb),
                                                    length: len_opt,
                                                    files: files_opt,
                                                })
                                            },
                                        }
                                    },
                                }
                            },
                        }
                    },
                },
            }
        },
        _ => Err(ValidationError::WrongType(Field::Info)),
    }
}

/// Validation and projection of a whole decoded torrent file. The info
/// hash is the SHA-1 digest of the raw bytes of the `info` value's
/// recorded span in `s`.
pub open spec fn storrent(root: BencodeValue, s: Seq<u8>) -> Result<TorrentModel, ValidationError> {
    match root {
        BencodeValue::Dict { pairs, .. } => {
            let pv = pairs@;
            match utf8_field(pv, key_announce()) {
                Err(_) => Err(ValidationError::WrongType(Field::Announce)),
                Ok(None) => Err(ValidationError::MissingField(Field::Announce)),
                Ok(Some(announce)) => match pairs_get(pv, spec_info_key()) {
                    None => Err(ValidationError::MissingField(Field::Info)),
                    Some(inode) => if !(inode matches BencodeValue::Dict { .. }) {
                        Err(ValidationError::WrongType(Field::Info))
                    } else {
                        match utf8_field(pv, key_comment()) {
                            Err(_) => Err(ValidationError::WrongType(Field::Comment)),
                            Ok(comment) => match sinfo(inode) {
                                Err(e) => Err(e),
                                Ok(im) => Ok(
                                    TorrentModel {
                                        announce,
                                        info: im,
                                        info_hash: sha1_of(
                                            s.subrange(
                                                inode.start() as int,
                                                inode.end_pos() as int,
                                            ),
                                        ),
                                        comment,
                                    },
                                ),
                            },
                        }
                    },
                },
            }
        },
        _ => Err(ValidationError::WrongType(Field::Root)),
    }
}


fn k_announce() -> (r: Vec<u8>)
    ensures
        r@ == key_announce(),
{
    let mut k: Vec<u8> = Vec::new();
    k.push(97);
    k.push(110);
    k.push(110);
    k.push(111);
    k.push(117);
    k.push(110);
    k.push(99);
    k.push(101);
    proof {
        assert(k@ =~= key_announce());
    }
    k
}

fn k_comment() -> (r: Vec<u8>)
    ensures
        r@ == key_comment(),
{
    let mut k: Vec<u8> = Vec::new();
    k.push(99);
    k.push(111);
    k.push(109);
    k.push(109);
    k.push(101);
    k.push(110);
    k.push(116);
    proof {
        assert(k@ =~= key_comment());
    }
    k
}

fn k_name() -> (r: Vec<u8>)
    ensures
        r@ == key_name(),
{
    let mut k: Vec<u8> = Vec::new();
    k.push(110);
    k.push(97);
    k.push(109);
    k.push(101);
    proof {
        assert(k@ =~= key_name());
    }
    k
}

fn k_piece_length() -> (r: Vec<u8>)
    ensures
        r@ == key_piece_length(),
{
    let mut k: Vec<u8> = Vec::new();
    k.push(112);
    k.push(105);
    k.push(101);
    k.push(99);
    k.push(101);
    k.push(32);
    k.push(108);
    k.push(101);
    k.push(110);
    k.push(103);
    k.push(116);
    k.push(104);
    proof {
        assert(k@ =~= key_piece_length());
    }
    k
}

fn k_pieces() -> (r: Vec<u8>)
    ensures
        r@ == key_pieces(),
{
    let mut k: Vec<u8> = Vec::new();
    k.push(112);
    k.push(105);
    k.push(101);
    k.push(99);
    k.push(101);
    k.push(115);
    proof {
        assert(k@ =~= key_pieces());
    }
    k
}

fn k_length() -> (r: Vec<u8>)
    ensures
        r@ == key_length(),
{
    let mut k: Vec<u8> = Vec::new();
    k.push(108);
    k.push(101);
    k.push(110);
    k.push(103);
    k.push(116);
    k.push(104);
    proof {
        assert(k@ =~= key_length());
    }
    k
}

fn k_files() -> (r: Vec<u8>)
    ensures
        r@ == key_files(),
{
    let mut k: Vec<u8> = Vec::new();
    k.push(102);
    k.push(105);
    k.push(108);
    k.push(101);
    k.push(115);
    proof {
        assert(k@ =~= key_files());
    }
    k
}

fn k_path() -> (r: Vec<u8>)
    ensures
        r@ == key_path(),
{
    let mut k: Vec<u8> = Vec::new();
    k.push(112);
    k.push(97);
    k.push(116);
    k.push(104);
    proof {
        assert(k@ =~= key_path());
    }
    k
}

fn k_info() -> (r: Vec<u8>)
    ensures
        r@ == spec_info_key(),
{
    let mut k: Vec<u8> = Vec::new();
    k.push(105);
    k.push(110);
    k.push(102);
    k.push(111);
    proof {
        assert(k@ =~= spec_info_key());
    }
    k
}

/// Looks up a UTF-8 text field, mirroring `utf8_field`.
fn lookup_utf8(pairs: &Vec<(Vec<u8>, BencodeValue)>, key: &Vec<u8>) -> (r: Result<
    Option<String>,
    (),
>)
    ensures
        match r {
            Ok(opt) => match opt {
                None => utf8_field(pairs@, key@) == Ok::<Option<Seq<u8>>, ()>(None),
                Some(s) => utf8_field(pairs@, key@) == Ok::<Option<Seq<u8>>, ()>(
                    Some(vstd::utf8::encode_utf8(s@)),
                ),
            },
            Err(_) => utf8_field(pairs@, key@) is Err,
        },
{
    match dict_lookup(pairs, key) {
        None => Ok(None),
        Some(node) => match node {
            BencodeValue::Str { bytes, .. } => {
                let copy = vstd::slice::slice_to_vec(bytes.as_slice());
                match bytes_to_string(copy) {
                    Some(s) => Ok(Some(s)),
                    None => Err(()),
                }
            },
            _ => Err(()),
        },
    }
}

/// Looks up an integer field, mirroring `int_field`.
fn lookup_int(pairs: &Vec<(Vec<u8>, BencodeValue)>, key: &Vec<u8>) -> (r: Result<Option<i64>, ()>)
    ensures
        match r {
            Ok(opt) => match opt {
                None => int_field(pairs@, key@) == Ok::<Option<int>, ()>(None),
                Some(v) => int_field(pairs@, key@) == Ok::<Option<int>, ()>(Some(v as int)),
            },
            Err(_) => int_field(pairs@, key@) is Err,
        },
{
    match dict_lookup(pairs, key) {
        None => Ok(None),
        Some(node) => match node {
            BencodeValue::Integer { value, .. } => Ok(Some(*value)),
            _ => Err(()),
        },
    }
}

/// Splits a `pieces` byte string into its 20-byte hashes.
fn split_pieces(bytes: &Vec<u8>) -> (r: Vec<[u8; 20]>)
    requires
        bytes@.len() % 20 == 0,
    ensures
        r@.len() == bytes@.len() / 20,
        forall|i: int|
            0 <= i < r@.len() ==> (#[trigger] r@[i])@ == bytes@.subrange(20 * i, 20 * i + 20),
{
    let n = bytes.len() / 20;
    proof {
        assert(20 * (bytes@.len() / 20) <= bytes@.len());
    }
    let mut out: Vec<[u8; 20]> = Vec::new();
    let mut i: usize = 0;
    while i < n
        invariant
            out@.len() == i,
            i <= n,
            n == bytes@.len() / 20,
            20 * (n as int) <= bytes@.len(),
            bytes@.len() <= usize::MAX,
            forall|k: int|
                0 <= k < i ==> (#[trigger] out@[k])@ == bytes@.subrange(20 * k, 20 * k + 20),
        decreases n - i,
    {
        let mut h: [u8; 20] = [0u8; 20];
        let mut j: usize = 0;
        while j < 20
            invariant
                j <= 20,
                i < n,
                n == bytes@.len() / 20,
                20 * (n as int) <= bytes@.len(),
                bytes@.len() <= usize::MAX,
                forall|t: int| 0 <= t < j ==> h@[t] == bytes@[20 * (i as int) + t],
            decreases 20 - j,
        {
            h[j] = bytes[i * 20 + j];
            j = j + 1;
        }
        proof {
            assert(h@ =~= bytes@.subrange(20 * (i as int), 20 * (i as int) + 20));
        }
        out.push(h);
        i = i + 1;
    }
    out
}

/// Builds the typed path components of one file entry, mirroring `spath`.
fn build_path(items: &Vec<BencodeValue>) -> (r: Result<Vec<String>, ValidationError>)
    ensures
        match r {
            Ok(p) => spath(items@) == Ok::<Seq<Seq<u8>>, ValidationError>(
                Seq::new(p@.len(), |i: int| vstd::utf8::encode_utf8(p@[i]@)),
            ),
            Err(e) => spath(items@) == Err::<Seq<Seq<u8>>, ValidationError>(e),
        },
{
    let mut out: Vec<String> = Vec::new();
    let ghost mut acc: Seq<Seq<u8>> = Seq::empty();
    let mut i: usize = 0;
    proof {
        assert(items@.skip(0) =~= items@);
    }
    while i < items.len()
        invariant
            i <= items@.len(),
            acc.len() == out@.len(),
            forall|k: int| 0 <= k < out@.len() ==> acc[k] == vstd::utf8::encode_utf8(
                (#[trigger] out@[k])@,
            ),
            spath(items@) == (match spath(items@.skip(i as int)) {
                Ok(rest) => Ok::<Seq<Seq<u8>>, ValidationError>(acc + rest),
                Err(e) => Err::<Seq<Seq<u8>>, ValidationError>(e),
            }),
        decreases items@.len() - i,
    {
        proof {
            assert(items@.skip(i as int)[0] == items@[i as int]);
            assert(items@.skip(i as int).drop_first() =~= items@.skip(i + 1));
        }
        match &items[i] {
            BencodeValue::Str { bytes, .. } => {
                let copy = vstd::slice::slice_to_vec(bytes.as_slice());
                match bytes_to_string(copy) {
                    None => {
                        return Err(ValidationError::WrongType(Field::Path));
                    },
                    Some(s) => {
                        if bytes.len() == 0 {
                            return Err(ValidationError::WrongType(Field::Path));
                        }
                        if bytes.len() == 2 && bytes[0] == 46 && bytes[1] == 46 {
                            proof {
                                assert(bytes@ =~= seq![46u8, 46u8]);
                            }
                            return Err(ValidationError::PathEscapesRoot);
                        }
                        proof {
                            assert(bytes@ != seq![46u8, 46u8]) by {
                                if bytes@ == seq![46u8, 46u8] {
                                    assert(bytes@.len() == 2);
                                    assert(bytes@[0] == 46 && bytes@[1] == 46);
                                }
                            }
                            let after = spath(items@.skip(i + 1));
                            match after {
                                Ok(rest) => {
                                    assert(acc + (seq![bytes@] + rest) =~= (acc + seq![bytes@])
                                        + rest);
                                },
                                Err(_) => {},
                            }
                        }
                        out.push(s);
                        proof {
                            acc = acc + seq![vstd::utf8::encode_utf8(s@)];
                        }
                        i = i + 1;
                    },
                }
            },
            _ => {
                return Err(ValidationError::WrongType(Field::Path));
            },
        }
    }
    proof {
        assert(items@.skip(i as int) =~= Seq::<BencodeValue>::empty());
        assert(spath(Seq::<BencodeValue>::empty()) == Ok::<Seq<Seq<u8>>, ValidationError>(
            Seq::empty(),
        ));
        assert(acc + Seq::<Seq<u8>>::empty() =~= acc);
        assert(Seq::new(out@.len(), |k: int| vstd::utf8::encode_utf8(out@[k]@)) =~= acc);
    }
    Ok(out)
}

/// Builds one typed file entry, mirroring `sfile`.
fn build_file(entry: &BencodeValue) -> (r: Result<TorrentFile, ValidationError>)
    ensures
        match r {
            Ok(f) => sfile(*entry) == Ok::<FileModel, ValidationError>(f@),
            Err(e) => sfile(*entry) == Err::<FileModel, ValidationError>(e),
        },
{
    match entry {
        BencodeValue::Dict { pairs, .. } => {
            let klen = k_length();
            let length = match lookup_int(pairs, &klen) {
                Err(_) => {
                    return Err(ValidationError::WrongType(Field::Length));
                },
                Ok(None) => {
                    return Err(ValidationError::MissingField(Field::Length));
                },
                Ok(Some(l)) => {
                    if l < 0 {
                        return Err(ValidationError::WrongType(Field::Length));
                    }
                    l
                },
            };
            let kpath = k_path();
            match dict_lookup(pairs, &kpath) {
                None => Err(ValidationError::MissingField(Field::Path)),
                Some(pnode) => match pnode {
                    BencodeValue::List { items, .. } => {
                        if items.len() == 0 {
                            return Err(ValidationError::WrongType(Field::Path));
                        }
                        match build_path(items) {
                            Err(e) => Err(e),
                            Ok(path) => Ok(TorrentFile { length, path }),
                        }
                    },
                    _ => Err(ValidationError::WrongType(Field::Path)),
                },
            }
        },
        _ => Err(ValidationError::WrongType(Field::Files)),
    }
}

/// Builds the typed entries of the `files` list, mirroring `sfiles`.
fn build_files(items: &Vec<BencodeValue>) -> (r: Result<Vec<TorrentFile>, ValidationError>)
    ensures
        match r {
            Ok(fs) => sfiles(items@) == Ok::<Seq<FileModel>, ValidationError>(
                Seq::new(fs@.len(), |i: int| fs@[i]@),
            ),
            Err(e) => sfiles(items@) == Err::<Seq<FileModel>, ValidationError>(e),
        },
{
    let mut out: Vec<TorrentFile> = Vec::new();
    let ghost mut acc: Seq<FileModel> = Seq::empty();
    let mut i: usize = 0;
    proof {
        assert(items@.skip(0) =~= items@);
    }
    while i < items.len()
        invariant
            i <= items@.len(),
            acc.len() == out@.len(),
            forall|k: int| 0 <= k < out@.len() ==> acc[k] == (#[trigger] out@[k])@,
            sfiles(items@) == (match sfiles(items@.skip(i as int)) {
                Ok(rest) => Ok::<Seq<FileModel>, ValidationError>(acc + rest),
                Err(e) => Err::<Seq<FileModel>, ValidationError>(e),
            }),
        decreases items@.len() - i,
    {
        proof {
            assert(items@.skip(i as int)[0] == items@[i as int]);
            assert(items@.skip(i as int).drop_first() =~= items@.skip(i + 1));
        }
        match build_file(&items[i]) {
            Err(e) => {
                return Err(e);
            },
            Ok(f) => {
                proof {
                    let after = sfiles(items@.skip(i + 1));
                    match after {
                        Ok(rest) => {
                            assert(acc + (seq![f@] + rest) =~= (acc + seq![f@]) + rest);
                        },
                        Err(_) => {},
                    }
                    acc = acc + seq![f@];
                }
                out.push(f);
                i = i + 1;
            },
        }
    }
    proof {
        assert(items@.skip(i as int) =~= Seq::<BencodeValue>::empty());
        assert(acc + Seq::<FileModel>::empty() =~= acc);
        assert(Seq::new(out@.len(), |k: int| out@[k]@) =~= acc);
    }
    Ok(out)
}

/// Builds the typed `info` dictionary, mirroring `sinfo`.
fn build_info(inode: &BencodeValue) -> (r: Result<TorrentInfo, ValidationError>)
    ensures
        match r {
            Ok(info) => sinfo(*inode) == Ok::<InfoModel, ValidationError>(info@),
            Err(e) => sinfo(*inode) == Err::<InfoModel, ValidationError>(e),
        },
{
    match inode {
        BencodeValue::Dict { pairs, .. } => {
            let kname = k_name();
            let name = match lookup_utf8(pairs, &kname) {
                Err(_) => {
                    return Err(ValidationError::WrongType(Field::Name));
                },
                Ok(None) => {
                    return Err(ValidationError::MissingField(Field::Name));
                },
                Ok(Some(s)) => s,
            };
            let kpl = k_piece_length();
            let piece_length = match lookup_int(pairs, &kpl) {
                Err(_) => {
                    return Err(ValidationError::WrongType(Field::PieceLength));
                },
                Ok(None) => {
                    return Err(ValidationError::MissingField(Field::PieceLength));
                },
                Ok(Some(pl)) => {
                    if pl <= 0 {
                        return Err(ValidationError::WrongType(Field::PieceLength));
                    }
                    pl
                },
            };
            let kpieces = k_pieces();
            let pieces = match dict_lookup(pairs, &kpieces) {
                None => {
                    return Err(ValidationError::MissingField(Field::Pieces));
                },
                Some(pnode) => match pnode {
                    BencodeValue::Str { bytes, .. } => {
                        if bytes.len() % 20 != 0 {
                            return Err(ValidationError::PieceLengthNotMultipleOf20);
                        }
                        split_pieces(bytes)
                    },
                    _ => {
                        return Err(ValidationError::WrongType(Field::Pieces));
                    },
                },
            };
            let klen = k_length();
            let length = match lookup_int(pairs, &klen) {
                Err(_) => {
                    return Err(ValidationError::WrongType(Field::Length));
                },
                Ok(None) => None,
                Ok(Some(l)) => {
                    if l < 0 {
                        return Err(ValidationError::WrongType(Field::Length));
                    }
                    Some(l)
                },
            };
            let kfiles = k_files();
            let files = match dict_lookup(pairs, &kfiles) {
                None => None,
                Some(fnode) => match fnode {
                    BencodeValue::List { items, .. } => {
                        if items.len() == 0 {
                            return Err(ValidationError::WrongType(Field::Files));
                        }
                        match build_files(items) {
                            Err(e) => {
                                return Err(e);
                            },
                            Ok(fs) => Some(fs),
                        }
                    },
                    _ => {
                        return Err(ValidationError::WrongType(Field::Files));
                    },
                },
            };
            if length.is_some() == files.is_some() {
                return Err(ValidationError::BothOrNeitherLengthAndFiles);
            }
            let info = TorrentInfo { name, piece_length, pieces, length, files };
            proof {
                match sinfo(*inode) {
                    Ok(im) => {
                        assert(im.pieces =~= info@.pieces);
                        match im.files {
                            Some(fs) => {
                                assert(fs =~= info@.files->0);
                            },
                            None => {},
                        }
                    },
                    Err(_) => {},
                }
            }
            Ok(info)
        },
        _ => Err(ValidationError::WrongType(Field::Info)),
    }
}


impl Torrent {
    /// Builds a validated torrent from a decoded tree and the raw buffer it
    /// was decoded from. The info hash is the SHA-1 digest of the raw bytes
    /// of the `info` value's recorded span in `data` — never of a
    /// re-serialization — exactly as `storrent` describes.
    pub fn from_bencode(bencode: &BencodeValue, data: &[u8]) -> (r: Result<
        Torrent,
        ValidationError,
    >)
        requires
            well_spanned(*bencode, data@),
        ensures
            match r {
                Ok(t) => storrent(*bencode, data@) == Ok::<TorrentModel, ValidationError>(t@),
                Err(e) => storrent(*bencode, data@) == Err::<TorrentModel, ValidationError>(e),
            },
    {
        match bencode {
            BencodeValue::Dict { pairs, .. } => {
                let kann = k_announce();
                let announce = match lookup_utf8(pairs, &kann) {
                    Err(_) => {
                        return Err(ValidationError::WrongType(Field::Announce));
                    },
                    Ok(None) => {
                        return Err(ValidationError::MissingField(Field::Announce));
                    },
                    Ok(Some(s)) => s,
                };
                let kinfo = k_info();
                let inode = match dict_lookup(pairs, &kinfo) {
                    None => {
                        return Err(ValidationError::MissingField(Field::Info));
                    },
                    Some(node) => node,
                };
                match inode {
                    BencodeValue::Dict { .. } => {},
                    _ => {
                        return Err(ValidationError::WrongType(Field::Info));
                    },
                }
                let kcom = k_comment();
                let comment = match lookup_utf8(pairs, &kcom) {
                    Err(_) => {
                        return Err(ValidationError::WrongType(Field::Comment));
                    },
                    Ok(c) => c,
                };
                let info = match build_info(inode) {
                    Err(e) => {
                        return Err(e);
                    },
                    Ok(i) => i,
                };
                proof {
                    lemma_pairs_get_member(pairs@, spec_info_key());
                    assert(well_spanned(*inode, data@));
                    lemma_sdec_value_bounds(data@, inode.start() as int);
                }
                let (s0, e0) = inode.span();
                let hash = sha1_digest(vstd::slice::slice_subrange(data, s0, e0));
                Ok(Torrent { announce, info, info_hash: hash, comment })
            },
            _ => Err(ValidationError::WrongType(Field::Root)),
        }
    }
}

/// Decodes a whole ".torrent" buffer and builds its typed metadata: the
/// computation behind reading a torrent file, with all I/O left to the
/// caller.
pub fn parse_torrent(data: &[u8]) -> (r: Result<Torrent, TorrentError>)
    ensures
        match r {
            Ok(t) => exists|node: BencodeValue|
                {
                    &&& #[trigger] well_spanned(node, data@)
                    &&& sdecode(data@) matches Ok(p) && p.0 == view_of(node)
                    &&& storrent(node, data@) == Ok::<TorrentModel, ValidationError>(t@)
                },
            Err(TorrentError::Validation(ve)) => exists|node: BencodeValue|
                {
                    &&& #[trigger] well_spanned(node, data@)
                    &&& sdecode(data@) matches Ok(p) && p.0 == view_of(node)
                    &&& storrent(node, data@) == Err::<TorrentModel, ValidationError>(ve)
                },
            Err(TorrentError::Parse(e)) => sdecode(data@) == Err::<
                (BValue, int),
                (ParseErrorKind, int),
            >((e.kind, e.offset as int)),
        },
        sdecode(data@) is Err ==> r matches Err(TorrentError::Parse(_)),
{
    let mut parser = BencodeParser::new(data);
    match parser.parse() {
        Err(e) => Err(TorrentError::Parse(e)),
        Ok(node) => match Torrent::from_bencode(&node, data) {
            Ok(t) => {
                proof {
                    assert(well_spanned(node, data@));
                }
                Ok(t)
            },
            Err(ve) => {
                proof {
                    assert(well_spanned(node, data@));
                }
                Err(TorrentError::Validation(ve))
            },
        },
    }
}


/// Law: metadata building is deterministic. `storrent` (and with it the
/// derived info hash) is a function of the decoded tree and the raw buffer
/// alone, so two builds from equal inputs agree.
pub proof fn lemma_build_deterministic(
    root: BencodeValue,
    s: Seq<u8>,
    r1: Result<TorrentModel, ValidationError>,
    r2: Result<TorrentModel, ValidationError>,
)
    requires
        r1 == storrent(root, s),
        r2 == storrent(root, s),
    ensures
        r1 == r2,
        (r1 matches Ok(m) ==> m.info_hash == sha1_of(
            s.subrange(
                pairs_get(root->Dict_pairs@, spec_info_key())->0.start() as int,
                pairs_get(root->Dict_pairs@, spec_info_key())->0.end_pos() as int,
            ),
        )),
{
}

} // verus!
