//! What identifies a file in the swarm, and the text form in which that is
//! handed from one user to another.
use vstd::prelude::*;
use vstd::bytes::{
    lemma_auto_spec_u64_to_from_le_bytes, spec_u64_from_le_bytes, spec_u64_to_le_bytes,
    u64_from_le_bytes, u64_to_le_bytes,
};
use vstd::slice::slice_subrange;
use vstd::utf8::{decode_utf8, encode_utf8, valid_utf8};
use crate::codec::{base64_decode, base64_decoded, base64_encode, base64_encoded, string_from_utf8};
use crate::protocol::Sha256;

verus! {

/// The length of a file in bytes.
#[derive(Clone, Copy, Debug, PartialEq, Eq, Structural, PartialOrd, Ord, Hash)]
pub struct FileLen(pub u64);

/// The digest, the name and the length of a file. It does not change once
/// made.
#[derive(Clone, Debug, PartialEq, Eq, Hash)]
pub struct FileMetadata {
    sha256: Sha256,
    name: String,
    len: FileLen,
}

/// The metadata as plain values.
pub ghost struct FileMetadataView {
    pub sha256: Seq<u8>,
    pub name: Seq<char>,
    pub len: u64,
}

/// Encoding the metadata failed. No metadata gives this error.
#[derive(Debug)]
pub enum FileMetaDataEncodeBase64Error {
    SerializeError,
}

/// The text is not base64, or its bytes are not encoded metadata.
#[derive(Debug)]
pub enum FileMetaDataDecodeBase64Error {
    Base64DecodeError(base64::DecodeError),
    DeserializeError,
}

/// The binary form of metadata: the thirty-two bytes of the digest, the
/// length of the name's UTF-8 as eight little-endian bytes, the name's
/// UTF-8, and the file's length as eight little-endian bytes.
pub open spec fn metadata_bytes(meta: FileMetadataView) -> Seq<u8> {
    meta.sha256 + spec_u64_to_le_bytes(encode_utf8(meta.name).len() as u64) + encode_utf8(
        meta.name,
    ) + spec_u64_to_le_bytes(meta.len)
}

/// The metadata that a run of bytes starts with, or `None` when the bytes
/// end early or the name is not UTF-8. Bytes after the encoded metadata
/// are not looked at.
pub open spec fn metadata_parsed(bytes: Seq<u8>) -> Option<FileMetadataView> {
    if bytes.len() < 40 {
        None
    } else {
        let name_len = spec_u64_from_le_bytes(bytes.subrange(32, 40)) as int;
        if bytes.len() - 48 < name_len {
            None
        } else {
            let name = bytes.subrange(40, 40 + name_len);
            if !valid_utf8(name) {
                None
            } else {
                Some(
                    FileMetadataView {
                        sha256: bytes.subrange(0, 32),
                        name: decode_utf8(name),
                        len: spec_u64_from_le_bytes(
                            bytes.subrange(40 + name_len, 48 + name_len),
                        ),
                    },
                )
            }
        }
    }
}

/// Parsing the binary form of metadata gives the metadata back.
pub proof fn lemma_metadata_bytes_parsed(meta: FileMetadataView)
    requires
        meta.sha256.len() == 32,
        encode_utf8(meta.name).len() <= u64::MAX,
    ensures
        metadata_parsed(metadata_bytes(meta)) == Some(meta),
{
    let name = encode_utf8(meta.name);
    let name_len = spec_u64_to_le_bytes(name.len() as u64);
    let file_len = spec_u64_to_le_bytes(meta.len);
    let bytes = metadata_bytes(meta);
    lemma_auto_spec_u64_to_from_le_bytes();
    vstd::utf8::encode_utf8_valid_utf8(meta.name);
    vstd::utf8::encode_utf8_decode_utf8(meta.name);
    assert(name_len.len() == 8);
    assert(file_len.len() == 8);
    assert(bytes.len() == 48 + name.len());
    assert(bytes.subrange(0, 32) =~= meta.sha256);
    assert(bytes.subrange(32, 40) =~= name_len);
    let n = name.len() as int;
    assert(bytes.subrange(40, 40 + n) =~= name);
    assert(bytes.subrange(40 + n, 48 + n) =~= file_len);
}

impl View for FileMetadata {
    type V = FileMetadataView;

    closed spec fn view(&self) -> FileMetadataView {
        FileMetadataView { sha256: self.sha256.0@, name: self.name@, len: self.len.0 }
    }
}

impl FileMetadata {
    /// Metadata of the file with this digest, name and length.
    pub fn new(sha256: Sha256, name: String, len: FileLen) -> (r: Self)
        ensures
            r@ == (FileMetadataView { sha256: sha256.0@, name: name@, len: len.0 }),
    {
        Self { sha256, name, len }
    }

    /// The digest of the file.
    pub fn sha256(&self) -> (r: Sha256)
        ensures
            r.0@ == self@.sha256,
    {
        self.sha256
    }

    /// The name of the file.
    pub fn name(&self) -> (r: &str)
        ensures
            r@ == self@.name,
    {
        self.name.as_str()
    }

    /// The length of the file in bytes.
    pub fn len(&self) -> (r: FileLen)
        ensures
            r.0 == self@.len,
    {
        self.len
    }

    /// The binary form of the metadata.
    pub fn encode(&self) -> (r: Vec<u8>)
        ensures
            r@ == metadata_bytes(self@),
    {
        let name = self.name.as_str().as_bytes();
        let mut out: Vec<u8> = Vec::new();
        let mut i: usize = 0;
        while i < 32
            invariant
                i <= 32,
                out@ == self.sha256.0@.subrange(0, i as int),
            decreases 32 - i,
        {
            out.push(self.sha256.0[i]);
            assert(self.sha256.0@.subrange(0, i + 1) =~= self.sha256.0@.subrange(0, i as int).push(
                self.sha256.0@[i as int],
            ));
            i += 1;
        }
        assert(self.sha256.0@.subrange(0, 32) =~= self.sha256.0@);
        let mut name_len = u64_to_le_bytes(name.len() as u64);
        out.append(&mut name_len);
        out.extend_from_slice(name);
        let mut file_len = u64_to_le_bytes(self.len.0);
        out.append(&mut file_len);
        out
    }

    /// The metadata that a run of bytes starts with.
    pub fn decode(bytes: &[u8]) -> (r: Result<Self, FileMetaDataDecodeBase64Error>)
        ensures
            match metadata_parsed(bytes@) {
                Some(meta) => r is Ok && r->Ok_0@ == meta,
                None => r is Err && r->Err_0 is DeserializeError,
            },
    {
        if bytes.len() < 40 {
            return Err(FileMetaDataDecodeBase64Error::DeserializeError);
        }
        let name_len = u64_from_le_bytes(slice_subrange(bytes, 32, 40));
        if bytes.len() < 48 {
            return Err(FileMetaDataDecodeBase64Error::DeserializeError);
        }
        let room: usize = bytes.len() - 48;
        if name_len > room as u64 {
            return Err(FileMetaDataDecodeBase64Error::DeserializeError);
        }
        let name_len = name_len as usize;
        let name_bytes = vstd::slice::slice_to_vec(slice_subrange(bytes, 40, 40 + name_len));
        let name = match string_from_utf8(name_bytes) {
            Some(name) => name,
            None => {
                return Err(FileMetaDataDecodeBase64Error::DeserializeError);
            },
        };
        let len = u64_from_le_bytes(slice_subrange(bytes, 40 + name_len, 48 + name_len));
        let mut sha256 = [0u8;32];
        let mut i: usize = 0;
        while i < 32
            invariant
                i <= 32,
                bytes@.len() >= 40,
                forall|j: int| 0 <= j < i ==> sha256@[j] == bytes@[j],
            decreases 32 - i,
        {
            sha256[i] = bytes[i];
            i += 1;
        }
        assert(sha256@ =~= bytes@.subrange(0, 32));
        Ok(Self { sha256: Sha256(sha256), name, len: FileLen(len) })
    }

    /// The metadata as base64 text, for handing to another user.
    pub fn encode_base64(&self) -> (r: Result<String, FileMetaDataEncodeBase64Error>)
        ensures
            r is Ok,
            r->Ok_0@ == base64_encoded(metadata_bytes(self@)),
            base64_decoded(r->Ok_0@) == Some(metadata_bytes(self@)),
    {
        let encoded = self.encode();
        Ok(base64_encode(&encoded))
    }

    /// The metadata that a base64 text holds.
    pub fn decode_base64(base64: &str) -> (r: Result<Self, FileMetaDataDecodeBase64Error>)
        ensures
            match base64_decoded(base64@) {
                None => r is Err && r->Err_0 is Base64DecodeError,
                Some(bytes) => match metadata_parsed(bytes) {
                    Some(meta) => r is Ok && r->Ok_0@ == meta,
                    None => r is Err && r->Err_0 is DeserializeError,
                },
            },
    {
        match base64_decode(base64) {
            Err(err) => Err(FileMetaDataDecodeBase64Error::Base64DecodeError(err)),
            Ok(encoded) => Self::decode(encoded.as_slice()),
        }
    }

    /// Decoding the text that `encode_base64` gives for metadata yields
    /// metadata with the same digest, name and length.
    pub proof fn lemma_base64_round_trip(&self, text: Seq<char>)
        requires
            base64_decoded(text) == Some(metadata_bytes(self@)),
            encode_utf8(self@.name).len() <= u64::MAX,
        ensures
            base64_decoded(text) is Some,
            metadata_parsed(base64_decoded(text)->0) == Some(self@),
    {
        lemma_metadata_bytes_parsed(self@);
    }
}

} // verus!
