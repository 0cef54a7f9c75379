//! CIDs (Content IDs) are identifiers used for addressing resources by their contents,
//! essentially a hash with limited metadata.
//!
//! A CID here is version 1, with one of two codecs and one of two hash functions, and carries
//! either a 32-byte digest or none. Its raw binary form is
//! `[version, codec, hash type, digest length] ++ digest`; its text form is `b` followed by the
//! lower-case base32 encoding of the raw form.
use sha2::Digest;
use vstd::prelude::*;

use crate::base32;
use crate::base32::{spec_decode, spec_encode};

verus! {

pub const CID_VERSION: u8 = 1;

pub const PREFIX_LEN: usize = 4;

/// Length of a known hash.
pub const HASH_LEN: u8 = 32;

pub const DATA_LEN: usize = 36;

pub const HASH_CODE_SHA2_256: u8 = 0x12;

pub const HASH_CODE_BLAKE3: u8 = 0x1e;

pub const CODEC_CODE_RAW: u8 = 0x55;

pub const CODEC_CODE_DRISL: u8 = 0x71;

/// The content codec of a CID.
#[derive(Debug, Clone, Copy, PartialEq, Eq, Structural, PartialOrd)]
#[non_exhaustive]
pub enum Codec {
    Raw,
    Drisl,
}

#[derive(Debug, Clone, PartialEq, Eq, Structural)]
pub enum ParseCodecError {
    UnknownCodec(u8),
}

/// The hash function of a CID.
#[derive(Debug, Clone, Copy, PartialEq, Eq, Structural, PartialOrd)]
#[non_exhaustive]
pub enum Multihash {
    Sha2256,
    Blake3,
}

#[derive(Debug, Clone, PartialEq, Eq, Structural)]
#[non_exhaustive]
pub enum MultihashParseError {
    InvalidLength(usize),
    UnknownHash(u8),
    InvalidLengthPrefix,
}

#[derive(Debug, Clone, PartialEq, Eq, Structural)]
pub enum CidParseError {
    InvalidEncoding,
    TooShort,
    InvalidCidVersion(u8),
    InvalidCodec(ParseCodecError),
    InvalidMultihash(MultihashParseError),
}

pub open spec fn is_codec_code(b: u8) -> bool {
    b == CODEC_CODE_RAW || b == CODEC_CODE_DRISL
}

pub open spec fn is_multihash_code(b: u8) -> bool {
    b == HASH_CODE_SHA2_256 || b == HASH_CODE_BLAKE3
}

impl Codec {
    pub open spec fn spec_code(self) -> u8 {
        match self {
            Codec::Raw => CODEC_CODE_RAW,
            Codec::Drisl => CODEC_CODE_DRISL,
        }
    }

    pub open spec fn spec_from_code(value: u8) -> Result<Codec, ParseCodecError> {
        if value == CODEC_CODE_RAW {
            Ok(Codec::Raw)
        } else if value == CODEC_CODE_DRISL {
            Ok(Codec::Drisl)
        } else {
            Err(ParseCodecError::UnknownCodec(value))
        }
    }

    /// The multicodec code of this codec.
    pub fn code(self) -> (c: u8)
        ensures
            c == self.spec_code(),
            is_codec_code(c),
    {
        match self {
            Codec::Raw => CODEC_CODE_RAW,
            Codec::Drisl => CODEC_CODE_DRISL,
        }
    }

    /// The codec with the multicodec code `value`.
    pub fn from_code(value: u8) -> (res: Result<Codec, ParseCodecError>)
        ensures
            res == Self::spec_from_code(value),
            res matches Ok(c) ==> c.spec_code() == value,
            res is Ok <==> is_codec_code(value),
    {
        if value == CODEC_CODE_RAW {
            Ok(Codec::Raw)
        } else if value == CODEC_CODE_DRISL {
            Ok(Codec::Drisl)
        } else {
            Err(ParseCodecError::UnknownCodec(value))
        }
    }
}

impl Multihash {
    pub open spec fn spec_code(self) -> u8 {
        match self {
            Multihash::Sha2256 => HASH_CODE_SHA2_256,
            Multihash::Blake3 => HASH_CODE_BLAKE3,
        }
    }

    pub open spec fn spec_from_code(value: u8) -> Result<Multihash, MultihashParseError> {
        if value == HASH_CODE_SHA2_256 {
            Ok(Multihash::Sha2256)
        } else if value == HASH_CODE_BLAKE3 {
            Ok(Multihash::Blake3)
        } else {
            Err(MultihashParseError::UnknownHash(value))
        }
    }

    /// The multihash code of this hash function.
    pub fn code(self) -> (c: u8)
        ensures
            c == self.spec_code(),
            is_multihash_code(c),
    {
        match self {
            Multihash::Sha2256 => HASH_CODE_SHA2_256,
            Multihash::Blake3 => HASH_CODE_BLAKE3,
        }
    }

    /// The hash function with the multihash code `value`.
    pub fn from_code(value: u8) -> (res: Result<Multihash, MultihashParseError>)
        ensures
            res == Self::spec_from_code(value),
            res matches Ok(m) ==> m.spec_code() == value,
            res is Ok <==> is_multihash_code(value),
    {
        if value == HASH_CODE_SHA2_256 {
            Ok(Multihash::Sha2256)
        } else if value == HASH_CODE_BLAKE3 {
            Ok(Multihash::Blake3)
        } else {
            Err(MultihashParseError::UnknownHash(value))
        }
    }
}

impl TryFrom<u8> for Codec {
    type Error = ParseCodecError;

    fn try_from(value: u8) -> (res: Result<Self, Self::Error>)
        ensures
            res == Codec::spec_from_code(value),
    {
        Codec::from_code(value)
    }
}

impl vstd::std_specs::convert::TryFromSpecImpl<u8> for Codec {
    open spec fn obeys_try_from_spec() -> bool {
        true
    }

    open spec fn try_from_spec(v: u8) -> Result<Self, Self::Error> {
        Codec::spec_from_code(v)
    }
}

impl TryFrom<u8> for Multihash {
    type Error = MultihashParseError;

    fn try_from(value: u8) -> (res: Result<Self, Self::Error>)
        ensures
            res == Multihash::spec_from_code(value),
    {
        Multihash::from_code(value)
    }
}

impl vstd::std_specs::convert::TryFromSpecImpl<u8> for Multihash {
    open spec fn obeys_try_from_spec() -> bool {
        true
    }

    open spec fn try_from_spec(v: u8) -> Result<Self, Self::Error> {
        Multihash::spec_from_code(v)
    }
}

impl From<ParseCodecError> for CidParseError {
    fn from(err: ParseCodecError) -> (res: Self)
        ensures
            res == CidParseError::InvalidCodec(err),
    {
        Self::InvalidCodec(err)
    }
}

impl vstd::std_specs::convert::FromSpecImpl<ParseCodecError> for CidParseError {
    open spec fn obeys_from_spec() -> bool {
        true
    }

    open spec fn from_spec(v: ParseCodecError) -> Self {
        CidParseError::InvalidCodec(v)
    }
}

impl From<MultihashParseError> for CidParseError {
    fn from(err: MultihashParseError) -> (res: Self)
        ensures
            res == CidParseError::InvalidMultihash(err),
    {
        Self::InvalidMultihash(err)
    }
}

impl vstd::std_specs::convert::FromSpecImpl<MultihashParseError> for CidParseError {
    open spec fn obeys_from_spec() -> bool {
        true
    }

    open spec fn from_spec(v: MultihashParseError) -> Self {
        CidParseError::InvalidMultihash(v)
    }
}

/// The raw binary forms of CIDs: version 1, a known codec and hash function, and either an
/// empty digest (length 0) or a 32-byte one.
pub open spec fn valid_cid_bytes(b: Seq<u8>) -> bool {
    &&& b.len() >= 4
    &&& b[0] == CID_VERSION
    &&& is_codec_code(b[1])
    &&& is_multihash_code(b[2])
    &&& (b[3] == 0 && b.len() == 4) || (b[3] == HASH_LEN && b.len() == DATA_LEN)
}

/// What decoding a CID from its raw binary components gives: the raw form itself, or the
/// first error in the order the checks are made.
pub open spec fn spec_from_bytes_raw(b: Seq<u8>) -> Result<Seq<u8>, CidParseError> {
    if b.len() < 3 {
        Err(CidParseError::TooShort)
    } else if b.len() > DATA_LEN {
        Err(CidParseError::InvalidMultihash(MultihashParseError::InvalidLength(b.len() as usize)))
    } else if b[0] != CID_VERSION {
        Err(CidParseError::InvalidCidVersion(b[0]))
    } else if !is_codec_code(b[1]) {
        Err(CidParseError::InvalidCodec(ParseCodecError::UnknownCodec(b[1])))
    } else if !is_multihash_code(b[2]) {
        Err(CidParseError::InvalidMultihash(MultihashParseError::UnknownHash(b[2])))
    } else if b.len() == 3 {
        Err(CidParseError::TooShort)
    } else if b[3] == 0 {
        if b.len() > 4 {
            Err(
                CidParseError::InvalidMultihash(
                    MultihashParseError::InvalidLength(b.len() as usize),
                ),
            )
        } else {
            Ok(b)
        }
    } else if b[3] == HASH_LEN {
        if b.len() != DATA_LEN {
            Err(
                CidParseError::InvalidMultihash(
                    MultihashParseError::InvalidLength(b.len() as usize),
                ),
            )
        } else {
            Ok(b)
        }
    } else {
        Err(CidParseError::InvalidMultihash(MultihashParseError::InvalidLengthPrefix))
    }
}

/// What decoding a CID from its binary encoding (a zero byte, then the raw form) gives.
pub open spec fn spec_from_bytes(b: Seq<u8>) -> Result<Seq<u8>, CidParseError> {
    if b.len() == 0 {
        Err(CidParseError::TooShort)
    } else if b[0] != 0 {
        Err(CidParseError::InvalidEncoding)
    } else {
        spec_from_bytes_raw(b.drop_first())
    }
}

/// The text form of a CID with raw form `b`.
pub open spec fn spec_to_string(b: Seq<u8>) -> Seq<char> {
    seq!['b'] + spec_encode(b).map_values(|x: u8| x as char)
}

/// The raw form that the text `s` holds, when it starts with `b` and the rest is base32.
pub open spec fn spec_text_payload(s: Seq<char>) -> Option<Seq<u8>> {
    let bytes = vstd::utf8::encode_utf8(s);
    if bytes.len() == 0 || bytes[0] != 0x62 {
        None
    } else {
        spec_decode(bytes.drop_first())
    }
}

/// What parsing a CID from its text form gives.
pub open spec fn spec_from_str(s: Seq<char>) -> Result<Seq<u8>, CidParseError> {
    match spec_text_payload(s) {
        None => Err(CidParseError::InvalidEncoding),
        Some(raw) => spec_from_bytes_raw(raw),
    }
}

/// The name for what SHA2-256 gives for a message.
pub uninterp spec fn spec_sha2_256(data: Seq<u8>) -> Seq<u8>;

/// The name for what BLAKE3 (32-byte output) gives for a message.
pub uninterp spec fn spec_blake3(data: Seq<u8>) -> Seq<u8>;

/// `sha2::Sha256::digest`: the SHA2-256 digest of `data`, as 32 bytes.
/// Its value is a function of `data` alone; nothing more of it is stated.
#[verifier::external_body]
fn sha2_256(data: &[u8]) -> (h: [u8; 32])
    ensures
        h@ == spec_sha2_256(data@),
{
    sha2::Sha256::digest(data).into()
}

/// `blake3::hash`: the 32-byte BLAKE3 hash of `data`.
/// Its value is a function of `data` alone; nothing more of it is stated.
#[verifier::external_body]
fn blake3_256(data: &[u8]) -> (h: [u8; 32])
    ensures
        h@ == spec_blake3(data@),
{
    *blake3::hash(data).as_bytes()
}

/// `String::push`: appends `c` to `s`.
#[verifier::external_body]
pub(crate) fn push_char(s: &mut String, c: char)
    ensures
        final(s)@ == old(s)@.push(c),
{
    s.push(c)
}

#[derive(Debug, Clone, Copy, PartialEq, Eq, PartialOrd, Hash)]
pub struct Cid {
    // - 1 byte CID version
    // - 1 byte Codec
    // - 1 byte hash type
    // - 1 byte Length
    // - 32 bytes hash
    data: [u8; 36],
}

impl View for Cid {
    type V = Seq<u8>;

    /// The raw binary form.
    closed spec fn view(&self) -> Seq<u8> {
        if self.data@[3] == 0 {
            self.data@.take(4)
        } else {
            self.data@
        }
    }
}

impl Cid {
    /// The CID is well formed: its raw form is valid, and an empty digest leaves the
    /// storage after the prefix zeroed.
    #[verifier::type_invariant]
    pub closed spec fn wf(&self) -> bool {
        &&& valid_cid_bytes(self@)
        &&& self.data@[3] == 0 ==> forall|i: int| PREFIX_LEN <= i < DATA_LEN ==> self.data@[i] == 0
    }

    /// Builds the CID whose raw form is `raw`.
    fn from_valid_raw(raw: &[u8]) -> (cid: Cid)
        requires
            valid_cid_bytes(raw@),
        ensures
            cid.wf(),
            cid@ == raw@,
    {
        let mut data = [0u8; 36];
        let len = raw.len();
        let mut i: usize = 0;
        while i < len
            invariant
                len == raw@.len(),
                len <= DATA_LEN,
                i <= len,
                forall|t: int| 0 <= t < i ==> data@[t] == raw@[t],
                forall|t: int| i <= t < DATA_LEN ==> data@[t] == 0,
            decreases len - i,
        {
            data[i] = raw[i];
            i = i + 1;
        }
        let cid = Cid { data };
        assert(cid@ =~= raw@);
        cid
    }

    /// Returns the digest of this CID (empty when the CID carries none).
    pub fn hash(&self) -> (h: &[u8])
        ensures
            h@ == self@.subrange(PREFIX_LEN as int, self@.len() as int),
    {
        proof {
            use_type_invariant(self);
        }
        if self.data[3] == 0 {
            let h = vstd::slice::slice_subrange(self.data.as_slice(), 4, 4);
            assert(h@ =~= self@.subrange(PREFIX_LEN as int, self@.len() as int));
            h
        } else {
            vstd::slice::slice_subrange(self.data.as_slice(), 4, 36)
        }
    }

    /// Returns the `Multihash` type of this CID.
    pub fn multihash_type(&self) -> (m: Multihash)
        ensures
            m.spec_code() == self@[2],
    {
        proof {
            use_type_invariant(self);
        }
        match Multihash::from_code(self.data[2]) {
            Ok(m) => m,
            Err(_) => {
                assert(false);
                Multihash::Sha2256
            },
        }
    }

    /// Returns the `Codec` of this CID.
    pub fn codec(&self) -> (c: Codec)
        ensures
            c.spec_code() == self@[1],
    {
        proof {
            use_type_invariant(self);
        }
        match Codec::from_code(self.data[1]) {
            Ok(c) => c,
            Err(_) => {
                assert(false);
                Codec::Raw
            },
        }
    }

    /// Tries to decode a CID from binary encoding.
    pub fn from_bytes(bytes: &[u8]) -> (res: Result<Cid, CidParseError>)
        ensures
            match res {
                Ok(cid) => cid.wf() && spec_from_bytes(bytes@) == Ok::<Seq<u8>, CidParseError>(
                    cid@,
                ),
                Err(e) => spec_from_bytes(bytes@) == Err::<Seq<u8>, CidParseError>(e),
            },
    {
        if bytes.len() == 0 {
            return Err(CidParseError::TooShort);
        }
        if bytes[0] != 0x0 {
            return Err(CidParseError::InvalidEncoding);
        }
        let rest = &bytes[1..bytes.len()];
        assert(rest@ =~= bytes@.drop_first());
        Self::from_bytes_raw(rest)
    }

    /// Tries to decode a CID from its raw binary components.
    pub fn from_bytes_raw(bytes: &[u8]) -> (res: Result<Cid, CidParseError>)
        ensures
            match res {
                Ok(cid) => cid.wf() && spec_from_bytes_raw(bytes@) == Ok::<
                    Seq<u8>,
                    CidParseError,
                >(cid@),
                Err(e) => spec_from_bytes_raw(bytes@) == Err::<Seq<u8>, CidParseError>(e),
            },
    {
        let min_len: usize = 3;
        if bytes.len() < min_len {
            return Err(CidParseError::TooShort);
        }
        if bytes.len() > DATA_LEN {
            return Err(
                CidParseError::InvalidMultihash(MultihashParseError::InvalidLength(bytes.len())),
            );
        }
        if bytes[0] != CID_VERSION {
            return Err(CidParseError::InvalidCidVersion(bytes[0]));
        }
        if let Err(e) = Codec::from_code(bytes[1]) {
            return Err(CidParseError::InvalidCodec(e));
        }
        if let Err(e) = Multihash::from_code(bytes[2]) {
            return Err(CidParseError::InvalidMultihash(e));
        }
        if bytes.len() == 3 {
            // a valid prefix without the digest length
            return Err(CidParseError::TooShort);
        }
        let len = bytes[3];
        if len == 0 {
            if bytes.len() > 4 {
                return Err(
                    CidParseError::InvalidMultihash(
                        MultihashParseError::InvalidLength(bytes.len()),
                    ),
                );
            }
            Ok(Self::from_valid_raw(bytes))
        } else if len == HASH_LEN {
            if bytes.len() != DATA_LEN {
                return Err(
                    CidParseError::InvalidMultihash(
                        MultihashParseError::InvalidLength(bytes.len()),
                    ),
                );
            }
            Ok(Self::from_valid_raw(bytes))
        } else {
            Err(CidParseError::InvalidMultihash(MultihashParseError::InvalidLengthPrefix))
        }
    }

    /// Encode the CID in its raw binary format.
    pub fn as_bytes(&self) -> (b: &[u8])
        ensures
            b@ == self@,
            valid_cid_bytes(b@),
    {
        proof {
            use_type_invariant(self);
        }
        if self.data[3] == 0 {
            vstd::slice::slice_subrange(self.data.as_slice(), 0, 4)
        } else {
            self.data.as_slice()
        }
    }

    /// Encode the CID in its binary format: a zero byte, then the raw form.
    pub fn to_bytes(&self) -> (b: Vec<u8>)
        ensures
            b@ == seq![0u8] + self@,
    {
        proof {
            use_type_invariant(self);
        }
        let raw = self.as_bytes();
        let mut out: Vec<u8> = Vec::new();
        out.push(0u8);
        let n = raw.len();
        let mut i: usize = 0;
        while i < n
            invariant
                n == raw@.len(),
                raw@ == self@,
                i <= n,
                out@ == seq![0u8] + raw@.take(i as int),
            decreases n - i,
        {
            out.push(raw[i]);
            i = i + 1;
            assert(out@ =~= seq![0u8] + raw@.take(i as int));
        }
        assert(raw@.take(n as int) =~= raw@);
        out
    }

    /// The CID with the given codec and hash function that carries `digest`.
    pub fn with_digest(codec: Codec, hash: Multihash, digest: &[u8; 32]) -> (cid: Cid)
        ensures
            cid.wf(),
            cid@ == seq![CID_VERSION, codec.spec_code(), hash.spec_code(), HASH_LEN] + digest@,
    {
        let mut data = [0u8; 36];
        data[0] = CID_VERSION;
        data[1] = codec.code();
        data[2] = hash.code();
        data[3] = HASH_LEN;
        let mut i: usize = 0;
        while i < 32
            invariant
                i <= 32,
                data@[0] == CID_VERSION,
                data@[1] == codec.spec_code(),
                data@[2] == hash.spec_code(),
                data@[3] == HASH_LEN,
                forall|t: int| 0 <= t < i ==> data@[PREFIX_LEN + t] == digest@[t],
            decreases 32 - i,
        {
            data[4 + i] = digest[i];
            i = i + 1;
        }
        let cid = Cid { data };
        assert(cid@ =~= seq![CID_VERSION, codec.spec_code(), hash.spec_code(), HASH_LEN] + digest@);
        cid
    }

    /// The CID of `data` under `codec`, hashed with SHA2-256.
    pub fn digest_sha2(codec: Codec, data: &[u8]) -> (cid: Cid)
        ensures
            cid.wf(),
            cid@ == seq![CID_VERSION, codec.spec_code(), HASH_CODE_SHA2_256, HASH_LEN]
                + spec_sha2_256(data@),
    {
        let hash = sha2_256(data);
        Self::with_digest(codec, Multihash::Sha2256, &hash)
    }

    /// The CID of `data` under `codec`, hashed with BLAKE3.
    pub fn digest_blake3(codec: Codec, data: &[u8]) -> (cid: Cid)
        ensures
            cid.wf(),
            cid@ == seq![CID_VERSION, codec.spec_code(), HASH_CODE_BLAKE3, HASH_LEN]
                + spec_blake3(data@),
    {
        let hash = blake3_256(data);
        Self::with_digest(codec, Multihash::Blake3, &hash)
    }

    /// The CID with the given codec and hash type that carries no digest.
    fn without_digest(codec: Codec, hash_code: u8) -> (cid: Cid)
        requires
            is_multihash_code(hash_code),
        ensures
            cid.wf(),
            cid@ == seq![CID_VERSION, codec.spec_code(), hash_code, 0u8],
    {
        let mut data = [0u8; 36];
        data[0] = CID_VERSION;
        data[1] = codec.code();
        data[2] = hash_code;
        data[3] = 0;
        let cid = Cid { data };
        assert(cid@ =~= seq![CID_VERSION, codec.spec_code(), hash_code, 0u8]);
        cid
    }

    pub fn empty_sha2_256(codec: Codec) -> (cid: Cid)
        ensures
            cid.wf(),
            cid@ == seq![CID_VERSION, codec.spec_code(), HASH_CODE_SHA2_256, 0u8],
    {
        Self::without_digest(codec, HASH_CODE_SHA2_256)
    }

    pub fn empty_blake3(codec: Codec) -> (cid: Cid)
        ensures
            cid.wf(),
            cid@ == seq![CID_VERSION, codec.spec_code(), HASH_CODE_BLAKE3, 0u8],
    {
        Self::without_digest(codec, HASH_CODE_BLAKE3)
    }

    /// The text form: `b` followed by the base32 encoding of the raw form.
    pub fn to_string(&self) -> (s: String)
        ensures
            s@ == spec_to_string(self@),
    {
        proof {
            use_type_invariant(self);
        }
        let raw = self.as_bytes();
        let symbols = base32::encode(raw);
        let mut s = String::new();
        push_char(&mut s, 'b');
        let n = symbols.len();
        let mut i: usize = 0;
        while i < n
            invariant
                n == symbols@.len(),
                symbols@ == spec_encode(self@),
                i <= n,
                s@ == seq!['b'] + symbols@.take(i as int).map_values(|x: u8| x as char),
            decreases n - i,
        {
            push_char(&mut s, symbols[i] as char);
            i = i + 1;
            assert(s@ =~= seq!['b'] + symbols@.take(i as int).map_values(|x: u8| x as char));
        }
        assert(symbols@.take(n as int) =~= symbols@);
        s
    }

    /// Parses a CID from its text form.
    pub fn from_str(s: &str) -> (res: Result<Cid, CidParseError>)
        ensures
            match res {
                Ok(cid) => cid.wf() && spec_from_str(s@) == Ok::<Seq<u8>, CidParseError>(cid@),
                Err(e) => spec_from_str(s@) == Err::<Seq<u8>, CidParseError>(e),
            },
    {
        let bytes = s.as_bytes();
        if bytes.len() == 0 || bytes[0] != 0x62 {
            return Err(CidParseError::InvalidEncoding);
        }
        // skip base encoding prefix
        let without_prefix = &bytes[1..bytes.len()];
        assert(without_prefix@ =~= bytes@.drop_first());
        match base32::decode(without_prefix) {
            None => Err(CidParseError::InvalidEncoding),
            Some(raw) => Self::from_bytes_raw(raw.as_slice()),
        }
    }
}

/// A well-formed CID is determined by its raw form.
pub proof fn lemma_view_determines(a: Cid, b: Cid)
    requires
        a.wf(),
        b.wf(),
        a@ == b@,
    ensures
        a == b,
{
    assert(a.data@[3] == a@[3]);
    assert(b.data@[3] == b@[3]);
    assert forall|i: int| 0 <= i < DATA_LEN implies a.data@[i] == b.data@[i] by {
        if a.data@[3] == 0 && i >= PREFIX_LEN {
        } else {
            assert(a.data@[i] == a@[i]);
            assert(b.data@[i] == b@[i]);
        }
    }
    assert(a.data@ =~= b.data@);
    vstd::array::axiom_array_ext_equal(a.data, b.data);
}

/// Decoding a valid raw form gives it back, and decoding succeeds only on valid raw forms,
/// giving back the input.
pub proof fn lemma_raw_roundtrip(b: Seq<u8>)
    ensures
        valid_cid_bytes(b) ==> spec_from_bytes_raw(b) == Ok::<Seq<u8>, CidParseError>(b),
        spec_from_bytes_raw(b) is Ok ==> spec_from_bytes_raw(b) == Ok::<Seq<u8>, CidParseError>(b)
            && valid_cid_bytes(b),
{
}

/// Decoding the binary encoding (a zero byte, then the raw form) of a valid raw form gives
/// the raw form back.
pub proof fn lemma_bytes_roundtrip(b: Seq<u8>)
    requires
        valid_cid_bytes(b),
    ensures
        spec_from_bytes(seq![0u8] + b) == Ok::<Seq<u8>, CidParseError>(b),
{
    assert((seq![0u8] + b).drop_first() =~= b);
}

/// The UTF-8 bytes of the text form of `b`: `b`, then the base32 symbols.
proof fn lemma_text_bytes(b: Seq<u8>)
    ensures
        vstd::utf8::encode_utf8(spec_to_string(b)) == seq![0x62u8] + spec_encode(b),
{
    let e = spec_encode(b);
    let t = spec_to_string(b);
    base32::lemma_encode_symbols(b);
    assert(vstd::utf8::is_ascii_chars(t)) by {
        assert forall|i: int| 0 <= i < t.len() implies '\0' <= #[trigger] t[i] <= '\u{7f}' by {
            if i > 0 {
                assert(t[i] == e[i - 1] as char);
                assert(base32::spec_symbol_value(e[i - 1]) is Some);
            }
        }
    }
    vstd::utf8::is_ascii_chars_encode_utf8(t);
    let bytes = vstd::utf8::encode_utf8(t);
    assert forall|i: int| 0 <= i < bytes.len() implies bytes[i] == (seq![0x62u8] + e)[i] by {
        assert(t[i] as u8 == bytes[i]);
        if i > 0 {
            assert(t[i] == e[i - 1] as char);
        }
    }
    assert(bytes =~= seq![0x62u8] + e);
}

/// The text form is `b` and then symbols of the RFC 4648 lower-case alphabet only: every
/// character after the first is in `a`..`z` or `2`..`7`.
pub proof fn lemma_text_lower_alphabet(b: Seq<u8>)
    ensures
        spec_to_string(b)[0] == 'b',
        forall|i: int|
            1 <= i < spec_to_string(b).len() ==> ('a' <= #[trigger] spec_to_string(b)[i] <= 'z')
                || ('2' <= spec_to_string(b)[i] <= '7'),
{
    let t = spec_to_string(b);
    let e = spec_encode(b);
    base32::lemma_encode_lower_alphabet(b);
    assert forall|i: int| 1 <= i < t.len() implies ('a' <= #[trigger] t[i] <= 'z') || ('2' <= t[i]
        <= '7') by {
        assert(t[i] == e[i - 1] as char);
        assert(base32::in_lower_alphabet(e[i - 1]));
    }
}

/// Parsing the text form of a valid raw form gives it back.
pub proof fn lemma_text_roundtrip(b: Seq<u8>)
    requires
        valid_cid_bytes(b),
    ensures
        spec_from_str(spec_to_string(b)) == Ok::<Seq<u8>, CidParseError>(b),
{
    lemma_text_bytes(b);
    let bytes = vstd::utf8::encode_utf8(spec_to_string(b));
    assert(bytes.drop_first() =~= spec_encode(b));
    base32::lemma_encode_decode(b);
}

/// Text forms are canonical: a text that parses is exactly the text form of what it parses to.
pub proof fn lemma_text_canonical(s: Seq<char>)
    requires
        spec_from_str(s) is Ok,
    ensures
        spec_to_string(spec_from_str(s)->Ok_0) == s,
{
    broadcast use vstd::utf8::encode_utf8_decode_utf8;

    let bytes = vstd::utf8::encode_utf8(s);
    let raw = spec_decode(bytes.drop_first())->0;
    base32::lemma_decode_encode(bytes.drop_first());
    assert(bytes =~= seq![0x62u8] + spec_encode(raw));
    lemma_text_bytes(raw);
    let t = spec_to_string(raw);
    assert(vstd::utf8::decode_utf8(vstd::utf8::encode_utf8(t)) == t);
    assert(vstd::utf8::decode_utf8(vstd::utf8::encode_utf8(s)) == s);
}

} // verus!
