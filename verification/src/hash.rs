//! Cryptographic hash values and their serialised forms: base16, base32,
//! base64 and SRI. The encoders and decoders of outside crates do the
//! radix work behind trusted wrappers; everything around them — length
//! bookkeeping, type prefixes, truncation — is verified, and decoding is
//! stated to restore exactly what encoding produced.

use crate::strutil::{break_str, contains_char, str_eq};
use base64::Engine;
use crypto::digest::Digest;
use vstd::prelude::*;
use vstd::string::StringExecFns;

verus! {

/// Decoding failures.
#[derive(Debug)]
pub enum Error {
    /// The text has the length of no known encoding of this type's size.
    WrongHashLen(usize),
    /// The text carries no `type:` or `type-` prefix to name its algorithm.
    UntypedHash(String),
    /// The named algorithm is not one of the four supported.
    UnknownHashType(String),
    /// An empty hash needs an explicit type to take a size from.
    UntypedEmptyHash,
    /// The named algorithm does not match the one expected.
    TypeMismatch,
}

/// The supported digest algorithms.
#[derive(Debug, Clone, Copy, PartialEq, Eq, Structural)]
pub enum HashType {
    MD5,
    SHA1,
    SHA256,
    SHA512,
}

/// The digest size of each algorithm, in bytes.
pub open spec fn type_size(t: HashType) -> nat {
    match t {
        HashType::MD5 => 16,
        HashType::SHA1 => 20,
        HashType::SHA256 => 32,
        HashType::SHA512 => 64,
    }
}

/// The lower-case name of each algorithm.
pub open spec fn hash_type_name(t: HashType) -> Seq<char> {
    match t {
        HashType::MD5 => "md5"@,
        HashType::SHA1 => "sha1"@,
        HashType::SHA256 => "sha256"@,
        HashType::SHA512 => "sha512"@,
    }
}

impl HashType {
    /// Digest size in bytes.
    pub fn size(self) -> (r: usize)
        ensures
            r == type_size(self),
    {
        match self {
            HashType::MD5 => 16,
            HashType::SHA1 => 20,
            HashType::SHA256 => 32,
            HashType::SHA512 => 64,
        }
    }

    /// The algorithm named by the text, exactly one of the four names.
    pub fn from_str(s: &str) -> (r: Result<HashType, Error>)
        ensures
            match r {
                Ok(t) => s@ == hash_type_name(t),
                Err(e) => s@ != "md5"@ && s@ != "sha1"@ && s@ != "sha256"@ && s@ != "sha512"@ && (
                e matches Error::UnknownHashType(n) && n@ == s@),
            },
    {
        if str_eq(s, "md5") {
            Ok(HashType::MD5)
        } else if str_eq(s, "sha1") {
            Ok(HashType::SHA1)
        } else if str_eq(s, "sha256") {
            Ok(HashType::SHA256)
        } else if str_eq(s, "sha512") {
            Ok(HashType::SHA512)
        } else {
            Err(Error::UnknownHashType(s.to_owned()))
        }
    }

    /// The lower-case name of the algorithm.
    pub fn name(self) -> (r: &'static str)
        ensures
            r@ == hash_type_name(self),
    {
        match self {
            HashType::MD5 => "md5",
            HashType::SHA1 => "sha1",
            HashType::SHA256 => "sha256",
            HashType::SHA512 => "sha512",
        }
    }
}

/// Characters of a base16 rendering: two digits per byte.
pub open spec fn len_b16(n: nat) -> nat {
    n * 2
}

/// Characters of an unpadded base32 rendering of `n > 0` bytes.
pub open spec fn len_b32(n: nat) -> nat {
    (((n * 8 - 1) / 5) + 1) as nat
}

/// Characters of a padded base64 rendering.
pub open spec fn len_b64(n: nat) -> nat {
    4 * ((n + 2) / 3)
}

/// Characters of a base16 rendering of `size` bytes.
pub fn len_base16(size: usize) -> (r: usize)
    requires
        size <= 64,
    ensures
        r == len_b16(size as nat),
{
    size * 2
}

/// Characters of an unpadded base32 rendering of `size` bytes.
pub fn len_base32(size: usize) -> (r: usize)
    requires
        1 <= size <= 64,
    ensures
        r == len_b32(size as nat),
{
    (size * 8 - 1) / 5 + 1
}

/// Characters of a padded base64 rendering of `size` bytes.
pub fn len_base64(size: usize) -> (r: usize)
    requires
        size <= 64,
    ensures
        r == len_b64(size as nat),
{
    4 * ((size + 2) / 3)
}

/// The lower-case digit of one hex place.
pub open spec fn hex_digit(d: nat) -> char {
    if d == 0 {
        '0'
    } else if d == 1 {
        '1'
    } else if d == 2 {
        '2'
    } else if d == 3 {
        '3'
    } else if d == 4 {
        '4'
    } else if d == 5 {
        '5'
    } else if d == 6 {
        '6'
    } else if d == 7 {
        '7'
    } else if d == 8 {
        '8'
    } else if d == 9 {
        '9'
    } else if d == 10 {
        'a'
    } else if d == 11 {
        'b'
    } else if d == 12 {
        'c'
    } else if d == 13 {
        'd'
    } else if d == 14 {
        'e'
    } else {
        'f'
    }
}

/// The lower-case base16 rendering: high digit then low digit, per byte.
pub open spec fn hex_seq(b: Seq<u8>) -> Seq<char>
    decreases b.len(),
{
    if b.len() == 0 {
        Seq::empty()
    } else {
        hex_seq(b.drop_last()) + seq![
            hex_digit((b.last() / 16) as nat),
            hex_digit((b.last() % 16) as nat),
        ]
    }
}

/// Two rendered digits per byte.
pub proof fn lemma_hex_seq_len(b: Seq<u8>)
    ensures
        hex_seq(b).len() == 2 * b.len(),
    decreases b.len(),
{
    if b.len() > 0 {
        lemma_hex_seq_len(b.drop_last());
    }
}

/// For every supported digest size the three encodings have pairwise
/// different lengths, so the text's length picks the encoding.
pub proof fn lemma_encoding_lens_distinct(t: HashType)
    ensures
        len_b16(type_size(t)) != len_b32(type_size(t)),
        len_b16(type_size(t)) != len_b64(type_size(t)),
        len_b32(type_size(t)) != len_b64(type_size(t)),
{
    match t {
        HashType::MD5 => {
            assert(len_b16(16) == 32);
            assert(len_b32(16) == 26);
            assert(len_b64(16) == 24);
        },
        HashType::SHA1 => {
            assert(len_b16(20) == 40);
            assert(len_b32(20) == 32);
            assert(len_b64(20) == 28);
        },
        HashType::SHA256 => {
            assert(len_b16(32) == 64);
            assert(len_b32(32) == 52);
            assert(len_b64(32) == 44);
        },
        HashType::SHA512 => {
            assert(len_b16(64) == 128);
            assert(len_b32(64) == 103);
            assert(len_b64(64) == 88);
        },
    }
}

/// No algorithm name contains a separator, and the four names are pairwise
/// different.
/// A name-dash-payload text is colon-free when its parts are.
proof fn lemma_dash_form_colon_free(input: Seq<char>, name: Seq<char>, tail: Seq<char>)
    requires
        input == name + seq!['-'] + tail,
        !name.contains(':'),
        !tail.contains(':'),
    ensures
        !input.contains(':'),
{
    assert forall|k: int| 0 <= k < input.len() implies input[k] != ':' by {
        if k < name.len() {
            assert(input[k] == name[k]);
            if input[k] == ':' {
                assert(name[k] == ':');
                assert(name.contains(':'));
            }
        } else if k == name.len() {
            assert(input[k] == '-');
        } else {
            assert(input[k] == tail[k - name.len() - 1]);
            if input[k] == ':' {
                assert(tail[k - name.len() - 1] == ':');
                assert(tail.contains(':'));
            }
        }
    }
}

pub proof fn lemma_names_separator_free()
    ensures
        forall|t: HashType| !hash_type_name(t).contains(':') && !hash_type_name(t).contains('-'),
        forall|t1: HashType, t2: HashType|
            hash_type_name(t1) == hash_type_name(t2) ==> t1 == t2,
{
    reveal_strlit("md5");
    reveal_strlit("sha1");
    reveal_strlit("sha256");
    reveal_strlit("sha512");
    assert forall|t: HashType| !hash_type_name(t).contains(':') && !hash_type_name(t).contains(
        '-',
    ) by {
        match t {
            HashType::MD5 => {
                assert forall|i: int| 0 <= i < hash_type_name(t).len() implies hash_type_name(t)[i]
                    != ':' && hash_type_name(t)[i] != '-' by {}
            },
            HashType::SHA1 => {
                assert forall|i: int| 0 <= i < hash_type_name(t).len() implies hash_type_name(t)[i]
                    != ':' && hash_type_name(t)[i] != '-' by {}
            },
            HashType::SHA256 => {
                assert forall|i: int| 0 <= i < hash_type_name(t).len() implies hash_type_name(t)[i]
                    != ':' && hash_type_name(t)[i] != '-' by {}
            },
            HashType::SHA512 => {
                assert forall|i: int| 0 <= i < hash_type_name(t).len() implies hash_type_name(t)[i]
                    != ':' && hash_type_name(t)[i] != '-' by {}
            },
        }
    }
    assert(("md5")@.len() == 3 && ("sha1")@.len() == 4 && ("sha256")@.len() == 6 && (
    "sha512")@.len() == 6);
    assert(("sha256")@[3] == '2' && ("sha512")@[3] == '5');
    assert forall|t1: HashType, t2: HashType|
        hash_type_name(t1) == hash_type_name(t2) implies t1 == t2 by {
        if t1 != t2 {
            assert(hash_type_name(t1) != hash_type_name(t2));
        }
    }
}

/// The unpadded base32 rendering the search-path store uses, named: it is
/// a function of the bytes alone.
pub uninterp spec fn b32_of(b: Seq<u8>) -> Seq<char>;

/// The padded base64 rendering, named: it is a function of the bytes alone.
pub uninterp spec fn b64_of(b: Seq<u8>) -> Seq<char>;

/// The MD5 digest of a byte sequence, named.
pub uninterp spec fn md5_of(b: Seq<u8>) -> Seq<u8>;

/// The SHA-1 digest of a byte sequence, named.
pub uninterp spec fn sha1_of(b: Seq<u8>) -> Seq<u8>;

/// The SHA-256 digest of a byte sequence, named.
pub uninterp spec fn sha256_of(b: Seq<u8>) -> Seq<u8>;

/// The SHA-512 digest of a byte sequence, named.
pub uninterp spec fn sha512_of(b: Seq<u8>) -> Seq<u8>;

/// Relies on binascii::bin2hex: each input byte becomes its two lower-case
/// hex digits, high place first.
#[verifier::external_body]
fn hex_encode(b: &Vec<u8>) -> (r: String)
    requires
        b@.len() <= 64,
    ensures
        r@ == hex_seq(b@),
{
    let mut buf = vec![0u8; b.len() * 2];
    let _ = binascii::bin2hex(b.as_slice(), &mut buf);
    String::from_utf8(buf).unwrap_or_default()
}

/// Relies on binascii::hex2bin: decoding the digits bin2hex wrote restores
/// the bytes; text that is no hex rendering is refused.
#[verifier::external_body]
fn hex_decode(s: &str) -> (r: Result<Vec<u8>, ()>)
    requires
        s@.len() <= 128,
    ensures
        match r {
            Ok(b) => forall|bv: Seq<u8>| s@ == hex_seq(bv) ==> b@ == bv,
            Err(_) => forall|bv: Seq<u8>| s@ != hex_seq(bv),
        },
{
    let mut buf = vec![0u8; s.len() / 2 + 1];
    match binascii::hex2bin(s.as_bytes(), &mut buf) {
        Ok(out) => Ok(out.to_vec()),
        Err(_) => Err(()),
    }
}

/// Relies on base32::encode with the unpadded RFC 4648 alphabet; the
/// rendering is a function of the bytes, eight characters per five bytes,
/// shortened proportionally for the tail.
#[verifier::external_body]
fn base32_encode(b: &Vec<u8>) -> (r: String)
    requires
        b@.len() <= 64,
    ensures
        r@ == b32_of(b@),
        r@.len() == (b@.len() * 8 + 4) / 5,
{
    base32::encode(base32::Alphabet::Rfc4648 { padding: false }, b.as_slice())
}

/// Relies on base32::decode with the unpadded RFC 4648 alphabet: decoding
/// what base32::encode wrote restores the bytes (the crate states the
/// round trip for this alphabet).
#[verifier::external_body]
fn base32_decode(s: &str) -> (r: Result<Vec<u8>, ()>)
    requires
        s@.len() <= 128,
    ensures
        match r {
            Ok(b) => forall|bv: Seq<u8>| s@ == b32_of(bv) ==> b@ == bv,
            Err(_) => forall|bv: Seq<u8>| s@ != b32_of(bv),
        },
{
    match base32::decode(base32::Alphabet::Rfc4648 { padding: false }, s) {
        Some(b) => Ok(b),
        None => Err(()),
    }
}

/// Relies on binascii::b64encode: the padded standard base64 rendering,
/// four characters per three-byte group. The buffer carries one spare byte
/// because the encoder's padding loop starts one past the written data and
/// would step out of an exactly-sized buffer when no padding is due; the
/// returned slice holds exactly the rendering.
#[verifier::external_body]
fn base64_encode(b: &Vec<u8>) -> (r: String)
    requires
        b@.len() <= 64,
    ensures
        r@ == b64_of(b@),
        r@.len() == 4 * ((b@.len() + 2) / 3),
{
    let mut buf = vec![0u8; 4 * ((b.len() + 2) / 3) + 1];
    match binascii::b64encode(b.as_slice(), &mut buf) {
        Ok(out) => String::from_utf8(out.to_vec()).unwrap_or_default(),
        Err(_) => String::new(),
    }
}

/// Relies on base64::decode with the standard padded alphabet — the same
/// encoding b64encode writes — so decoding an encoder's output restores
/// the bytes.
#[verifier::external_body]
fn base64_decode(s: &str) -> (r: Result<Vec<u8>, ()>)
    requires
        s@.len() <= 128,
    ensures
        match r {
            Ok(b) => forall|bv: Seq<u8>| s@ == b64_of(bv) ==> b@ == bv,
            Err(_) => forall|bv: Seq<u8>| s@ != b64_of(bv),
        },
{
    match base64::engine::general_purpose::STANDARD.decode(s) {
        Ok(b) => Ok(b),
        Err(_) => Err(()),
    }
}

/// Relies on crypto::md5::Md5: the 16-byte MD5 digest, a function of the
/// input bytes alone.
#[verifier::external_body]
fn md5_digest(data: &[u8]) -> (r: Vec<u8>)
    ensures
        r@ == md5_of(data@),
        r@.len() == 16,
{
    let mut h = crypto::md5::Md5::new();
    h.input(data);
    let mut out = vec![0u8; 16];
    h.result(&mut out);
    out
}

/// Relies on crypto::sha1::Sha1: the 20-byte SHA-1 digest, a function of
/// the input bytes alone.
#[verifier::external_body]
fn sha1_digest(data: &[u8]) -> (r: Vec<u8>)
    ensures
        r@ == sha1_of(data@),
        r@.len() == 20,
{
    let mut h = crypto::sha1::Sha1::new();
    h.input(data);
    let mut out = vec![0u8; 20];
    h.result(&mut out);
    out
}

/// Relies on crypto::sha2::Sha256: the 32-byte SHA-256 digest, a function
/// of the input bytes alone.
#[verifier::external_body]
fn sha256_digest(data: &[u8]) -> (r: Vec<u8>)
    ensures
        r@ == sha256_of(data@),
        r@.len() == 32,
{
    let mut h = crypto::sha2::Sha256::new();
    h.input(data);
    let mut out = vec![0u8; 32];
    h.result(&mut out);
    out
}

/// Relies on crypto::sha2::Sha512: the 64-byte SHA-512 digest, a function
/// of the input bytes alone.
#[verifier::external_body]
fn sha512_digest(data: &[u8]) -> (r: Vec<u8>)
    ensures
        r@ == sha512_of(data@),
        r@.len() == 64,
{
    let mut h = crypto::sha2::Sha512::new();
    h.input(data);
    let mut out = vec![0u8; 64];
    h.result(&mut out);
    out
}

/// The serialised representations.
#[derive(Debug, Clone, Copy, PartialEq, Eq, Structural)]
pub enum Encoding {
    Base64,
    Base32,
    Base16,
    /// `type-base64`, the subresource-integrity form.
    SRI,
}

/// A digest with the algorithm that produced it. The bytes never exceed
/// the largest digest size; truncation can make them shorter than the
/// algorithm's own size.
#[derive(Debug)]
pub struct Hash {
    data: Vec<u8>,
    ty: HashType,
}

impl View for Hash {
    type V = Seq<u8>;

    closed spec fn view(&self) -> Seq<u8> {
        self.data@
    }
}

impl PartialEq for Hash {
    fn eq(&self, other: &Self) -> (r: bool) {
        if !(self.ty == other.ty) {
            return false;
        }
        let n = self.data.len();
        if n != other.data.len() {
            return false;
        }
        let mut i: usize = 0;
        while i < n
            invariant
                i <= n,
                n == self.data@.len(),
                n == other.data@.len(),
                forall|j: int| 0 <= j < i ==> self.data@[j] == other.data@[j],
            decreases n - i,
        {
            if self.data[i] != other.data[i] {
                return false;
            }
            i = i + 1;
        }
        proof {
            assert(self.data@ =~= other.data@);
        }
        true
    }
}

impl Eq for Hash {

}

impl vstd::std_specs::cmp::PartialEqSpecImpl for Hash {
    open spec fn obeys_eq_spec() -> bool {
        true
    }

    open spec fn eq_spec(&self, other: &Self) -> bool {
        self@ == other@ && self.type_spec() == other.type_spec()
    }
}

impl Hash {
    /// The bytes are non-empty and fit the largest digest.
    pub closed spec fn wf(&self) -> bool {
        1 <= self.data@.len() <= 64
    }

    /// Which algorithm produced this hash.
    pub closed spec fn type_spec(&self) -> HashType {
        self.ty
    }

    /// Size in bytes.
    pub fn size(&self) -> (r: usize)
        ensures
            r == self@.len(),
    {
        self.data.len()
    }

    /// Which algorithm produced this hash.
    pub fn type_(&self) -> (r: HashType)
        ensures
            r == self.type_spec(),
    {
        self.ty
    }

    /// The digest bytes.
    pub fn as_bytes(&self) -> (r: &[u8])
        ensures
            r@ == self@,
    {
        self.data.as_slice()
    }

    /// An all-zero digest of the type's size: what an empty hash text with
    /// a declared type stands for until a real one is known.
    pub fn zeroed(ty: HashType) -> (r: Hash)
        ensures
            r.wf(),
            r.type_spec() == ty,
            r@.len() == type_size(ty),
            forall|i: int| 0 <= i < r@.len() ==> r@[i] == 0u8,
    {
        let n = ty.size();
        let mut data: Vec<u8> = Vec::new();
        let mut i: usize = 0;
        while i < n
            invariant
                i <= n,
                n == type_size(ty),
                data@.len() == i,
                forall|j: int| 0 <= j < i ==> data@[j] == 0u8,
            decreases n - i,
        {
            data.push(0);
            i = i + 1;
        }
        Hash { data, ty }
    }

    /// Reads a hash from text that may be empty: an empty text with a
    /// declared type is the all-zero hash of that size (a stand-in for a
    /// deferred fixed-output digest), an empty text without one is an
    /// error; non-empty text decodes, against the declared type when one
    /// is given.
    pub fn new_allow_empty(s: &str, ty: Option<HashType>) -> (r: Result<Hash, Error>)
        ensures
            match r {
                Ok(h) => h.wf(),
                Err(_) => true,
            },
            s@.len() == 0 ==> match ty {
                Some(t) => r matches Ok(h) && h.type_spec() == t && h@.len() == type_size(t)
                    && forall|i: int| 0 <= i < h@.len() ==> h@[i] == 0u8,
                None => r is Err,
            },
    {
        if s.unicode_len() == 0 {
            match ty {
                Some(t) => Ok(Self::zeroed(t)),
                None => Err(Error::UntypedEmptyHash),
            }
        } else {
            match ty {
                Some(t) => {
                    if contains_char(s, ':') || contains_char(s, '-') {
                        let h = match Self::decode(s) {
                            Ok(h) => h,
                            Err(e) => {
                                return Err(e);
                            },
                        };
                        if h.type_() == t {
                            Ok(h)
                        } else {
                            Err(Error::TypeMismatch)
                        }
                    } else {
                        Self::decode_with_type(s, t, false)
                    }
                },
                None => Self::decode(s),
            }
        }
    }

    /// The serialised text of the bytes alone, in the given encoding; the
    /// SRI form always carries its type.
    pub fn encode(&self, encoding: Encoding) -> (r: String)
        requires
            self.wf(),
        ensures
            encoding == Encoding::Base16 ==> r@ == hex_seq(self@),
            encoding == Encoding::Base32 ==> r@ == b32_of(self@),
            encoding == Encoding::Base64 ==> r@ == b64_of(self@),
            encoding == Encoding::SRI ==> r@ == hash_type_name(self.type_spec()) + seq!['-'] + b64_of(
                self@,
            ),
            encoding == Encoding::Base16 ==> r@.len() == len_b16(self@.len()),
            encoding == Encoding::Base32 ==> r@.len() == len_b32(self@.len()),
            encoding == Encoding::Base64 ==> r@.len() == len_b64(self@.len()),
            encoding == Encoding::SRI ==> r@.len() == hash_type_name(self.type_spec()).len() + 1
                + len_b64(self@.len()),
    {
        if encoding == Encoding::SRI {
            return self.encode_with_type(encoding);
        }
        let mut s = String::new();
        self.encode_impl(encoding, &mut s);
        proof {
            assert(Seq::<char>::empty() + hex_seq(self@) =~= hex_seq(self@));
            assert(Seq::<char>::empty() + b32_of(self@) =~= b32_of(self@));
            assert(Seq::<char>::empty() + b64_of(self@) =~= b64_of(self@));
        }
        s
    }

    /// The serialised text with its type in front: `type:` in the plain
    /// encodings, `type-` in the SRI form.
    pub fn encode_with_type(&self, encoding: Encoding) -> (r: String)
        requires
            self.wf(),
        ensures
            encoding == Encoding::Base16 ==> r@ == hash_type_name(self.type_spec()) + seq![':']
                + hex_seq(self@),
            encoding == Encoding::Base32 ==> r@ == hash_type_name(self.type_spec()) + seq![':']
                + b32_of(self@),
            encoding == Encoding::Base64 ==> r@ == hash_type_name(self.type_spec()) + seq![':']
                + b64_of(self@),
            encoding == Encoding::SRI ==> r@ == hash_type_name(self.type_spec()) + seq!['-'] + b64_of(
                self@,
            ),
            encoding == Encoding::Base16 ==> r@.len() == hash_type_name(self.type_spec()).len()
                + 1 + len_b16(self@.len()),
            encoding == Encoding::Base32 ==> r@.len() == hash_type_name(self.type_spec()).len()
                + 1 + len_b32(self@.len()),
            encoding == Encoding::Base64 ==> r@.len() == hash_type_name(self.type_spec()).len()
                + 1 + len_b64(self@.len()),
            encoding == Encoding::SRI ==> r@.len() == hash_type_name(self.type_spec()).len() + 1
                + len_b64(self@.len()),
    {
        let mut s = String::new();
        s.append(self.ty.name());
        if encoding == Encoding::SRI {
            s.append("-");
            proof {
                reveal_strlit("-");
            }
        } else {
            s.append(":");
            proof {
                reveal_strlit(":");
            }
        }
        self.encode_impl(encoding, &mut s);
        s
    }

    /// Appends the radix rendering of the bytes; SRI is base64.
    fn encode_impl(&self, encoding: Encoding, buf: &mut String)
        requires
            self.wf(),
        ensures
            encoding == Encoding::Base16 ==> final(buf)@ == old(buf)@ + hex_seq(self@),
            encoding == Encoding::Base32 ==> final(buf)@ == old(buf)@ + b32_of(self@),
            (encoding == Encoding::Base64 || encoding == Encoding::SRI) ==> final(buf)@ == old(
                buf,
            )@ + b64_of(self@),
            encoding == Encoding::Base16 ==> final(buf)@.len() == old(buf)@.len() + len_b16(
                self@.len(),
            ),
            encoding == Encoding::Base32 ==> final(buf)@.len() == old(buf)@.len() + len_b32(
                self@.len(),
            ),
            (encoding == Encoding::Base64 || encoding == Encoding::SRI) ==> final(buf)@.len()
                == old(buf)@.len() + len_b64(self@.len()),
    {
        proof {
            lemma_hex_seq_len(self@);
            assert(self@.len() >= 1);
            assert((self@.len() * 8 + 4) / 5 == ((self@.len() * 8 - 1) / 5) + 1);
        }
        let piece = match encoding {
            Encoding::Base16 => hex_encode(&self.data),
            Encoding::Base32 => base32_encode(&self.data),
            Encoding::Base64 => base64_encode(&self.data),
            Encoding::SRI => base64_encode(&self.data),
        };
        buf.append(piece.as_str());
    }

    /// Reads `type:text` or the SRI `type-text`. Decoding the `type:`
    /// rendering of any right-sized bytes — in any of the three plain
    /// encodings — restores exactly those bytes and that type.
    pub fn decode(input: &str) -> (r: Result<Hash, Error>)
        ensures
            match r {
                Ok(h) => h.wf(),
                Err(_) => true,
            },
            forall|bv: Seq<u8>, t: HashType|
                bv.len() == type_size(t) && input@ == hash_type_name(t) + seq![':'] + hex_seq(bv)
                    ==> (r matches Ok(h) && h@ == bv && h.type_spec() == t),
            forall|bv: Seq<u8>, t: HashType|
                bv.len() == type_size(t) && input@ == hash_type_name(t) + seq![':'] + b32_of(bv)
                    && b32_of(bv).len() == len_b32(type_size(t)) ==> (r matches Ok(h) && h@ == bv
                    && h.type_spec() == t),
            forall|bv: Seq<u8>, t: HashType|
                bv.len() == type_size(t) && input@ == hash_type_name(t) + seq![':'] + b64_of(bv)
                    && b64_of(bv).len() == len_b64(type_size(t)) ==> (r matches Ok(h) && h@ == bv
                    && h.type_spec() == t),
            forall|bv: Seq<u8>, t: HashType|
                bv.len() == type_size(t) && input@ == hash_type_name(t) + seq!['-'] + b64_of(bv)
                    && b64_of(bv).len() == len_b64(type_size(t)) && !b64_of(bv).contains(':')
                    ==> (r matches Ok(h) && h@ == bv && h.type_spec() == t),
            !input@.contains(':') && !input@.contains('-') ==> (r matches Err(e) && (
            e matches Error::UntypedHash(u) && u@ == input@)),
            forall|a: Seq<char>, b: Seq<char>|
                input@ == a + seq![':'] + b && !a.contains(':') && a != ("md5")@ && a != ("sha1")@
                    && a != ("sha256")@ && a != ("sha512")@ ==> (r matches Err(e) && (
                e matches Error::UnknownHashType(n) && n@ == a)),
            forall|a: Seq<char>, b: Seq<char>|
                !input@.contains(':') && input@ == a + seq!['-'] + b && !a.contains('-') && a != (
                "md5")@ && a != ("sha1")@ && a != ("sha256")@ && a != ("sha512")@ ==> (
                r matches Err(e) && (e matches Error::UnknownHashType(n) && n@ == a)),
    {
        proof {
            lemma_names_separator_free();
        }
        if let Some((tyname, rest)) = break_str(input, ':') {
            proof {
                assert((tyname@ + seq![':'] + rest@)[tyname@.len() as int] == ':');
                assert(input@.contains(':'));
                assert forall|bv: Seq<u8>, t: HashType|
                    bv.len() == type_size(t) && input@ == hash_type_name(t) + seq!['-'] + b64_of(
                        bv,
                    ) && !b64_of(bv).contains(':') implies false by {
                    lemma_dash_form_colon_free(input@, hash_type_name(t), b64_of(bv));
                    assert((tyname@ + seq![':'] + rest@)[tyname@.len() as int] == ':');
                    assert(input@.contains(':'));
                }
            }
            let ty = match HashType::from_str(tyname) {
                Ok(t) => t,
                Err(e) => {
                    proof {
                        assert forall|bv: Seq<u8>, t: HashType|
                            bv.len() == type_size(t) && (input@ == hash_type_name(t) + seq![':']
                                + hex_seq(bv) || input@ == hash_type_name(t) + seq![':'] + b32_of(
                                bv,
                            ) || input@ == hash_type_name(t) + seq![':'] + b64_of(
                                bv,
                            )) implies false by {
                            if input@ == hash_type_name(t) + seq![':'] + hex_seq(bv) {
                                crate::strutil::lemma_first_split_unique(
                                    hash_type_name(t),
                                    hex_seq(bv),
                                    tyname@,
                                    rest@,
                                    ':',
                                );
                            } else if input@ == hash_type_name(t) + seq![':'] + b32_of(bv) {
                                crate::strutil::lemma_first_split_unique(
                                    hash_type_name(t),
                                    b32_of(bv),
                                    tyname@,
                                    rest@,
                                    ':',
                                );
                            } else {
                                crate::strutil::lemma_first_split_unique(
                                    hash_type_name(t),
                                    b64_of(bv),
                                    tyname@,
                                    rest@,
                                    ':',
                                );
                            }
                            assert(tyname@ == hash_type_name(t));
                            match t {
                                HashType::MD5 => assert(tyname@ == "md5"@),
                                HashType::SHA1 => assert(tyname@ == "sha1"@),
                                HashType::SHA256 => assert(tyname@ == "sha256"@),
                                HashType::SHA512 => assert(tyname@ == "sha512"@),
                            }
                        }
                        assert forall|a: Seq<char>, b: Seq<char>|
                            input@ == a + seq![':'] + b && !a.contains(':') implies (
                        e matches Error::UnknownHashType(n) && n@ == a) by {
                            crate::strutil::lemma_first_split_unique(a, b, tyname@, rest@, ':');
                            assert(a == tyname@);
                        }
                    }
                    return Err(e);
                },
            };
            let rr = Self::decode_with_type(rest, ty, false);
            proof {
                assert forall|bv: Seq<u8>, t: HashType|
                    bv.len() == type_size(t) && (input@ == hash_type_name(t) + seq![':']
                        + hex_seq(bv) || (input@ == hash_type_name(t) + seq![':'] + b32_of(bv)
                        && b32_of(bv).len() == len_b32(type_size(t))) || (input@
                        == hash_type_name(t) + seq![':'] + b64_of(bv) && b64_of(bv).len()
                        == len_b64(type_size(t)))) implies (rr matches Ok(h) && h@ == bv
                    && h.type_spec() == t) by {
                    if input@ == hash_type_name(t) + seq![':'] + hex_seq(bv) {
                        crate::strutil::lemma_first_split_unique(
                            hash_type_name(t),
                            hex_seq(bv),
                            tyname@,
                            rest@,
                            ':',
                        );
                        assert(tyname@ == hash_type_name(t));
                        assert(hash_type_name(ty) == hash_type_name(t));
                        assert(ty == t);
                        assert(rest@ == hex_seq(bv));
                        assert(bv.len() == type_size(ty));
                        assert(rr matches Ok(h) && h@ == bv && h.type_spec() == ty);
                    } else if input@ == hash_type_name(t) + seq![':'] + b32_of(bv) && b32_of(
                        bv,
                    ).len() == len_b32(type_size(t)) {
                        crate::strutil::lemma_first_split_unique(
                            hash_type_name(t),
                            b32_of(bv),
                            tyname@,
                            rest@,
                            ':',
                        );
                        assert(tyname@ == hash_type_name(t));
                        assert(hash_type_name(ty) == hash_type_name(t));
                        assert(ty == t);
                        assert(rest@ == b32_of(bv));
                        assert(bv.len() == type_size(ty));
                        assert(rest@.len() == len_b32(type_size(ty)));
                        assert(rr matches Ok(h) && h@ == bv && h.type_spec() == ty);
                    } else {
                        crate::strutil::lemma_first_split_unique(
                            hash_type_name(t),
                            b64_of(bv),
                            tyname@,
                            rest@,
                            ':',
                        );
                        assert(tyname@ == hash_type_name(t));
                        assert(hash_type_name(ty) == hash_type_name(t));
                        assert(ty == t);
                        assert(rest@ == b64_of(bv));
                        assert(bv.len() == type_size(ty));
                        assert(rest@.len() == len_b64(type_size(ty)));
                        assert(rr matches Ok(h) && h@ == bv && h.type_spec() == ty);
                    }
                }
            }
            proof {
                assert forall|a: Seq<char>, b: Seq<char>|
                    input@ == a + seq![':'] + b && !a.contains(':') && a != ("md5")@ && a != (
                    "sha1")@ && a != ("sha256")@ && a != ("sha512")@ implies false by {
                    crate::strutil::lemma_first_split_unique(a, b, tyname@, rest@, ':');
                    assert(a == tyname@);
                    assert(tyname@ == hash_type_name(ty));
                    match ty {
                        HashType::MD5 => assert(tyname@ == "md5"@),
                        HashType::SHA1 => assert(tyname@ == "sha1"@),
                        HashType::SHA256 => assert(tyname@ == "sha256"@),
                        HashType::SHA512 => assert(tyname@ == "sha512"@),
                    }
                }
            }
            rr
        } else if let Some((tyname, rest)) = break_str(input, '-') {
            proof {
                assert((tyname@ + seq!['-'] + rest@)[tyname@.len() as int] == '-');
                assert(input@.contains('-'));
                assert forall|a: Seq<char>, b: Seq<char>| input@ == a + seq![':'] + b implies false by {
                    assert((a + seq![':'] + b)[a.len() as int] == ':');
                    assert(input@.contains(':'));
                }
                assert forall|bv: Seq<u8>, t: HashType|
                    bv.len() == type_size(t) && (input@ == hash_type_name(t) + seq![':']
                        + hex_seq(bv) || input@ == hash_type_name(t) + seq![':'] + b32_of(bv)
                        || input@ == hash_type_name(t) + seq![':'] + b64_of(bv)) implies false by {
                    assert(input@[hash_type_name(t).len() as int] == ':');
                    assert(input@.contains(':'));
                }
            }
            let ty = match HashType::from_str(tyname) {
                Ok(t) => t,
                Err(e) => {
                    proof {
                        assert forall|bv: Seq<u8>, t: HashType|
                            bv.len() == type_size(t) && input@ == hash_type_name(t) + seq!['-']
                                + b64_of(bv) implies false by {
                            crate::strutil::lemma_first_split_unique(
                                hash_type_name(t),
                                b64_of(bv),
                                tyname@,
                                rest@,
                                '-',
                            );
                            assert(tyname@ == hash_type_name(t));
                            match t {
                                HashType::MD5 => assert(tyname@ == "md5"@),
                                HashType::SHA1 => assert(tyname@ == "sha1"@),
                                HashType::SHA256 => assert(tyname@ == "sha256"@),
                                HashType::SHA512 => assert(tyname@ == "sha512"@),
                            }
                        }
                        assert forall|a: Seq<char>, b: Seq<char>|
                            input@ == a + seq!['-'] + b && !a.contains('-') implies (
                        e matches Error::UnknownHashType(n) && n@ == a) by {
                            crate::strutil::lemma_first_split_unique(a, b, tyname@, rest@, '-');
                            assert(a == tyname@);
                        }
                    }
                    return Err(e);
                },
            };
            let rr = Self::decode_with_type(rest, ty, true);
            proof {
                assert forall|bv: Seq<u8>, t: HashType|
                    bv.len() == type_size(t) && input@ == hash_type_name(t) + seq!['-'] + b64_of(
                        bv,
                    ) && b64_of(bv).len() == len_b64(type_size(t)) implies (rr matches Ok(h) && h@
                    == bv && h.type_spec() == t) by {
                    crate::strutil::lemma_first_split_unique(
                        hash_type_name(t),
                        b64_of(bv),
                        tyname@,
                        rest@,
                        '-',
                    );
                    assert(tyname@ == hash_type_name(t));
                    assert(hash_type_name(ty) == hash_type_name(t));
                    assert(ty == t);
                    assert(rest@ == b64_of(bv));
                    assert(bv.len() == type_size(ty));
                    assert(rest@.len() == len_b64(type_size(ty)));
                    assert(rr matches Ok(h) && h@ == bv && h.type_spec() == ty);
                }
                assert forall|a: Seq<char>, b: Seq<char>|
                    input@ == a + seq!['-'] + b && !a.contains('-') && a != ("md5")@ && a != (
                    "sha1")@ && a != ("sha256")@ && a != ("sha512")@ implies false by {
                    crate::strutil::lemma_first_split_unique(a, b, tyname@, rest@, '-');
                    assert(a == tyname@);
                    assert(tyname@ == hash_type_name(ty));
                    match ty {
                        HashType::MD5 => assert(tyname@ == "md5"@),
                        HashType::SHA1 => assert(tyname@ == "sha1"@),
                        HashType::SHA256 => assert(tyname@ == "sha256"@),
                        HashType::SHA512 => assert(tyname@ == "sha512"@),
                    }
                }
            }
            rr
        } else {
            proof {
                assert forall|bv: Seq<u8>, t: HashType|
                    bv.len() == type_size(t) && (input@ == hash_type_name(t) + seq![':']
                        + hex_seq(bv) || input@ == hash_type_name(t) + seq![':'] + b32_of(bv)
                        || input@ == hash_type_name(t) + seq![':'] + b64_of(bv)) implies false by {
                    assert(input@[hash_type_name(t).len() as int] == ':');
                    assert(input@.contains(':'));
                }
            }
            proof {
                assert forall|bv: Seq<u8>, t: HashType|
                    bv.len() == type_size(t) && input@ == hash_type_name(t) + seq!['-'] + b64_of(
                        bv,
                    ) implies false by {
                    assert(input@[hash_type_name(t).len() as int] == '-');
                    assert(input@.contains('-'));
                }
                assert forall|a: Seq<char>, b: Seq<char>| input@ == a + seq![':'] + b implies false by {
                    assert((a + seq![':'] + b)[a.len() as int] == ':');
                    assert(input@.contains(':'));
                }
                assert forall|a: Seq<char>, b: Seq<char>| input@ == a + seq!['-'] + b implies false by {
                    assert((a + seq!['-'] + b)[a.len() as int] == '-');
                    assert(input@.contains('-'));
                }
            }
            Err(Error::UntypedHash(input.to_owned()))
        }
    }

    /// Reads the bare text of a hash of a known type, picking the encoding
    /// by length — base16, base32, then base64; SRI text is always base64.
    /// Decoding restores exactly the bytes whose rendering the text is.
    pub fn decode_with_type(input: &str, ty: HashType, sri: bool) -> (r: Result<Hash, Error>)
        ensures
            match r {
                Ok(h) => h.wf() && h.type_spec() == ty && h@.len() == type_size(ty),
                Err(_) => true,
            },
            forall|bv: Seq<u8>|
                bv.len() == type_size(ty) && !sri && input@ == hex_seq(bv) ==> (r matches Ok(h)
                    && h@ == bv && h.type_spec() == ty),
            forall|bv: Seq<u8>|
                bv.len() == type_size(ty) && !sri && input@ == b32_of(bv) && input@.len()
                    == len_b32(type_size(ty)) ==> (r matches Ok(h) && h@ == bv && h.type_spec()
                    == ty),
            forall|bv: Seq<u8>|
                bv.len() == type_size(ty) && !sri && input@ == b64_of(bv) && input@.len()
                    == len_b64(type_size(ty)) ==> (r matches Ok(h) && h@ == bv && h.type_spec()
                    == ty),
            forall|bv: Seq<u8>|
                bv.len() == type_size(ty) && sri && input@ == b64_of(bv) && input@.len() == len_b64(
                    type_size(ty),
                ) ==> (r matches Ok(h) && h@ == bv && h.type_spec() == ty),
            !sri && input@.len() != len_b16(type_size(ty)) && input@.len() != len_b32(
                type_size(ty),
            ) && input@.len() != len_b64(type_size(ty)) ==> r is Err,
    {
        proof {
            lemma_encoding_lens_distinct(ty);
        }
        let size = ty.size();
        let total = input.unicode_len();
        if total > 128 {
            proof {
                assert forall|bv: Seq<u8>|
                    bv.len() == type_size(ty) && !sri && input@ == hex_seq(
                        bv,
                    ) implies false by {
                    lemma_hex_seq_len(bv);
                }
            }
            return Err(Error::WrongHashLen(total));
        }
        if !sri && total == len_base16(size) {
            let bytes = match hex_decode(input) {
                Ok(b) => b,
                Err(_) => {
                    return Err(Error::WrongHashLen(total));
                },
            };
            if bytes.len() == size {
                Ok(Hash { data: bytes, ty })
            } else {
                proof {
                    assert forall|bv: Seq<u8>|
                        bv.len() == type_size(ty) && input@ == hex_seq(bv) implies false by {
                        lemma_hex_seq_len(bv);
                    }
                }
                Err(Error::WrongHashLen(total))
            }
        } else if !sri && total == len_base32(size) {
            proof {
                assert forall|bv: Seq<u8>|
                    bv.len() == type_size(ty) && input@ == hex_seq(bv) implies false by {
                    lemma_hex_seq_len(bv);
                }
            }
            let bytes = match base32_decode(input) {
                Ok(b) => b,
                Err(_) => {
                    return Err(Error::WrongHashLen(total));
                },
            };
            if bytes.len() == size {
                Ok(Hash { data: bytes, ty })
            } else {
                Err(Error::WrongHashLen(total))
            }
        } else if sri || total == len_base64(size) {
            proof {
                assert forall|bv: Seq<u8>|
                    bv.len() == type_size(ty) && !sri && input@ == hex_seq(bv) implies false by {
                    lemma_hex_seq_len(bv);
                }
            }
            let bytes = match base64_decode(input) {
                Ok(b) => b,
                Err(_) => {
                    return Err(Error::WrongHashLen(total));
                },
            };
            if bytes.len() == size {
                Ok(Hash { data: bytes, ty })
            } else {
                Err(Error::WrongHashLen(total))
            }
        } else {
            proof {
                assert forall|bv: Seq<u8>|
                    bv.len() == type_size(ty) && !sri && input@ == hex_seq(bv) implies false by {
                    lemma_hex_seq_len(bv);
                }
            }
            Err(Error::WrongHashLen(total))
        }
    }

    /// Digests a byte sequence with the given algorithm.
    pub fn hash_bytes(data: &[u8], ty: HashType) -> (r: Hash)
        ensures
            r.wf(),
            r.type_spec() == ty,
            r@.len() == type_size(ty),
            ty == HashType::MD5 ==> r@ == md5_of(data@),
            ty == HashType::SHA1 ==> r@ == sha1_of(data@),
            ty == HashType::SHA256 ==> r@ == sha256_of(data@),
            ty == HashType::SHA512 ==> r@ == sha512_of(data@),
    {
        let data = match ty {
            HashType::MD5 => md5_digest(data),
            HashType::SHA1 => sha1_digest(data),
            HashType::SHA256 => sha256_digest(data),
            HashType::SHA512 => sha512_digest(data),
        };
        Hash { data, ty }
    }

    /// Digests the UTF-8 bytes of a string: the same hash as `hash_bytes`
    /// on the string's encoding.
    pub fn hash_str(data: &str, ty: HashType) -> (r: Hash)
        ensures
            r.wf(),
            r.type_spec() == ty,
            r@.len() == type_size(ty),
            ty == HashType::MD5 ==> r@ == md5_of(vstd::utf8::encode_utf8(data@)),
            ty == HashType::SHA1 ==> r@ == sha1_of(vstd::utf8::encode_utf8(data@)),
            ty == HashType::SHA256 ==> r@ == sha256_of(vstd::utf8::encode_utf8(data@)),
            ty == HashType::SHA512 ==> r@ == sha512_of(vstd::utf8::encode_utf8(data@)),
    {
        Self::hash_bytes(data.as_bytes(), ty)
    }

    /// A shorter hash folded down by XOR: byte `i` of the input lands in
    /// slot `i % new_size`. A size at or above the current one returns the
    /// hash unchanged.
    pub fn truncate(&self, new_size: usize) -> (r: Hash)
        requires
            self.wf(),
            new_size >= 1,
        ensures
            r.wf(),
            r.type_spec() == self.type_spec(),
            new_size >= self@.len() ==> r@ == self@,
            new_size < self@.len() ==> r@ == xor_fold(self@, new_size as nat),
    {
        let n = self.data.len();
        if new_size >= n {
            let mut data: Vec<u8> = Vec::new();
            let mut i: usize = 0;
            while i < n
                invariant
                    i <= n,
                    n == self.data@.len(),
                    data@ == self.data@.take(i as int),
                decreases n - i,
            {
                data.push(self.data[i]);
                proof {
                    assert(data@ =~= self.data@.take(i + 1));
                }
                i = i + 1;
            }
            proof {
                assert(self.data@.take(n as int) =~= self.data@);
            }
            return Hash { data, ty: self.ty };
        }
        let mut data: Vec<u8> = Vec::new();
        let mut i: usize = 0;
        while i < new_size
            invariant
                i <= new_size,
                data@.len() == i,
                forall|j: int| 0 <= j < i ==> data@[j] == 0u8,
            decreases new_size - i,
        {
            data.push(0);
            i = i + 1;
        }
        let mut i: usize = 0;
        proof {
            assert(data@ =~= xor_fold(self.data@.take(0), new_size as nat)) by {
                lemma_xor_fold_len(self.data@.take(0), new_size as nat);
                assert(self.data@.take(0).len() == 0);
            }
        }
        while i < n
            invariant
                i <= n,
                n == self.data@.len(),
                1 <= new_size < n,
                data@.len() == new_size,
                data@ == xor_fold(self.data@.take(i as int), new_size as nat),
            decreases n - i,
        {
            let slot = i % new_size;
            let b = data[slot] ^ self.data[i];
            data.set(slot, b);
            proof {
                let pre = self.data@.take(i as int);
                let cur = self.data@.take(i + 1);
                assert(cur.drop_last() =~= pre);
                assert(cur.last() == self.data@[i as int]);
                assert(xor_fold(cur, new_size as nat) == xor_fold(pre, new_size as nat).update(
                    (cur.len() - 1) % (new_size as int),
                    xor_fold(pre, new_size as nat)[(cur.len() - 1) % (new_size as int)]
                        ^ cur.last(),
                ));
                assert((cur.len() - 1) % (new_size as int) == (i as int) % (new_size as int));
                assert(data@ =~= xor_fold(cur, new_size as nat));
            }
            i = i + 1;
        }
        proof {
            assert(self.data@.take(n as int) =~= self.data@);
        }
        Hash { data, ty: self.ty }
    }
}

/// The XOR fold of the bytes into `m` slots: byte `i` lands in slot
/// `i % m`, starting from zeroes.
pub open spec fn xor_fold(b: Seq<u8>, m: nat) -> Seq<u8>
    recommends
        m >= 1,
    decreases b.len(),
{
    if b.len() == 0 {
        Seq::new(m, |i: int| 0u8)
    } else {
        let pre = xor_fold(b.drop_last(), m);
        let slot = (b.len() - 1) % (m as int);
        pre.update(slot, pre[slot] ^ b.last())
    }
}

/// The fold always has `m` slots.
pub proof fn lemma_xor_fold_len(b: Seq<u8>, m: nat)
    requires
        m >= 1,
    ensures
        xor_fold(b, m).len() == m,
    decreases b.len(),
{
    if b.len() > 0 {
        lemma_xor_fold_len(b.drop_last(), m);
    }
}

} // verus!
