//! Pinned server identities: what a certificate is recognised by.

use vstd::prelude::*;
use vstd::string::*;

use crate::table::{hex_digit, hex_text};
use crate::text::text;

verus! {

// ---------------------------------------------------------------------------
// Outside calls
// ---------------------------------------------------------------------------
/// The error of [`hex::decode`].
#[verifier::external_type_specification]
#[verifier::external_body]
pub struct ExFromHexError(hex::FromHexError);

/// The value of a hex digit of either case.
pub open spec fn hex_value(c: char) -> Option<int> {
    if '0' <= c && c <= '9' {
        Some(c as int - '0' as int)
    } else if 'a' <= c && c <= 'f' {
        Some(c as int - 'a' as int + 10)
    } else if 'A' <= c && c <= 'F' {
        Some(c as int - 'A' as int + 10)
    } else {
        None
    }
}

/// The bytes a text of hex digit pairs stands for.
pub open spec fn hex_bytes(s: Seq<char>) -> Option<Seq<u8>> {
    if s.len() % 2 == 0 && forall|i: int|
        0 <= i < s.len() ==> hex_value(#[trigger] s[i]) is Some {
        Some(
            Seq::new(
                (s.len() / 2) as nat,
                |i: int| (hex_value(s[2 * i])->0 * 16 + hex_value(s[2 * i + 1])->0) as u8,
            ),
        )
    } else {
        None
    }
}

/// `hex::decode`: pairs of hex digits of either case are read as bytes, most
/// significant digit first; an odd length or any other character is an error.
#[verifier::external_body]
fn hex_decode(s: &str) -> (r: Result<Vec<u8>, hex::FromHexError>)
    ensures
        match r {
            Ok(v) => hex_bytes(s@) == Some(v@),
            Err(_) => hex_bytes(s@) is None,
        },
{
    hex::decode(s)
}

/// `hex::encode`: two lower-case hex digits per byte, most significant digit
/// first.
#[verifier::external_body]
fn hex_encode(data: &[u8]) -> (s: String)
    ensures
        s@ == hex_text(data@),
{
    hex::encode(data)
}

/// The SHA-256 digest of some bytes.
pub uninterp spec fn sha256_of(data: Seq<u8>) -> Seq<u8>;

/// `sha2::Sha256::digest`: the digest is a function of the bytes alone.
#[verifier::external_body]
fn sha256(data: &[u8]) -> (r: [u8; 32])
    ensures
        r@ == sha256_of(data@),
{
    <sha2::Sha256 as sha2::Digest>::digest(data).into()
}

/// The raw SubjectPublicKeyInfo of the certificate that `der` begins with;
/// nothing where it begins with none.
pub uninterp spec fn spki_of(der: Seq<u8>) -> Option<Seq<u8>>;

/// `x509_parser`'s `X509Certificate::from_der` and the raw bytes of its public
/// key: a function of the bytes alone.
#[verifier::external_body]
fn certificate_spki(der: &[u8]) -> (r: Option<Vec<u8>>)
    ensures
        match r {
            Some(v) => spki_of(der@) == Some(v@),
            None => spki_of(der@) is None,
        },
{
    match <x509_parser::certificate::X509Certificate as x509_parser::prelude::FromDer<
        x509_parser::error::X509Error,
    >>::from_der(der) {
        Ok((_, cert)) => Some(cert.public_key().raw.to_vec()),
        Err(_) => None,
    }
}

/// The certificates in a PEM text, in order; `None` stands for a section that
/// cannot be read.
pub uninterp spec fn pem_certs_of(pem: Seq<u8>) -> Seq<Option<Seq<u8>>>;

/// `rustls_pemfile::certs`: the certificates, each as DER bytes, and a mark for
/// each section that cannot be read. A function of the text alone.
#[verifier::external_body]
fn pem_certs(pem: &[u8]) -> (r: Vec<Option<Vec<u8>>>)
    ensures
        r@.len() == pem_certs_of(pem@).len(),
        forall|i: int|
            0 <= i < r@.len() ==> match #[trigger] r@[i] {
                Some(v) => pem_certs_of(pem@)[i] == Some(v@),
                None => pem_certs_of(pem@)[i] is None,
            },
{
    let mut rd = pem;
    rustls_pemfile::certs(&mut rd).map(|c| c.ok().map(|d| d.to_vec())).collect()
}

/// A private key in DER form.
pub enum KeyDer {
    Pkcs1(Vec<u8>),
    Sec1(Vec<u8>),
    Pkcs8(Vec<u8>),
}

/// What a search for a private key comes to.
pub enum PemKey {
    /// A section cannot be read.
    Invalid,
    Missing,
    Found(KeyDer),
}

/// A private key, over its bytes.
pub enum KeyView {
    Pkcs1(Seq<u8>),
    Sec1(Seq<u8>),
    Pkcs8(Seq<u8>),
}

impl KeyDer {
    pub open spec fn view(self) -> KeyView {
        match self {
            KeyDer::Pkcs1(v) => KeyView::Pkcs1(v@),
            KeyDer::Sec1(v) => KeyView::Sec1(v@),
            KeyDer::Pkcs8(v) => KeyView::Pkcs8(v@),
        }
    }
}

/// The first private key in a PEM text: an error where a section before it
/// cannot be read.
pub uninterp spec fn pem_key_of(pem: Seq<u8>) -> Result<Option<KeyView>, ()>;

/// `rustls_pemfile::private_key`: the first private key of any kind, as DER
/// bytes. A function of the text alone.
#[verifier::external_body]
fn pem_key(pem: &[u8]) -> (r: PemKey)
    ensures
        match r {
            PemKey::Invalid => pem_key_of(pem@) is Err,
            PemKey::Missing => pem_key_of(pem@) == Ok::<Option<KeyView>, ()>(None),
            PemKey::Found(k) => pem_key_of(pem@) == Ok::<Option<KeyView>, ()>(Some(k@)),
        },
{
    let mut rd = pem;
    match rustls_pemfile::private_key(&mut rd) {
        Err(_) => PemKey::Invalid,
        Ok(Some(rustls::pki_types::PrivateKeyDer::Pkcs1(k))) => PemKey::Found(
            KeyDer::Pkcs1(k.secret_pkcs1_der().to_vec()),
        ),
        Ok(Some(rustls::pki_types::PrivateKeyDer::Sec1(k))) => PemKey::Found(
            KeyDer::Sec1(k.secret_sec1_der().to_vec()),
        ),
        Ok(Some(rustls::pki_types::PrivateKeyDer::Pkcs8(k))) => PemKey::Found(
            KeyDer::Pkcs8(k.secret_pkcs8_der().to_vec()),
        ),
        Ok(_) => PemKey::Missing,
    }
}

// ---------------------------------------------------------------------------
// Errors
// ---------------------------------------------------------------------------
#[derive(Clone, Copy, Debug, PartialEq, Eq, Structural)]
pub enum TlsError {
    ParseCertificate,
    NoCertificateInPem,
    InvalidCertPem,
    PinNotHex,
    PinLength,
    PinMismatch,
    InvalidServerCertPem,
    NoCertificates,
    InvalidServerKeyPem,
    NoPrivateKey,
}

impl TlsError {
    pub open spec fn text(self) -> Seq<char> {
        match self {
            TlsError::ParseCertificate => "failed to parse certificate"@,
            TlsError::NoCertificateInPem => "no certificate in pem"@,
            TlsError::InvalidCertPem => "invalid cert pem"@,
            TlsError::PinNotHex => "pin is not hex"@,
            TlsError::PinLength => "pin must be 32 bytes (64 hex chars)"@,
            TlsError::PinMismatch => "server certificate SPKI pin mismatch"@,
            TlsError::InvalidServerCertPem => "invalid server cert pem"@,
            TlsError::NoCertificates => "no certificates in cert file"@,
            TlsError::InvalidServerKeyPem => "invalid server key pem"@,
            TlsError::NoPrivateKey => "no private key in key file"@,
        }
    }

    pub fn message(&self) -> (s: &'static str)
        ensures
            s@ == self.text(),
    {
        match self {
            TlsError::ParseCertificate => "failed to parse certificate",
            TlsError::NoCertificateInPem => "no certificate in pem",
            TlsError::InvalidCertPem => "invalid cert pem",
            TlsError::PinNotHex => "pin is not hex",
            TlsError::PinLength => "pin must be 32 bytes (64 hex chars)",
            TlsError::PinMismatch => "server certificate SPKI pin mismatch",
            TlsError::InvalidServerCertPem => "invalid server cert pem",
            TlsError::NoCertificates => "no certificates in cert file",
            TlsError::InvalidServerKeyPem => "invalid server key pem",
            TlsError::NoPrivateKey => "no private key in key file",
        }
    }
}

// ---------------------------------------------------------------------------
// Pins
// ---------------------------------------------------------------------------
/// Unicode white space.
pub open spec fn is_white(c: char) -> bool {
    let u = c as u32;
    ||| 0x9 <= u <= 0xd
    ||| u == 0x20
    ||| u == 0x85
    ||| u == 0xa0
    ||| u == 0x1680
    ||| 0x2000 <= u <= 0x200a
    ||| u == 0x2028
    ||| u == 0x2029
    ||| u == 0x202f
    ||| u == 0x205f
    ||| u == 0x3000
}

fn white(c: char) -> (r: bool)
    ensures
        r == is_white(c),
{
    let u: u32 = c as u32;
    (0x9 <= u && u <= 0xd) || u == 0x20 || u == 0x85 || u == 0xa0 || u == 0x1680 || (0x2000 <= u && u
        <= 0x200a) || u == 0x2028 || u == 0x2029 || u == 0x202f || u == 0x205f || u == 0x3000
}

/// `s` without the leading characters for which `f` holds.
pub open spec fn without_front(s: Seq<char>, f: spec_fn(char) -> bool) -> Seq<char>
    decreases s.len(),
{
    if s.len() > 0 && f(s[0]) {
        without_front(s.skip(1), f)
    } else {
        s
    }
}

/// `s` without the trailing characters for which `f` holds.
pub open spec fn without_back(s: Seq<char>, f: spec_fn(char) -> bool) -> Seq<char>
    decreases s.len(),
{
    if s.len() > 0 && f(s.last()) {
        without_back(s.drop_last(), f)
    } else {
        s
    }
}

/// `s` without what `f` holds for at either end.
pub open spec fn trimmed(s: Seq<char>, f: spec_fn(char) -> bool) -> Seq<char> {
    without_back(without_front(s, f), f)
}

pub open spec fn white_fn() -> spec_fn(char) -> bool {
    |c: char| is_white(c)
}

pub open spec fn bracket_fn() -> spec_fn(char) -> bool {
    |c: char| c == '[' || c == ']'
}

/// Without white space at either end.
pub fn trim_white(s: &str) -> (r: &str)
    ensures
        r@ == trimmed(s@, white_fn()),
{
    let n: usize = s.unicode_len();
    let mut i: usize = 0;
    assert(s@.skip(0) =~= s@);
    while i < n && white(s.get_char(i))
        invariant
            i <= n,
            n == s@.len(),
            without_front(s@, white_fn()) == without_front(s@.skip(i as int), white_fn()),
        decreases n - i,
    {
        assert(s@.skip(i as int).skip(1) =~= s@.skip(i as int + 1));
        i += 1;
    }
    let ghost front = s@.skip(i as int);
    assert(without_front(s@, white_fn()) == front);
    let mut j: usize = n;
    assert(front.take(j - i) =~= front);
    while j > i && white(s.get_char(j - 1))
        invariant
            i <= j <= n,
            n == s@.len(),
            front == s@.skip(i as int),
            without_back(front, white_fn()) == without_back(front.take(j - i), white_fn()),
        decreases j,
    {
        assert(front.take(j - i).drop_last() =~= front.take(j - i - 1));
        assert(front.take(j - i).last() == s@[j - 1]);
        j -= 1;
    }
    proof {
        assert(j > i ==> front.take(j - i).last() == s@[j - 1]);
        assert(front.take(j - i) =~= s@.subrange(i as int, j as int));
    }
    s.substring_char(i, j)
}

/// What a written pin stands for, or why it stands for none.
pub open spec fn pin_of(s: Seq<char>) -> Result<Seq<u8>, TlsError> {
    match hex_bytes(trimmed(s, white_fn())) {
        Some(raw) => if raw.len() == 32 {
            Ok(raw)
        } else {
            Err(TlsError::PinLength)
        },
        None => Err(TlsError::PinNotHex),
    }
}

/// The first 32 bytes as an array.
fn to_pin(raw: &Vec<u8>) -> (out: [u8; 32])
    requires
        raw@.len() == 32,
    ensures
        out@ == raw@,
{
    let mut out: [u8; 32] = [0u8; 32];
    let mut i: usize = 0;
    while i < 32
        invariant
            i <= 32,
            raw@.len() == 32,
            forall|k: int| 0 <= k < i ==> out@[k] == raw@[k],
        decreases 32 - i,
    {
        out[i] = raw[i];
        i += 1;
    }
    assert(out@ =~= raw@);
    out
}

/// Read a pin: 64 hex digits of either case, with white space around them.
pub fn parse_pin_hex(s: &str) -> (r: Result<[u8; 32], TlsError>)
    ensures
        match r {
            Ok(pin) => pin_of(s@) == Ok::<Seq<u8>, TlsError>(pin@),
            Err(e) => pin_of(s@) == Err::<Seq<u8>, TlsError>(e),
        },
{
    match hex_decode(trim_white(s)) {
        Ok(raw) => if raw.len() != 32 {
            Err(TlsError::PinLength)
        } else {
            Ok(to_pin(&raw))
        },
        Err(_) => Err(TlsError::PinNotHex),
    }
}

/// Write a pin: 64 lower-case hex digits.
pub fn hex_pin(pin: &[u8; 32]) -> (s: String)
    ensures
        s@ == hex_text(pin@),
{
    hex_encode(pin.as_slice())
}

/// The pin of a certificate: the digest of its public key.
pub open spec fn cert_pin(der: Seq<u8>) -> Result<Seq<u8>, TlsError> {
    pin_from(spki_of(der))
}

/// The pin that goes with a public key, where there is one.
pub open spec fn pin_from(spki: Option<Seq<u8>>) -> Result<Seq<u8>, TlsError> {
    match spki {
        Some(k) => Ok(sha256_of(k)),
        None => Err(TlsError::ParseCertificate),
    }
}

pub fn spki_sha256(cert_der: &[u8]) -> (r: Result<[u8; 32], TlsError>)
    ensures
        match r {
            Ok(pin) => cert_pin(cert_der@) == Ok::<Seq<u8>, TlsError>(pin@),
            Err(e) => cert_pin(cert_der@) == Err::<Seq<u8>, TlsError>(e),
        },
{
    match certificate_spki(cert_der) {
        Some(spki) => Ok(sha256(spki.as_slice())),
        None => Err(TlsError::ParseCertificate),
    }
}

/// The first certificate of a list, or why there is none.
pub open spec fn first_of(certs: Seq<Option<Seq<u8>>>) -> Result<Seq<u8>, TlsError> {
    if certs.len() == 0 {
        Err(TlsError::NoCertificateInPem)
    } else {
        match certs[0] {
            Some(der) => Ok(der),
            None => Err(TlsError::InvalidCertPem),
        }
    }
}

/// These values are those bytes.
pub open spec fn same_certs(v: Seq<Option<Vec<u8>>>, s: Seq<Option<Seq<u8>>>) -> bool {
    &&& v.len() == s.len()
    &&& forall|i: int|
        0 <= i < v.len() ==> match #[trigger] v[i] {
            Some(x) => s[i] == Some(x@),
            None => s[i] is None,
        }
}

/// The first certificate of a list that was read from a PEM text.
pub fn first_cert(certs: &Vec<Option<Vec<u8>>>) -> (r: Result<&Vec<u8>, TlsError>)
    ensures
        forall|s: Seq<Option<Seq<u8>>>| #[trigger]
            same_certs(certs@, s) ==> match r {
                Ok(der) => first_of(s) == Ok::<Seq<u8>, TlsError>(der@),
                Err(e) => first_of(s) == Err::<Seq<u8>, TlsError>(e),
            },
{
    if certs.len() == 0 {
        return Err(TlsError::NoCertificateInPem);
    }
    match &certs[0] {
        Some(der) => Ok(der),
        None => Err(TlsError::InvalidCertPem),
    }
}

/// The pin of the first certificate in a PEM text.
pub open spec fn pem_pin(pem: Seq<u8>) -> Result<Seq<u8>, TlsError> {
    match first_of(pem_certs_of(pem)) {
        Ok(der) => cert_pin(der),
        Err(e) => Err(e),
    }
}

pub fn spki_sha256_from_pem(pem: &str) -> (r: Result<[u8; 32], TlsError>)
    ensures
        match r {
            Ok(pin) => pem_pin(pem.spec_bytes()) == Ok::<Seq<u8>, TlsError>(pin@),
            Err(e) => pem_pin(pem.spec_bytes()) == Err::<Seq<u8>, TlsError>(e),
        },
{
    let certs: Vec<Option<Vec<u8>>> = pem_certs(pem.as_bytes());
    assert(same_certs(certs@, pem_certs_of(pem.spec_bytes())));
    match first_cert(&certs) {
        Ok(der) => spki_sha256(der.as_slice()),
        Err(e) => Err(e),
    }
}

// ---------------------------------------------------------------------------
// Verification
// ---------------------------------------------------------------------------
/// One of the pins is this one.
pub open spec fn pinned(pins: Seq<[u8; 32]>, pin: Seq<u8>) -> bool {
    exists|i: int| 0 <= i < pins.len() && (#[trigger] pins[i])@ == pin
}

/// What becomes of a server with this certificate.
pub open spec fn judged(pins: Seq<[u8; 32]>, der: Seq<u8>) -> Result<(), TlsError> {
    match cert_pin(der) {
        Ok(pin) => if pinned(pins, pin) {
            Ok(())
        } else {
            Err(TlsError::PinMismatch)
        },
        Err(e) => Err(e),
    }
}

fn same_pin(a: &[u8; 32], b: &[u8; 32]) -> (r: bool)
    ensures
        r == (a@ == b@),
{
    let mut i: usize = 0;
    while i < 32
        invariant
            i <= 32,
            forall|k: int| 0 <= k < i ==> a@[k] == b@[k],
        decreases 32 - i,
    {
        if a[i] != b[i] {
            assert(a@[i as int] != b@[i as int]);
            return false;
        }
        i += 1;
    }
    assert(a@ =~= b@);
    true
}

/// Who a server may be: the holders of these keys.
pub struct PinnedSpkiVerifier {
    pub pins: Vec<[u8; 32]>,
}

impl PinnedSpkiVerifier {
    pub fn new(pins: Vec<[u8; 32]>) -> (v: Self)
        ensures
            v.pins == pins,
    {
        PinnedSpkiVerifier { pins }
    }

    /// This pin is one of those allowed.
    pub fn allows(&self, pin: &[u8; 32]) -> (r: bool)
        ensures
            r == pinned(self.pins@, pin@),
    {
        let mut i: usize = 0;
        while i < self.pins.len()
            invariant
                i <= self.pins@.len(),
                forall|k: int| 0 <= k < i ==> (#[trigger] self.pins@[k])@ != pin@,
            decreases self.pins.len() - i,
        {
            if same_pin(&self.pins[i], pin) {
                return true;
            }
            i += 1;
        }
        false
    }

    /// A server certificate is accepted by its public key alone.
    pub fn verify_server_cert(&self, end_entity: &[u8]) -> (r: Result<(), TlsError>)
        ensures
            r == judged(self.pins@, end_entity@),
    {
        match spki_sha256(end_entity) {
            Ok(pin) => if self.allows(&pin) {
                Ok(())
            } else {
                Err(TlsError::PinMismatch)
            },
            Err(e) => Err(e),
        }
    }
}

// ---------------------------------------------------------------------------
// A server's own identity
// ---------------------------------------------------------------------------
/// A certificate chain and its private key.
pub struct Identity {
    pub certs: Vec<Vec<u8>>,
    pub key: KeyDer,
}

/// Every section could be read.
pub open spec fn all_read(certs: Seq<Option<Seq<u8>>>) -> bool {
    forall|i: int| 0 <= i < certs.len() ==> (#[trigger] certs[i]) is Some
}

/// What a certificate file and a key file come to.
pub open spec fn identity_of(
    certs: Seq<Option<Seq<u8>>>,
    key: Result<Option<KeyView>, ()>,
    r: Result<Identity, TlsError>,
) -> bool {
    if !all_read(certs) {
        r matches Err(e) && e is InvalidServerCertPem
    } else if certs.len() == 0 {
        r matches Err(e) && e is NoCertificates
    } else {
        match key {
            Err(_) => r matches Err(e) && e is InvalidServerKeyPem,
            Ok(None) => r matches Err(e) && e is NoPrivateKey,
            Ok(Some(k)) => {
                &&& r matches Ok(id)
                &&& id.key@ == k
                &&& id.certs@.len() == certs.len()
                &&& forall|i: int|
                    0 <= i < certs.len() ==> certs[i] == Some((#[trigger] id.certs@[i])@)
            },
        }
    }
}

fn all_certs(certs: Vec<Option<Vec<u8>>>) -> (r: Result<Vec<Vec<u8>>, TlsError>)
    ensures
        forall|s: Seq<Option<Seq<u8>>>| #[trigger]
            same_certs(certs@, s) ==> match r {
                Ok(v) => all_read(s) && v@.len() == s.len() && forall|i: int|
                    0 <= i < s.len() ==> s[i] == Some((#[trigger] v@[i])@),
                Err(e) => !all_read(s) && e is InvalidServerCertPem,
            },
{
    let mut out: Vec<Vec<u8>> = Vec::new();
    let mut i: usize = 0;
    while i < certs.len()
        invariant
            i <= certs@.len(),
            out@.len() == i,
            forall|k: int| 0 <= k < i ==> (#[trigger] certs@[k]) is Some && certs@[k]->0@ == out@[k]@,
        decreases certs.len() - i,
    {
        match &certs[i] {
            Some(der) => {
                out.push(crate::frames::copy_bytes(der));
            },
            None => {
                proof {
                    assert forall|s: Seq<Option<Seq<u8>>>| #[trigger]
                        same_certs(certs@, s) implies !all_read(s) by {
                        assert(certs@[i as int] is None);
                        assert(s[i as int] is None);
                    }
                }
                return Err(TlsError::InvalidServerCertPem);
            },
        }
        i += 1;
    }
    proof {
        assert forall|s: Seq<Option<Seq<u8>>>| #[trigger] same_certs(certs@, s) implies all_read(s)
            && out@.len() == s.len() && forall|i: int|
            0 <= i < s.len() ==> s[i] == Some((#[trigger] out@[i])@) by {
            assert forall|k: int| 0 <= k < s.len() implies s[k] == Some((#[trigger] out@[k])@) by {
                assert(certs@[k] is Some);
            }
            assert forall|k: int| 0 <= k < s.len() implies (#[trigger] s[k]) is Some by {
                assert(s[k] == Some(out@[k]@));
            }
        }
    }
    Ok(out)
}

/// Make an identity of what the two files hold.
pub fn make_identity(certs: Vec<Option<Vec<u8>>>, key: PemKey) -> (r: Result<Identity, TlsError>)
    ensures
        forall|s: Seq<Option<Seq<u8>>>, k: Result<Option<KeyView>, ()>|
            #![trigger same_certs(certs@, s), same_key(key, k)]
            same_certs(certs@, s) && same_key(key, k) ==> identity_of(s, k, r),
{
    let chain: Vec<Vec<u8>> = match all_certs(certs) {
        Ok(v) => v,
        Err(e) => {
            return Err(e);
        },
    };
    if chain.len() == 0 {
        return Err(TlsError::NoCertificates);
    }
    match key {
        PemKey::Invalid => Err(TlsError::InvalidServerKeyPem),
        PemKey::Missing => Err(TlsError::NoPrivateKey),
        PemKey::Found(k) => Ok(Identity { certs: chain, key: k }),
    }
}

/// This search came to that key.
pub open spec fn same_key(key: PemKey, k: Result<Option<KeyView>, ()>) -> bool {
    match key {
        PemKey::Invalid => k is Err,
        PemKey::Missing => k == Ok::<Option<KeyView>, ()>(None),
        PemKey::Found(d) => k == Ok::<Option<KeyView>, ()>(Some(d@)),
    }
}

/// The identity in the text of a certificate file and a key file.
pub fn load_server_config(cert_pem: &[u8], key_pem: &[u8]) -> (r: Result<Identity, TlsError>)
    ensures
        identity_of(pem_certs_of(cert_pem@), pem_key_of(key_pem@), r),
{
    let certs: Vec<Option<Vec<u8>>> = pem_certs(cert_pem);
    let key: PemKey = pem_key(key_pem);
    proof {
        assert(same_certs(certs@, pem_certs_of(cert_pem@)));
        assert(same_key(key, pem_key_of(key_pem@)));
    }
    make_identity(certs, key)
}

// ---------------------------------------------------------------------------
// Host names
// ---------------------------------------------------------------------------
/// The place of the last colon.
pub open spec fn last_colon(s: Seq<char>) -> Option<int>
    decreases s.len(),
{
    if s.len() == 0 {
        None
    } else if s.last() == ':' {
        Some(s.len() - 1)
    } else {
        last_colon(s.drop_last())
    }
}

/// The host of an address: what stands before the last colon, without square
/// brackets around it; the whole text where there is no colon.
pub open spec fn host_in(addr: Seq<char>) -> Seq<char> {
    match last_colon(addr) {
        Some(i) => trimmed(addr.take(i), bracket_fn()),
        None => addr,
    }
}

pub fn host_of(addr: &str) -> (h: String)
    ensures
        h@ == host_in(addr@),
{
    let n: usize = addr.unicode_len();
    let mut end: usize = n;
    assert(addr@.take(n as int) =~= addr@);
    while end > 0 && addr.get_char(end - 1) != ':'
        invariant
            end <= n,
            n == addr@.len(),
            last_colon(addr@) == last_colon(addr@.take(end as int)),
        decreases end,
    {
        assert(addr@.take(end as int).drop_last() =~= addr@.take(end - 1));
        end -= 1;
    }
    if end == 0 {
        return text(addr);
    }
    let at: usize = end - 1;
    assert(last_colon(addr@) == Some(at as int));
    let ghost head = addr@.take(at as int);
    let mut i: usize = 0;
    assert(head.skip(0) =~= head);
    while i < at && (addr.get_char(i) == '[' || addr.get_char(i) == ']')
        invariant
            i <= at < n,
            n == addr@.len(),
            head == addr@.take(at as int),
            without_front(head, bracket_fn()) == without_front(head.skip(i as int), bracket_fn()),
        decreases at - i,
    {
        assert(head.skip(i as int).skip(1) =~= head.skip(i as int + 1));
        i += 1;
    }
    let ghost front = head.skip(i as int);
    assert(i < at ==> front[0] == addr@[i as int]);
    assert(without_front(head, bracket_fn()) == front);
    let mut j: usize = at;
    assert(front.take(j - i) =~= front);
    while j > i && (addr.get_char(j - 1) == '[' || addr.get_char(j - 1) == ']')
        invariant
            i <= j <= at < n,
            n == addr@.len(),
            head == addr@.take(at as int),
            front == head.skip(i as int),
            without_back(front, bracket_fn()) == without_back(front.take(j - i), bracket_fn()),
        decreases j,
    {
        assert(front.take(j - i).drop_last() =~= front.take(j - i - 1));
        assert(front.take(j - i).last() == addr@[j - 1]);
        j -= 1;
    }
    proof {
        assert(j > i ==> front.take(j - i).last() == addr@[j - 1]);
        assert(front.take(j - i) =~= addr@.subrange(i as int, j as int));
    }
    text(addr.substring_char(i, j))
}

// ---------------------------------------------------------------------------
// Laws
// ---------------------------------------------------------------------------
proof fn lemma_hex_digit_value(d: int)
    requires
        0 <= d < 16,
    ensures
        hex_value(hex_digit(d)) == Some(d),
        !is_white(hex_digit(d)),
{
}

proof fn lemma_hex_text(b: Seq<u8>)
    ensures
        hex_text(b).len() == 2 * b.len(),
        forall|i: int|
            0 <= i < b.len() ==> hex_text(b)[2 * i] == hex_digit(#[trigger] b[i] as int / 16)
                && hex_text(b)[2 * i + 1] == hex_digit(b[i] as int % 16),
    decreases b.len(),
{
    if b.len() > 0 {
        lemma_hex_text(b.drop_last());
        let t = hex_text(b.drop_last());
        assert forall|i: int| 0 <= i < b.len() implies hex_text(b)[2 * i] == hex_digit(
            #[trigger] b[i] as int / 16,
        ) && hex_text(b)[2 * i + 1] == hex_digit(b[i] as int % 16) by {
            if i < b.len() - 1 {
                assert(b.drop_last()[i] == b[i]);
                assert(hex_text(b)[2 * i] == t[2 * i]);
                assert(hex_text(b)[2 * i + 1] == t[2 * i + 1]);
            }
        }
    }
}

/// Bytes written in hex are read back as they were.
pub proof fn law_hex_round_trip(b: Seq<u8>)
    ensures
        hex_bytes(hex_text(b)) == Some(b),
{
    lemma_hex_text(b);
    let s = hex_text(b);
    assert forall|i: int| 0 <= i < s.len() implies hex_value(#[trigger] s[i]) is Some by {
        let k = i / 2;
        assert(b[k] as int / 16 < 16 && b[k] as int % 16 < 16);
        lemma_hex_digit_value(b[k] as int / 16);
        lemma_hex_digit_value(b[k] as int % 16);
        assert(s[2 * k] == hex_digit(b[k] as int / 16));
        assert(i == 2 * k || i == 2 * k + 1);
    }
    let r = hex_bytes(s)->0;
    assert forall|i: int| 0 <= i < b.len() implies r[i] == b[i] by {
        lemma_hex_digit_value(b[i] as int / 16);
        lemma_hex_digit_value(b[i] as int % 16);
        assert(s[2 * i] == hex_digit(b[i] as int / 16));
        assert((b[i] as int / 16) * 16 + b[i] as int % 16 == b[i] as int);
    }
    assert(r =~= b);
}

/// A pin that was written is read back as it was.
pub proof fn law_pin_round_trip(pin: Seq<u8>)
    requires
        pin.len() == 32,
    ensures
        pin_of(hex_text(pin)) == Ok::<Seq<u8>, TlsError>(pin),
{
    law_hex_round_trip(pin);
    lemma_hex_text(pin);
    let s = hex_text(pin);
    lemma_hex_digit_value(pin[0] as int / 16);
    lemma_hex_digit_value(pin[31] as int % 16);
    assert(s[0] == hex_digit(pin[0] as int / 16)) by {
        let i: int = 0;
        assert(s[2 * i] == hex_digit(pin[i] as int / 16));
    }
    assert(s.last() == hex_digit(pin[31] as int % 16)) by {
        let i: int = 31;
        assert(s[2 * i + 1] == hex_digit(pin[i] as int % 16));
    }
    assert(trimmed(s, white_fn()) == s);
}

/// A server is accepted exactly where its certificate can be read and the
/// digest of its key is one of the pins.
pub proof fn law_only_pinned_keys_pass(pins: Seq<[u8; 32]>, der: Seq<u8>)
    ensures
        judged(pins, der) is Ok <==> exists|i: int|
            0 <= i < pins.len() && cert_pin(der) == Ok::<Seq<u8>, TlsError>(
                (#[trigger] pins[i])@,
            ),
{
    if judged(pins, der) is Ok {
        let i = choose|i: int| 0 <= i < pins.len() && (#[trigger] pins[i])@ == cert_pin(der)->Ok_0;
        assert(cert_pin(der) == Ok::<Seq<u8>, TlsError>(pins[i]@));
    }
}

} // verus!
