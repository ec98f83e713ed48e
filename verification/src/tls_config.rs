//! Certificates and keys.

use rustls::pki_types::PrivateKeyDer;
use vstd::prelude::*;
use vstd::utf8::*;

use crate::error::Error;
use crate::text;
use crate::util;

verus! {

/// Where the certificate of a server comes from.
#[derive(Debug, Clone, Copy, PartialEq, Eq, Structural)]
pub enum TlsSource {
    /// From a certificate file and a key file.
    Files,
    /// It is made at startup, and signed by itself.
    SelfSigned,
}

/// Decides where a certificate comes from, by whether the paths of a certificate file and of a
/// key file are configured. One without the other is an error.
pub fn from_files(cert_path: Option<&str>, key_path: Option<&str>) -> (r: Result<TlsSource, Error>)
    ensures
        r == (match (cert_path, key_path) {
            (Some(_), Some(_)) => Ok::<TlsSource, Error>(TlsSource::Files),
            (None, None) => Ok(TlsSource::SelfSigned),
            _ => Err(Error::IncompleteTlsFiles),
        }),
{
    match (cert_path, key_path) {
        (Some(_), Some(_)) => Ok(TlsSource::Files),
        (None, None) => Ok(TlsSource::SelfSigned),
        _ => Err(Error::IncompleteTlsFiles),
    }
}

/// ALPN protocols as bytes.
pub fn with_alpn(alpn: &Vec<String>) -> (r: Vec<Vec<u8>>)
    ensures
        r@.len() == alpn@.len(),
        forall|i: int| 0 <= i < r@.len() ==> (#[trigger] r@[i])@ == encode_utf8(alpn@[i]@),
{
    let mut protocols: Vec<Vec<u8>> = Vec::new();
    let n: usize = alpn.len();
    let mut i: usize = 0;
    while i < n
        invariant
            i <= n,
            n == alpn@.len(),
            protocols@.len() == i,
            forall|j: int| 0 <= j < i ==> (#[trigger] protocols@[j])@ == encode_utf8(alpn@[j]@),
        decreases n - i,
    {
        protocols.push(util::to_vec(alpn[i].as_str().as_bytes()));
        i = i + 1;
    }
    protocols
}

// ============================== PEM files ============================

/// The format of a private key.
#[derive(Debug, Clone, Copy, PartialEq, Eq, Structural)]
pub enum KeyFormat {
    Pkcs1,
    Sec1,
    Pkcs8,
    Other,
}

/// The certificates in a PEM file, or none where it cannot be read.
pub uninterp spec fn pem_certs(pem: Seq<u8>) -> Option<Seq<Seq<u8>>>;

/// Reads the certificates of a PEM file.
///
/// Calls `rustls_pemfile::certs`: the contents of every certificate section, in order, or
/// nothing where some section cannot be read. The contract names the result and says no more
/// of it.
#[verifier::external_body]
fn read_certs(pem: &[u8]) -> (r: Option<Vec<Vec<u8>>>)
    ensures
        match r {
            Some(certs) => pem_certs(pem@) == Some(text::views(certs@)),
            None => pem_certs(pem@) is None,
        },
{
    let mut rest = pem;
    let certs = rustls_pemfile::certs(&mut rest)
        .map(|cert| cert.map(|der| der.as_ref().to_vec()))
        .collect::<Result<Vec<Vec<u8>>, std::io::Error>>();
    certs.ok()
}

/// The first private key in a PEM file, or nothing where there is none; and none at all where
/// the file cannot be read.
pub uninterp spec fn pem_private_key(pem: Seq<u8>) -> Option<Option<(KeyFormat, Seq<u8>)>>;

/// A key with its format.
pub open spec fn key_view(key: Option<(KeyFormat, Vec<u8>)>) -> Option<(KeyFormat, Seq<u8>)> {
    match key {
        Some((format, der)) => Some((format, der@)),
        None => None,
    }
}

/// Reads the private key of a PEM file.
///
/// Calls `rustls_pemfile::private_key`: the first section that holds a private key, with the
/// format that its heading gives. The contract names the result and says no more of it.
#[verifier::external_body]
fn read_private_key(pem: &[u8]) -> (r: Option<Option<(KeyFormat, Vec<u8>)>>)
    ensures
        match r {
            Some(key) => pem_private_key(pem@) == Some(key_view(key)),
            None => pem_private_key(pem@) is None,
        },
{
    let mut rest = pem;
    match rustls_pemfile::private_key(&mut rest) {
        Ok(Some(PrivateKeyDer::Pkcs1(key))) => Some(Some((KeyFormat::Pkcs1, key.secret_pkcs1_der().to_vec()))),
        Ok(Some(PrivateKeyDer::Sec1(key))) => Some(Some((KeyFormat::Sec1, key.secret_sec1_der().to_vec()))),
        Ok(Some(PrivateKeyDer::Pkcs8(key))) => Some(Some((KeyFormat::Pkcs8, key.secret_pkcs8_der().to_vec()))),
        Ok(Some(key)) => Some(Some((KeyFormat::Other, key.secret_der().to_vec()))),
        Ok(None) => Some(None),
        Err(_) => None,
    }
}

/// Judges what was read of a certificate file.
pub fn check_certs(certs: Option<Vec<Vec<u8>>>) -> (r: Result<Vec<Vec<u8>>, Error>)
    ensures
        match certs {
            None => r == Err::<Vec<Vec<u8>>, Error>(Error::UnreadableCertificates),
            Some(list) => if list@.len() == 0 {
                r == Err::<Vec<Vec<u8>>, Error>(Error::NoCertificates)
            } else {
                r == Ok::<Vec<Vec<u8>>, Error>(list)
            },
        },
{
    match certs {
        None => Err(Error::UnreadableCertificates),
        Some(list) => if list.len() == 0 {
            Err(Error::NoCertificates)
        } else {
            Ok(list)
        },
    }
}

/// Judges what was read of a key file.
pub fn check_key(key: Option<Option<(KeyFormat, Vec<u8>)>>) -> (r: Result<(KeyFormat, Vec<u8>), Error>)
    ensures
        match key {
            None => r == Err::<(KeyFormat, Vec<u8>), Error>(Error::UnreadableKey),
            Some(None) => r == Err::<(KeyFormat, Vec<u8>), Error>(Error::NoPrivateKey),
            Some(Some(key)) => r == Ok::<(KeyFormat, Vec<u8>), Error>(key),
        },
{
    match key {
        None => Err(Error::UnreadableKey),
        Some(None) => Err(Error::NoPrivateKey),
        Some(Some(key)) => Ok(key),
    }
}

/// Reads a certificate file: at least one certificate has to be in it.
pub fn load_certs(pem: &[u8]) -> (r: Result<Vec<Vec<u8>>, Error>)
    ensures
        match r {
            Ok(certs) => certs@.len() > 0 && pem_certs(pem@) == Some(text::views(certs@)),
            Err(e) => e == (match pem_certs(pem@) {
                None => Error::UnreadableCertificates,
                Some(_) => Error::NoCertificates,
            }),
        },
        r is Ok <==> (pem_certs(pem@) matches Some(certs) && certs.len() > 0),
{
    let certs = read_certs(pem);
    check_certs(certs)
}

/// Reads a key file: a private key has to be in it.
pub fn load_key(pem: &[u8]) -> (r: Result<(KeyFormat, Vec<u8>), Error>)
    ensures
        match r {
            Ok(key) => pem_private_key(pem@) == Some(Some((key.0, key.1@))),
            Err(e) => pem_private_key(pem@) == Some(None::<(KeyFormat, Seq<u8>)>) && e
                == Error::NoPrivateKey || pem_private_key(pem@) is None && e == Error::UnreadableKey,
        },
{
    let key = read_private_key(pem);
    check_key(key)
}

// ============================ self-signed ============================

/// What a certificate is asked for: its subject alternative names, and the common name of its
/// subject.
#[derive(Debug)]
pub struct CertificateRequest {
    pub names: Vec<String>,
    pub common_name: String,
}

/// The texts of names.
pub open spec fn name_views(names: Seq<String>) -> Seq<Seq<char>> {
    names.map_values(|name: String| name@)
}

/// Asks for a certificate for a name: it is the only alternative name, and the common name.
pub fn certificate_request(sni_name: &str) -> (r: CertificateRequest)
    ensures
        name_views(r.names@) == seq![sni_name@],
        r.common_name@ == sni_name@,
{
    let mut names: Vec<String> = Vec::new();
    names.push(sni_name.to_owned());
    assert(name_views(names@) =~= seq![sni_name@]);
    CertificateRequest { names, common_name: sni_name.to_owned() }
}

/// Whether `rcgen` makes a certificate, with a key that signs it, of alternative names and a
/// common name.
pub uninterp spec fn certifies(
    cert: Seq<u8>,
    key: Seq<u8>,
    names: Seq<Seq<char>>,
    common_name: Seq<char>,
) -> bool;

/// Makes a key, and a certificate that it signs, as a request asks for it.
///
/// Calls `rcgen::KeyPair::generate`, `rcgen::CertificateParams::new`, whose parameters are
/// those of a certificate that is no authority, and `rcgen::CertificateParams::self_signed`.
/// What comes back was made of the alternative names and the common name of the request. A
/// name that is neither an IP address nor ASCII is refused. The key is chance, and so is the
/// certificate: their bytes are not promised, nor that they can be made.
#[verifier::external_body]
fn self_signed(request: CertificateRequest) -> (r: Option<(Vec<u8>, Vec<u8>)>)
    ensures
        r matches Some((cert, key)) ==> certifies(
            cert@,
            key@,
            name_views(request.names@),
            request.common_name@,
        ),
        r is Some ==> forall|i: int|
            0 <= i < request.names@.len() ==> is_ascii_chars(#[trigger] request.names@[i]@),
{
    let key_pair = rcgen::KeyPair::generate().ok()?;
    let mut params = rcgen::CertificateParams::new(request.names).ok()?;
    params.distinguished_name = rcgen::DistinguishedName::new();
    params.distinguished_name.push(rcgen::DnType::CommonName, request.common_name);
    let cert = params.self_signed(&key_pair).ok()?;
    Some((cert.der().to_vec(), key_pair.serialize_der()))
}

/// What was made, as a chain of one certificate and its key.
pub fn self_signed_chain(made: Option<(Vec<u8>, Vec<u8>)>) -> (r: Result<
    (Vec<Vec<u8>>, Vec<u8>),
    Error,
>)
    ensures
        match (made, r) {
            (Some((cert, key)), Ok((certs, k))) => certs@ == seq![cert] && k == key,
            (None, Err(e)) => e == Error::SelfSigningFailed,
            _ => false,
        },
{
    match made {
        Some((cert, key)) => {
            let mut certs: Vec<Vec<u8>> = Vec::new();
            certs.push(cert);
            assert(certs@ =~= seq![cert]);
            Ok((certs, key))
        },
        None => Err(Error::SelfSigningFailed),
    }
}

/// Makes a certificate for a name, signed by itself: a chain of one, and its key. The name is
/// its common name and its only alternative name. None is made for a name that is not ASCII.
pub fn generate_self_signed(sni_name: &str) -> (r: Result<(Vec<Vec<u8>>, Vec<u8>), Error>)
    ensures
        match r {
            Ok((certs, key)) => {
                &&& certs@.len() == 1
                &&& is_ascii_chars(sni_name@)
                &&& certifies(certs@[0]@, key@, seq![sni_name@], sni_name@)
            },
            Err(e) => e == Error::SelfSigningFailed,
        },
{
    let request = certificate_request(sni_name);
    assert(name_views(request.names@).len() == request.names@.len());
    assert(name_views(request.names@)[0] == request.names@[0]@);
    let made = self_signed(request);
    self_signed_chain(made)
}

} // verus!
