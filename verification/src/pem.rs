//! Keys and certificates as files hold them: either one of them as it is (DER), or
//! any number of them as text (PEM), which the `rustls-pemfile` crate reads.

use vstd::prelude::*;

use crate::tls::TlsError;

verus! {

/// Some keys or certificates, as sequences of bytes.
pub open spec fn sections(list: Seq<Vec<u8>>) -> Seq<Seq<u8>> {
    Seq::new(list.len(), |i: int| list[i]@)
}

/// The PKCS #8 keys in a PEM text; `None` if the text is malformed.
pub uninterp spec fn pkcs8_keys(pem: Seq<u8>) -> Option<Seq<Seq<u8>>>;

/// The RSA keys in a PEM text; `None` if the text is malformed.
pub uninterp spec fn rsa_keys(pem: Seq<u8>) -> Option<Seq<Seq<u8>>>;

/// The certificates in a PEM text; `None` if the text is malformed.
pub uninterp spec fn pem_certs(pem: Seq<u8>) -> Option<Seq<Seq<u8>>>;

/// `rustls_pemfile::pkcs8_private_keys`, on a text in memory: what it reads depends
/// on the text alone, and is what `pkcs8_keys` names.
#[verifier::external_body]
fn read_pkcs8_keys(pem: &Vec<u8>) -> (keys: Result<Vec<Vec<u8>>, std::io::Error>)
    ensures
        pkcs8_keys(pem@) == (match keys {
            Ok(list) => Some(sections(list@)),
            Err(_) => None,
        }),
{
    rustls_pemfile::pkcs8_private_keys(&mut &pem[..])
}

/// `rustls_pemfile::rsa_private_keys`, on a text in memory: what it reads depends on
/// the text alone, and is what `rsa_keys` names.
#[verifier::external_body]
fn read_rsa_keys(pem: &Vec<u8>) -> (keys: Result<Vec<Vec<u8>>, std::io::Error>)
    ensures
        rsa_keys(pem@) == (match keys {
            Ok(list) => Some(sections(list@)),
            Err(_) => None,
        }),
{
    rustls_pemfile::rsa_private_keys(&mut &pem[..])
}

/// `rustls_pemfile::certs`, on a text in memory: what it reads depends on the text
/// alone, and is what `pem_certs` names.
#[verifier::external_body]
fn read_certs(pem: &Vec<u8>) -> (certs: Result<Vec<Vec<u8>>, std::io::Error>)
    ensures
        pem_certs(pem@) == (match certs {
            Ok(list) => Some(sections(list@)),
            Err(_) => None,
        }),
{
    rustls_pemfile::certs(&mut &pem[..])
}

/// Whether a file with this extension holds DER.
pub open spec fn is_der(extension: Option<Seq<char>>) -> bool {
    extension == Some("der"@)
}

/// The extension of a file as a sequence.
pub open spec fn extension_view(extension: Option<String>) -> Option<Seq<char>> {
    match extension {
        Some(extension) => Some(extension@),
        None => None,
    }
}

fn der_extension(extension: &Option<String>) -> (der: bool)
    ensures
        der == is_der(extension_view(*extension)),
{
    match extension {
        Some(extension) => *extension == "der".to_string(),
        None => false,
    }
}

/// What looking for a private key gives.
#[verifier::ext_equal]
pub enum KeyOutcome {
    Key(Seq<u8>),
    /// The text is malformed.
    BadPem,
    /// There is no key.
    NoKey,
}

/// The key among those that were read: the first PKCS #8 key, or else the first RSA
/// key. `rsa` does not matter if there is a PKCS #8 key.
pub open spec fn key_among(
    pkcs8: Option<Seq<Seq<u8>>>,
    rsa: Option<Seq<Seq<u8>>>,
) -> KeyOutcome {
    match pkcs8 {
        None => KeyOutcome::BadPem,
        Some(keys) => if keys.len() > 0 {
            KeyOutcome::Key(keys[0])
        } else {
            match rsa {
                None => KeyOutcome::BadPem,
                Some(keys) => if keys.len() > 0 {
                    KeyOutcome::Key(keys[0])
                } else {
                    KeyOutcome::NoKey
                },
            }
        },
    }
}

/// The private key in a file.
pub open spec fn key_in_file(extension: Option<Seq<char>>, bytes: Seq<u8>) -> KeyOutcome {
    if is_der(extension) {
        KeyOutcome::Key(bytes)
    } else {
        key_among(pkcs8_keys(bytes), rsa_keys(bytes))
    }
}

/// The PKCS #8 key in a PEM text.
pub open spec fn client_key_in_file(bytes: Seq<u8>) -> KeyOutcome {
    key_among(pkcs8_keys(bytes), Some(Seq::empty()))
}

/// The certificates in a file; `None` if it is malformed.
pub open spec fn certs_in_file(extension: Option<Seq<char>>, bytes: Seq<u8>) -> Option<
    Seq<Seq<u8>>,
> {
    if is_der(extension) {
        Some(seq![bytes])
    } else {
        pem_certs(bytes)
    }
}

/// Whether a result is what `outcome` says, where `missing` stands for a key that is
/// not there.
pub open spec fn is_key(
    outcome: KeyOutcome,
    key: Result<Vec<u8>, TlsError>,
    missing: TlsError,
) -> bool {
    match outcome {
        KeyOutcome::Key(bytes) => key matches Ok(found) && found@ == bytes,
        KeyOutcome::BadPem => key matches Err(TlsError::Pem(_)),
        KeyOutcome::NoKey => key == Err::<Vec<u8>, TlsError>(missing),
    }
}

/// The first of the keys that were read, if there is one.
pub fn first_key(keys: Result<Vec<Vec<u8>>, std::io::Error>) -> (key: Result<
    Option<Vec<u8>>,
    TlsError,
>)
    ensures
        match keys {
            Err(error) => key == Err::<Option<Vec<u8>>, TlsError>(TlsError::Pem(error)),
            Ok(list) => key matches Ok(first) && match first {
                Some(bytes) => list.len() > 0 && bytes@ == list@[0]@,
                None => list.len() == 0,
            },
        },
{
    match keys {
        Err(error) => Err(TlsError::Pem(error)),
        Ok(list) => {
            for key in iter: list
                invariant
                    keys == Ok::<Vec<Vec<u8>>, std::io::Error>(list),
                    iter.seq() == list@,
                    iter.index() == 0,
            {
                return Ok(Some(key));
            }
            Ok(None)
        },
    }
}

/// Finds the private key of a node in a file.
pub fn private_key(extension: &Option<String>, bytes: Vec<u8>) -> (key: Result<Vec<u8>, TlsError>)
    ensures
        is_key(
            key_in_file(extension_view(*extension), bytes@),
            key,
            TlsError::NoPrivateKey,
        ),
{
    if der_extension(extension) {
        return Ok(bytes);
    }
    match first_key(read_pkcs8_keys(&bytes)) {
        Err(error) => Err(error),
        Ok(Some(key)) => Ok(key),
        Ok(None) => match first_key(read_rsa_keys(&bytes)) {
            Err(error) => Err(error),
            Ok(Some(key)) => Ok(key),
            Ok(None) => Err(TlsError::NoPrivateKey),
        },
    }
}

/// Finds the private key that a node shows as a client, in a PEM text.
pub fn client_key(bytes: &Vec<u8>) -> (key: Result<Vec<u8>, TlsError>)
    ensures
        is_key(client_key_in_file(bytes@), key, TlsError::NoClientKey),
{
    match first_key(read_pkcs8_keys(bytes)) {
        Err(error) => Err(error),
        Ok(Some(key)) => Ok(key),
        Ok(None) => Err(TlsError::NoClientKey),
    }
}

/// Finds the certificates in a file.
pub fn certificates(extension: &Option<String>, bytes: Vec<u8>) -> (certs: Result<
    Vec<Vec<u8>>,
    TlsError,
>)
    ensures
        match certs {
            Ok(list) => certs_in_file(extension_view(*extension), bytes@) == Some(sections(list@)),
            Err(TlsError::Pem(_)) => certs_in_file(extension_view(*extension), bytes@) is None,
            Err(_) => false,
        },
{
    if der_extension(extension) {
        let ghost whole = bytes@;
        let mut list: Vec<Vec<u8>> = Vec::new();
        list.push(bytes);
        assert(sections(list@) =~= seq![whole]);
        return Ok(list);
    }
    match read_certs(&bytes) {
        Err(error) => Err(TlsError::Pem(error)),
        Ok(list) => Ok(list),
    }
}

/// Of the keys in a text the first one that is written as PKCS #8 is taken, and only if there
/// is none the first RSA key. A node takes either as its own; as a client it shows only the
/// former.
pub proof fn law_key_choice(pkcs8: Seq<Seq<u8>>, rsa: Option<Seq<Seq<u8>>>, others: Seq<Seq<u8>>)
    ensures
        pkcs8.len() > 0 ==> key_among(Some(pkcs8), rsa) == KeyOutcome::Key(pkcs8[0]),
        pkcs8.len() == 0 && others.len() > 0 ==> key_among(Some(pkcs8), Some(others))
            == KeyOutcome::Key(others[0]),
        pkcs8.len() == 0 && others.len() == 0 ==> key_among(Some(pkcs8), Some(others))
            == KeyOutcome::NoKey,
        pkcs8.len() == 0 ==> key_among(Some(pkcs8), None) == KeyOutcome::BadPem,
        key_among(None, rsa) == KeyOutcome::BadPem,
{
}

/// A file whose extension is `der` is the key or the certificate itself. Any other file is a
/// text, whatever it is called, and so is every file of what a client shows.
pub proof fn law_files(extension: Option<Seq<char>>, bytes: Seq<u8>)
    ensures
        extension == Some("der"@) ==> key_in_file(extension, bytes) == KeyOutcome::Key(bytes)
            && certs_in_file(extension, bytes) == Some(seq![bytes]),
        extension != Some("der"@) ==> key_in_file(extension, bytes) == key_among(
            pkcs8_keys(bytes),
            rsa_keys(bytes),
        ) && certs_in_file(extension, bytes) == pem_certs(bytes),
        match pkcs8_keys(bytes) {
            None => client_key_in_file(bytes) == KeyOutcome::BadPem,
            Some(keys) => if keys.len() > 0 {
                client_key_in_file(bytes) == KeyOutcome::Key(keys[0])
            } else {
                client_key_in_file(bytes) == KeyOutcome::NoKey
            },
        },
{
}

} // verus!
