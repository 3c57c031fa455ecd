//! What a server and a client are set up with, as the `rustls` crate wants it.

use std::sync::Arc;

use rustls::server::AllowAnyAuthenticatedClient;
use rustls::{Certificate, ClientConfig, PrivateKey, RootCertStore, ServerConfig};
use vstd::prelude::*;

use crate::pem;
use crate::roots::{self, empty_store};
use crate::tls::{ClientIdentity, ServerIdentity, ServerTrust, TlsError};

verus! {

/// `rustls::ServerConfig`, as an opaque type.
#[verifier::external_type_specification]
#[verifier::external_body]
pub struct ExServerConfig(ServerConfig);

/// `rustls::ClientConfig`, as an opaque type.
#[verifier::external_type_specification]
#[verifier::external_body]
pub struct ExClientConfig(ClientConfig);

/// The certificates that a server shows.
pub uninterp spec fn served_certs(config: ServerConfig) -> Seq<Seq<u8>>;

/// Whether a server signs with the private key that these bytes are.
pub uninterp spec fn server_signs_with(config: ServerConfig, key: Seq<u8>) -> bool;

/// The trust anchors of the authorities of which clients have to show a certificate;
/// `None` if they show none.
pub uninterp spec fn client_anchors(config: ServerConfig) -> Option<
    Seq<(Seq<u8>, Seq<u8>, Option<Seq<u8>>)>,
>;

/// The trust anchors of the authorities of which servers have to show a certificate.
pub uninterp spec fn server_anchors(config: ClientConfig) -> Seq<
    (Seq<u8>, Seq<u8>, Option<Seq<u8>>),
>;

/// The certificates that a client shows; `None` if it shows none.
pub uninterp spec fn shown_certs(config: ClientConfig) -> Option<Seq<Seq<u8>>>;

/// Whether a client signs with the private key that these bytes are.
pub uninterp spec fn client_signs_with(config: ClientConfig, key: Seq<u8>) -> bool;

/// `ConfigBuilder::with_single_cert`, behind `with_no_client_auth`: the configuration of a
/// server that shows these certificates, signs with this key, and asks clients for none. It
/// fails on a key that cannot be used, and where the system has no randomness to give.
#[verifier::external_body]
fn open_server(certs: Vec<Vec<u8>>, key: Vec<u8>) -> (config: Result<ServerConfig, rustls::Error>)
    ensures
        config matches Ok(made) ==> server_signs_with(made, key@),
        config matches Ok(made) ==> served_certs(made) == pem::sections(certs@),
        config matches Ok(made) ==> client_anchors(made) is None,
{
    ServerConfig::builder()
        .with_safe_defaults()
        .with_no_client_auth()
        .with_single_cert(certs.into_iter().map(Certificate).collect(), PrivateKey(key))
}

/// `ConfigBuilder::with_single_cert`, behind `with_client_cert_verifier` of an
/// `AllowAnyAuthenticatedClient`: the configuration of a server that shows these
/// certificates and signs with this key, and that clients have to show a certificate of
/// one of these authorities. It fails on a key that cannot be used, and where the system
/// has no randomness to give.
#[verifier::external_body]
fn checking_server(
    certs: Vec<Vec<u8>>,
    key: Vec<u8>,
    client_roots: RootCertStore,
) -> (config: Result<ServerConfig, rustls::Error>)
    ensures
        config matches Ok(made) ==> server_signs_with(made, key@),
        config matches Ok(made) ==> served_certs(made) == pem::sections(certs@),
        config matches Ok(made) ==> client_anchors(made) == Some(roots::anchors_of(client_roots)),
{
    ServerConfig::builder()
        .with_safe_defaults()
        .with_client_cert_verifier(Arc::new(AllowAnyAuthenticatedClient::new(client_roots)))
        .with_single_cert(certs.into_iter().map(Certificate).collect(), PrivateKey(key))
}

/// `ConfigBuilder::with_no_client_auth`, behind `with_root_certificates`: the
/// configuration of a client that trusts servers with a certificate of one of these
/// authorities, and shows none itself.
#[verifier::external_body]
fn silent_client(server_roots: RootCertStore) -> (config: ClientConfig)
    ensures
        server_anchors(config) == roots::anchors_of(server_roots),
        shown_certs(config) is None,
{
    ClientConfig::builder()
        .with_safe_defaults()
        .with_root_certificates(server_roots)
        .with_no_client_auth()
}

/// `ConfigBuilder::with_client_auth_cert`, behind `with_root_certificates`: the
/// configuration of a client that trusts servers with a certificate of one of these
/// authorities, shows these certificates and signs with this key. It fails on a key that
/// cannot be used, and where the system has no randomness to give.
#[verifier::external_body]
fn showing_client(
    server_roots: RootCertStore,
    certs: Vec<Vec<u8>>,
    key: Vec<u8>,
) -> (config: Result<ClientConfig, rustls::Error>)
    ensures
        config matches Ok(made) ==> client_signs_with(made, key@),
        config matches Ok(made) ==> server_anchors(made) == roots::anchors_of(server_roots),
        config matches Ok(made) ==> shown_certs(made) == Some(pem::sections(certs@)),
{
    ClientConfig::builder()
        .with_safe_defaults()
        .with_root_certificates(server_roots)
        .with_client_auth_cert(certs.into_iter().map(Certificate).collect(), PrivateKey(key))
}

/// What became of a configuration with a key: that it could not be used is an error.
pub fn with_usable_key<C>(made: Result<C, rustls::Error>) -> (config: Result<C, TlsError>)
    ensures
        config == (match made {
            Ok(config) => Ok(config),
            Err(error) => Err(TlsError::Key(error)),
        }),
{
    match made {
        Ok(config) => Ok(config),
        Err(error) => Err(TlsError::Key(error)),
    }
}

/// Makes the configuration of a server out of what it shows and whom it accepts. A key
/// that cannot be used is an error.
pub fn server_config(identity: ServerIdentity) -> (config: Result<ServerConfig, TlsError>)
    ensures
        match config {
            Ok(config) => {
                &&& server_signs_with(config, identity.key@)
                &&& served_certs(config) == pem::sections(identity.certs@)
                &&& client_anchors(config) == (match identity.client_roots {
                    Some(store) => Some(roots::anchors_of(store)),
                    None => None,
                })
            },
            Err(error) => error is Key,
        },
{
    match identity.client_roots {
        Some(store) => with_usable_key(checking_server(identity.certs, identity.key, store)),
        None => with_usable_key(open_server(identity.certs, identity.key)),
    }
}

/// The trust anchors that servers are checked against. For a client that trusts any server
/// there are none: it accepts no server until it gets a verifier that does.
pub open spec fn anchors_for(trust: ServerTrust) -> Seq<(Seq<u8>, Seq<u8>, Option<Seq<u8>>)> {
    match trust {
        ServerTrust::Roots(store) => roots::anchors_of(store),
        ServerTrust::Any => Seq::empty(),
    }
}

/// Makes the configuration of a client out of whom it trusts and what it shows. A key that
/// cannot be used is an error.
pub fn client_config(identity: ClientIdentity) -> (config: Result<ClientConfig, TlsError>)
    ensures
        match config {
            Ok(config) => {
                &&& server_anchors(config) == anchors_for(identity.trust)
                &&& match identity.auth {
                    Some((certs, key)) => client_signs_with(config, key@) && shown_certs(config)
                        == Some(pem::sections(certs@)),
                    None => shown_certs(config) is None,
                }
            },
            Err(error) => error is Key && identity.auth is Some,
        },
{
    let store = match identity.trust {
        ServerTrust::Roots(store) => store,
        ServerTrust::Any => empty_store(),
    };
    match identity.auth {
        Some((certs, key)) => with_usable_key(showing_client(store, certs, key)),
        None => Ok(silent_client(store)),
    }
}

/// A client checks servers against the authorities that it is given, and against none at all
/// if it is to trust any server.
pub proof fn law_trust(trust: ServerTrust)
    ensures
        trust matches ServerTrust::Roots(store) ==> anchors_for(trust) == roots::anchors_of(store),
        trust is Any ==> anchors_for(trust).len() == 0,
{
}

} // verus!
