use std::sync::Arc;

use corro_sync::config::{client_config, server_config, with_usable_key};
use corro_sync::tls::{
    ClientIdentity, ClientSetup, ConfigFile, ServerIdentity, ServerSetup, ServerTrust,
    TlsClientConfig, TlsConfig, TlsError,
};
use rustls::{ClientConnection, RootCertStore, ServerConnection, ServerName};

const CA: &str = "-----BEGIN CERTIFICATE-----
MIHnMIGaoAMCAQICAQEwBQYDK2VwMBIxEDAOBgNVBAMMB1Rlc3QgQ0EwIBcNMjAw
MTAxMDAwMDAwWhgPMjEyMDAxMDEwMDAwMDBaMBIxEDAOBgNVBAMMB1Rlc3QgQ0Ew
KjAFBgMrZXADIQCKiOPddAnxlf1S2y08ul1yymcJvx2UEhvzdIgBtA9vXKMTMBEw
DwYDVR0TAQH/BAUwAwEB/zAFBgMrZXADQQAiJBvYmLEyM58oY+aQ4GkOlTYkteiS
EkoA7ecgbnFMGTvjfXy+5qy5nUL2Q7Qs7XWTPIXSOvmcaxj44DSfkyME
-----END CERTIFICATE-----
";

const SERVER: &str = "-----BEGIN CERTIFICATE-----
MIHrMIGeoAMCAQICAQIwBQYDK2VwMBIxEDAOBgNVBAMMB1Rlc3QgQ0EwIBcNMjAw
MTAxMDAwMDAwWhgPMjEyMDAxMDEwMDAwMDBaMBExDzANBgNVBAMMBnNlcnZlcjAq
MAUGAytlcAMhAIE5dw6ofRdfVqNUZsNMfszLjYqRtO43ol32D1uPybOUoxgwFjAU
BgNVHREEDTALgglub2RlLnRlc3QwBQYDK2VwA0EA0O9g/KkQmcWuRS3NBEk7sxz6
CLeVF/+nTm6lRdE+BcL6MnomhPknQVHpw4kO4K4P8wQB7Q5HF0JBz2MFy6F3Cw==
-----END CERTIFICATE-----
";

const CLIENT: &str = "-----BEGIN CERTIFICATE-----
MIHtMIGgoAMCAQICAQMwBQYDK2VwMBIxEDAOBgNVBAMMB1Rlc3QgQ0EwIBcNMjAw
MTAxMDAwMDAwWhgPMjEyMDAxMDEwMDAwMDBaMBExDzANBgNVBAMMBmNsaWVudDAq
MAUGAytlcAMhAO1JKMYo0cLG6ukDOJBZlWEpWSc6XGP5NjbBRhSshzfRoxowGDAW
BgNVHREEDzANggtjbGllbnQudGVzdDAFBgMrZXADQQD65StITFFuVsUt5SzPoyH4
F9NDsGp1jk4Ve+MprAAsIOLiw98oPn3x1i83yXca8vuQ8ga6jfOYXgGjJoqYd+gD
-----END CERTIFICATE-----
";

/// An Ed25519 key in PKCS #8, made of one byte over and over.
fn key(byte: u8) -> Vec<u8> {
    let mut der = vec![0x30, 0x2e, 2, 1, 0, 0x30, 5, 6, 3, 0x2b, 0x65, 0x70, 4, 0x22, 4, 0x20];
    der.extend([byte; 32]);
    der
}

fn client_key_pem() -> Vec<u8> {
    let base64 = "MC4CAQAwBQYDK2VwBCIEIAMDAwMDAwMDAwMDAwMDAwMDAwMDAwMDAwMDAwMDAwMD";
    let kind = "PRIVATE KEY";
    format!("-----BEGIN {kind}-----\n{base64}\n-----END {kind}-----\n").into_bytes()
}

fn file(path: &str, extension: &str) -> ConfigFile {
    ConfigFile { path: path.to_string(), extension: Some(extension.to_string()) }
}

fn tls() -> TlsConfig {
    TlsConfig {
        cert_file: file("cert.pem", "pem"),
        key_file: file("cert.der", "der"),
        ca_file: Some(file("ca.pem", "pem")),
        client: Some(TlsClientConfig {
            cert_file: file("client-cert.pem", "pem"),
            key_file: file("client-cert.key", "key"),
        }),
        insecure: false,
    }
}

fn bytes(text: &str) -> Vec<u8> {
    text.as_bytes().to_vec()
}

fn server_identity() -> ServerIdentity {
    let setup = ServerSetup::new(false, Some(tls()));
    match setup.on_read(key(2)).on_read(bytes(SERVER)).on_read(bytes(CA)) {
        ServerSetup::Ready(identity) => identity,
        _ => panic!("the setup is complete"),
    }
}

fn client_identity() -> ClientIdentity {
    let setup = ClientSetup::new(false, Some(tls()));
    match setup.on_read(bytes(CA)).on_read(bytes(CLIENT)).on_read(client_key_pem()) {
        ClientSetup::Ready(identity) => identity,
        _ => panic!("the setup is complete"),
    }
}

fn connect(client: ClientIdentity, server: ServerIdentity) -> (ClientConnection, ServerConnection) {
    let (client, server) = match (client_config(client), server_config(server)) {
        (Ok(client), Ok(server)) => (client, server),
        _ => panic!("the keys can be used"),
    };
    let name = match ServerName::try_from("node.test") {
        Ok(name) => name,
        Err(error) => panic!("{error}"),
    };
    match (ClientConnection::new(Arc::new(client), name), ServerConnection::new(Arc::new(server))) {
        (Ok(client), Ok(server)) => (client, server),
        _ => panic!("the configurations are good"),
    }
}

/// Carries bytes to and fro until nothing is left to say; tells whether both sides were
/// content.
fn shake_hands(client: &mut ClientConnection, server: &mut ServerConnection) -> bool {
    for _ in 0..10 {
        let mut wire: Vec<u8> = vec![];
        while client.wants_write() {
            assert!(client.write_tls(&mut wire).is_ok());
        }
        let mut read = &wire[..];
        while !read.is_empty() {
            assert!(server.read_tls(&mut read).is_ok());
            if server.process_new_packets().is_err() {
                return false;
            }
        }
        let mut wire: Vec<u8> = vec![];
        while server.wants_write() {
            assert!(server.write_tls(&mut wire).is_ok());
        }
        let mut read = &wire[..];
        while !read.is_empty() {
            assert!(client.read_tls(&mut read).is_ok());
            if client.process_new_packets().is_err() {
                return false;
            }
        }
    }
    !client.is_handshaking() && !server.is_handshaking()
}

#[test]
fn both_sides_of_a_connection_show_their_certificates() {
    let (shown_by_client, shown_by_server) = match (client_identity().auth, server_identity()) {
        (Some((certs, _)), identity) => (certs[0].clone(), identity.certs[0].clone()),
        _ => panic!("the client shows certificates"),
    };
    let (mut client, mut server) = connect(client_identity(), server_identity());
    assert!(shake_hands(&mut client, &mut server));
    match client.peer_certificates() {
        Some(certs) => assert_eq!(certs[0].0, shown_by_server),
        None => panic!("the server shows certificates"),
    }
    match server.peer_certificates() {
        Some(certs) => assert_eq!(certs[0].0, shown_by_client),
        None => panic!("the client shows certificates"),
    }
}

#[test]
fn a_server_that_checks_clients_refuses_a_silent_one() {
    let identity = ClientIdentity { auth: None, ..client_identity() };
    let (mut client, mut server) = connect(identity, server_identity());
    assert!(!shake_hands(&mut client, &mut server));
}

#[test]
fn a_server_that_checks_no_clients_takes_a_silent_one() {
    let silent = ClientIdentity { auth: None, ..client_identity() };
    let open = ServerIdentity { client_roots: None, ..server_identity() };
    let (mut client, mut server) = connect(silent, open);
    assert!(shake_hands(&mut client, &mut server));
    assert!(server.peer_certificates().is_none());
}

#[test]
fn a_client_refuses_a_server_of_no_authority_that_it_trusts() {
    let identity =
        ClientIdentity { trust: ServerTrust::Roots(RootCertStore::empty()), ..client_identity() };
    let (mut client, mut server) = connect(identity, server_identity());
    assert!(!shake_hands(&mut client, &mut server));
}

#[test]
fn a_client_that_is_to_trust_any_server_needs_a_verifier_first() {
    let identity = ClientIdentity { trust: ServerTrust::Any, ..client_identity() };
    let (mut client, mut server) = connect(identity, server_identity());
    assert!(!shake_hands(&mut client, &mut server));
}

#[test]
fn both_sides_sign_with_the_key_that_they_are_given() {
    let server = ServerIdentity { key: key(9), ..server_identity() };
    let (mut client, mut server) = connect(client_identity(), server);
    assert!(!shake_hands(&mut client, &mut server));
    let auth = client_identity().auth.map(|(certs, _)| (certs, key(9)));
    let client = ClientIdentity { auth, ..client_identity() };
    let (mut client, mut server) = connect(client, server_identity());
    assert!(!shake_hands(&mut client, &mut server));
    let auth = client_identity().auth.map(|(certs, _)| (certs, key(3)));
    let client = ClientIdentity { auth, ..client_identity() };
    let (mut client, mut server) = connect(client, server_identity());
    assert!(shake_hands(&mut client, &mut server));
}

#[test]
fn a_key_that_cannot_be_used_is_an_error() {
    let server = ServerIdentity { key: vec![1, 2, 3], ..server_identity() };
    assert!(matches!(server_config(server), Err(TlsError::Key(_))));
    let open = ServerIdentity { key: vec![1, 2, 3], client_roots: None, ..server_identity() };
    assert!(matches!(server_config(open), Err(TlsError::Key(_))));
    let client = ClientIdentity { auth: Some((vec![], vec![1, 2, 3])), ..client_identity() };
    match client_config(client) {
        Err(error) => assert_eq!(error.message(), None),
        Ok(_) => panic!("the key cannot be used"),
    }
}

#[test]
fn what_became_of_a_configuration_is_handed_on() {
    assert!(matches!(with_usable_key(Ok(5)), Ok(5)));
    let error = rustls::Error::General("bad".to_string());
    assert!(matches!(with_usable_key::<u8>(Err(error)), Err(TlsError::Key(_))));
}
