use corro_sync::pem::{certificates, client_key, first_key, private_key};
use corro_sync::roots::root_store;
use corro_sync::tls::{
    ClientSetup, ConfigFile, ServerSetup, ServerTrust, SkipServerVerification, TlsClientConfig,
    TlsConfig, TlsError,
};
use corro_sync::transport::{client_transport, server_transport, TransportOptions};

const CA: &str = "-----BEGIN CERTIFICATE-----
MIIBezCCASGgAwIBAgIUNSptYzSyNLyz8qWE4VWF1yNdqvwwCgYIKoZIzj0EAwIw
EjEQMA4GA1UEAwwHVGVzdCBDQTAgFw0yNjExMTYwOTU4MjZaGA8yMTI2MTAyMzA5
NTgyNlowEjEQMA4GA1UEAwwHVGVzdCBDQTBZMBMGByqGSM49AgEGCCqGSM49AwEH
A0IABMDZXjTFkhK8wA4Z/JvDyxE+NcYEV31K1ND1h+sEw+s2fkHSNlMQ2QsqZf6I
03y3yir28pFql7ff5Gu7v5a634CjUzBRMB0GA1UdDgQWBBR0bAolRrzLks9nOFkg
x7wipTVAKzAfBgNVHSMEGDAWgBR0bAolRrzLks9nOFkgx7wipTVAKzAPBgNVHRMB
Af8EBTADAQH/MAoGCCqGSM49BAMCA0gAMEUCIQDprF8dtuFd6AvtllfGhibdhLzc
qqPVh1zpgCGTdF+D2QIgQg7nWJt/m8Th2K2DLOXoMi+WaBCzYWLDYXWYqxbrptE=
-----END CERTIFICATE-----
";

/// The base64 texts here are `first key`, `second key`, `rsa key`, `leaf`, `middle`.
fn section(kind: &str, base64: &str) -> String {
    format!("-----BEGIN {kind}-----\n{base64}\n-----END {kind}-----\n")
}

fn keys() -> Vec<u8> {
    format!(
        "{}{}{}",
        section("RSA PRIVATE KEY", "cnNhIGtleQ=="),
        section("PRIVATE KEY", "Zmlyc3Qga2V5"),
        section("PRIVATE KEY", "c2Vjb25kIGtleQ=="),
    )
    .into_bytes()
}

fn certs() -> Vec<u8> {
    format!("{}{}", section("CERTIFICATE", "bGVhZg=="), section("CERTIFICATE", "bWlkZGxl"))
        .into_bytes()
}

fn malformed() -> Vec<u8> {
    b"-----BEGIN CERTIFICATE-----\nbGVhZg==\n".to_vec()
}

fn pem() -> Option<String> {
    Some("pem".to_string())
}

fn der() -> Option<String> {
    Some("der".to_string())
}

fn file(path: &str) -> ConfigFile {
    ConfigFile { path: path.to_string(), extension: path.split_once('.').map(|(_, e)| e.to_string()) }
}

fn tls(ca_file: Option<&str>, client: bool, insecure: bool) -> TlsConfig {
    TlsConfig {
        cert_file: file("cert.pem"),
        key_file: file("cert.key"),
        ca_file: ca_file.map(file),
        client: if client {
            Some(TlsClientConfig {
                cert_file: file("client-cert.pem"),
                key_file: file("client-cert.key"),
            })
        } else {
            None
        },
        insecure,
    }
}

#[test]
fn the_first_pkcs8_key_is_taken() {
    match private_key(&pem(), keys()) {
        Ok(key) => assert_eq!(key, b"first key"),
        Err(error) => panic!("{error:?}"),
    }
    match private_key(&None, keys()) {
        Ok(key) => assert_eq!(key, b"first key"),
        Err(error) => panic!("{error:?}"),
    }
    match client_key(&keys()) {
        Ok(key) => assert_eq!(key, b"first key"),
        Err(error) => panic!("{error:?}"),
    }
}

#[test]
fn an_rsa_key_is_taken_if_there_is_no_other() {
    let only_rsa = section("RSA PRIVATE KEY", "cnNhIGtleQ==").into_bytes();
    match private_key(&pem(), only_rsa.clone()) {
        Ok(key) => assert_eq!(key, b"rsa key"),
        Err(error) => panic!("{error:?}"),
    }
    assert!(matches!(client_key(&only_rsa), Err(TlsError::NoClientKey)));
}

#[test]
fn a_der_file_is_the_key_itself() {
    match private_key(&der(), keys()) {
        Ok(key) => assert_eq!(key, keys()),
        Err(error) => panic!("{error:?}"),
    }
}

#[test]
fn a_file_without_keys_has_none() {
    assert!(matches!(private_key(&pem(), certs()), Err(TlsError::NoPrivateKey)));
    assert!(matches!(client_key(&certs()), Err(TlsError::NoClientKey)));
    assert!(matches!(private_key(&pem(), malformed()), Err(TlsError::Pem(_))));
    assert!(matches!(client_key(&malformed()), Err(TlsError::Pem(_))));
}

#[test]
fn the_first_of_some_keys() {
    assert!(matches!(first_key(Ok(vec![vec![1], vec![2]])), Ok(Some(key)) if key == vec![1]));
    assert!(matches!(first_key(Ok(vec![])), Ok(None)));
    let error = std::io::Error::new(std::io::ErrorKind::Other, "broken");
    match first_key(Err(error)) {
        Err(TlsError::Pem(error)) => assert_eq!(error.to_string(), "broken"),
        other => panic!("{other:?}"),
    }
}

#[test]
fn all_certificates_are_taken() {
    match certificates(&pem(), certs()) {
        Ok(list) => assert_eq!(list, vec![b"leaf".to_vec(), b"middle".to_vec()]),
        Err(error) => panic!("{error:?}"),
    }
    match certificates(&der(), certs()) {
        Ok(list) => assert_eq!(list, vec![certs()]),
        Err(error) => panic!("{error:?}"),
    }
    assert!(matches!(certificates(&pem(), malformed()), Err(TlsError::Pem(_))));
}

#[test]
fn authorities_are_stored_in_their_order() {
    let ca = match certificates(&pem(), CA.as_bytes().to_vec()) {
        Ok(list) => list,
        Err(error) => panic!("{error:?}"),
    };
    let subject: &[u8] = b"\x30\x12\x31\x10\x30\x0e\x06\x03\x55\x04\x03\x0c\x07Test CA";
    match root_store(ca.clone()) {
        Ok(store) => {
            assert_eq!(store.len(), 1);
            assert_eq!(store.roots[0].subject().as_ref(), subject);
        }
        Err(error) => panic!("{error:?}"),
    }
    match root_store(vec![ca[0].clone(), ca[0].clone()]) {
        Ok(store) => assert_eq!(store.len(), 2),
        Err(error) => panic!("{error:?}"),
    }
    match root_store(vec![]) {
        Ok(store) => assert!(store.is_empty()),
        Err(error) => panic!("{error:?}"),
    }
    assert!(matches!(root_store(vec![ca[0].clone(), b"leaf".to_vec()]), Err(TlsError::Root(_))));
}

fn server_wants(setup: &ServerSetup) -> Option<&str> {
    setup.wanted().map(|file| file.path.as_str())
}

fn client_wants(setup: &ClientSetup) -> Option<&str> {
    setup.wanted().map(|file| file.path.as_str())
}

#[test]
fn a_plaintext_server_reads_nothing() {
    let setup = ServerSetup::new(true, Some(tls(None, true, false)));
    assert_eq!(server_wants(&setup), None);
    assert!(matches!(setup, ServerSetup::Plaintext));
    assert!(matches!(setup.on_read(vec![1]), ServerSetup::Plaintext));
}

#[test]
fn a_server_needs_a_tls_config() {
    let setup = ServerSetup::new(false, None);
    assert!(matches!(setup, ServerSetup::Failed(TlsError::ServerTlsRequired)));
}

#[test]
fn a_server_reads_its_key_and_its_certificates() {
    let setup = ServerSetup::new(false, Some(tls(None, false, false)));
    assert_eq!(server_wants(&setup), Some("cert.key"));
    let setup = setup.on_read(keys());
    assert_eq!(server_wants(&setup), Some("cert.pem"));
    match setup.on_read(certs()) {
        ServerSetup::Ready(identity) => {
            assert_eq!(identity.key, b"first key");
            assert_eq!(identity.certs, vec![b"leaf".to_vec(), b"middle".to_vec()]);
            assert!(identity.client_roots.is_none());
        }
        _ => panic!("the setup is complete"),
    }
}

#[test]
fn a_server_that_checks_clients_reads_authorities() {
    let setup = ServerSetup::new(false, Some(tls(Some("ca.pem"), true, false)));
    let setup = setup.on_read(keys()).on_read(certs());
    assert_eq!(server_wants(&setup), Some("ca.pem"));
    match setup.on_read(CA.as_bytes().to_vec()) {
        ServerSetup::Ready(identity) => {
            assert_eq!(identity.key, b"first key");
            assert_eq!(identity.client_roots.map(|store| store.len()), Some(1));
        }
        _ => panic!("the setup is complete"),
    }
}

#[test]
fn a_server_that_checks_clients_needs_authorities() {
    let setup = ServerSetup::new(false, Some(tls(None, true, false)));
    let setup = setup.on_read(keys());
    assert_eq!(server_wants(&setup), Some("cert.pem"));
    assert!(matches!(
        setup.on_read(certs()),
        ServerSetup::Failed(TlsError::CaFileRequired)
    ));
}

#[test]
fn a_server_fails_on_files_that_are_no_good() {
    let begin = || ServerSetup::new(false, Some(tls(Some("ca.pem"), true, false)));
    assert!(matches!(begin().on_read(certs()), ServerSetup::Failed(TlsError::NoPrivateKey)));
    assert!(matches!(begin().on_read(malformed()), ServerSetup::Failed(TlsError::Pem(_))));
    let keyed = || begin().on_read(keys());
    assert!(matches!(keyed().on_read(malformed()), ServerSetup::Failed(TlsError::Pem(_))));
    let ready = || keyed().on_read(certs());
    assert!(matches!(ready().on_read(malformed()), ServerSetup::Failed(TlsError::Pem(_))));
    assert!(matches!(ready().on_read(certs()), ServerSetup::Failed(TlsError::Root(_))));
}

#[test]
fn a_plaintext_client_reads_nothing() {
    assert!(matches!(ClientSetup::new(true, None), ClientSetup::Plaintext));
}

#[test]
fn a_client_needs_a_tls_config() {
    let setup = ClientSetup::new(false, None);
    assert!(matches!(setup, ClientSetup::Failed(TlsError::ClientTlsRequired)));
}

#[test]
fn a_client_without_authorities_has_to_be_insecure() {
    let setup = ClientSetup::new(false, Some(tls(None, false, false)));
    assert!(matches!(setup, ClientSetup::Failed(TlsError::InsecureRequired)));
    match ClientSetup::new(false, Some(tls(None, false, true))) {
        ClientSetup::Ready(identity) => {
            assert!(matches!(identity.trust, ServerTrust::Any));
            assert!(identity.auth.is_none());
        }
        _ => panic!("there is nothing to read"),
    }
}

#[test]
fn a_client_with_authorities_is_not_insecure() {
    let setup = ClientSetup::new(false, Some(tls(Some("ca.pem"), false, true)));
    assert_eq!(client_wants(&setup), Some("ca.pem"));
    match setup.on_read(CA.as_bytes().to_vec()) {
        ClientSetup::Ready(identity) => {
            assert!(matches!(identity.trust, ServerTrust::Roots(store) if store.len() == 1));
            assert!(identity.auth.is_none());
        }
        _ => panic!("the setup is complete"),
    }
}

#[test]
fn a_client_shows_certificates_if_it_has_them() {
    let setup = ClientSetup::new(false, Some(tls(None, true, true)));
    assert_eq!(client_wants(&setup), Some("client-cert.pem"));
    let setup = setup.on_read(certs());
    assert_eq!(client_wants(&setup), Some("client-cert.key"));
    match setup.on_read(keys()) {
        ClientSetup::Ready(identity) => {
            assert!(matches!(identity.trust, ServerTrust::Any));
            assert_eq!(
                identity.auth,
                Some((vec![b"leaf".to_vec(), b"middle".to_vec()], b"first key".to_vec()))
            );
        }
        _ => panic!("the setup is complete"),
    }
}

#[test]
fn a_client_with_everything_reads_three_files() {
    let setup = ClientSetup::new(false, Some(tls(Some("ca.pem"), true, false)));
    let setup = setup.on_read(CA.as_bytes().to_vec());
    assert_eq!(client_wants(&setup), Some("client-cert.pem"));
    match setup.on_read(certs()).on_read(keys()) {
        ClientSetup::Ready(identity) => {
            assert!(matches!(identity.trust, ServerTrust::Roots(_)));
            assert!(identity.auth.is_some());
        }
        _ => panic!("the setup is complete"),
    }
}

#[test]
fn a_client_fails_on_files_that_are_no_good() {
    let begin = || ClientSetup::new(false, Some(tls(Some("ca.pem"), true, false)));
    assert!(matches!(begin().on_read(malformed()), ClientSetup::Failed(TlsError::Pem(_))));
    assert!(matches!(begin().on_read(certs()), ClientSetup::Failed(TlsError::Root(_))));
    let trusting = || begin().on_read(CA.as_bytes().to_vec());
    assert!(matches!(trusting().on_read(malformed()), ClientSetup::Failed(TlsError::Pem(_))));
    let shown = || trusting().on_read(certs());
    assert!(matches!(shown().on_read(malformed()), ClientSetup::Failed(TlsError::Pem(_))));
    assert!(matches!(shown().on_read(certs()), ClientSetup::Failed(TlsError::NoClientKey)));
}

#[test]
fn errors_say_what_is_wrong() {
    let text = |error: TlsError| error.message().unwrap_or_default();
    assert_eq!(text(TlsError::ServerTlsRequired), "either plaintext or a tls config is required");
    assert_eq!(text(TlsError::ClientTlsRequired), "tls config required");
    assert_eq!(text(TlsError::NoPrivateKey), "no private keys found");
    assert_eq!(
        text(TlsError::CaFileRequired),
        "ca_file required in tls config for server client cert auth verification"
    );
    assert_eq!(
        text(TlsError::InsecureRequired),
        "insecure setting needs to be explicitly true if no ca_file is provided"
    );
    assert_eq!(text(TlsError::NoClientKey), "could not find client tls key");
    let error = std::io::Error::new(std::io::ErrorKind::Other, "broken");
    assert_eq!(TlsError::Pem(error).message(), None);
}

#[test]
fn a_dummy_verifier_accepts_any_certificate() {
    let verifier = SkipServerVerification::new();
    assert!(verifier.verify_server_cert(&vec![], &vec![]));
    assert!(verifier.verify_server_cert(&vec![1, 2, 3], &vec![vec![4]]));
}

#[test]
fn a_transport_is_set_up_as_configured() {
    let options = TransportOptions { idle_timeout_secs: 30, max_mtu: Some(1400), disable_gso: true };
    let settings = server_transport(options);
    assert_eq!(settings.max_idle_timeout_secs, 30);
    assert_eq!(settings.max_concurrent_bidi_streams, 32);
    assert_eq!(settings.max_concurrent_uni_streams, 256);
    assert_eq!(settings.fixed_mtu, Some(1400));
    assert!(settings.without_segmentation_offload);
    assert_eq!(settings.keep_alive_interval_secs, None);
}

#[test]
fn a_client_keeps_its_connections_alive() {
    let options = TransportOptions { idle_timeout_secs: 31, max_mtu: None, disable_gso: false };
    let settings = client_transport(options);
    assert_eq!(settings.keep_alive_interval_secs, Some(15));
    assert_eq!(settings.max_idle_timeout_secs, 31);
    assert_eq!(settings.fixed_mtu, None);
    assert!(!settings.without_segmentation_offload);
}
