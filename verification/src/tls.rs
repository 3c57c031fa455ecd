//! How a node secures its connections: which files a server and a client read, in
//! which order, what they take from them, and which settings their transport has.

use std::sync::Arc;

use rustls::RootCertStore;
use vstd::prelude::*;

use crate::pem::{self, certificates, client_key, private_key};
use crate::roots::{self, root_store};

verus! {

/// Why connections cannot be set up as configured.
#[derive(Debug)]
pub enum TlsError {
    /// A server is neither in the clear nor is it configured how to secure it.
    ServerTlsRequired,
    /// A client is neither in the clear nor is it configured how to secure it.
    ClientTlsRequired,
    /// A file is malformed.
    Pem(std::io::Error),
    /// A certificate authority's certificate is malformed.
    Root(rustls::Error),
    /// A private key cannot be used.
    Key(rustls::Error),
    /// There is no private key in the file.
    NoPrivateKey,
    /// Clients have to show certificates, but nothing says which are to be trusted.
    CaFileRequired,
    /// Nothing says which servers are to be trusted, and not that all are.
    InsecureRequired,
    /// There is no private key in the client's file.
    NoClientKey,
}

impl TlsError {
    /// What is reported; `None` if that is the text of the error underneath.
    pub open spec fn text(self) -> Option<Seq<char>> {
        match self {
            TlsError::ServerTlsRequired => Some("either plaintext or a tls config is required"@),
            TlsError::ClientTlsRequired => Some("tls config required"@),
            TlsError::Pem(_) => None,
            TlsError::Root(_) => None,
            TlsError::Key(_) => None,
            TlsError::NoPrivateKey => Some("no private keys found"@),
            TlsError::CaFileRequired => Some(
                "ca_file required in tls config for server client cert auth verification"@,
            ),
            TlsError::InsecureRequired => Some(
                "insecure setting needs to be explicitly true if no ca_file is provided"@,
            ),
            TlsError::NoClientKey => Some("could not find client tls key"@),
        }
    }

    /// Tells what is reported; `None` if that is the text of the error underneath.
    pub fn message(&self) -> (message: Option<String>)
        ensures
            match message {
                Some(message) => self.text() == Some(message@),
                None => self.text() is None,
            },
    {
        match self {
            TlsError::ServerTlsRequired => Some(
                "either plaintext or a tls config is required".to_string(),
            ),
            TlsError::ClientTlsRequired => Some("tls config required".to_string()),
            TlsError::Pem(_) => None,
            TlsError::Root(_) => None,
            TlsError::Key(_) => None,
            TlsError::NoPrivateKey => Some("no private keys found".to_string()),
            TlsError::CaFileRequired => Some(
                "ca_file required in tls config for server client cert auth verification".to_string(),
            ),
            TlsError::InsecureRequired => Some(
                "insecure setting needs to be explicitly true if no ca_file is provided".to_string(),
            ),
            TlsError::NoClientKey => Some("could not find client tls key".to_string()),
        }
    }
}

/// A file that is named in the configuration.
#[derive(Debug, PartialEq, Eq)]
pub struct ConfigFile {
    pub path: String,
    /// What stands behind the last dot of the file's name.
    pub extension: Option<String>,
}

impl ConfigFile {
    /// The file's extension as a sequence.
    pub open spec fn kind(self) -> Option<Seq<char>> {
        pem::extension_view(self.extension)
    }
}

/// What a node shows when it is a client.
#[derive(Debug, PartialEq, Eq)]
pub struct TlsClientConfig {
    pub cert_file: ConfigFile,
    pub key_file: ConfigFile,
}

/// How connections are secured.
#[derive(Debug, PartialEq, Eq)]
pub struct TlsConfig {
    pub cert_file: ConfigFile,
    pub key_file: ConfigFile,
    /// The authorities that are trusted.
    pub ca_file: Option<ConfigFile>,
    /// Whether clients show certificates, and which one this node shows.
    pub client: Option<TlsClientConfig>,
    /// Whether any server is trusted if no authorities are given.
    pub insecure: bool,
}

/// What a server shows, and whom it accepts.
pub struct ServerIdentity {
    pub certs: Vec<Vec<u8>>,
    pub key: Vec<u8>,
    /// Clients have to show a certificate of one of these authorities; `None`: they
    /// show none.
    pub client_roots: Option<RootCertStore>,
}

/// The setup of a server. While there is a file to read, its contents are handed to
/// `on_read`.
pub enum ServerSetup {
    /// Connections are in the clear.
    Plaintext,
    /// The key is read.
    ReadKey(TlsConfig),
    /// The certificates are read.
    ReadCerts { tls: TlsConfig, key: Vec<u8> },
    /// The authorities for clients are read.
    ReadRoots { ca_file: ConfigFile, key: Vec<u8>, certs: Vec<Vec<u8>> },
    /// All was read.
    Ready(ServerIdentity),
    /// The setup failed.
    Failed(TlsError),
}

impl ServerSetup {
    /// How the setup of a server begins.
    pub open spec fn begin(plaintext: bool, tls: Option<TlsConfig>) -> ServerSetup {
        if plaintext {
            ServerSetup::Plaintext
        } else {
            match tls {
                Some(tls) => ServerSetup::ReadKey(tls),
                None => ServerSetup::Failed(TlsError::ServerTlsRequired),
            }
        }
    }

    /// Begins to set up a server.
    pub fn new(plaintext: bool, tls: Option<TlsConfig>) -> (this: ServerSetup)
        ensures
            this == ServerSetup::begin(plaintext, tls),
    {
        if plaintext {
            return ServerSetup::Plaintext;
        }
        match tls {
            Some(tls) => ServerSetup::ReadKey(tls),
            None => ServerSetup::Failed(TlsError::ServerTlsRequired),
        }
    }

    /// The file that is read next.
    pub open spec fn next_file(self) -> Option<ConfigFile> {
        match self {
            ServerSetup::ReadKey(tls) => Some(tls.key_file),
            ServerSetup::ReadCerts { tls, .. } => Some(tls.cert_file),
            ServerSetup::ReadRoots { ca_file, .. } => Some(ca_file),
            _ => None,
        }
    }

    /// Tells which file to read next, if any.
    pub fn wanted(&self) -> (file: Option<&ConfigFile>)
        ensures
            match file {
                Some(file) => self.next_file() == Some(*file),
                None => self.next_file() is None,
            },
    {
        match self {
            ServerSetup::ReadKey(tls) => Some(&tls.key_file),
            ServerSetup::ReadCerts { tls, .. } => Some(&tls.cert_file),
            ServerSetup::ReadRoots { ca_file, .. } => Some(ca_file),
            _ => None,
        }
    }

    /// Goes on with the key.
    pub fn with_key(tls: TlsConfig, key: Result<Vec<u8>, TlsError>) -> (next: ServerSetup)
        ensures
            next == (match key {
                Ok(key) => ServerSetup::ReadCerts { tls, key },
                Err(error) => ServerSetup::Failed(error),
            }),
    {
        match key {
            Ok(key) => ServerSetup::ReadCerts { tls, key },
            Err(error) => ServerSetup::Failed(error),
        }
    }

    /// Goes on with the certificates. Where clients have to show some, it has to be
    /// configured which are trusted.
    pub fn with_certs(
        tls: TlsConfig,
        key: Vec<u8>,
        certs: Result<Vec<Vec<u8>>, TlsError>,
    ) -> (next: ServerSetup)
        ensures
            next == (match certs {
                Err(error) => ServerSetup::Failed(error),
                Ok(certs) => if tls.client is None {
                    ServerSetup::Ready(ServerIdentity { certs, key, client_roots: None })
                } else {
                    match tls.ca_file {
                        Some(ca_file) => ServerSetup::ReadRoots { ca_file, key, certs },
                        None => ServerSetup::Failed(TlsError::CaFileRequired),
                    }
                },
            }),
    {
        match certs {
            Err(error) => ServerSetup::Failed(error),
            Ok(certs) => {
                if tls.client.is_none() {
                    return ServerSetup::Ready(ServerIdentity { certs, key, client_roots: None });
                }
                match tls.ca_file {
                    Some(ca_file) => ServerSetup::ReadRoots { ca_file, key, certs },
                    None => ServerSetup::Failed(TlsError::CaFileRequired),
                }
            },
        }
    }

    /// Goes on with the authorities for clients.
    pub fn with_roots(
        key: Vec<u8>,
        certs: Vec<Vec<u8>>,
        client_roots: Result<RootCertStore, TlsError>,
    ) -> (next: ServerSetup)
        ensures
            next == (match client_roots {
                Err(error) => ServerSetup::Failed(error),
                Ok(store) => ServerSetup::Ready(
                    ServerIdentity { certs, key, client_roots: Some(store) },
                ),
            }),
    {
        match client_roots {
            Err(error) => ServerSetup::Failed(error),
            Ok(store) => ServerSetup::Ready(
                ServerIdentity { certs, key, client_roots: Some(store) },
            ),
        }
    }

    /// Whether `next` is how the setup goes on with the contents of the file.
    pub open spec fn follows(self, bytes: Seq<u8>, next: ServerSetup) -> bool {
        match self {
            ServerSetup::ReadKey(tls) => match pem::key_in_file(tls.key_file.kind(), bytes) {
                pem::KeyOutcome::Key(found) => {
                    next matches ServerSetup::ReadCerts { tls: kept, key } && kept == tls && key@
                        == found
                },
                pem::KeyOutcome::BadPem => next matches ServerSetup::Failed(TlsError::Pem(_)),
                pem::KeyOutcome::NoKey => next == ServerSetup::Failed(TlsError::NoPrivateKey),
            },
            ServerSetup::ReadCerts { tls, key } => match pem::certs_in_file(
                tls.cert_file.kind(),
                bytes,
            ) {
                None => next matches ServerSetup::Failed(TlsError::Pem(_)),
                Some(found) => if tls.client is None {
                    next matches ServerSetup::Ready(identity) && pem::sections(identity.certs@)
                        == found && identity.key == key && identity.client_roots is None
                } else {
                    match tls.ca_file {
                        None => next == ServerSetup::Failed(TlsError::CaFileRequired),
                        Some(file) => {
                            next matches ServerSetup::ReadRoots { ca_file, key: kept, certs }
                                && ca_file == file && kept == key && pem::sections(certs@) == found
                        },
                    }
                },
            },
            ServerSetup::ReadRoots { ca_file, key, certs } => match trusted(ca_file, bytes) {
                Trusted::BadPem => next matches ServerSetup::Failed(TlsError::Pem(_)),
                Trusted::BadRoot => next matches ServerSetup::Failed(TlsError::Root(_)),
                Trusted::Roots(found) => {
                    next matches ServerSetup::Ready(identity) && identity.certs == certs
                        && identity.key == key && (identity.client_roots matches Some(store)
                        && roots::anchors_of(store) == found)
                },
            },
            _ => next == self,
        }
    }

    /// Goes on with the contents of the file that was wanted. Without such a file
    /// nothing changes.
    pub fn on_read(self, bytes: Vec<u8>) -> (next: ServerSetup)
        ensures
            self.follows(bytes@, next),
    {
        match self {
            ServerSetup::ReadKey(tls) => {
                let key = private_key(&tls.key_file.extension, bytes);
                ServerSetup::with_key(tls, key)
            },
            ServerSetup::ReadCerts { tls, key } => {
                let certs = certificates(&tls.cert_file.extension, bytes);
                ServerSetup::with_certs(tls, key, certs)
            },
            ServerSetup::ReadRoots { ca_file, key, certs } => ServerSetup::with_roots(
                key,
                certs,
                authorities(&ca_file, bytes),
            ),
            other => other,
        }
    }
}

/// What a file of authorities gives.
#[verifier::ext_equal]
pub enum Trusted {
    /// The trust anchors of all certificates in it, in their order.
    Roots(Seq<(Seq<u8>, Seq<u8>, Option<Seq<u8>>)>),
    /// The file is malformed.
    BadPem,
    /// A certificate is malformed.
    BadRoot,
}

/// The authorities in a file.
pub open spec fn trusted(file: ConfigFile, bytes: Seq<u8>) -> Trusted {
    match pem::certs_in_file(file.kind(), bytes) {
        None => Trusted::BadPem,
        Some(certs) => if roots::well_formed(certs) {
            Trusted::Roots(roots::anchors(certs))
        } else {
            Trusted::BadRoot
        },
    }
}

fn authorities(file: &ConfigFile, bytes: Vec<u8>) -> (store: Result<RootCertStore, TlsError>)
    ensures
        match trusted(*file, bytes@) {
            Trusted::Roots(found) => store matches Ok(made) && roots::anchors_of(made) == found,
            Trusted::BadPem => store matches Err(TlsError::Pem(_)),
            Trusted::BadRoot => store matches Err(TlsError::Root(_)),
        },
{
    match certificates(&file.extension, bytes) {
        Err(error) => Err(error),
        Ok(certs) => root_store(certs),
    }
}

/// Which servers a client trusts.
pub enum ServerTrust {
    /// Those with a certificate of one of these authorities.
    Roots(RootCertStore),
    /// All.
    Any,
}

/// Whom a client trusts, and what it shows.
pub struct ClientIdentity {
    pub trust: ServerTrust,
    /// Certificates and their key; `None`: it shows none.
    pub auth: Option<(Vec<Vec<u8>>, Vec<u8>)>,
}

/// The setup of a client. While there is a file to read, its contents are handed to
/// `on_read`.
pub enum ClientSetup {
    /// Connections are in the clear.
    Plaintext,
    /// The authorities for servers are read.
    ReadRoots { ca_file: ConfigFile, shown: Option<TlsClientConfig> },
    /// The certificates that the client shows are read.
    ReadCerts { trust: ServerTrust, client: TlsClientConfig },
    /// Their key is read.
    ReadKey { trust: ServerTrust, certs: Vec<Vec<u8>>, key_file: ConfigFile },
    /// All was read.
    Ready(ClientIdentity),
    /// The setup failed.
    Failed(TlsError),
}

impl ClientSetup {
    /// How a client goes on once it is settled whom it trusts.
    pub open spec fn trusting(trust: ServerTrust, client: Option<TlsClientConfig>) -> ClientSetup {
        match client {
            Some(client) => ClientSetup::ReadCerts { trust, client },
            None => ClientSetup::Ready(ClientIdentity { trust, auth: None }),
        }
    }

    /// How the setup of a client begins. Without authorities it has to be configured
    /// that all servers are trusted.
    pub open spec fn begin(plaintext: bool, tls: Option<TlsConfig>) -> ClientSetup {
        if plaintext {
            ClientSetup::Plaintext
        } else {
            match tls {
                None => ClientSetup::Failed(TlsError::ClientTlsRequired),
                Some(tls) => match tls.ca_file {
                    Some(ca_file) => ClientSetup::ReadRoots { ca_file, shown: tls.client },
                    None => if tls.insecure {
                        ClientSetup::trusting(ServerTrust::Any, tls.client)
                    } else {
                        ClientSetup::Failed(TlsError::InsecureRequired)
                    },
                },
            }
        }
    }

    /// Begins to set up a client.
    pub fn new(plaintext: bool, tls: Option<TlsConfig>) -> (this: ClientSetup)
        ensures
            this == ClientSetup::begin(plaintext, tls),
    {
        if plaintext {
            return ClientSetup::Plaintext;
        }
        match tls {
            None => ClientSetup::Failed(TlsError::ClientTlsRequired),
            Some(tls) => match tls.ca_file {
                Some(ca_file) => ClientSetup::ReadRoots { ca_file, shown: tls.client },
                None => {
                    if !tls.insecure {
                        return ClientSetup::Failed(TlsError::InsecureRequired);
                    }
                    ClientSetup::with_trust(Ok(ServerTrust::Any), tls.client)
                },
            },
        }
    }

    /// Goes on once it is settled whom the client trusts.
    pub fn with_trust(
        trust: Result<ServerTrust, TlsError>,
        client: Option<TlsClientConfig>,
    ) -> (next: ClientSetup)
        ensures
            next == (match trust {
                Ok(trust) => ClientSetup::trusting(trust, client),
                Err(error) => ClientSetup::Failed(error),
            }),
    {
        match trust {
            Err(error) => ClientSetup::Failed(error),
            Ok(trust) => match client {
                Some(client) => ClientSetup::ReadCerts { trust, client },
                None => ClientSetup::Ready(ClientIdentity { trust, auth: None }),
            },
        }
    }

    /// Goes on with the certificates that the client shows.
    pub fn with_certs(
        trust: ServerTrust,
        client: TlsClientConfig,
        certs: Result<Vec<Vec<u8>>, TlsError>,
    ) -> (next: ClientSetup)
        ensures
            next == (match certs {
                Ok(certs) => ClientSetup::ReadKey { trust, certs, key_file: client.key_file },
                Err(error) => ClientSetup::Failed(error),
            }),
    {
        match certs {
            Ok(certs) => ClientSetup::ReadKey { trust, certs, key_file: client.key_file },
            Err(error) => ClientSetup::Failed(error),
        }
    }

    /// Goes on with the key of those certificates.
    pub fn with_key(
        trust: ServerTrust,
        certs: Vec<Vec<u8>>,
        key: Result<Vec<u8>, TlsError>,
    ) -> (next: ClientSetup)
        ensures
            next == (match key {
                Ok(key) => ClientSetup::Ready(ClientIdentity { trust, auth: Some((certs, key)) }),
                Err(error) => ClientSetup::Failed(error),
            }),
    {
        match key {
            Ok(key) => ClientSetup::Ready(ClientIdentity { trust, auth: Some((certs, key)) }),
            Err(error) => ClientSetup::Failed(error),
        }
    }

    /// The file that is read next.
    pub open spec fn next_file(self) -> Option<ConfigFile> {
        match self {
            ClientSetup::ReadRoots { ca_file, .. } => Some(ca_file),
            ClientSetup::ReadCerts { client, .. } => Some(client.cert_file),
            ClientSetup::ReadKey { key_file, .. } => Some(key_file),
            _ => None,
        }
    }

    /// Tells which file to read next, if any.
    pub fn wanted(&self) -> (file: Option<&ConfigFile>)
        ensures
            match file {
                Some(file) => self.next_file() == Some(*file),
                None => self.next_file() is None,
            },
    {
        match self {
            ClientSetup::ReadRoots { ca_file, .. } => Some(ca_file),
            ClientSetup::ReadCerts { client, .. } => Some(&client.cert_file),
            ClientSetup::ReadKey { key_file, .. } => Some(key_file),
            _ => None,
        }
    }

    /// Whether `next` is how the setup goes on with the contents of the file. What
    /// the client shows is PEM, whatever the file is called.
    pub open spec fn follows(self, bytes: Seq<u8>, next: ClientSetup) -> bool {
        match self {
            ClientSetup::ReadRoots { ca_file, shown } => match trusted(ca_file, bytes) {
                Trusted::BadPem => next matches ClientSetup::Failed(TlsError::Pem(_)),
                Trusted::BadRoot => next matches ClientSetup::Failed(TlsError::Root(_)),
                Trusted::Roots(found) => exists|store: RootCertStore|
                    #![trigger roots::anchors_of(store)]
                    roots::anchors_of(store) == found && next == ClientSetup::trusting(
                        ServerTrust::Roots(store),
                        shown,
                    ),
            },
            ClientSetup::ReadCerts { trust, client } => match pem::pem_certs(bytes) {
                None => next matches ClientSetup::Failed(TlsError::Pem(_)),
                Some(found) => {
                    next matches ClientSetup::ReadKey { trust: kept, certs, key_file } && kept
                        == trust && pem::sections(certs@) == found && key_file == client.key_file
                },
            },
            ClientSetup::ReadKey { trust, certs, key_file } => match pem::client_key_in_file(
                bytes,
            ) {
                pem::KeyOutcome::Key(found) => {
                    next matches ClientSetup::Ready(identity) && identity.trust == trust && (
                    identity.auth matches Some(auth) && auth.0 == certs && auth.1@ == found)
                },
                pem::KeyOutcome::BadPem => next matches ClientSetup::Failed(TlsError::Pem(_)),
                pem::KeyOutcome::NoKey => next == ClientSetup::Failed(TlsError::NoClientKey),
            },
            _ => next == self,
        }
    }

    /// Goes on with the contents of the file that was wanted. Without such a file
    /// nothing changes.
    pub fn on_read(self, bytes: Vec<u8>) -> (next: ClientSetup)
        ensures
            self.follows(bytes@, next),
    {
        match self {
            ClientSetup::ReadRoots { ca_file, shown } => match authorities(&ca_file, bytes) {
                Ok(store) => ClientSetup::with_trust(Ok(ServerTrust::Roots(store)), shown),
                Err(error) => ClientSetup::with_trust(Err(error), shown),
            },
            ClientSetup::ReadCerts { trust, client } => ClientSetup::with_certs(
                trust,
                client,
                certificates(&None, bytes),
            ),
            ClientSetup::ReadKey { trust, certs, key_file } => ClientSetup::with_key(
                trust,
                certs,
                client_key(&bytes),
            ),
            other => other,
        }
    }
}

impl ServerSetup {
    /// Whether the server that is set up asks clients for certificates.
    pub open spec fn checks_clients(self) -> bool {
        match self {
            ServerSetup::Plaintext => false,
            ServerSetup::ReadKey(tls) => tls.client is Some,
            ServerSetup::ReadCerts { tls, .. } => tls.client is Some,
            ServerSetup::ReadRoots { .. } => true,
            ServerSetup::Ready(identity) => identity.client_roots is Some,
            ServerSetup::Failed(_) => false,
        }
    }
}

/// A server asks clients for certificates if and only if that is configured: the
/// setup begins so, and goes on so with whatever is read, unless it fails.
pub proof fn law_clients_are_checked(
    tls: TlsConfig,
    setup: ServerSetup,
    bytes: Seq<u8>,
    next: ServerSetup,
)
    requires
        setup.follows(bytes, next),
    ensures
        ServerSetup::begin(false, Some(tls)).checks_clients() <==> tls.client is Some,
        next is Failed || next.checks_clients() == setup.checks_clients(),
{
}

impl ClientSetup {
    /// Whether the client that is set up trusts any server.
    pub open spec fn trusts_any(self) -> bool {
        match self {
            ClientSetup::ReadCerts { trust, .. } => trust is Any,
            ClientSetup::ReadKey { trust, .. } => trust is Any,
            ClientSetup::Ready(identity) => identity.trust is Any,
            _ => false,
        }
    }
}

/// A client trusts any server if and only if that is configured and no authorities
/// are: the setup begins so, and goes on so with whatever is read, unless it fails.
pub proof fn law_insecure_is_explicit(
    tls: TlsConfig,
    setup: ClientSetup,
    bytes: Seq<u8>,
    next: ClientSetup,
)
    requires
        setup.follows(bytes, next),
    ensures
        ClientSetup::begin(false, Some(tls)).trusts_any() <==> tls.insecure && tls.ca_file is None,
        next is Failed || next.trusts_any() == setup.trusts_any(),
{
}

/// A server that is set up has the key of its key file and the certificates of its
/// certificate file, whether or not authorities for clients were read after them.
pub proof fn law_server_identity(
    tls: TlsConfig,
    key_bytes: Seq<u8>,
    keyed: ServerSetup,
    cert_bytes: Seq<u8>,
    certified: ServerSetup,
    ca_bytes: Seq<u8>,
    rooted: ServerSetup,
)
    requires
        ServerSetup::begin(false, Some(tls)).follows(key_bytes, keyed),
        keyed.follows(cert_bytes, certified),
        certified.follows(ca_bytes, rooted),
    ensures
        rooted matches ServerSetup::Ready(identity) ==> {
            &&& pem::key_in_file(tls.key_file.kind(), key_bytes) == pem::KeyOutcome::Key(
                identity.key@,
            )
            &&& pem::certs_in_file(tls.cert_file.kind(), cert_bytes) == Some(
                pem::sections(identity.certs@),
            )
        },
{
}

/// A client that is set up shows the certificates of its certificate file with the key of
/// its key file, if that is configured, and nothing otherwise.
pub proof fn law_client_identity(
    trust: ServerTrust,
    client: TlsClientConfig,
    cert_bytes: Seq<u8>,
    certified: ClientSetup,
    key_bytes: Seq<u8>,
    keyed: ClientSetup,
)
    requires
        ClientSetup::trusting(trust, Some(client)).follows(cert_bytes, certified),
        certified.follows(key_bytes, keyed),
    ensures
        keyed matches ClientSetup::Ready(identity) ==> {
            &&& identity.trust == trust
            &&& identity.auth matches Some(auth) && pem::pem_certs(cert_bytes) == Some(
                pem::sections(auth.0@),
            ) && pem::client_key_in_file(key_bytes) == pem::KeyOutcome::Key(auth.1@)
        },
        ClientSetup::trusting(trust, None) == ClientSetup::Ready(
            ClientIdentity { trust, auth: None },
        ),
{
}

/// Accepts any server: a client that has no authorities to trust uses it.
#[derive(Clone, Copy, Debug, PartialEq, Eq, Structural)]
pub struct SkipServerVerification;

impl SkipServerVerification {
    /// Makes one.
    pub fn new() -> (this: Arc<Self>)
        ensures
            *this == SkipServerVerification,
    {
        Arc::new(SkipServerVerification)
    }

    /// Whether a server that shows this certificate is accepted: it is, whatever it
    /// shows.
    pub fn verify_server_cert(&self, end_entity: &Vec<u8>, intermediates: &Vec<Vec<u8>>) -> (
    accepted: bool)
        ensures
            accepted,
    {
        true
    }
}

/// A server in the clear reads nothing; one that is not needs a configuration, and then reads
/// its key, then its certificates, and then the authorities for clients, if clients have to
/// show certificates. That these are not configured is found out only then.
pub proof fn law_server_reads_in_order(
    tls: TlsConfig,
    any: Option<TlsConfig>,
    setup: ServerSetup,
    bytes: Seq<u8>,
    next: ServerSetup,
)
    requires
        setup.follows(bytes, next),
    ensures
        ServerSetup::begin(true, any) == ServerSetup::Plaintext,
        ServerSetup::begin(false, None) == ServerSetup::Failed(TlsError::ServerTlsRequired),
        ServerSetup::begin(false, Some(tls)).next_file() == Some(tls.key_file),
        ServerSetup::Plaintext.next_file() is None,
        setup matches ServerSetup::ReadKey(own) ==> (next !is Failed ==> next.next_file() == Some(
            own.cert_file,
        )),
        setup matches ServerSetup::ReadCerts { tls: own, .. } && own.client is None ==> next is Ready
            || (next matches ServerSetup::Failed(TlsError::Pem(_))),
        setup matches ServerSetup::ReadCerts { tls: own, .. } && own.client is Some
            && own.ca_file is None ==> next == ServerSetup::Failed(TlsError::CaFileRequired) || (
        next matches ServerSetup::Failed(TlsError::Pem(_))),
        setup matches ServerSetup::ReadCerts { tls: own, .. } ==> (own.client is Some
            && own.ca_file is Some && next !is Failed ==> next.next_file() == own.ca_file),
        setup is ReadRoots ==> next is Ready || next is Failed,
        setup.next_file() is None ==> next == setup,
{
}

/// A client in the clear reads nothing; one that is not needs a configuration, and then reads
/// the authorities for servers, if there are any, and then the certificates and the key that
/// it shows, if it shows any.
pub proof fn law_client_reads_in_order(
    tls: TlsConfig,
    any: Option<TlsConfig>,
    setup: ClientSetup,
    bytes: Seq<u8>,
    next: ClientSetup,
)
    requires
        setup.follows(bytes, next),
    ensures
        ClientSetup::begin(true, any) == ClientSetup::Plaintext,
        ClientSetup::begin(false, None) == ClientSetup::Failed(TlsError::ClientTlsRequired),
        tls.ca_file is Some ==> ClientSetup::begin(false, Some(tls)).next_file() == tls.ca_file,
        tls.ca_file is None && !tls.insecure ==> ClientSetup::begin(false, Some(tls))
            == ClientSetup::Failed(TlsError::InsecureRequired),
        tls.ca_file is None && tls.insecure && tls.client is None ==> (ClientSetup::begin(
            false,
            Some(tls),
        ) matches ClientSetup::Ready(identity) && identity.trust is Any && identity.auth is None),
        tls.ca_file is None && tls.insecure && tls.client is Some ==> ClientSetup::begin(
            false,
            Some(tls),
        ).next_file() == Some(tls.client->0.cert_file),
        setup matches ClientSetup::ReadRoots { shown, .. } && next !is Failed && shown is None ==> (
        next matches ClientSetup::Ready(identity) && identity.auth is None),
        setup matches ClientSetup::ReadRoots { shown, .. } ==> (next !is Failed && shown is Some
            ==> next.next_file() == Some(shown->0.cert_file)),
        setup matches ClientSetup::ReadCerts { client, .. } ==> (next !is Failed
            ==> next.next_file() == Some(client.key_file)),
        setup is ReadKey ==> next is Ready || next is Failed,
        setup.next_file() is None ==> next == setup,
{
}

/// A setup fails on a file only for what is wrong with that file: a malformed text, a key that
/// is not there, an authority that is malformed. With good files it does not fail.
pub proof fn law_failures_are_of_the_file(
    server: ServerSetup,
    server_next: ServerSetup,
    client: ClientSetup,
    client_next: ClientSetup,
    bytes: Seq<u8>,
)
    requires
        server.follows(bytes, server_next),
        client.follows(bytes, client_next),
    ensures
        server matches ServerSetup::ReadKey(tls) ==> (server_next is Failed <==> !(
        pem::key_in_file(tls.key_file.kind(), bytes) is Key)),
        server matches ServerSetup::ReadRoots { ca_file, .. } ==> (server_next is Ready <==> (
        pem::certs_in_file(ca_file.kind(), bytes) matches Some(certs) && forall|i: int|
            0 <= i < certs.len() ==> roots::anchor_in(#[trigger] certs[i]) is Some)),
        client matches ClientSetup::ReadRoots { ca_file, .. } ==> (client_next !is Failed <==> (
        pem::certs_in_file(ca_file.kind(), bytes) matches Some(certs) && forall|i: int|
            0 <= i < certs.len() ==> roots::anchor_in(#[trigger] certs[i]) is Some)),
        client is ReadCerts ==> (client_next is Failed <==> pem::pem_certs(bytes) is None),
        client is ReadKey ==> (client_next is Ready <==> (pem::pkcs8_keys(bytes) matches Some(keys)
            && keys.len() > 0)),
{
}

/// Whom a server or a client trusts are all the authorities in the file for that, each once
/// for every time that it is there, in their order.
pub proof fn law_all_authorities_are_trusted(
    server: ServerSetup,
    server_next: ServerSetup,
    client: ClientSetup,
    client_next: ClientSetup,
    bytes: Seq<u8>,
)
    requires
        server.follows(bytes, server_next),
        client.follows(bytes, client_next),
    ensures
        server matches ServerSetup::ReadRoots { ca_file, .. } ==> (server_next
            matches ServerSetup::Ready(identity) ==> (identity.client_roots matches Some(store)
            && are_anchors_of(
            roots::anchors_of(store),
            pem::certs_in_file(ca_file.kind(), bytes)->0,
        ))),
        client matches ClientSetup::ReadRoots { ca_file, .. } ==> (client_next
            matches ClientSetup::Ready(identity) ==> (identity.trust matches ServerTrust::Roots(
            store,
        ) && are_anchors_of(
            roots::anchors_of(store),
            pem::certs_in_file(ca_file.kind(), bytes)->0,
        ))),
        client matches ClientSetup::ReadRoots { ca_file, .. } ==> (client_next
            matches ClientSetup::ReadCerts { trust, .. } ==> (trust matches ServerTrust::Roots(
            store,
        ) && are_anchors_of(
            roots::anchors_of(store),
            pem::certs_in_file(ca_file.kind(), bytes)->0,
        ))),
{
}

/// Whether these are the trust anchors of just these certificates, in their order.
pub open spec fn are_anchors_of(
    anchors: Seq<(Seq<u8>, Seq<u8>, Option<Seq<u8>>)>,
    certs: Seq<Seq<u8>>,
) -> bool {
    &&& anchors.len() == certs.len()
    &&& forall|i: int|
        0 <= i < certs.len() ==> roots::anchor_in(#[trigger] certs[i]) == Some(anchors[i])
}

} // verus!
