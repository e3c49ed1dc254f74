//! Encrypted connections to backends.
use crate::config::BackendConfig;
use crate::errors::{HttpProxyErr, TlsError};
use rustls::pki_types::ServerName;
use rustls::{ClientConfig, ClientConnection, RootCertStore};
use std::sync::Arc;
use vstd::prelude::*;

verus! {

#[verifier::external_type_specification]
#[verifier::external_body]
pub struct ExServerName<'a>(rustls::pki_types::ServerName<'a>);

#[verifier::external_type_specification]
#[verifier::external_body]
pub struct ExRootCertStore(rustls::RootCertStore);

#[verifier::external_type_specification]
#[verifier::external_body]
pub struct ExClientConfig(rustls::ClientConfig);

#[verifier::external_type_specification]
#[verifier::external_body]
pub struct ExClientConnection(rustls::ClientConnection);

#[verifier::external_type_specification]
#[verifier::external_body]
pub struct ExTlsFailure(rustls::Error);

/// The server name that a text stands for, if it is a DNS name or an IP address.
pub uninterp spec fn server_name_of(host: Seq<char>) -> Option<ServerName<'static>>;

/// A store holds the roots that `webpki_roots` lists, and no others.
pub uninterp spec fn holds_web_roots(roots: RootCertStore) -> bool;

/// The roots that a configuration trusts.
pub uninterp spec fn config_roots(config: ClientConfig) -> RootCertStore;

/// The configuration that a connection goes by.
pub uninterp spec fn connection_config(connection: ClientConnection) -> ClientConfig;

/// The name of the server that a connection is for.
pub uninterp spec fn connection_server(connection: ClientConnection) -> ServerName<'static>;

/// `ServerName::try_from`, of an owned text: the result, its one error aside, depends on the text
/// alone.
#[verifier::external_body]
fn server_name(host: String) -> (name: Option<ServerName<'static>>)
    ensures
        name == server_name_of(host@),
{
    ServerName::try_from(host).ok()
}

/// `RootCertStore::from_iter`, of the roots in `webpki_roots::TLS_SERVER_ROOTS`: the store holds
/// those roots and no others. Which they are is not said: that changes with the version of that
/// library.
#[verifier::external_body]
fn web_roots() -> (roots: RootCertStore)
    ensures
        holds_web_roots(roots),
{
    RootCertStore::from_iter(webpki_roots::TLS_SERVER_ROOTS.iter().cloned())
}

/// The builder of `ClientConfig`, with roots and without a certificate of the client's own: servers
/// are trusted by those roots. Nothing else is said of the configuration: it goes by the
/// cryptography that the process has installed.
#[verifier::external_body]
fn client_config(roots: RootCertStore) -> (config: ClientConfig)
    ensures
        config_roots(config) == roots,
{
    ClientConfig::builder().with_root_certificates(roots).with_no_client_auth()
}

/// A connection that is made is for the server whose name it is given, and goes by the configuration
/// that it is given. Whether it is made is not said: that takes random numbers.
pub assume_specification[ ClientConnection::new ](
    config: Arc<ClientConfig>,
    name: ServerName<'static>,
) -> (connection: Result<ClientConnection, rustls::Error>)
    ensures
        connection matches Ok(connection) ==> {
            &&& connection_server(connection) == name
            &&& connection_config(connection) == *config
        },
;

/// A connection is for a server, and trusts it by the roots that `webpki_roots` lists.
pub open spec fn secures(connection: ClientConnection, name: ServerName<'static>) -> bool {
    &&& connection_server(connection) == name
    &&& holds_web_roots(config_roots(connection_config(connection)))
}

/// A connection that is secured is for the server, and trusts the listed roots.
pub proof fn law_secures(connection: ClientConnection, name: ServerName<'static>)
    ensures
        secures(connection, name) <==> connection_server(connection) == name && holds_web_roots(
            config_roots(connection_config(connection)),
        ),
{
}

/// A connection, or the error of a connection that could not be made.
pub fn created(connection: Result<ClientConnection, rustls::Error>) -> (created: Result<
    ClientConnection,
    HttpProxyErr,
>)
    ensures
        match connection {
            Ok(connection) => created == Ok::<ClientConnection, HttpProxyErr>(connection),
            Err(_) => created == Err::<ClientConnection, HttpProxyErr>(
                HttpProxyErr::TlsError(TlsError::UnnableToCreateTlsConnection),
            ),
        },
{
    match connection {
        Ok(connection) => Ok(connection),
        Err(_) => Err(HttpProxyErr::TlsError(TlsError::UnnableToCreateTlsConnection)),
    }
}

/// The client's side of an encrypted connection to a host. Where the host is no server name, there
/// is none.
pub fn setup_tls_backend_socket(host: &str) -> (connection: Result<ClientConnection, HttpProxyErr>)
    ensures
        match server_name_of(host@) {
            None => connection == Err::<ClientConnection, HttpProxyErr>(
                HttpProxyErr::TlsError(TlsError::UnnableToGetBackendServerName),
            ),
            Some(name) => match connection {
                Ok(connection) => secures(connection, name),
                Err(e) => e == HttpProxyErr::TlsError(TlsError::UnnableToCreateTlsConnection),
            },
        },
{
    let config = client_config(web_roots());
    match server_name(host.to_owned()) {
        Some(name) => created(ClientConnection::new(Arc::new(config), name)),
        None => Err(HttpProxyErr::TlsError(TlsError::UnnableToGetBackendServerName)),
    }
}

/// A connection to a backend: bare, or with the client's side of its encryption.
pub enum BackendStream<S> {
    Raw(S),
    Tls(ClientConnection, S),
}

/// What becomes of a connection to a backend, if it could be made: it is encrypted where the backend
/// asks for that.
pub fn new_backend_stream<S>(connected: Option<S>, backend: &BackendConfig) -> (stream: Result<
    BackendStream<S>,
    HttpProxyErr,
>)
    ensures
        match connected {
            None => stream == Err::<BackendStream<S>, HttpProxyErr>(HttpProxyErr::UnnableToConnect),
            Some(socket) => if !backend@.https {
                stream == Ok::<BackendStream<S>, HttpProxyErr>(BackendStream::Raw(socket))
            } else {
                match server_name_of(backend@.host) {
                    None => stream == Err::<BackendStream<S>, HttpProxyErr>(
                        HttpProxyErr::TlsError(TlsError::UnnableToGetBackendServerName),
                    ),
                    Some(name) => match stream {
                        Ok(BackendStream::Tls(connection, inner)) => secures(connection, name) && inner == socket,
                        Ok(BackendStream::Raw(_)) => false,
                        Err(e) => e == HttpProxyErr::TlsError(TlsError::UnnableToCreateTlsConnection),
                    },
                }
            },
        },
{
    match connected {
        None => Err(HttpProxyErr::UnnableToConnect),
        Some(socket) => if !backend.https {
            Ok(BackendStream::Raw(socket))
        } else {
            match setup_tls_backend_socket(backend.host.as_str()) {
                Ok(connection) => Ok(BackendStream::Tls(connection, socket)),
                Err(e) => Err(e),
            }
        },
    }
}

} // verus!
