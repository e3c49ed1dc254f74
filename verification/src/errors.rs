//! What can go wrong while a connection is proxied.
use vstd::prelude::*;

verus! {

#[derive(Clone, Copy, Debug, PartialEq, Eq, Structural)]
pub enum TlsError {
    UnnableToGetBackendServerName,
    UnnableToCreateTlsConnection,
}

#[derive(Clone, Copy, Debug, PartialEq, Eq, Structural)]
pub enum HttpProxyErr {
    UnexpectedHeaderFormat,
    UnsupportedVersion,
    UnsupportedMethod,
    ProxyRuleNotFound,
    UnnableToConnect,
    MaxHeaderSizeExceeded,
    CorruptedClientConnection,
    TlsError(TlsError),
}

} // verus!
