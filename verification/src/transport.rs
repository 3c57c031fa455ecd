//! The settings of the transport under the connections.

use vstd::prelude::*;

verus! {

/// What is configured of the transport.
#[derive(Clone, Copy, Debug, PartialEq, Eq, Structural)]
pub struct TransportOptions {
    pub idle_timeout_secs: u32,
    pub max_mtu: Option<u16>,
    pub disable_gso: bool,
}

/// How many streams in both directions a peer may have open.
pub const MAX_BIDI_STREAMS: u32 = 32;

/// How many streams in one direction a peer may have open.
pub const MAX_UNI_STREAMS: u32 = 256;

/// The settings of a transport.
#[derive(Clone, Copy, Debug, PartialEq, Eq, Structural)]
pub struct TransportSettings {
    /// A connection on which nothing came for so long is closed.
    pub max_idle_timeout_secs: u64,
    pub max_concurrent_bidi_streams: u32,
    pub max_concurrent_uni_streams: u32,
    /// Packets are of this size from the beginning and on; `None`: it is found out.
    pub fixed_mtu: Option<u16>,
    /// Whether segmentation offload is turned off.
    pub without_segmentation_offload: bool,
    /// After so long without packets one is sent; `None`: never.
    pub keep_alive_interval_secs: Option<u64>,
}

/// The settings that servers and clients share.
pub open spec fn shared_settings(options: TransportOptions) -> TransportSettings {
    TransportSettings {
        max_idle_timeout_secs: options.idle_timeout_secs as u64,
        max_concurrent_bidi_streams: MAX_BIDI_STREAMS,
        max_concurrent_uni_streams: MAX_UNI_STREAMS,
        fixed_mtu: options.max_mtu,
        without_segmentation_offload: options.disable_gso,
        keep_alive_interval_secs: None,
    }
}

/// The settings of a client: it keeps its connections alive.
pub open spec fn client_settings(options: TransportOptions) -> TransportSettings {
    TransportSettings {
        keep_alive_interval_secs: Some((options.idle_timeout_secs / 2) as u64),
        ..shared_settings(options)
    }
}

/// The settings of a server's transport.
pub fn server_transport(options: TransportOptions) -> (settings: TransportSettings)
    ensures
        settings == shared_settings(options),
{
    TransportSettings {
        max_idle_timeout_secs: options.idle_timeout_secs as u64,
        max_concurrent_bidi_streams: MAX_BIDI_STREAMS,
        max_concurrent_uni_streams: MAX_UNI_STREAMS,
        fixed_mtu: options.max_mtu,
        without_segmentation_offload: options.disable_gso,
        keep_alive_interval_secs: None,
    }
}

/// The settings of a client's transport.
pub fn client_transport(options: TransportOptions) -> (settings: TransportSettings)
    ensures
        settings == client_settings(options),
{
    let mut settings = server_transport(options);
    settings.keep_alive_interval_secs = Some(options.idle_timeout_secs as u64 / 2);
    settings
}

/// A client speaks before the connection counts as idle, whatever is configured but a
/// timeout of zero. And the timeout is one that the transport can express: less than
/// 2^62 milliseconds.
pub proof fn law_keep_alive_in_time(options: TransportOptions)
    ensures
        options.idle_timeout_secs > 0 ==> client_settings(options).keep_alive_interval_secs->0
            < shared_settings(options).max_idle_timeout_secs,
        shared_settings(options).max_idle_timeout_secs * 1000 < 0x4000_0000_0000_0000,
{
}

/// A transport is set up just as configured: the timeout, the size of the packets and whether
/// segmentation is left to the network are those of the options, and a peer may have 32
/// streams in both directions and 256 in one. Only a client keeps its connections alive, at
/// half the timeout; in all else it is set up as a server is.
pub proof fn law_as_configured(options: TransportOptions)
    ensures
        shared_settings(options).max_idle_timeout_secs == options.idle_timeout_secs,
        shared_settings(options).max_concurrent_bidi_streams == 32,
        shared_settings(options).max_concurrent_uni_streams == 256,
        shared_settings(options).fixed_mtu == options.max_mtu,
        shared_settings(options).without_segmentation_offload == options.disable_gso,
        shared_settings(options).keep_alive_interval_secs is None,
        client_settings(options).keep_alive_interval_secs matches Some(secs) && secs
            == options.idle_timeout_secs / 2,
        (TransportSettings { keep_alive_interval_secs: None, ..client_settings(options) })
            == shared_settings(options),
{
}

} // verus!
