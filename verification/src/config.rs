//! The read-only configuration records the service is started with, as
//! plain values. Loading them from the environment is the caller's
//! business; the library only consumes them.
use vstd::prelude::*;

verus! {

/// The REST endpoints of the exchanges that offer one.
#[derive(Clone, Debug)]
pub struct Apis {
    pub binance: String,
}

/// One exchange's connection settings: its REST endpoint, whether it is
/// enabled, its streaming endpoint, and the keepalive period (seconds)
/// its connection wants.
#[derive(Clone, Debug)]
pub struct Exchange {
    pub api: String,
    pub enable: bool,
    pub websocket: String,
    pub ping_period: u16,
    pub period: Option<String>,
}

/// The settings of both exchanges.
#[derive(Clone, Debug)]
pub struct Exchanges {
    pub binance: Exchange,
    pub bitstamp: Exchange,
}

} // verus!
