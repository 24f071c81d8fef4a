//! Verified core of a Telegram MTProto WebSocket bridge proxy: the data-centre
//! address tables and their parsers, the connection-budget arithmetic, and the
//! small state updates that the proxy and its window perform.

pub mod text;
pub mod json;
pub mod dc_updater;
pub mod limits;
pub mod stats;
pub mod banner;
