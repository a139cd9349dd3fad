//! Verified core of the nemo messenger: privacy transport timing, the
//! application plaintext codec, origin and SDP parsing, and the delivery rules
//! of the home server.

pub mod error;
pub mod rng;
pub mod privacy;
pub mod cbor;
pub mod ice;
pub mod ids;
pub mod hex;
pub mod app;
pub mod call;
pub mod tor;
pub mod home;
pub mod home_state;
pub mod keyed;
pub mod display;
pub mod signal_image;
pub mod vault_lists;
pub mod discovery;
pub mod invite;
pub mod snapshot;
pub mod keymap;
pub mod group_host;
pub mod home_server;
pub mod mailbox;
pub mod group;
pub mod ffi;
pub mod server;
pub mod federation;
pub mod turn;
pub mod audio;
pub mod vault;
pub mod device_bind;
pub mod identity;
pub mod session;
