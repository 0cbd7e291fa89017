//! NymX: anonymous file exchange over the Nym mixnet, the verified core.
use vstd::prelude::*;

pub mod alias;
pub mod config;
pub mod digest;
pub mod get;
pub mod gui;
pub mod icon;
pub mod parts;
pub mod protocol;
pub mod protocol_laws;
pub mod protocol_layout;
pub mod receive;
pub mod receive_laws;
pub mod receiver;
pub mod rounding;
pub mod send;
pub mod send_session;
pub mod ssh;
pub mod string_map;
pub mod text;
pub mod text_laws;
pub mod utils;
pub mod wire;

verus! {

} // verus!
