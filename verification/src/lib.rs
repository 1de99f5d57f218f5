//! Signal protocol sessions: X3DH key agreement, the double ratchet, session
//! records and the message wire format.
#![allow(non_snake_case)]

pub mod chain;
pub mod cipher;
pub mod clock;
pub mod curve;
pub mod delivery;
pub mod kdf;
pub mod laws;
pub mod map;
pub mod proto;
pub mod ratchet;
pub mod session;
pub mod text;
pub mod turn;
pub mod util;
pub mod wire;
pub mod x3dh;
