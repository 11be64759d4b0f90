//! Layered circuits of products and the protocol that checks them.
pub mod helper;
pub mod gkr;
pub mod gpc;
pub mod sound;
