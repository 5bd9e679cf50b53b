//! The logic of `passkey`: an Android phone's fingerprint as a security key on Linux.

pub mod adb;
pub mod adding;
pub mod bluetooth;
pub mod bytes;
pub mod cbor;
pub mod cli;
pub mod environment;
pub mod exchange;
pub mod hid;
pub mod links;
pub mod number;
pub mod pam;
pub mod pam_config;
pub mod registry;
pub mod registry_laws;
pub mod text;
pub mod uhid;
pub mod unicode;
pub mod wire;
