//! A self-hosted Minecraft tunnel that exposes local servers under a stable,
//! per-user subdomain, and routes players by the hostname in their handshake.

pub mod address;
pub mod auth;
pub mod client;
pub mod config;
pub mod crypto;
pub mod frame;
pub mod handshake;
pub mod identity;
pub mod limits;
pub mod listen;
pub mod maps;
pub mod metrics;
pub mod random;
pub mod registry;
pub mod relay;
pub mod server;
pub mod shared;
pub mod text;
pub mod tunnel;
pub mod varint;
