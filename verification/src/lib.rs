//! Core types and contract logic for Pulse smart contracts: account names,
//! token symbols, assets, time, and the decisions made by the token and
//! system contracts.

pub mod name;
pub mod text;
pub mod symbol;
pub mod asset;
pub mod time;
pub mod codec;
pub mod keys;
pub mod authority;
pub mod flags;
pub mod tables;
pub mod store;
pub mod token;
pub mod system;
pub mod msig;
pub mod action;
pub mod dispatch;
pub mod transaction;
pub mod args;
