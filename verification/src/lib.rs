//! Pairing helpers for Android wireless debugging over adb.

pub mod adb;
pub mod cli;
pub mod error;
pub mod qr;
pub mod qrcode;
pub mod random;
pub mod text;
pub mod workflow;
