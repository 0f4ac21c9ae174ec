//! A small vault of numeric pins encrypted under one master key with a
//! linear keystream cipher, and an exhaustive key search over such vaults.
pub mod editor;
pub mod pins;
pub mod re;
