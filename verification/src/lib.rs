//! A recipe book for production chains: parses recipe descriptions, derives
//! the parts that recipes consume and produce, and ranks parts and recipes by
//! how many production steps separate them from raw materials.

pub mod derivation;
pub mod error;
pub mod ingredient;
pub mod inventory;
pub mod laws;
pub mod load;
pub mod manager;
pub mod part;
pub mod ranking;
pub mod recipe;
pub mod text;
pub mod name_map;
