//! Reading, writing and editing the property files in which a saved game
//! keeps its state, together with the rules that keep a party member's
//! skill selections consistent with the skills the member has learned.

pub mod le;
pub mod text;
pub mod varint;
pub mod property;
pub mod format;
pub mod roundtrip;
pub mod skills;
pub mod member;
pub mod xml_tree;
pub mod reading;
