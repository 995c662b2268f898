//! Staple checklist: merges the most played cards of a format from several
//! sources, joins them with the owned collection and ranks what is still
//! missing.

pub mod cache;
pub mod card;
pub mod card_name;
pub mod checklist;
pub mod collection;
pub mod decimal;
pub mod deckbuilder;
pub mod digits;
pub mod format;
pub mod html;
pub mod rank;
pub mod staples;
pub mod stats;
pub mod table;
pub mod text;
