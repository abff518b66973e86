//! Codec for the Sharecart1000 save record: two map coordinates of ten bits,
//! four free 16-bit numbers, a player name and eight switches, kept as the
//! `[Main]` section of an INI text.
//!
//! `Sharecart::from_str` decodes a text and never fails: whatever cannot be
//! read falls back to its default, field by field, and a text that is no INI
//! document, or has no main section, gives the record of all defaults. The
//! section is looked up as `Main` and then as `main`; keys and the word `true`
//! are matched without regard to ASCII case. `Sharecart::to_string` encodes a
//! record in one fixed form.
//!
//! Tokenizing the text is left to the `ini` crate (module `document`). All
//! that follows it is verified: module `record` holds the record and both
//! conversions, `text` and `repair` the handling of numbers, words and names,
//! and `laws` what holds of the codec as a whole.

pub mod document;
pub mod laws;
pub mod record;
pub mod repair;
pub mod text;

pub use record::Sharecart;
