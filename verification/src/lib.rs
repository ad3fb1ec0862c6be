//! Turns twine-style localization catalogs into string resources for Android and iOS.
//!
//! A catalog is a text of sections, one for each string resource, whose entries give the
//! resource's text in each language, plain or by plural quantity. [`parse`] builds the
//! catalog model from such a text; on the way every text is escaped for XML around the markup
//! that the platforms render ([`escape`]) and its placeholders are normalized
//! ([`placeholder`]). The emitters [`android_gen`] and [`ios_gen`] group the strings of the
//! model by language ([`lines`], [`grouping`]) and render the files to be written. [`file`]
//! compares texts and directory listings, and [`platform`] selects an emitter by name.
//!
//! The library reads and writes no files: it takes texts and hands back texts.

pub mod text;
pub mod placeholder;
pub mod escape;
pub mod grouping;
pub mod parse;
pub mod lines;
pub mod android_gen;
pub mod ios_gen;
pub mod file;
pub mod platform;
