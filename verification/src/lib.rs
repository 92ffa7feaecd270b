//! Converters between typed records and a compact binary table layout.
//!
//! A record is an ordered list of named fields. Each field's type text is
//! classified into a closed set of kinds; the kind and the declaration index
//! fix the field's table slot, its place in the commit order, and how its
//! value is written and read back.
//!
//! - [`kind`] classifies type text, [`plan`] assigns slots and the commit
//!   order, [`value`] holds values and the default of each kind.
//! - [`encode`] writes the values of a record in two phases with a
//!   [`builder`], whose output [`image`] describes byte by byte; [`decode`]
//!   reads them back, leniently, from the layout that [`layout`] describes.
//! - [`laws`] and [`room`] state what holds of every record, [`stored`]
//!   what each building step leaves behind.
//! - [`merge`] merges generated source files.

pub mod builder;
pub mod decode;
pub mod encode;
pub mod image;
pub mod kind;
pub mod laws;
pub mod layout;
pub mod merge;
pub mod plan;
pub mod room;
pub mod stored;
pub mod text;
pub mod traits;
pub mod value;
