//! Media types, also known as MIME types, describe the nature of data. They are
//! used in email to give the file type of attachments and in HTTP to give the
//! type of a resource.
//!
//! There are many RFCs describing media types; the most important one for this
//! crate is RFC 2046, Multipurpose Internet Mail Extensions (MIME) Part Two:
//! Media Types.
//!
//! A media type is parsed from text into a structured value, can be sorted
//! into the type groups of the MIME Sniffing standard, and is written back as
//! a canonical text.

pub mod bytes;
pub mod charset;
pub mod error;
pub mod grammar;
pub mod laws;
pub mod media_type;
pub mod params;
pub mod parse;
pub mod render;
pub mod roundtrip;
pub mod text;
pub mod tokenizer;

pub use charsets::Charset;
pub use crate::error::Error;
pub use crate::media_type::MediaType;
pub use crate::media_type::Tree;
pub use crate::media_type::Tree::{Personal, Private, Standards, Vendor};
pub use crate::media_type::Type;
pub use crate::media_type::Type::{Application, Audio, Image, Message, Model, Multipart, Text, Video};
pub use crate::params::Parameters;
