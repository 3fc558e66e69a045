//! A layered byte-range overlay over an immutable base buffer.
//!
//! Writes never touch the base: every write becomes a [`Patch`], and patches
//! are grouped into [`PatchLayer`]s whose members never overlap. Reading
//! yields the composite content, in which the front-most layer that covers a
//! position decides its byte and the base fills in the rest.
//!
//! ```txt
//! +-----------------+------------+-----------------+-------+----------------------+-------+-----------------+
//! |    chunk 0      |  chunk 1   |    chunk 2      |   3   |       chunk 4        |   5   |     chunk 6     |
//! +-----------------+------------+-----------------+-------+----------------------+-------+-----------------+
//!
//!                                +-----------------+       +----------------------+
//!                                +-----------------+       +----------------------+
//!                   +-------------------+                           +---------------------+
//!                   +-------------------+                           +---------------------+
//! +---------------------------------------------------------------------------------------------------------+
//! +---------------------------------------------------------------------------------------------------------+
//! ```
//!
//! # Usage example
//!
//! ```
//! use memoverlay::{MemOverlay, SeekFrom};
//!
//! let mut overlay = MemOverlay::from("hello, world!".as_bytes().to_vec());
//! overlay.add_bytes_at(7, "peter".as_bytes()).unwrap();
//!
//! let mut message = [0u8; 13];
//! assert_eq!(overlay.read(&mut message), Ok(13));
//! assert_eq!(&message, b"hello, peter!");
//!
//! overlay.seek(SeekFrom::Start(0)).unwrap();
//! overlay.add_bytes_at(1, "a".as_bytes()).unwrap();
//! assert_eq!(overlay.read(&mut message), Ok(13));
//! assert_eq!(&message, b"hallo, peter!");
//! ```
//!
//! # What is proved
//!
//! Every function states what it returns and changes, over the data that a
//! read yields (the view of a [`MemOverlay`]) and over the layers behind it.
//! The module [`memoverlay::theorems`] states what follows for a sequence of
//! writes: when the last write wins, and when an older layer masks it.
pub mod error;
pub mod memoverlay;
pub mod patch;
pub mod patch_layer;
pub mod patch_search_result;
pub mod traits;

pub use error::OverlayError;
pub use memoverlay::seek::{checked_add, SeekFrom};
pub use memoverlay::MemOverlay;
pub use patch::{Patch, PatchView};
pub use patch_layer::PatchLayer;
pub use patch_search_result::PatchSearchResult;
pub use traits::{Contains, SolidPatch};
