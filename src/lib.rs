//! Packs a directory of static files into a self-contained executable and
//! reads them back at start-up.
//!
//! - [`key`]: canonical lookup keys for asset paths.
//! - [`codec`]: the compression codec behind the asset store.
//! - [`store`]: the keyed, compressed asset store and how it is built.
//! - [`standalone`]: the trailer format, packing and self-extraction.
//! - [`helpers`]: small state shared with the window shell.

pub mod codec;
pub mod helpers;
pub mod key;
pub mod standalone;
pub mod store;
mod text;
