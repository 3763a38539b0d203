pub mod decimal;
pub mod modpack;
pub mod payloads;
pub mod stats;
pub mod text;

pub use modpack::{Modpack, ModpackError};
