pub mod dropin;
pub mod error;
pub mod pack;

pub use dropin::File;
pub use error::IoErrorKind;
pub use error::PackError;
pub use pack::backpack::BackPack;
pub use pack::file::RawFile;
pub use pack::in_memory::InMemoryFile;
