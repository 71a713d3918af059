pub mod config;
pub mod file;

pub use config::Config;
pub use config::OpenPolicy;
pub use file::File;
pub use file::Opened;
