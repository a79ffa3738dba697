pub mod config;
pub mod encoding;
pub mod laws;

pub use config::CharacterSet;
pub use config::Config;
pub use config::spec_standard;
pub use config::standard;
pub use encoding::encode;
pub use encoding::ToBase64;
