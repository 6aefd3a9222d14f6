pub mod deployer;
pub mod order;
pub mod paths;
pub mod text;
pub mod dictionary;
pub mod yaml;
pub mod save;
pub mod preferences;
