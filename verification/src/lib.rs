pub mod bytes_ext;
pub mod data;
pub mod db;
pub mod errors;
pub mod index;
