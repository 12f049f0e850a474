pub mod bytes_ext;
pub mod commands;
pub mod db;
pub mod decoders;
pub mod numeric;
pub mod protocol;
