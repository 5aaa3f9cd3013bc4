pub mod byte_strings;
pub mod clock;
pub mod command;
pub mod numeric;
pub mod resp;
pub mod resp_laws;
pub mod server;
pub mod storage;
