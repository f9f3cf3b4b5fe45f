pub mod byte_order;
pub mod db_server;
pub mod hex;
pub mod key_text;
pub mod lifecycle;
pub mod namespace;
