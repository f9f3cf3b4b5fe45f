pub mod delay_message;
