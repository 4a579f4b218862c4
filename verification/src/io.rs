pub mod buf;
