//! Screen model, text layout and protocol logic of a console window that
//! hosts a shell process and mirrors it over telnet.

pub mod shell;
pub mod text;
pub mod console;
pub mod windows;
pub mod font;
pub mod telnet;
