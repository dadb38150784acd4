pub mod ansi;
pub mod colors;
pub mod emitter;
pub mod util;
