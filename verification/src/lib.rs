//! Classification of the textual replies of a memcache server, and the
//! rules of the diagnostic sink that accompanies it.

pub mod lexer;
pub mod lines;
pub mod number;
pub mod memcache;
pub mod logger;
