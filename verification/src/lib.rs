//! Computes the transitive closure of filesystem artifacts an executable,
//! script, or directory tree needs to run outside its original environment:
//! symlink targets, directory members, script interpreters, dynamically
//! linked libraries, and C-library NSS extensions.

pub mod elfdeps;
pub mod errors;
pub mod nss;
pub mod paths;
pub mod shebang;
pub mod strutil;
pub mod driver;
pub mod version;
