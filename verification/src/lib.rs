//! Release pins in `*.nix` files: finding them, choosing the stale ones,
//! rewriting them, and reporting what was done.

pub mod anchors;
pub mod laws;
pub mod outputs;
pub mod paths;
pub mod pins;
pub mod refs;
pub mod run;
pub mod text;
pub mod version;
