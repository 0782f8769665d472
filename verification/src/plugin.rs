//! The plugin handle and its command-line arguments.
use std::path::PathBuf;
use vstd::prelude::*;
use vstd::string::*;

use crate::callbacks::{joined_path, path_join};

verus! {

/// The plugin handle that the command-line and driver binaries run.
pub struct Rust2SeqPlugin;

/// Command-line arguments, handed from the cargo subcommand to the driver.
#[derive(Clone, Debug)]
pub struct Rust2SeqArgs {
    /// Extra arguments forwarded to the underlying `cargo check` (after `--`).
    pub cargo_args: Vec<String>,
}

impl Rust2SeqPlugin {
    /// The name of the driver binary that cargo runs in place of rustc.
    pub fn driver_name(&self) -> (r: &'static str)
        ensures
            r@ == "rust2seq-driver"@,
    {
        "rust2seq-driver"
    }

}

/// The name of the plugin's own target directory for toolchain `channel`.
pub open spec fn plugin_dir_name_spec(channel: Seq<char>) -> Seq<char> {
    "plugin-"@ + channel
}

/// `plugin-<channel>`.
pub fn plugin_dir_name(channel: &str) -> (r: String)
    ensures
        r@ == plugin_dir_name_spec(channel@),
{
    let mut out = String::new();
    out.append("plugin-");
    out.append(channel);
    out
}

/// Where cargo keeps the plugin's per-crate fingerprints under `target_dir`:
/// `<target_dir>/plugin-<channel>/debug/.fingerprint`. Removing it makes the
/// next check run the driver on every crate again.
pub fn fingerprint_dir(target_dir: &PathBuf, channel: &str) -> (r: PathBuf)
    ensures
        r == joined_path(
            joined_path(joined_path(*target_dir, plugin_dir_name_spec(channel@)), "debug"@),
            ".fingerprint"@,
        ),
{
    let plugin = plugin_dir_name(channel);
    let dir = path_join(target_dir, plugin.as_str());
    let debug = path_join(&dir, "debug");
    path_join(&debug, ".fingerprint")
}

} // verus!
