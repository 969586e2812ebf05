//! The settings of the tools.
use vstd::prelude::*;

use crate::text::{append, chars_of, string_from};

verus! {

/// The settings: the projects directory, the monitored server's name, and
/// the port and directory of the file sharing server.
pub struct MyConfig {
    pub dir: String,
    pub server_name: String,
    pub file_sharing_port: u16,
    pub file_sharing_directory: String,
}

impl MyConfig {
    /// The default settings for the home directory `home`: projects under
    /// `home/dev`, no server name, file sharing on port 8080 with no
    /// directory.
    pub fn with_home(home: &str) -> (c: MyConfig)
        ensures
            c.dir@ == home@ + "/dev"@,
            c.server_name@.len() == 0,
            c.file_sharing_port == 8080,
            c.file_sharing_directory@.len() == 0,
    {
        let mut dir = chars_of(home);
        append(&mut dir, &chars_of("/dev"));
        MyConfig {
            dir: string_from(&dir),
            server_name: String::new(),
            file_sharing_port: 8080,
            file_sharing_directory: String::new(),
        }
    }
}

/// Whether `path` starts with a `~` that tilde expansion replaces by the
/// home directory: the `~` alone, or followed by `/`.
pub open spec fn tilde_prefix(path: Seq<char>) -> bool {
    &&& path.len() > 0
    &&& path[0] == '~'
    &&& (path.len() == 1 || path[1] == '/')
}

/// Whether `path` starts with `~\\`, which tilde expansion replaces on
/// Windows only.
pub open spec fn windows_tilde_prefix(path: Seq<char>) -> bool {
    path.len() > 1 && path[0] == '~' && path[1] == '\\'
}

/// `path` with its leading `~` replaced by the home directory `home`, where
/// it starts with such a `~` and a home directory is known; `path` itself
/// otherwise.
pub open spec fn tilde_expansion(path: Seq<char>, home: Option<Seq<char>>) -> Seq<char> {
    if tilde_prefix(path) && home is Some {
        home.unwrap() + path.drop_first()
    } else {
        path
    }
}

/// Calls `shellexpand::tilde_with_context` with `home` as the home
/// directory. Its source replaces a leading `~` that stands alone or is
/// followed by `/` (or, on Windows, by `\\`) by the home directory when
/// there is one, and returns the input unchanged otherwise.
#[verifier::external_body]
pub(crate) fn expand_tilde(path: &str, home: Option<String>) -> (r: String)
    ensures
        r@ == tilde_expansion(path@, home.deep_view()) || (windows_tilde_prefix(path@)
            && home is Some && r@ == home.deep_view().unwrap() + path@.drop_first()),
{
    shellexpand::tilde_with_context(path, move || home).to_string()
}

impl MyConfig {
    /// These settings with a leading `~` of the projects directory expanded
    /// to the home directory `home` (where one is known).
    pub fn expand_dir(self, home: Option<String>) -> (c: MyConfig)
        ensures
            c.server_name == self.server_name,
            c.file_sharing_port == self.file_sharing_port,
            c.file_sharing_directory == self.file_sharing_directory,
            c.dir@ == tilde_expansion(self.dir@, home.deep_view()) || (windows_tilde_prefix(
                self.dir@,
            ) && home is Some && c.dir@ == home.deep_view().unwrap() + self.dir@.drop_first()),
    {
        let dir = expand_tilde(self.dir.as_str(), home);
        MyConfig { dir, ..self }
    }
}

} // verus!
