use vstd::prelude::*;

verus! {

/// Why a scan or an export stopped.
#[derive(Debug)]
pub enum ThemeError {
    /// The path to scan is not a directory.
    NotADirectory { path: String },
    /// Walking the directory tree failed.
    Traversal { message: String },
    /// Reading, writing, copying, linking or creating a path failed.
    Io { path: String, message: String },
    /// A theme of that name is installed already.
    AlreadyExists { theme_name: String, output_dir: String },
    /// The user's home directory, under which themes are installed, is unknown.
    HomeDirUnavailable,
    /// This platform cannot create a symbolic link.
    SymlinkUnsupported { path: String },
}

} // verus!
