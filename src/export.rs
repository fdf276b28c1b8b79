use vstd::prelude::*;
use crate::entry::{has_svg_extension, is_svg_name};
use crate::error::ThemeError;

verus! {

/// What the walk of the source tree met, without following symbolic links.
#[derive(PartialEq, Eq, Structural, Clone, Copy, Debug)]
pub enum EntryKind {
    Symlink,
    Directory,
    File,
}

/// What an export does with one entry of the source tree.
#[derive(PartialEq, Eq, Structural, Clone, Copy, Debug)]
pub enum ExportAction {
    /// Make a link at the destination with the same target, without reading it.
    RecreateSymlink,
    /// Make the directory at the destination.
    CreateDir,
    /// Read the file as text, apply the color mappings, write the result.
    RewriteSvg,
    /// Copy the file byte for byte.
    CopyFile,
}

pub open spec fn action_for(kind: EntryKind, file_name: Seq<char>) -> ExportAction {
    match kind {
        EntryKind::Symlink => ExportAction::RecreateSymlink,
        EntryKind::Directory => ExportAction::CreateDir,
        EntryKind::File => if has_svg_extension(file_name) {
            ExportAction::RewriteSvg
        } else {
            ExportAction::CopyFile
        },
    }
}

/// The action for an entry of this kind and file name.
pub fn export_action(kind: EntryKind, file_name: &str) -> (r: ExportAction)
    ensures
        r == action_for(kind, file_name@),
{
    match kind {
        EntryKind::Symlink => ExportAction::RecreateSymlink,
        EntryKind::Directory => ExportAction::CreateDir,
        EntryKind::File => if is_svg_name(file_name) {
            ExportAction::RewriteSvg
        } else {
            ExportAction::CopyFile
        },
    }
}

/// An export never merges into or overwrites an installed theme: it goes on only
/// where the output directory does not exist yet.
pub fn check_export_target(theme_name: String, output_dir: String, exists: bool) -> (r: Result<
    String,
    ThemeError,
>)
    ensures
        exists <==> r is Err,
        r matches Ok(d) ==> d == output_dir,
        r matches Err(e) ==> e == (ThemeError::AlreadyExists { theme_name, output_dir }),
{
    if exists {
        Err(ThemeError::AlreadyExists { theme_name, output_dir })
    } else {
        Ok(output_dir)
    }
}

/// The outcome of an export.
pub struct ExportResult {
    pub output_dir: String,
    pub svgs_processed: usize,
    pub files_copied: usize,
}

/// The counts an export keeps while it walks.
pub struct ExportTally {
    pub svgs_processed: usize,
    pub files_copied: usize,
}

impl ExportTally {
    pub fn new() -> (r: ExportTally)
        ensures
            r.svgs_processed == 0,
            r.files_copied == 0,
    {
        ExportTally { svgs_processed: 0, files_copied: 0 }
    }

    /// Counts an action once it is done: a rewritten vector file or a copied file;
    /// links and directories are not counted.
    pub fn record(&mut self, action: ExportAction)
        requires
            old(self).svgs_processed < usize::MAX,
            old(self).files_copied < usize::MAX,
        ensures
            final(self).svgs_processed == old(self).svgs_processed + if action
                == ExportAction::RewriteSvg {
                1int
            } else {
                0int
            },
            final(self).files_copied == old(self).files_copied + if action
                == ExportAction::CopyFile {
                1int
            } else {
                0int
            },
    {
        match action {
            ExportAction::RewriteSvg => {
                self.svgs_processed = self.svgs_processed + 1;
            },
            ExportAction::CopyFile => {
                self.files_copied = self.files_copied + 1;
            },
            _ => {},
        }
    }

    pub fn finish(self, output_dir: String) -> (r: ExportResult)
        ensures
            r.output_dir == output_dir,
            r.svgs_processed == self.svgs_processed,
            r.files_copied == self.files_copied,
    {
        ExportResult {
            output_dir,
            svgs_processed: self.svgs_processed,
            files_copied: self.files_copied,
        }
    }
}

} // verus!
