//! Plain descriptions of entries, with the same one-line text form as the
//! record entries.

use vstd::prelude::*;

use crate::item::{common_file_line, empty_dir_line, CommonFileView};

verus! {

/// A file's digest, modification time and relative path.
pub struct CommonFileInfo {
    pub md5: String,
    pub mtime: String,
    pub relpath: String,
}

/// An empty directory's relative path.
pub struct EmptyDirInfo {
    pub relpath: String,
}

impl CommonFileInfo {
    /// `mtime md5 relpath`.
    pub fn to_string(&self) -> (line: String)
        ensures
            line@ == common_file_line(
                CommonFileView { md5: self.md5@, mtime: self.mtime@, relpath: self.relpath@ },
            ),
    {
        let mut line = String::new();
        line.append(self.mtime.as_str());
        line.append(" ");
        line.append(self.md5.as_str());
        line.append(" ");
        line.append(self.relpath.as_str());
        proof {
            reveal_strlit(" ");
        }
        line
    }
}

impl EmptyDirInfo {
    /// The empty-directory marker, then the relative path.
    pub fn to_string(&self) -> (line: String)
        ensures
            line@ == empty_dir_line(self.relpath@),
    {
        let mut line = String::new();
        line.append("               empty_directory                ");
        line.append(self.relpath.as_str());
        line
    }
}

} // verus!
