//! Writing generated files into the workspace: the path arithmetic is
//! decided here; the file system calls are the surrounding process's
//! business.

use vstd::prelude::*;
use vstd::string::*;

verus! {

/// Why a file operation failed; carries the I/O error's text.
#[derive(Debug, Clone, PartialEq, Eq)]
pub enum WriterError {
    Io(String),
}

impl WriterError {
    /// The human-readable text of this error.
    pub fn message(&self) -> (r: String)
        ensures
            match self {
                WriterError::Io(e) => r@ == "Failed to write file: "@ + e@,
            },
    {
        match self {
            WriterError::Io(e) => {
                let mut out = String::from_str("Failed to write file: ");
                out.append(e.as_str());
                proof {
                    assert(out@ =~= "Failed to write file: "@ + e@);
                }
                out
            },
        }
    }
}

/// The full path of an entry under a workspace: an absolute path stands on
/// its own, a relative one is joined below the workspace with a separator.
pub open spec fn joined_path(workspace: Seq<char>, path: Seq<char>) -> Seq<char> {
    if path.len() > 0 && path[0] == '/' {
        path
    } else {
        workspace + seq!['/'] + path
    }
}

/// Writes files under a workspace directory.
pub struct FileWriter {
    workspace: String,
}

impl FileWriter {
    pub closed spec fn workspace_spec(&self) -> Seq<char> {
        self.workspace@
    }

    /// A writer rooted at the given workspace directory.
    pub fn new(workspace: String) -> (r: FileWriter)
        ensures
            r.workspace_spec() == workspace@,
    {
        FileWriter { workspace }
    }

    /// The full path a relative path lands at inside the workspace.
    pub fn full_path(&self, path: &str) -> (r: String)
        ensures
            r@ == joined_path(self.workspace_spec(), path@),
    {
        let n = path.unicode_len();
        if n > 0 && path.get_char(0) == '/' {
            return String::from_str(path);
        }
        let mut out = self.workspace.clone();
        crate::strutil::push_char(&mut out, '/');
        out.append(path);
        proof {
            assert(out@ =~= self.workspace@ + seq!['/'] + path@);
        }
        out
    }
}

} // verus!
