//! The operations the program performs, and their options.

use vstd::prelude::*;

verus! {

/// Which objects a rename touches.
#[derive(Clone, Copy, Debug, PartialEq, Eq)]
pub enum RenameTarget {
    Dirs,
    Files,
    Both,
}

/// How a search decides that an entry matches.
#[derive(Clone, Copy, Debug, PartialEq, Eq)]
pub enum FindMode {
    /// The entry's name contains the pattern.
    FileName,
    /// A line of the file contains the pattern.
    Content,
    /// A line of the file matches the pattern as a regular expression.
    Regexp,
    /// The name of the directory holding the entry occurs more than once in its name.
    Gavriluk,
}

/// How a file is opened to be locked.
#[derive(Clone, Copy, Debug, PartialEq, Eq)]
pub enum LockMode {
    Read,
    Write,
    ReadWrite,
}

} // verus!

verus! {

impl FindMode {
    /// How the mode is named to the user.
    pub fn label(&self) -> (s: &'static str)
        ensures
            s@ == match self {
                FindMode::FileName => "имя файла"@,
                FindMode::Content => "содержимое"@,
                FindMode::Regexp => "регулярное выражение"@,
                FindMode::Gavriluk => "режим Гаврилюка"@,
            },
    {
        match self {
            FindMode::FileName => "имя файла",
            FindMode::Content => "содержимое",
            FindMode::Regexp => "регулярное выражение",
            FindMode::Gavriluk => "режим Гаврилюка",
        }
    }
}

impl LockMode {
    /// Whether the file is opened for reading and for writing.
    pub fn access(&self) -> (r: (bool, bool))
        ensures
            r == match self {
                LockMode::Read => (true, false),
                LockMode::Write => (false, true),
                LockMode::ReadWrite => (true, true),
            },
    {
        match self {
            LockMode::Read => (true, false),
            LockMode::Write => (false, true),
            LockMode::ReadWrite => (true, true),
        }
    }
}

} // verus!

verus! {

/// One run of the program: the operation asked for, with its options.
pub struct Args {
    pub operation: Operation,
}

/// The operations, with the paths they work on as given.
#[allow(inconsistent_fields)]
pub enum Operation {
    /// Make the hidden files under `directory` visible (`force`: rename them on Unix).
    Expose { directory: String, force: bool },
    /// Gather all files under `directory` into `output` (moving them with `move_files`;
    /// with `replace_newest`, a newer file replaces one of the same name).
    Flatten { directory: String, output: Option<String>, move_files: bool, replace_newest: bool },
    /// Replace `find` by `replace` in the names of the entries of kind `target_type`.
    Rename { directory: String, target_type: RenameTarget, find: String, replace: String },
    /// Put the name of each file's directory and `delimiter` in front of its name.
    AddParentDir { directory: String, delimiter: String },
    /// Search under `directory`, writing the results to `output` or to the terminal.
    Find { directory: String, mode: FindMode, pattern: Option<String>, output: Option<String> },
    /// Lock the file at `path` for `timer` seconds (until Esc without one).
    Lock { path: String, timer: Option<u64>, mode: LockMode },
    /// Merge the snapshot directories under `directory` (those matching `from`, or its
    /// direct subdirectories) into `output`.
    Merge { directory: String, output: Option<String>, from: Option<Vec<String>>, move_files: bool },
    /// Draw the tree under `directory`.
    Tree { directory: String, show_content: bool, max_depth: usize, full_content: bool, show_hidden: bool },
}

} // verus!

verus! {

impl RenameTarget {
    /// What the renamed objects are called in "none of ..." and "counting ..." messages.
    pub fn objects_genitive(&self) -> (s: &'static str)
        ensures
            s@ == match self {
                RenameTarget::Dirs => "директорий"@,
                RenameTarget::Files => "файлов"@,
                RenameTarget::Both => "объектов"@,
            },
    {
        match self {
            RenameTarget::Dirs => "директорий",
            RenameTarget::Files => "файлов",
            RenameTarget::Both => "объектов",
        }
    }

    /// What the renamed objects are called at the start of the final count.
    pub fn objects_title(&self) -> (s: &'static str)
        ensures
            s@ == match self {
                RenameTarget::Dirs => "Директорий"@,
                RenameTarget::Files => "Файлов"@,
                RenameTarget::Both => "Объектов"@,
            },
    {
        match self {
            RenameTarget::Dirs => "Директорий",
            RenameTarget::Files => "Файлов",
            RenameTarget::Both => "Объектов",
        }
    }
}

} // verus!
