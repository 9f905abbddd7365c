//! The command-line surface, as plain data.
//!
//! The surrounding binary parses `argv` with its own types and converts
//! into these; the library sees only the values.
use vstd::prelude::*;

verus! {

/// A parsed invocation.
pub struct Args {
    pub command: Command,
}

/// The commands the tool offers.
pub enum Command {
    Init,
    CatFile(CatFileArgs),
    HashObject(HashObjectArgs),
    LsTree(LsTreeArgs),
    WriteTree,
    CommitTree(CommitTreeArgs),
    Clone(CloneArgs),
}

/// `cat-file -p <object>`.
pub struct CatFileArgs {
    pub object_name: String,
}

/// `hash-object [-w] <file>`.
pub struct HashObjectArgs {
    pub write: bool,
    pub file_path: String,
}

/// `ls-tree [--name-only] <tree>`.
pub struct LsTreeArgs {
    pub name_only: bool,
    pub object_name: String,
}

/// `commit-tree <tree> -m <message> [-p <parent>]`.
pub struct CommitTreeArgs {
    pub tree_name: String,
    pub message: String,
    pub parent_tree: Option<String>,
}

/// `clone <url> <directory>`.
pub struct CloneArgs {
    pub origin: String,
    pub directory: String,
}

} // verus!
