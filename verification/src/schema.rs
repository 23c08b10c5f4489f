//! The JSON file that `apply` reads and `backup` writes: a list of operations,
//! each on the entries of one version of one component.

use vstd::prelude::*;

verus! {

/// What an entry of the file asks for.
#[derive(Clone, Copy, Debug, PartialEq, Eq, Structural)]
pub enum Operation {
    Write,
    Read,
    Delete,
}

/// The entries an operation names: the values to write, keyed by entry name, or
/// the names of the entries to read or delete.
#[derive(Debug)]
pub enum EntryContent {
    WriteEntries(Vec<(String, String)>),
    ReadDeleteEntries(Vec<String>),
}

/// One operation of the file, on version `version` of `component`.
#[derive(Debug)]
pub struct Entry {
    pub component: String,
    pub version: u64,
    pub operation: Operation,
    pub entries: EntryContent,
}

/// A file of operations, with the URL of its JSON schema.
#[derive(Debug)]
pub struct ConfigFile {
    pub schema: String,
    pub operations: Vec<Entry>,
}

/// Whether `kvs` names each entry once, as the map it stands for does.
pub open spec fn names_distinct(kvs: Seq<(String, String)>) -> bool {
    forall|j: int, k: int| 0 <= j < k < kvs.len() ==> (#[trigger] kvs[j]).0@ != (#[trigger] kvs[k]).0@
}

/// Whether every write operation of `ops` names each entry once.
pub open spec fn write_names_distinct(ops: Seq<Entry>) -> bool {
    forall|a: int|
        0 <= a < ops.len() ==> match (#[trigger] ops[a]).entries {
            EntryContent::WriteEntries(kvs) => names_distinct(kvs@),
            EntryContent::ReadDeleteEntries(_) => true,
        }
}

} // verus!
