use vstd::prelude::*;

verus! {

/// Metadata of a collection of documents.
#[derive(Debug, Clone)]
pub struct CollectionMeta {
    /// The collection's name.
    pub name: String,
}

/// Metadata of a database, a group of collections.
pub struct DBMeta {
    /// The database's name.
    pub name: String,
    /// The directory where the database's data is stored.
    pub path: String,
}

/// A node of a secondary index: internal, pointing at other nodes, or a leaf,
/// pointing at records.
#[derive(Debug, Clone, Copy, PartialEq, Eq, Structural)]
pub enum Node {
    /// A node pointing from key ranges to other nodes.
    Internal(InternalNode),
    /// A node pointing from keys to record ids.
    Leaf(LeafNode),
}

/// An internal node of a secondary index.
#[derive(Debug, Clone, Copy, PartialEq, Eq, Structural)]
pub struct InternalNode;

/// A leaf node of a secondary index.
#[derive(Debug, Clone, Copy, PartialEq, Eq, Structural)]
pub struct LeafNode;

/// The service answering the cluster's internal requests.
#[derive(Debug, Default, Clone, Copy, PartialEq, Eq, Structural)]
pub struct BDBInternalServer;

impl BDBInternalServer {
    /// The internal service.
    pub fn new() -> (r: BDBInternalServer)
        ensures
            r == BDBInternalServer,
    {
        BDBInternalServer
    }
}

/// The service answering clients' database requests.
#[derive(Debug, Default, Clone, Copy, PartialEq, Eq, Structural)]
pub struct BDBDatabaseServer;

impl BDBDatabaseServer {
    /// The database service.
    pub fn new() -> (r: BDBDatabaseServer)
        ensures
            r == BDBDatabaseServer,
    {
        BDBDatabaseServer
    }
}

} // verus!
