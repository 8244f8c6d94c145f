//! File identities: 20-byte content hashes and file-type tags.

use vstd::prelude::*;

verus! {

/// A 20-byte content hash naming a file blob or a directory entry.
#[derive(Debug, Clone, Copy, PartialEq, Eq, Hash)]
pub struct NodeId {
    bytes: [u8; 20],
}

/// The all-zero node id, used as the parent value when hashing directories.
pub open spec fn null_node() -> Seq<u8> {
    Seq::new(20, |i: int| 0u8)
}

impl View for NodeId {
    type V = Seq<u8>;

    closed spec fn view(&self) -> Seq<u8> {
        self.bytes@
    }
}

impl NodeId {
    /// The null node id: twenty zero bytes.
    pub fn null() -> (r: NodeId)
        ensures
            r@ == null_node(),
    {
        let r = NodeId { bytes: [0u8; 20] };
        proof {
            assert(r@ =~= null_node());
        }
        r
    }

    /// A node id with every byte set to `x`; handy for fixtures.
    pub fn from_u8(x: u8) -> (r: NodeId)
        ensures
            r@ == Seq::new(20, |i: int| x),
    {
        let r = NodeId { bytes: [x; 20] };
        proof {
            assert(r@ =~= Seq::new(20, |i: int| x));
        }
        r
    }

    /// Builds a node id from exactly twenty bytes.
#[verifier::loop_isolation(false)]
    pub fn from_vec(b: &Vec<u8>) -> (r: NodeId)
        requires
            b@.len() == 20,
        ensures
            r@ == b@,
    {
        let mut bytes = [0u8; 20];
        let mut i: usize = 0;
        while i < 20
            invariant
                i <= 20,
                b@.len() == 20,
                forall|k: int| 0 <= k < i ==> bytes@[k] == b@[k],
            decreases 20 - i,
        {
            bytes[i] = b[i];
            i = i + 1;
        }
        let r = NodeId { bytes };
        proof {
            assert(r@ =~= b@);
        }
        r
    }

    /// Byte-for-byte equality of two node ids.
#[verifier::loop_isolation(false)]
    pub fn same(&self, other: &NodeId) -> (r: bool)
        ensures
            r == (self@ == other@),
    {
        let mut i: usize = 0;
        while i < 20
            invariant
                i <= 20,
                forall|k: int| 0 <= k < i ==> self@[k] == other@[k],
            decreases 20 - i,
        {
            if self.bytes[i] != other.bytes[i] {
                return false;
            }
            i = i + 1;
        }
        proof {
            assert(self@ =~= other@);
        }
        true
    }

    /// The raw bytes of this node id.
    pub fn as_array(&self) -> (r: &[u8; 20])
        ensures
            r@ == self@,
    {
        &self.bytes
    }

    /// The bytes of this node id as a fresh vector.
    #[verifier::loop_isolation(false)]
    pub fn to_vec(&self) -> (r: Vec<u8>)
        ensures
            r@ == self@,
    {
        let mut r: Vec<u8> = Vec::new();
        let mut i: usize = 0;
        while i < 20
            invariant
                i <= 20,
                r@ =~= self@.take(i as int),
            decreases 20 - i,
        {
            r.push(self.bytes[i]);
            i = i + 1;
        }
        proof {
            assert(r@ =~= self@);
        }
        r
    }
}

/// The kind of file recorded at a leaf.
#[derive(Debug, Clone, Copy, PartialEq, Eq, Hash)]
pub enum FileType {
    Regular,
    Executable,
    Symlink,
}

/// What a manifest stores for one file: its blob hash and its kind.
#[derive(Debug, Clone, Copy, PartialEq, Eq, Hash)]
pub struct FileMetadata {
    pub node: NodeId,
    pub file_type: FileType,
}

impl FileMetadata {
    pub fn new(node: NodeId, file_type: FileType) -> (r: FileMetadata)
        ensures
            r.node == node,
            r.file_type == file_type,
    {
        FileMetadata { node, file_type }
    }

    /// Metadata for a regular file.
    pub fn regular(node: NodeId) -> (r: FileMetadata)
        ensures
            r.node == node,
            r.file_type == FileType::Regular,
    {
        FileMetadata { node, file_type: FileType::Regular }
    }
}

/// Equality of file metadata values.
pub fn same_meta(a: &FileMetadata, b: &FileMetadata) -> (r: bool)
    ensures
        r == (a == b),
{
    let nodes_equal = a.node.same(&b.node);
    let types_equal = match (a.file_type, b.file_type) {
        (FileType::Regular, FileType::Regular) => true,
        (FileType::Executable, FileType::Executable) => true,
        (FileType::Symlink, FileType::Symlink) => true,
        _ => false,
    };
    proof {
        if a.node@ == b.node@ {
            assert(a.node.bytes =~= b.node.bytes);
            assert(a.node == b.node);
        }
    }
    nodes_equal && types_equal
}

} // verus!
