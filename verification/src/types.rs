use vstd::prelude::*;

use crate::codec::{bytes_eq, clone_bytes};

verus! {

// The key model: node digests, paths, keys, deltas, ancestry records and the
// error surface shared by every store.

/// Width in bytes of a node digest.
pub const NODE_LEN: usize = 20;

/// The all-zero node, standing for "no parent" or "no base".
pub open spec fn spec_null_node() -> Seq<u8> {
    Seq::new(20, |i: int| 0u8)
}

pub open spec fn is_node(s: Seq<u8>) -> bool {
    s.len() == 20
}

/// Paths are raw byte sequences whose length fits the 16-bit length fields of
/// the on-disk formats.
pub open spec fn is_path(s: Seq<u8>) -> bool {
    s.len() <= 0xFFFF
}

/// Build the all-zero node.
pub fn null_node() -> (r: Vec<u8>)
    ensures
        r@ == spec_null_node(),
        is_node(r@),
{
    let mut v: Vec<u8> = Vec::new();
    let mut i: usize = 0;
    while i < 20
        invariant
            i <= 20,
            v@ == spec_null_node().subrange(0, i as int),
        decreases 20 - i,
    {
        v.push(0u8);
        i = i + 1;
        proof {
            assert(v@ =~= spec_null_node().subrange(0, i as int));
        }
    }
    proof {
        assert(spec_null_node().subrange(0, 20) =~= spec_null_node());
    }
    v
}

/// Whether `n` is the all-zero node.
pub fn is_null_node(n: &Vec<u8>) -> (r: bool)
    requires
        is_node(n@),
    ensures
        r == (n@ == spec_null_node()),
{
    let mut i: usize = 0;
    while i < 20
        invariant
            i <= 20,
            n@.len() == 20,
            forall|j: int| 0 <= j < i ==> n@[j] == 0u8,
        decreases 20 - i,
    {
        if n[i] != 0 {
            return false;
        }
        i = i + 1;
    }
    proof {
        assert(n@ =~= spec_null_node());
    }
    true
}

/// A `(path, node)` pair: the identity of one revision of one file.
#[derive(Debug)]
pub struct Key {
    pub path: Vec<u8>,
    pub node: Vec<u8>,
}

#[verifier::ext_equal]
pub struct KeyV {
    pub path: Seq<u8>,
    pub node: Seq<u8>,
}

impl View for Key {
    type V = KeyV;

    open spec fn view(&self) -> KeyV {
        KeyV { path: self.path@, node: self.node@ }
    }
}

impl KeyV {
    pub open spec fn wf(self) -> bool {
        is_node(self.node) && is_path(self.path)
    }
}

impl Key {
    pub open spec fn wf(&self) -> bool {
        self@.wf()
    }

    pub fn new(path: Vec<u8>, node: Vec<u8>) -> (r: Key)
        ensures
            r@ == (KeyV { path: path@, node: node@ }),
    {
        Key { path, node }
    }

    pub fn clone_key(&self) -> (r: Key)
        ensures
            r@ == self@,
    {
        let r = Key { path: clone_bytes(&self.path), node: clone_bytes(&self.node) };
        proof {
            assert(r@ =~= self@);
        }
        r
    }
}

/// Content equality of two keys.
pub fn key_eq(a: &Key, b: &Key) -> (r: bool)
    ensures
        r == (a@ == b@),
{
    let r = bytes_eq(&a.path, &b.path) && bytes_eq(&a.node, &b.node);
    proof {
        if a.path@ == b.path@ && a.node@ == b.node@ {
            assert(a@ =~= b@);
        }
    }
    r
}

/// A data record: full content when `base` is absent, otherwise a binary diff
/// against the content of `base`.
pub struct Delta {
    pub key: Key,
    pub base: Option<Key>,
    pub data: Vec<u8>,
}

#[verifier::ext_equal]
pub struct DeltaV {
    pub key: KeyV,
    pub base: Option<KeyV>,
    pub data: Seq<u8>,
}

impl View for Delta {
    type V = DeltaV;

    open spec fn view(&self) -> DeltaV {
        DeltaV {
            key: self.key@,
            base: match self.base {
                Some(ref k) => Some(k@),
                None => None,
            },
            data: self.data@,
        }
    }
}

impl Delta {
    pub open spec fn wf(&self) -> bool {
        &&& self.key.wf()
        &&& match self.base {
            Some(ref k) => k.wf(),
            None => true,
        }
    }
}

/// The ancestry record of one revision: its two parents, the commit that
/// introduced it, and the rename source if any.
pub struct NodeInfo {
    pub p1: Key,
    pub p2: Key,
    pub linknode: Vec<u8>,
    pub copyfrom: Option<Vec<u8>>,
}

#[verifier::ext_equal]
pub struct NodeInfoV {
    pub p1: KeyV,
    pub p2: KeyV,
    pub linknode: Seq<u8>,
    pub copyfrom: Option<Seq<u8>>,
}

impl View for NodeInfo {
    type V = NodeInfoV;

    open spec fn view(&self) -> NodeInfoV {
        NodeInfoV {
            p1: self.p1@,
            p2: self.p2@,
            linknode: self.linknode@,
            copyfrom: match self.copyfrom {
                Some(ref p) => Some(p@),
                None => None,
            },
        }
    }
}

impl NodeInfoV {
    pub open spec fn wf(self) -> bool {
        &&& self.p1.wf()
        &&& self.p2.wf()
        &&& is_node(self.linknode)
        // A rename source is a file, and a file has a nonempty path: "no
        // source" is spelled by the absent option, never by an empty one.
        &&& match self.copyfrom {
            Some(p) => is_path(p) && p.len() > 0,
            None => true,
        }
    }
}

impl NodeInfo {
    pub open spec fn wf(&self) -> bool {
        self@.wf()
    }

    pub fn clone_info(&self) -> (r: NodeInfo)
        ensures
            r@ == self@,
    {
        let copyfrom = match self.copyfrom {
            Some(ref p) => Some(clone_bytes(p)),
            None => None,
        };
        let r = NodeInfo {
            p1: self.p1.clone_key(),
            p2: self.p2.clone_key(),
            linknode: clone_bytes(&self.linknode),
            copyfrom,
        };
        proof {
            assert(r@ =~= self@);
        }
        r
    }
}

/// The views of a sequence of keys.
pub open spec fn keys_view(ks: Seq<Key>) -> Seq<KeyV> {
    Seq::new(ks.len(), |i: int| ks[i]@)
}

/// The error surface of every store operation.
#[derive(Debug)]
pub enum StoreError {
    /// The key is not present in this store.
    NotFound(Key),
    /// A pack or log file failed a structural or checksum check.
    Corrupt,
    /// A delta base refers to a key that the pack does not hold.
    BrokenChain(Key),
    /// A write that the store rejects, such as a delta with a base handed to
    /// the rotating log.
    InvalidWrite,
    /// An internal invariant would be broken, such as a length field that
    /// cannot hold the value.
    Invariant,
}

impl StoreError {
    pub open spec fn is_not_found(&self) -> bool {
        match self {
            StoreError::NotFound(_) => true,
            _ => false,
        }
    }
}

} // verus!
