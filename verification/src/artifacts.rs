//! The artifact store, modeled: named keyed namespaces ("trees") of raw
//! bytes with idempotent overwrite. The pipeline writes init code, the
//! transaction-to-contract mapping, and deployed runtime code here; none of
//! it is transactional with the task store.

use vstd::prelude::*;

verus! {

/// One namespace: raw-byte keys to raw-byte values, last writer wins.
/// Held as a write log; the view is the map the log denotes.
pub struct Tree {
    /// The writes, in order.
    pub entries: Vec<(Vec<u8>, Vec<u8>)>,
}

/// The map a write log denotes: later writes shadow earlier ones.
pub open spec fn spec_tree_map(s: Seq<(Vec<u8>, Vec<u8>)>) -> Map<Seq<u8>, Seq<u8>>
    decreases s.len(),
{
    if s.len() == 0 {
        Map::empty()
    } else {
        spec_tree_map(s.drop_last()).insert(s.last().0@, s.last().1@)
    }
}

impl View for Tree {
    type V = Map<Seq<u8>, Seq<u8>>;

    open spec fn view(&self) -> Map<Seq<u8>, Seq<u8>> {
        spec_tree_map(self.entries@)
    }
}

/// Byte-for-byte equality of two byte vectors.
fn bytes_eq(a: &Vec<u8>, b: &Vec<u8>) -> (r: bool)
    ensures
        r == (a@ == b@),
{
    if a.len() != b.len() {
        return false;
    }
    let mut i: usize = 0;
    while i < a.len()
        invariant
            i <= a.len(),
            a@.len() == b@.len(),
            forall|j: int| 0 <= j < i ==> a@[j] == b@[j],
        decreases a.len() - i,
    {
        if a[i] != b[i] {
            return false;
        }
        i = i + 1;
    }
    proof {
        assert(a@ =~= b@);
    }
    true
}

impl Tree {
    /// An empty namespace.
    pub fn new() -> (r: Tree)
        ensures
            r@ == Map::<Seq<u8>, Seq<u8>>::empty(),
    {
        Tree { entries: Vec::new() }
    }

    /// Write a key: an insert, overwriting any earlier value of the key.
    pub fn insert(&mut self, key: Vec<u8>, value: Vec<u8>)
        ensures
            final(self)@ == old(self)@.insert(key@, value@),
    {
        self.entries.push((key, value));
        proof {
            assert(self.entries@.drop_last() =~= old(self).entries@);
        }
    }

    /// Read a key: the value of its latest write, or `None`.
    pub fn get(&self, key: &Vec<u8>) -> (r: Option<&Vec<u8>>)
        ensures
            match r {
                Some(v) => self@.contains_key(key@) && self@[key@] == v@,
                None => !self@.contains_key(key@),
            },
    {
        let mut i: usize = self.entries.len();
        proof {
            assert(self.entries@.subrange(0, i as int) =~= self.entries@);
        }
        while i > 0
            invariant
                i <= self.entries@.len(),
                spec_tree_map(self.entries@).contains_key(key@) == spec_tree_map(
                    self.entries@.subrange(0, i as int),
                ).contains_key(key@),
                spec_tree_map(self.entries@).contains_key(key@) ==> spec_tree_map(
                    self.entries@,
                )[key@] == spec_tree_map(self.entries@.subrange(0, i as int))[key@],
            decreases i,
        {
            i = i - 1;
            let hit = bytes_eq(&self.entries[i].0, key);
            proof {
                assert(self.entries@.subrange(0, i + 1).drop_last() =~= self.entries@.subrange(
                    0,
                    i as int,
                ));
                assert(self.entries@.subrange(0, i + 1).last() == self.entries@[i as int]);
            }
            if hit {
                return Some(&self.entries[i].1);
            }
        }
        proof {
            assert(self.entries@.subrange(0, 0) =~= Seq::<(Vec<u8>, Vec<u8>)>::empty());
        }
        None
    }
}

/// The three namespaces the pipeline writes.
pub struct ArtifactStore {
    /// Creation input bytes by transaction hash.
    pub init_code: Tree,
    /// Deployed contract address by transaction hash.
    pub tx_contract: Tree,
    /// Deployed runtime code by contract address.
    pub contract: Tree,
}

impl ArtifactStore {
    /// Three empty namespaces.
    pub fn new() -> (r: ArtifactStore)
        ensures
            r.init_code@ == Map::<Seq<u8>, Seq<u8>>::empty(),
            r.tx_contract@ == Map::<Seq<u8>, Seq<u8>>::empty(),
            r.contract@ == Map::<Seq<u8>, Seq<u8>>::empty(),
    {
        ArtifactStore { init_code: Tree::new(), tx_contract: Tree::new(), contract: Tree::new() }
    }
}

} // verus!
