//! Bookkeeping for walking an archive's node graph once per node.
use std::collections::HashMap;
use vstd::prelude::*;

use crate::layout::Node;

verus! {

broadcast use vstd::std_specs::hash::group_hash_axioms;

/// Counts files and bytes met while walking an archive, and remembers the
/// nodes already visited so that shared nodes are walked once.
pub struct Walker {
    files: usize,
    bytes: usize,
    visited: HashMap<u64, Vec<Node>>,
}

impl Walker {
    pub closed spec fn file_count(&self) -> usize {
        self.files
    }

    pub closed spec fn byte_count(&self) -> usize {
        self.bytes
    }

    pub fn files(&self) -> (r: usize)
        ensures
            r == self.file_count(),
    {
        self.files
    }

    pub fn bytes(&self) -> (r: usize)
        ensures
            r == self.byte_count(),
    {
        self.bytes
    }

    /// The nodes visited so far.
    pub closed spec fn visited(&self) -> Set<Node> {
        Set::new(|n: Node| self.visited@.contains_key(n.range.offset) && self.visited@[n.range.offset]@.contains(n))
    }

    pub fn new() -> (r: Walker)
        ensures
            r.file_count() == 0,
            r.byte_count() == 0,
            r.visited() == Set::<Node>::empty(),
    {
        let w = Walker { files: 0, bytes: 0, visited: HashMap::new() };
        assert(w.visited() =~= Set::<Node>::empty());
        w
    }

    /// Marks a node visited; true when it had not been visited before.
    pub fn visit(&mut self, n: Node) -> (r: bool)
        ensures
            r == !old(self).visited().contains(n),
            final(self).visited() == old(self).visited().insert(n),
            final(self).file_count() == old(self).file_count(),
            final(self).byte_count() == old(self).byte_count(),
    {
        let key = n.range.offset;
        let found = match self.visited.get(&key) {
            Some(b) => contains_node(b, n),
            None => false,
        };
        if found {
            assert(old(self).visited().contains(n));
            assert(self.visited() =~= old(self).visited().insert(n));
            return false;
        }
        let ghost old_map = self.visited@;
        let mut bucket = match self.visited.remove(&key) {
            Some(b) => b,
            None => Vec::new(),
        };
        let ghost old_bucket = bucket@;
        assert(old_map.contains_key(key) ==> old_bucket == old_map[key]@);
        assert(!old_map.contains_key(key) ==> old_bucket == Seq::<Node>::empty());
        bucket.push(n);
        let ghost nb = bucket@;
        self.visited.insert(key, bucket);
        assert(self.visited() =~= old(self).visited().insert(n)) by {
            assert forall|m: Node| self.visited().contains(m) <==> old(self).visited().contains(m) || m == n by {
                if m.range.offset == key {
                    assert(nb.contains(m) <==> old_bucket.contains(m) || m == n) by {
                        if nb.contains(m) {
                            let j = choose|j: int| 0 <= j < nb.len() && nb[j] == m;
                            if j < old_bucket.len() {
                                assert(old_bucket[j] == m);
                            }
                        }
                        if old_bucket.contains(m) {
                            let j = choose|j: int| 0 <= j < old_bucket.len() && old_bucket[j] == m;
                            assert(nb[j] == m);
                        }
                        if m == n {
                            assert(nb[nb.len() - 1] == m);
                        }
                    };
                }
            }
        };
        true
    }

    /// Counts one file of `len` bytes; both counters saturate.
    pub fn count_file(&mut self, len: usize)
        ensures
            final(self).file_count() == (if old(self).file_count() < usize::MAX { old(self).file_count() + 1 } else { usize::MAX as int }),
            final(self).byte_count() == (if old(self).byte_count() + len <= usize::MAX { old(self).byte_count() + len } else { usize::MAX as int }),
            final(self).visited() == old(self).visited(),
    {
        self.files = self.files.saturating_add(1);
        self.bytes = self.bytes.saturating_add(len);
    }
}

fn contains_node(b: &Vec<Node>, n: Node) -> (r: bool)
    ensures
        r == b@.contains(n),
{
    let mut i: usize = 0;
    while i < b.len()
        invariant
            i <= b@.len(),
            forall|j: int| 0 <= j < i ==> b@[j] != n,
        decreases b@.len() - i,
    {
        if b[i] == n {
            return true;
        }
        i = i + 1;
    }
    false
}

} // verus!
