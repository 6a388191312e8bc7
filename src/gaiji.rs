use vstd::prelude::*;

use crate::bytes::bytes_eq;

verus! {

/// Replacements for private-use glyph images: image reference to the UTF-8
/// text of the character that stands for it. Each reference appears once.
pub struct Gaiji {
    pub entries: Vec<(Vec<u8>, Vec<u8>)>,
}

impl Gaiji {
    /// No reference appears twice.
    pub open spec fn wf(&self) -> bool {
        forall|i: int, j: int|
            0 <= i < j < self.entries@.len() ==> #[trigger] self.entries@[i].0@
                != #[trigger] self.entries@[j].0@
    }

    /// The replacement registered for `k`, if any.
    pub open spec fn lookup(&self, k: Seq<u8>) -> Option<Seq<u8>> {
        if exists|i: int| 0 <= i < self.entries@.len() && #[trigger] self.entries@[i].0@ == k {
            let i = choose|i: int| 0 <= i < self.entries@.len() && #[trigger] self.entries@[i].0@ == k;
            Some(self.entries@[i].1@)
        } else {
            None
        }
    }

    /// The table as a map from reference to replacement.
    pub open spec fn view_map(&self) -> Map<Seq<u8>, Seq<u8>> {
        Map::new(|k: Seq<u8>| self.lookup(k) is Some, |k: Seq<u8>| self.lookup(k)->Some_0)
    }

    /// An empty table.
    pub fn new() -> (r: Gaiji)
        ensures
            r.wf(),
            forall|k: Seq<u8>| r.lookup(k) is None,
    {
        Gaiji { entries: Vec::new() }
    }

    /// The replacement registered for `k`.
    pub fn get(&self, k: &[u8]) -> (r: Option<&Vec<u8>>)
        requires
            self.wf(),
        ensures
            match (r, self.lookup(k@)) {
                (Some(v), Some(w)) => v@ == w,
                (None, None) => true,
                _ => false,
            },
    {
        let mut i: usize = 0;
        while i < self.entries.len()
            invariant
                self.wf(),
                i <= self.entries@.len(),
                forall|j: int| 0 <= j < i ==> self.entries@[j].0@ != k@,
            decreases self.entries.len() - i,
        {
            if bytes_eq(self.entries[i].0.as_slice(), k) {
                let ghost c = choose|j: int|
                    0 <= j < self.entries@.len() && #[trigger] self.entries@[j].0@ == k@;
                assert(c == i) by {
                    if c < i {
                    } else if c > i {
                        assert(self.entries@[i as int].0@ != self.entries@[c].0@);
                    }
                }
                return Some(&self.entries[i].1);
            }
            i += 1;
        }
        None
    }

    /// Registers `v` for the reference `k`, which has none yet.
    pub fn insert(&mut self, k: Vec<u8>, v: Vec<u8>)
        requires
            old(self).wf(),
            old(self).lookup(k@) is None,
        ensures
            final(self).wf(),
            final(self).lookup(k@) == Some(v@),
            forall|k2: Seq<u8>| k2 != k@ ==> final(self).lookup(k2) == old(self).lookup(k2),
    {
        let ghost kv = k@;
        let ghost vv = v@;
        let ghost n = self.entries@.len();
        self.entries.push((k, v));
        assert(self.entries@[n as int].0@ == kv);
        assert forall|k2: Seq<u8>| k2 != kv implies self.lookup(k2) == old(self).lookup(k2) by {
            if exists|i: int| 0 <= i < old(self).entries@.len() && #[trigger] old(self).entries@[i].0@ == k2 {
                let i = choose|i: int| 0 <= i < old(self).entries@.len() && #[trigger] old(self).entries@[i].0@ == k2;
                assert(self.entries@[i].0@ == k2);
                let c = choose|i: int| 0 <= i < self.entries@.len() && #[trigger] self.entries@[i].0@ == k2;
                assert(c == i) by {
                    if c != i {
                        if c < i {
                            assert(old(self).entries@[c].0@ != old(self).entries@[i].0@);
                        } else if c > i && c < n {
                            assert(old(self).entries@[i].0@ != old(self).entries@[c].0@);
                        }
                    }
                }
            } else {
                assert forall|i: int| 0 <= i < self.entries@.len() implies #[trigger] self.entries@[i].0@ != k2 by {
                    if i < n {
                        assert(old(self).entries@[i].0@ != k2);
                    }
                }
            }
        }
        proof {
            let c = choose|i: int| 0 <= i < self.entries@.len() && #[trigger] self.entries@[i].0@ == kv;
            assert(c == n) by {
                if c < n {
                    assert(old(self).entries@[c].0@ == kv);
                }
            }
        }
    }
}

} // verus!
