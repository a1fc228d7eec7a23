//! The bounded store of message keys that were derived ahead of the messages
//! they belong to. Entries are kept in the order they were created; when the
//! store is over its capacity the oldest leave first.

use crate::bytes::same_bytes;
use crate::ratchet::keys::{MessageKeys, MessageKeysView};
use vstd::prelude::*;

verus! {

/// An entry of the store as a mathematical value: the remote ratchet key the
/// message keys are filed under, and the keys.
pub ghost struct SkippedView {
    pub remote: Seq<u8>,
    pub keys: MessageKeysView,
}

/// An entry of the store.
#[derive(Clone, Copy, Debug, PartialEq, Eq)]
pub struct SkippedKey {
    pub remote: [u8; 32],
    pub keys: MessageKeys,
}

impl View for SkippedKey {
    type V = SkippedView;

    open spec fn view(&self) -> SkippedView {
        SkippedView { remote: self.remote@, keys: self.keys@ }
    }
}

/// The entries of a vector as mathematical values.
pub open spec fn views(entries: Seq<SkippedKey>) -> Seq<SkippedView> {
    entries.map_values(|e: SkippedKey| e@)
}

/// Whether an entry is the one for a remote ratchet key and a message index.
pub open spec fn is_for(entry: SkippedView, remote: Seq<u8>, index: nat) -> bool {
    entry.remote == remote && entry.keys.index == index
}

/// Whether some entry is for the remote ratchet key and the message index.
pub open spec fn holds(entries: Seq<SkippedView>, remote: Seq<u8>, index: nat) -> bool {
    exists|i: int| 0 <= i < entries.len() && is_for(#[trigger] entries[i], remote, index)
}

/// Whether position `i` is that of the oldest entry for the remote ratchet key
/// and the message index.
pub open spec fn is_first_for(entries: Seq<SkippedView>, remote: Seq<u8>, index: nat, i: int) -> bool {
    &&& 0 <= i < entries.len()
    &&& is_for(entries[i], remote, index)
    &&& forall|j: int| 0 <= j < i ==> !is_for(#[trigger] entries[j], remote, index)
}

/// The position of the oldest entry for the remote ratchet key and the message index.
pub open spec fn first_for(entries: Seq<SkippedView>, remote: Seq<u8>, index: nat) -> int {
    choose|i: int| is_first_for(entries, remote, index, i)
}

/// The newest `capacity` entries, all of them if there are no more.
pub open spec fn keep_newest(entries: Seq<SkippedView>, capacity: nat) -> Seq<SkippedView> {
    if entries.len() <= capacity {
        entries
    } else {
        entries.subrange(entries.len() - capacity, entries.len() as int)
    }
}

/// The entries that are not filed under `remote`, in their order.
pub open spec fn without_remote(entries: Seq<SkippedView>, remote: Seq<u8>) -> Seq<SkippedView> {
    entries.filter(|e: SkippedView| e.remote != remote)
}

/// Two positions that both are the oldest for a key and an index are the same.
pub proof fn lemma_first_for_unique(entries: Seq<SkippedView>, remote: Seq<u8>, index: nat, i: int)
    requires
        is_first_for(entries, remote, index, i),
    ensures
        holds(entries, remote, index),
        first_for(entries, remote, index) == i,
{
    let c = first_for(entries, remote, index);
    assert(is_first_for(entries, remote, index, c));
    if c < i {
        assert(!is_for(entries[c], remote, index));
    }
    if i < c {
        assert(!is_for(entries[i], remote, index));
    }
}

/// The store of skipped message keys.
#[derive(Clone, Debug, PartialEq, Eq)]
pub struct SkippedKeyCache {
    entries: Vec<SkippedKey>,
    capacity: usize,
}

impl View for SkippedKeyCache {
    type V = Seq<SkippedView>;

    closed spec fn view(&self) -> Seq<SkippedView> {
        views(self.entries@)
    }
}

impl SkippedKeyCache {
    /// The most entries the store keeps.
    pub closed spec fn bound(&self) -> nat {
        self.capacity as nat
    }

    /// The store is within its capacity.
    pub closed spec fn wf(&self) -> bool {
        self.entries@.len() <= self.capacity
    }

    /// What `wf` says, over the view.
    pub proof fn lemma_wf(&self)
        ensures
            self.wf() <==> self@.len() <= self.bound(),
    {
    }

    /// An empty store that keeps at most `capacity` entries.
    pub fn new(capacity: usize) -> (cache: SkippedKeyCache)
        ensures
            cache.wf(),
            cache@ == Seq::<SkippedView>::empty(),
            cache.bound() == capacity,
    {
        let cache = SkippedKeyCache { entries: Vec::new(), capacity };
        assert(cache@ =~= Seq::<SkippedView>::empty());
        cache
    }

    /// The number of entries.
    pub fn len(&self) -> (n: usize)
        ensures
            n == self@.len(),
    {
        self.entries.len()
    }

    /// The most entries the store keeps.
    pub fn capacity(&self) -> (n: usize)
        ensures
            n == self.bound(),
    {
        self.capacity
    }

    /// The entry at position `i`, counted from the oldest.
    pub fn entry(&self, i: usize) -> (e: SkippedKey)
        requires
            i < self@.len(),
        ensures
            e@ == self@[i as int],
    {
        self.entries[i]
    }

    /// All entries, the oldest first.
    pub fn entries(&self) -> (all: Vec<SkippedKey>)
        ensures
            views(all@) == self@,
    {
        let mut all: Vec<SkippedKey> = Vec::new();
        let mut i: usize = 0;
        while i < self.entries.len()
            invariant
                i <= self.entries@.len(),
                all@ == self.entries@.take(i as int),
            decreases self.entries@.len() - i,
        {
            all.push(self.entries[i]);
            assert(all@ =~= self.entries@.take(i + 1));
            i += 1;
        }
        assert(all@ =~= self.entries@);
        all
    }

    /// The position of the oldest entry for a remote ratchet key and a message index.
    fn position(&self, remote: &[u8; 32], index: u32) -> (found: Option<usize>)
        ensures
            match found {
                Some(i) => is_first_for(self@, remote@, index as nat, i as int),
                None => !holds(self@, remote@, index as nat),
            },
    {
        let mut i: usize = 0;
        while i < self.entries.len()
            invariant
                i <= self.entries@.len(),
                forall|j: int| 0 <= j < i ==> !is_for(#[trigger] self@[j], remote@, index as nat),
            decreases self.entries@.len() - i,
        {
            let e = &self.entries[i];
            if e.keys.index == index && same_bytes(&e.remote, remote) {
                return Some(i);
            }
            i += 1;
        }
        None
    }

    /// Whether the store holds keys for a remote ratchet key and a message index.
    pub fn contains(&self, remote: &[u8; 32], index: u32) -> (found: bool)
        ensures
            found == holds(self@, remote@, index as nat),
    {
        match self.position(remote, index) {
            Some(i) => {
                proof {
                    lemma_first_for_unique(self@, remote@, index as nat, i as int);
                }
                true
            },
            None => false,
        }
    }

    /// Hands out the keys for a remote ratchet key and a message index and
    /// removes them from the store, so that they are used once. Where several
    /// entries fit, the oldest is taken.
    pub fn take(&mut self, remote: &[u8; 32], index: u32) -> (taken: Option<MessageKeys>)
        requires
            old(self).wf(),
        ensures
            final(self).wf(),
            final(self).bound() == old(self).bound(),
            match taken {
                Some(keys) => {
                    &&& holds(old(self)@, remote@, index as nat)
                    &&& keys@ == old(self)@[first_for(old(self)@, remote@, index as nat)].keys
                    &&& final(self)@ == old(self)@.remove(
                        first_for(old(self)@, remote@, index as nat),
                    )
                },
                None => !holds(old(self)@, remote@, index as nat) && final(self)@ == old(self)@,
            },
    {
        match self.position(remote, index) {
            Some(i) => {
                proof {
                    lemma_first_for_unique(self@, remote@, index as nat, i as int);
                }
                let e = self.entries.remove(i);
                assert(self@ =~= old(self)@.remove(i as int));
                Some(e.keys)
            },
            None => None,
        }
    }

    /// Adds entries, the oldest first, and then lets the oldest entries of the
    /// store go until it is within its capacity again.
    pub fn extend(&mut self, run: Vec<SkippedKey>)
        requires
            old(self).wf(),
        ensures
            final(self).wf(),
            final(self).bound() == old(self).bound(),
            final(self)@ == keep_newest(old(self)@ + views(run@), old(self).bound()),
    {
        let mut pending = run;
        self.entries.append(&mut pending);
        assert(self@ =~= old(self)@ + views(run@));
        let len = self.entries.len();
        if len > self.capacity {
            let kept = self.entries.split_off(len - self.capacity);
            self.entries = kept;
            assert(self@ =~= keep_newest(old(self)@ + views(run@), old(self).bound()));
        }
    }

    /// Removes every entry that is filed under `remote`.
    pub fn forget_remote(&mut self, remote: &[u8; 32])
        requires
            old(self).wf(),
        ensures
            final(self).wf(),
            final(self).bound() == old(self).bound(),
            final(self)@ == without_remote(old(self)@, remote@),
    {
        let ghost keep = |e: SkippedView| e.remote != remote@;
        let mut kept: Vec<SkippedKey> = Vec::new();
        let mut i: usize = 0;
        assert(self@.take(0) =~= Seq::<SkippedView>::empty());
        assert(views(kept@) =~= Seq::<SkippedView>::empty());
        proof {
            reveal(Seq::filter);
        }
        assert(Seq::<SkippedView>::empty().filter(keep) =~= Seq::<SkippedView>::empty());
        while i < self.entries.len()
            invariant
                i <= self.entries@.len(),
                keep == |e: SkippedView| e.remote != remote@,
                views(kept@) == self@.take(i as int).filter(keep),
                kept@.len() <= i,
            decreases self.entries@.len() - i,
        {
            let e = self.entries[i];
            proof {
                self@.take(i as int).lemma_filter_push(e@, keep);
                assert(self@.take(i as int).push(e@) =~= self@.take(i + 1));
            }
            if !same_bytes(&e.remote, remote) {
                kept.push(e);
                assert(views(kept@) =~= self@.take(i as int).filter(keep).push(e@));
            }
            i += 1;
        }
        assert(self@.take(i as int) =~= self@);
        self.entries = kept;
    }
}

} // verus!
