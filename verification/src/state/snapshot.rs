//! A session as plain data, to be stored and brought back: taking a snapshot
//! and restoring a session from one.

use crate::bytes::same_bytes;
use crate::ratchet::keys::{ChainKey, RootKey};
use crate::ratchet::step::RatchetKeyPair;
use crate::skipped::{views, SkippedKey, SkippedKeyCache};
use crate::state::model::{
    distinct_entries, distinct_remotes, filed, tracks, valid, RatchetConfig,
    ReceivingView, SendingView, SessionView,
};
use crate::state::validity::lemma_position;
use crate::state::{ReceivingChain, SendingChain, SessionState};
use vstd::prelude::*;

verus! {

/// The sending chain of a snapshot: the private half of the ratchet key pair
/// and the chain key.
#[derive(Clone, Copy, Debug, PartialEq, Eq)]
pub struct SendingSnapshot {
    pub private: [u8; 32],
    pub chain_key: ChainKey,
}

/// All that a session holds, as plain data.
#[derive(Clone, Debug, PartialEq, Eq)]
pub struct SessionSnapshot {
    pub config: RatchetConfig,
    pub local_identity: [u8; 32],
    pub remote_identity: [u8; 32],
    pub root_key: Option<RootKey>,
    pub sending: Option<SendingSnapshot>,
    pub previous_sending_length: u64,
    /// The receiving chains, the oldest first.
    pub receiving: Vec<ReceivingChain>,
    /// The skipped message keys, the oldest first.
    pub skipped: Vec<SkippedKey>,
    /// The remote ratchet keys whose chains were given up.
    pub retired: Vec<[u8; 32]>,
    pub peer_initial: Option<[u8; 32]>,
}

/// The receiving chains of a vector as mathematical values.
pub open spec fn chain_views(chains: Seq<ReceivingChain>) -> Seq<ReceivingView> {
    chains.map_values(|c: ReceivingChain| c@)
}

/// The keys of a vector as byte strings.
pub open spec fn key_views(keys: Seq<[u8; 32]>) -> Seq<Seq<u8>> {
    keys.map_values(|k: [u8; 32]| k@)
}

impl View for SessionSnapshot {
    type V = SessionView;

    open spec fn view(&self) -> SessionView {
        SessionView {
            config: self.config,
            local_identity: self.local_identity@,
            remote_identity: self.remote_identity@,
            root: match self.root_key {
                Some(root) => Some(root@),
                None => None,
            },
            sending: match self.sending {
                Some(s) => Some(SendingView { private: s.private@, chain: s.chain_key@ }),
                None => None,
            },
            previous_length: self.previous_sending_length as nat,
            receiving: chain_views(self.receiving@),
            skipped: views(self.skipped@),
            retired: key_views(self.retired@),
            peer_initial: match self.peer_initial {
                Some(key) => Some(key@),
                None => None,
            },
        }
    }
}

/// A copy of a vector of plain values.
fn copy_of<T: Copy>(source: &Vec<T>) -> (copy: Vec<T>)
    ensures
        copy@ == source@,
{
    let mut copy: Vec<T> = Vec::new();
    let mut i: usize = 0;
    while i < source.len()
        invariant
            i <= source@.len(),
            copy@ == source@.take(i as int),
        decreases source@.len() - i,
    {
        copy.push(source[i]);
        assert(copy@ =~= source@.take(i + 1));
        i += 1;
    }
    assert(copy@ =~= source@);
    copy
}

/// Whether no two chains are filed under the same remote ratchet key.
fn remotes_are_distinct(chains: &Vec<ReceivingChain>) -> (ok: bool)
    ensures
        ok == distinct_remotes(chain_views(chains@)),
{
    let ghost v = chain_views(chains@);
    let mut j: usize = 0;
    while j < chains.len()
        invariant
            j <= chains@.len(),
            v == chain_views(chains@),
            forall|a: int, b: int| 0 <= a < b < j ==> (#[trigger] v[a]).remote != (#[trigger] v[b]).remote,
        decreases chains@.len() - j,
    {
        let mut i: usize = 0;
        while i < j
            invariant
                i <= j < chains@.len(),
                v == chain_views(chains@),
                forall|a: int| 0 <= a < i ==> (#[trigger] v[a]).remote != v[j as int].remote,
            decreases j - i,
        {
            if same_bytes(&chains[i].remote, &chains[j].remote) {
                assert(v[i as int].remote == v[j as int].remote);
                return false;
            }
            i += 1;
        }
        j += 1;
    }
    true
}

/// Whether no chain is filed under a retired key.
fn none_is_retired(chains: &Vec<ReceivingChain>, retired: &Vec<[u8; 32]>) -> (ok: bool)
    ensures
        ok == (forall|i: int|
            0 <= i < chains@.len() ==> !key_views(retired@).contains(
                (#[trigger] chain_views(chains@)[i]).remote,
            )),
{
    let ghost v = chain_views(chains@);
    let ghost r = key_views(retired@);
    let mut i: usize = 0;
    while i < chains.len()
        invariant
            i <= chains@.len(),
            v == chain_views(chains@),
            r == key_views(retired@),
            forall|a: int| 0 <= a < i ==> !r.contains((#[trigger] v[a]).remote),
        decreases chains@.len() - i,
    {
        let mut k: usize = 0;
        while k < retired.len()
            invariant
                k <= retired@.len(),
                i < chains@.len(),
                v == chain_views(chains@),
                r == key_views(retired@),
                forall|b: int| 0 <= b < k ==> r[b] != v[i as int].remote,
            decreases retired@.len() - k,
        {
            if same_bytes(&retired[k], &chains[i].remote) {
                assert(r[k as int] == v[i as int].remote);
                assert(r.contains(v[i as int].remote));
                return false;
            }
            k += 1;
        }
        i += 1;
    }
    true
}

/// Whether every skipped entry belongs to a chain and lies behind its position.
fn entries_are_filed(chains: &Vec<ReceivingChain>, entries: &Vec<SkippedKey>) -> (ok: bool)
    requires
        distinct_remotes(chain_views(chains@)),
    ensures
        ok == (forall|i: int|
            0 <= i < entries@.len() ==> filed(chain_views(chains@), #[trigger] views(entries@)[i])),
{
    let ghost v = chain_views(chains@);
    let ghost e = views(entries@);
    let mut i: usize = 0;
    while i < entries.len()
        invariant
            i <= entries@.len(),
            v == chain_views(chains@),
            e == views(entries@),
            distinct_remotes(v),
            forall|a: int| 0 <= a < i ==> filed(v, #[trigger] e[a]),
        decreases entries@.len() - i,
    {
        let mut k: usize = 0;
        let mut found = false;
        while k < chains.len() && !found
            invariant
                k <= chains@.len(),
                i < entries@.len(),
                v == chain_views(chains@),
                e == views(entries@),
                distinct_remotes(v),
                !found ==> forall|b: int| 0 <= b < k ==> (#[trigger] v[b]).remote != e[i as int].remote,
                found ==> filed(v, e[i as int]),
            decreases chains@.len() - k + (if found { 0int } else { 1int }),
        {
            if same_bytes(&chains[k].remote, &entries[i].remote) {
                proof {
                    lemma_position(v, e[i as int].remote, k as int);
                }
                if (entries[i].keys.index as u64) < chains[k].chain_key.index {
                    found = true;
                } else {
                    assert(!filed(v, e[i as int]));
                    return false;
                }
            } else {
                k += 1;
            }
        }
        if !found {
            assert(!tracks(v, e[i as int].remote));
            assert(!filed(v, e[i as int]));
            return false;
        }
        i += 1;
    }
    true
}

/// Whether no two skipped entries are for the same remote ratchet key and counter.
fn entries_are_distinct(entries: &Vec<SkippedKey>) -> (ok: bool)
    ensures
        ok == distinct_entries(views(entries@)),
{
    let ghost e = views(entries@);
    let mut j: usize = 0;
    while j < entries.len()
        invariant
            j <= entries@.len(),
            e == views(entries@),
            forall|a: int, b: int|
                0 <= a < b < j ==> !((#[trigger] e[a]).remote == (#[trigger] e[b]).remote
                    && e[a].keys.index == e[b].keys.index),
        decreases entries@.len() - j,
    {
        let mut i: usize = 0;
        while i < j
            invariant
                i <= j < entries@.len(),
                e == views(entries@),
                forall|a: int|
                    0 <= a < i ==> !((#[trigger] e[a]).remote == e[j as int].remote
                        && e[a].keys.index == e[j as int].keys.index),
            decreases j - i,
        {
            if entries[i].keys.index == entries[j].keys.index && same_bytes(
                &entries[i].remote,
                &entries[j].remote,
            ) {
                assert(e[i as int].remote == e[j as int].remote && e[i as int].keys.index
                    == e[j as int].keys.index);
                return false;
            }
            i += 1;
        }
        j += 1;
    }
    true
}

impl SessionState {
    /// All that the session holds, as plain data.
    pub fn snapshot(&self) -> (snapshot: SessionSnapshot)
        ensures
            snapshot@ == self@,
    {
        let snapshot = SessionSnapshot {
            config: self.config,
            local_identity: self.local_identity,
            remote_identity: self.remote_identity,
            root_key: self.root_key,
            sending: match self.sending {
                Some(s) => Some(
                    SendingSnapshot { private: s.key_pair.private_key(), chain_key: s.chain_key },
                ),
                None => None,
            },
            previous_sending_length: self.previous_sending_length,
            receiving: copy_of(&self.receiving),
            skipped: self.skipped.entries(),
            retired: copy_of(&self.retired),
            peer_initial: self.peer_initial,
        };
        snapshot
    }

    /// The session a snapshot was taken of. A snapshot that no valid session
    /// can have left is refused.
    pub fn restore(snapshot: &SessionSnapshot) -> (restored: Option<SessionState>)
        ensures
            match restored {
                Some(session) => valid(snapshot@) && session.wf() && session@ == snapshot@,
                None => !valid(snapshot@),
            },
    {
        if snapshot.config.max_receiving_chains < 1 || snapshot.receiving.len()
            > snapshot.config.max_receiving_chains || snapshot.skipped.len()
            > snapshot.config.max_skipped_keys {
            return None;
        }
        if !remotes_are_distinct(&snapshot.receiving) || !none_is_retired(
            &snapshot.receiving,
            &snapshot.retired,
        ) {
            return None;
        }
        if !entries_are_filed(&snapshot.receiving, &snapshot.skipped) || !entries_are_distinct(
            &snapshot.skipped,
        ) {
            return None;
        }
        let mut skipped = SkippedKeyCache::new(snapshot.config.max_skipped_keys);
        skipped.extend(copy_of(&snapshot.skipped));
        assert(skipped@ =~= views(snapshot.skipped@));
        let session = SessionState {
            config: snapshot.config,
            local_identity: snapshot.local_identity,
            remote_identity: snapshot.remote_identity,
            root_key: snapshot.root_key,
            sending: match snapshot.sending {
                Some(s) => Some(
                    SendingChain {
                        key_pair: RatchetKeyPair::generate(&s.private),
                        chain_key: s.chain_key,
                    },
                ),
                None => None,
            },
            previous_sending_length: snapshot.previous_sending_length,
            receiving: copy_of(&snapshot.receiving),
            skipped,
            retired: copy_of(&snapshot.retired),
            peer_initial: snapshot.peer_initial,
        };
        Some(session)
    }

    /// A second session that holds what this one holds, made by the way of a
    /// snapshot: what is stored and brought back is the session that was stored.
    pub fn duplicate(&self) -> (copy: SessionState)
        requires
            self.wf(),
        ensures
            copy.wf(),
            copy@ == self@,
            copy.sending_public() == self.sending_public(),
    {
        let snapshot = self.snapshot();
        proof {
            self.lemma_wf();
        }
        match SessionState::restore(&snapshot) {
            Some(copy) => {
                proof {
                    copy.lemma_wf();
                }
                copy
            },
            None => {
                proof {
                    assert(false);
                }
                SessionState::new(
                    RatchetConfig { max_receiving_chains: 1, max_skip: 0, max_skipped_keys: 0 },
                    self.local_identity,
                    self.remote_identity,
                )
            },
        }
    }
}

} // verus!
