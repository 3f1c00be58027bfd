use vstd::prelude::*;
use crate::track::bytes_eq;

verus! {

/// A substate store that keeps every substate in memory, keyed by bytes.
#[derive(Clone, Debug)]
pub struct InMemorySubstateStore {
    pub substates: Vec<(Vec<u8>, Vec<u8>)>,
    pub current_epoch: u64,
    pub nonce: u64,
}

/// The value stored under `k`, if any (the last entry for `k` wins).
pub open spec fn stored(s: Seq<(Vec<u8>, Vec<u8>)>, k: Seq<u8>) -> Option<Seq<u8>>
    decreases s.len(),
{
    if s.len() == 0 {
        None
    } else if s.last().0@ == k {
        Some(s.last().1@)
    } else {
        stored(s.drop_last(), k)
    }
}

/// No key is stored twice.
pub open spec fn keys_unique(s: Seq<(Vec<u8>, Vec<u8>)>) -> bool {
    forall|a: int, b: int| 0 <= a < b < s.len() ==> s[a].0@ != s[b].0@
}

proof fn lemma_stored_update(s: Seq<(Vec<u8>, Vec<u8>)>, i: int, v: (Vec<u8>, Vec<u8>), k: Seq<u8>)
    requires
        keys_unique(s),
        0 <= i < s.len(),
        v.0@ == s[i].0@,
    ensures
        stored(s.update(i, v), k) == if k == s[i].0@ {
            Some(v.1@)
        } else {
            stored(s, k)
        },
    decreases s.len(),
{
    let t = s.update(i, v);
    if i == s.len() - 1 {
        assert(t.drop_last() =~= s.drop_last());
    } else {
        assert(t.drop_last() =~= s.drop_last().update(i, v));
        assert(keys_unique(s.drop_last()));
        lemma_stored_update(s.drop_last(), i, v, k);
        assert(s.last() == s[s.len() - 1]);
        assert(s.last().0@ != s[i].0@);
    }
}

impl InMemorySubstateStore {
    pub fn new() -> (r: InMemorySubstateStore)
        ensures
            r.wf(),
            r.substates@.len() == 0,
            r.current_epoch == 0,
            r.nonce == 0,
    {
        InMemorySubstateStore { substates: Vec::new(), current_epoch: 0, nonce: 0 }
    }

    pub fn get_substate(&self, key: &Vec<u8>) -> (r: Option<&Vec<u8>>)
        ensures
            r is Some == stored(self.substates@, key@) is Some,
            r matches Some(v) ==> stored(self.substates@, key@) == Some(v@),
    {
        let mut i: usize = self.substates.len();
        proof {
            assert(self.substates@.take(i as int) =~= self.substates@);
        }
        while i > 0
            invariant
                i <= self.substates@.len(),
                stored(self.substates@.take(i as int), key@) == stored(self.substates@, key@),
            decreases i,
        {
            proof {
                assert(self.substates@.take(i as int).drop_last() =~= self.substates@.take(i - 1));
                assert(self.substates@.take(i as int).last() == self.substates@[i - 1]);
            }
            if bytes_eq(&self.substates[i - 1].0, key) {
                return Some(&self.substates[i - 1].1);
            }
            i = i - 1;
        }
        proof {
            assert(self.substates@.take(0) =~= Seq::<(Vec<u8>, Vec<u8>)>::empty());
        }
        None
    }

    pub open spec fn wf(&self) -> bool {
        keys_unique(self.substates@)
    }

    /// Stores `substate` under `key`, replacing what was there.
    pub fn put_substate(&mut self, key: Vec<u8>, substate: Vec<u8>)
        requires
            old(self).wf(),
        ensures
            final(self).wf(),
            forall|k: Seq<u8>| #[trigger] stored(final(self).substates@, k) == if k == key@ {
                Some(substate@)
            } else {
                stored(old(self).substates@, k)
            },
            final(self).current_epoch == old(self).current_epoch,
            final(self).nonce == old(self).nonce,
    {
        let ghost s0 = self.substates@;
        let mut i: usize = 0;
        while i < self.substates.len()
            invariant
                self.substates@ == s0,
                s0 == old(self).substates@,
                keys_unique(s0),
                i <= s0.len(),
                forall|j: int| 0 <= j < i ==> s0[j].0@ != key@,
                self.current_epoch == old(self).current_epoch,
                self.nonce == old(self).nonce,
            decreases s0.len() - i,
        {
            if bytes_eq(&self.substates[i].0, &key) {
                self.substates.set(i, (key, substate));
                proof {
                    let s1 = self.substates@;
                    assert forall|a: int, b: int| 0 <= a < b < s1.len() implies s1[a].0@ != s1[b].0@ by {
                        assert(s0[a].0@ != s0[b].0@);
                    }
                    assert forall|k: Seq<u8>| #[trigger] stored(s1, k) == if k == key@ {
                        Some(substate@)
                    } else {
                        stored(s0, k)
                    } by {
                        lemma_stored_update(s0, i as int, s1[i as int], k);
                    }
                }
                return;
            }
            i = i + 1;
        }
        self.substates.push((key, substate));
        proof {
            let s1 = self.substates@;
            assert(s1.drop_last() =~= s0);
            assert forall|a: int, b: int| 0 <= a < b < s1.len() implies s1[a].0@ != s1[b].0@ by {
                if b < s0.len() {
                    assert(s0[a].0@ != s0[b].0@);
                } else {
                    assert(s1[a] == s0[a]);
                }
            }
        }
    }

    pub fn get_epoch(&self) -> (r: u64)
        ensures
            r == self.current_epoch,
    {
        self.current_epoch
    }

    pub fn set_epoch(&mut self, epoch: u64)
        ensures
            *final(self) == (InMemorySubstateStore { current_epoch: epoch, ..*old(self) }),
    {
        self.current_epoch = epoch;
    }

    pub fn get_nonce(&self) -> (r: u64)
        ensures
            r == self.nonce,
    {
        self.nonce
    }

    pub fn increase_nonce(&mut self)
        requires
            old(self).nonce < u64::MAX,
        ensures
            *final(self) == (InMemorySubstateStore { nonce: (old(self).nonce + 1) as u64, ..*old(self) }),
    {
        self.nonce = self.nonce + 1;
    }
}

} // verus!
