//! Routing a client subnet to its point of presence, over a prefix table that
//! can be changed: each change rebuilds the node table from the prefix set and
//! swaps it in whole.

use vstd::prelude::*;
use crate::error::LcTrieError;
use crate::lc_trie::{LCTrie, MAX_ENTRIES};
use crate::prefix::{leading_bits, prefix_of, Table, KEY_WIDTH};
use crate::table::{
    all_valid, has_duplicate, lemma_table_of_dom, lemma_table_of_push, lemma_table_of_remove, lpm,
    table_of, Entry,
};

verus! {

/// A client subnet: an address as its 128 bits, and how many of its leading
/// bits are meant.
#[derive(Debug, Clone, Copy, PartialEq, Eq, Structural)]
pub struct Ipv6Net {
    pub ip: u128,
    pub prefix_len: usize,
}

/// The prefix set and the node table built from it.
pub struct Data {
    entries: Vec<Entry>,
    lc_trie: LCTrie,
}

impl View for Data {
    type V = Table;

    /// The prefixes that are stored, each with its point of presence.
    closed spec fn view(&self) -> Table {
        self.lc_trie@
    }
}

/// The index of the entry that registers the leading `prefix_len` bits of `key`.
fn find_prefix(entries: &Vec<Entry>, key: u128, prefix_len: usize) -> (found: Option<usize>)
    requires
        all_valid(entries@),
    ensures
        match found {
            Some(i) => i < entries@.len() && entries@[i as int].prefix() == prefix_of(
                key,
                prefix_len as nat,
            ),
            None => !table_of(entries@).dom().contains(prefix_of(key, prefix_len as nat)),
        },
{
    let ghost p = prefix_of(key, prefix_len as nat);
    proof {
        lemma_table_of_dom(entries@, p);
    }
    if prefix_len > KEY_WIDTH {
        return None;
    }
    let bits: u128 = leading_bits(key, prefix_len);
    let mut i: usize = 0;
    while i < entries.len()
        invariant
            i <= entries@.len(),
            all_valid(entries@),
            prefix_len <= 128,
            bits == p.0,
            p == prefix_of(key, prefix_len as nat),
            forall|k: int| 0 <= k < i ==> (#[trigger] entries@[k]).prefix() != p,
        decreases entries@.len() - i,
    {
        let entry = entries[i];
        if entry.prefix_len == prefix_len && leading_bits(entry.key, prefix_len) == bits {
            return Some(i);
        }
        i += 1;
    }
    None
}

/// A copy of the entries.
fn copy_entries(entries: &Vec<Entry>) -> (copy: Vec<Entry>)
    ensures
        copy@ == entries@,
{
    let mut copy: Vec<Entry> = Vec::new();
    let mut i: usize = 0;
    while i < entries.len()
        invariant
            i <= entries@.len(),
            copy@ == entries@.take(i as int),
        decreases entries@.len() - i,
    {
        copy.push(entries[i]);
        proof {
            assert(entries@.take(i + 1) =~= entries@.take(i as int).push(entries@[i as int]));
        }
        i += 1;
    }
    proof {
        assert(entries@.take(i as int) =~= entries@);
    }
    copy
}

impl Data {
    #[verifier::type_invariant]
    spec fn well_formed(&self) -> bool {
        &&& all_valid(self.entries@)
        &&& !has_duplicate(self.entries@)
        &&& self.entries@.len() <= MAX_ENTRIES
        &&& self.lc_trie@ == table_of(self.entries@)
    }

    /// How many prefixes are stored.
    pub closed spec fn spec_len(&self) -> nat {
        self.entries@.len()
    }

    /// How many prefixes are stored.
    pub fn len(&self) -> (count: usize)
        ensures
            count == self.spec_len(),
    {
        self.entries.len()
    }

    /// Takes a finished prefix table into service. An entry longer than a key
    /// refuses it with `InvalidPrefix`; otherwise two entries with the same
    /// prefix refuse it with `DuplicatePrefix`.
    pub fn load_data(entries: Vec<Entry>) -> (loaded: Result<Data, LcTrieError>)
        requires
            entries@.len() <= MAX_ENTRIES,
        ensures
            !all_valid(entries@) ==> loaded == Err::<Data, LcTrieError>(LcTrieError::InvalidPrefix),
            all_valid(entries@) && has_duplicate(entries@) ==> loaded == Err::<Data, LcTrieError>(
                LcTrieError::DuplicatePrefix,
            ),
            all_valid(entries@) && !has_duplicate(entries@) ==> loaded is Ok,
            loaded matches Ok(data) ==> {
                &&& data@ == table_of(entries@)
                &&& data.spec_len() == entries@.len()
            },
    {
        match LCTrie::build(entries.as_slice()) {
            Ok(lc_trie) => Ok(Data { entries, lc_trie }),
            Err(e) => Err(e),
        }
    }

    /// The point of presence for a client subnet: that of the longest stored
    /// prefix among the subnet's leading bits, with that prefix's length.
    pub fn route(&self, ecs: &Ipv6Net) -> (hit: Option<(u16, usize)>)
        ensures
            hit == lpm(self@, ecs.ip, ecs.prefix_len as nat),
    {
        self.lc_trie.lookup(ecs.ip, ecs.prefix_len)
    }

    /// Stores the leading `prefix_len` bits of `key` for `pop_id`. A prefix
    /// longer than a key is refused with `InvalidPrefix`, one that is stored
    /// already with `DuplicatePrefix`; a refusal changes nothing.
    pub fn insert(&mut self, key: u128, prefix_len: usize, pop_id: u16) -> (done: Result<
        (),
        LcTrieError,
    >)
        requires
            old(self).spec_len() < MAX_ENTRIES,
        ensures
            prefix_len > 128 ==> done == Err::<(), LcTrieError>(LcTrieError::InvalidPrefix),
            prefix_len <= 128 && old(self)@.dom().contains(prefix_of(key, prefix_len as nat))
                ==> done == Err::<(), LcTrieError>(LcTrieError::DuplicatePrefix),
            prefix_len <= 128 && !old(self)@.dom().contains(prefix_of(key, prefix_len as nat))
                ==> done is Ok,
            done is Ok ==> {
                &&& final(self)@ == old(self)@.insert(prefix_of(key, prefix_len as nat), pop_id)
                &&& final(self).spec_len() == old(self).spec_len() + 1
            },
            done is Err ==> *final(self) == *old(self),
    {
        proof {
            use_type_invariant(&*self);
        }
        if prefix_len > KEY_WIDTH {
            return Err(LcTrieError::InvalidPrefix);
        }
        let entry = Entry { key, prefix_len, pop_id };
        let mut entries = copy_entries(&self.entries);
        entries.push(entry);
        proof {
            lemma_table_of_push(self.entries@, entry);
        }
        match LCTrie::build(entries.as_slice()) {
            Ok(lc_trie) => {
                *self = Data { entries, lc_trie };
                Ok(())
            },
            Err(e) => Err(e),
        }
    }

    /// Takes the leading `prefix_len` bits of `key` out of the table. A prefix
    /// that is not stored is answered with `NotFound`, and nothing changes.
    pub fn delete(&mut self, key: u128, prefix_len: usize) -> (done: Result<(), LcTrieError>)
        ensures
            old(self)@.dom().contains(prefix_of(key, prefix_len as nat)) ==> done is Ok,
            !old(self)@.dom().contains(prefix_of(key, prefix_len as nat)) ==> done == Err::<
                (),
                LcTrieError,
            >(LcTrieError::NotFound),
            done is Ok ==> {
                &&& final(self)@ == old(self)@.remove(prefix_of(key, prefix_len as nat))
                &&& final(self).spec_len() == old(self).spec_len() - 1
            },
            done is Err ==> *final(self) == *old(self),
    {
        proof {
            use_type_invariant(&*self);
        }
        match find_prefix(&self.entries, key, prefix_len) {
            None => Err(LcTrieError::NotFound),
            Some(i) => {
                let mut entries = copy_entries(&self.entries);
                entries.remove(i);
                proof {
                    lemma_table_of_remove(self.entries@, i as int);
                    lemma_table_of_dom(self.entries@, prefix_of(key, prefix_len as nat));
                }
                let lc_trie = LCTrie::build(entries.as_slice()).unwrap();
                *self = Data { entries, lc_trie };
                Ok(())
            },
        }
    }
}

} // verus!
