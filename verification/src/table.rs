//! Tables of prefixes as mathematical maps, and the longest match of a query.

use vstd::prelude::*;
use crate::prefix::{prefix_of, top_bits, PrefixId, Table};

verus! {

/// One record of the prefix table: the leading `prefix_len` bits of `key` are
/// served by the point of presence `pop_id`.
#[derive(Debug, Clone, Copy, PartialEq, Eq, Structural)]
pub struct Entry {
    pub key: u128,
    pub prefix_len: usize,
    pub pop_id: u16,
}

impl Entry {
    /// The prefix that this entry registers.
    pub open spec fn prefix(self) -> PrefixId {
        prefix_of(self.key, self.prefix_len as nat)
    }

    /// The entry's prefix is among the leading `query_len` bits of `key`.
    pub open spec fn matches(self, key: u128, query_len: nat) -> bool {
        &&& self.prefix_len <= query_len
        &&& top_bits(self.key, self.prefix_len as nat) == top_bits(key, self.prefix_len as nat)
    }
}

/// No entry is longer than a key.
pub open spec fn all_valid(entries: Seq<Entry>) -> bool {
    forall|i: int| 0 <= i < entries.len() ==> (#[trigger] entries[i]).prefix_len <= 128
}

/// Two entries register the same prefix.
pub open spec fn has_duplicate(entries: Seq<Entry>) -> bool {
    exists|i: int, j: int|
        0 <= i < j < entries.len() && (#[trigger] entries[i]).prefix() == (
        #[trigger] entries[j]).prefix()
}

/// The table that a sequence of entries makes.
pub open spec fn table_of(entries: Seq<Entry>) -> Table
    decreases entries.len(),
{
    if entries.len() == 0 {
        Map::empty()
    } else {
        table_of(entries.drop_last()).insert(entries.last().prefix(), entries.last().pop_id)
    }
}

/// The sum of the entries' prefix lengths.
pub open spec fn total_prefix_len(entries: Seq<Entry>) -> nat
    decreases entries.len(),
{
    if entries.len() == 0 {
        0
    } else {
        total_prefix_len(entries.drop_last()) + entries.last().prefix_len as nat
    }
}

/// A prefix is in the table of a sequence exactly if an entry registers it.
pub proof fn lemma_table_of_dom(entries: Seq<Entry>, p: PrefixId)
    ensures
        table_of(entries).dom().contains(p) <==> exists|i: int|
            0 <= i < entries.len() && (#[trigger] entries[i]).prefix() == p,
    decreases entries.len(),
{
    if entries.len() > 0 {
        let front = entries.drop_last();
        lemma_table_of_dom(front, p);
        if table_of(entries).dom().contains(p) {
            if entries.last().prefix() == p {
                assert(entries[entries.len() - 1].prefix() == p);
            } else {
                let i = choose|i: int| 0 <= i < front.len() && (#[trigger] front[i]).prefix() == p;
                assert(entries[i].prefix() == p);
            }
        }
        if exists|i: int| 0 <= i < entries.len() && (#[trigger] entries[i]).prefix() == p {
            let i = choose|i: int| 0 <= i < entries.len() && (#[trigger] entries[i]).prefix() == p;
            if i < front.len() {
                assert(front[i].prefix() == p);
            }
        }
    }
}

/// What the table stores for a prefix, in the form a lookup hands out.
pub open spec fn stored(table: Table, p: PrefixId) -> Option<(u16, usize)> {
    if table.dom().contains(p) {
        Some((table[p], p.1 as usize))
    } else {
        None
    }
}

/// The longest match of `key` among the stored prefixes of at most `len` bits:
/// the lengths are tried from `len` downwards, and the first one stored wins.
pub open spec fn lpm_upto(table: Table, key: u128, len: nat) -> Option<(u16, usize)>
    decreases len,
{
    if table.dom().contains(prefix_of(key, len)) {
        stored(table, prefix_of(key, len))
    } else if len == 0 {
        None
    } else {
        lpm_upto(table, key, (len - 1) as nat)
    }
}

/// The longest match of a query: of the stored prefixes that are no longer than
/// `query_len` and that `key` begins with, the longest, with its length.
pub open spec fn lpm(table: Table, key: u128, query_len: nat) -> Option<(u16, usize)> {
    lpm_upto(table, key, if query_len <= 128 { query_len } else { 128 })
}

/// Without duplicates, the table stores for each entry's prefix that entry's
/// point of presence.
pub proof fn lemma_table_of_value(entries: Seq<Entry>, i: int)
    requires
        !has_duplicate(entries),
        0 <= i < entries.len(),
    ensures
        table_of(entries).contains_pair(entries[i].prefix(), entries[i].pop_id),
    decreases entries.len(),
{
    let front = entries.drop_last();
    let last = entries.len() - 1;
    if i < last {
        assert(entries[i].prefix() != entries[last].prefix());
        if has_duplicate(front) {
            let (a, b) = choose|a: int, b: int|
                0 <= a < b < front.len() && (#[trigger] front[a]).prefix() == (
                #[trigger] front[b]).prefix();
            assert(entries[a].prefix() == entries[b].prefix());
        }
        lemma_table_of_value(front, i);
    }
}

/// One more entry stores one more prefix; it is a duplicate exactly if the
/// table already stores its prefix.
pub proof fn lemma_table_of_push(entries: Seq<Entry>, entry: Entry)
    ensures
        table_of(entries.push(entry)) == table_of(entries).insert(entry.prefix(), entry.pop_id),
        has_duplicate(entries.push(entry)) <==> has_duplicate(entries) || table_of(
            entries,
        ).dom().contains(entry.prefix()),
{
    let more = entries.push(entry);
    assert(more.drop_last() =~= entries);
    lemma_table_of_dom(entries, entry.prefix());
    if has_duplicate(more) {
        let (a, b) = choose|a: int, b: int|
            0 <= a < b < more.len() && (#[trigger] more[a]).prefix() == (
            #[trigger] more[b]).prefix();
        if b < entries.len() {
            assert(entries[a].prefix() == entries[b].prefix());
        } else {
            assert(entries[a].prefix() == entry.prefix());
        }
    }
    if has_duplicate(entries) {
        let (a, b) = choose|a: int, b: int|
            0 <= a < b < entries.len() && (#[trigger] entries[a]).prefix() == (
            #[trigger] entries[b]).prefix();
        assert(more[a].prefix() == more[b].prefix());
    }
    if table_of(entries).dom().contains(entry.prefix()) {
        let a = choose|a: int|
            0 <= a < entries.len() && (#[trigger] entries[a]).prefix() == entry.prefix();
        assert(more[a].prefix() == more[entries.len() as int].prefix());
    }
}

/// Without duplicates, taking an entry out takes its prefix out of the table
/// and leaves the rest as it was.
pub proof fn lemma_table_of_remove(entries: Seq<Entry>, i: int)
    requires
        !has_duplicate(entries),
        0 <= i < entries.len(),
    ensures
        !has_duplicate(entries.remove(i)),
        table_of(entries.remove(i)) == table_of(entries).remove(entries[i].prefix()),
{
    let rest = entries.remove(i);
    if has_duplicate(rest) {
        let (a, b) = choose|a: int, b: int|
            0 <= a < b < rest.len() && (#[trigger] rest[a]).prefix() == (
            #[trigger] rest[b]).prefix();
        let a0 = if a < i { a } else { a + 1 };
        let b0 = if b < i { b } else { b + 1 };
        assert(entries[a0].prefix() == entries[b0].prefix());
    }
    let left = table_of(rest);
    let right = table_of(entries).remove(entries[i].prefix());
    assert forall|p: PrefixId| left.dom().contains(p) <==> right.dom().contains(p) by {
        lemma_table_of_dom(rest, p);
        lemma_table_of_dom(entries, p);
        if left.dom().contains(p) {
            let a = choose|a: int| 0 <= a < rest.len() && (#[trigger] rest[a]).prefix() == p;
            let a0 = if a < i { a } else { a + 1 };
            assert(entries[a0].prefix() == p);
            if p == entries[i].prefix() {
                if a0 < i {
                    assert(entries[a0].prefix() == entries[i].prefix());
                } else {
                    assert(entries[i].prefix() == entries[a0].prefix());
                }
            }
        }
        if right.dom().contains(p) {
            let a0 = choose|a: int| 0 <= a < entries.len() && (#[trigger] entries[a]).prefix() == p;
            let a = if a0 < i { a0 } else { a0 - 1 };
            assert(rest[a].prefix() == p);
        }
    }
    assert forall|p: PrefixId| left.dom().contains(p) implies left[p] == right[p] by {
        lemma_table_of_dom(rest, p);
        let a = choose|a: int| 0 <= a < rest.len() && (#[trigger] rest[a]).prefix() == p;
        let a0 = if a < i { a } else { a + 1 };
        lemma_table_of_value(rest, a);
        lemma_table_of_value(entries, a0);
    }
    assert(left =~= right);
}

/// What a longest match is: the prefix found is stored, the query begins with
/// it, and the query begins with no stored prefix that is longer and within
/// `len` bits. Where nothing is found, the query begins with no stored prefix.
pub proof fn lemma_lpm_upto_is_longest(table: Table, key: u128, len: nat)
    requires
        len <= 128,
    ensures
        match lpm_upto(table, key, len) {
            Some((pop_id, found)) => {
                &&& found <= len
                &&& table.contains_pair(prefix_of(key, found as nat), pop_id)
                &&& forall|m: nat|
                    found < m <= len ==> !table.dom().contains(#[trigger] prefix_of(key, m))
            },
            None => forall|m: nat| m <= len ==> !table.dom().contains(#[trigger] prefix_of(key, m)),
        },
    decreases len,
{
    if !table.dom().contains(prefix_of(key, len)) && len > 0 {
        lemma_lpm_upto_is_longest(table, key, (len - 1) as nat);
    }
}

/// A table that stores nothing matches no query.
pub proof fn lemma_lpm_empty(key: u128, query_len: nat)
    ensures
        lpm(Map::empty(), key, query_len) is None,
{
    lemma_lpm_upto_is_longest(Map::empty(), key, if query_len <= 128 { query_len } else { 128 });
}

/// The answer to a query is the longest entry that the query begins with:
/// that entry is no longer than the query, its bits are the query's leading
/// bits, and no entry of which the same holds is longer. Where the answer is
/// no match, the query begins with no entry.
pub proof fn lemma_lpm_is_longest_entry(entries: Seq<Entry>, key: u128, query_len: nat)
    requires
        all_valid(entries),
        !has_duplicate(entries),
    ensures
        match lpm(table_of(entries), key, query_len) {
            Some((pop_id, found)) => {
                &&& exists|i: int|
                    0 <= i < entries.len() && (#[trigger] entries[i]).matches(key, query_len)
                        && entries[i].prefix_len == found && entries[i].pop_id == pop_id
                &&& forall|j: int|
                    0 <= j < entries.len() && (#[trigger] entries[j]).matches(key, query_len)
                        ==> entries[j].prefix_len <= found
            },
            None => forall|j: int|
                0 <= j < entries.len() ==> !(#[trigger] entries[j]).matches(key, query_len),
        },
{
    let table = table_of(entries);
    let bound: nat = if query_len <= 128 { query_len } else { 128 };
    lemma_lpm_upto_is_longest(table, key, bound);
    match lpm(table, key, query_len) {
        Some((pop_id, found)) => {
            let p = prefix_of(key, found as nat);
            lemma_table_of_dom(entries, p);
            let i = choose|i: int| 0 <= i < entries.len() && (#[trigger] entries[i]).prefix() == p;
            lemma_table_of_value(entries, i);
            assert(entries[i].matches(key, query_len));
            assert forall|j: int|
                0 <= j < entries.len() && (#[trigger] entries[j]).matches(
                    key,
                    query_len,
                ) implies entries[j].prefix_len <= found by {
                let m = entries[j].prefix_len as nat;
                lemma_table_of_dom(entries, prefix_of(key, m));
                assert(entries[j].prefix() == prefix_of(key, m));
            }
        },
        None => {
            assert forall|j: int| 0 <= j < entries.len() implies !(#[trigger] entries[j]).matches(
                key,
                query_len,
            ) by {
                let m = entries[j].prefix_len as nat;
                if entries[j].matches(key, query_len) {
                    lemma_table_of_dom(entries, prefix_of(key, m));
                    assert(entries[j].prefix() == prefix_of(key, m));
                }
            }
        },
    }
}

/// A query that begins with no entry finds no match.
pub proof fn lemma_no_entry_no_match(entries: Seq<Entry>, key: u128, query_len: nat)
    requires
        forall|j: int| 0 <= j < entries.len() ==> !(#[trigger] entries[j]).matches(key, query_len),
    ensures
        lpm(table_of(entries), key, query_len) is None,
{
    let table = table_of(entries);
    let bound: nat = if query_len <= 128 { query_len } else { 128 };
    lemma_lpm_upto_is_longest(table, key, bound);
    if let Some((pop_id, found)) = lpm(table, key, query_len) {
        let p = prefix_of(key, found as nat);
        lemma_table_of_dom(entries, p);
        let i = choose|i: int| 0 <= i < entries.len() && (#[trigger] entries[i]).prefix() == p;
        assert(entries[i].matches(key, query_len));
    }
}

/// A query for an entry's own key and length finds that entry.
pub proof fn lemma_round_trip(entries: Seq<Entry>, i: int)
    requires
        all_valid(entries),
        !has_duplicate(entries),
        0 <= i < entries.len(),
    ensures
        lpm(table_of(entries), entries[i].key, entries[i].prefix_len as nat) == Some(
            (entries[i].pop_id, entries[i].prefix_len),
        ),
{
    lemma_table_of_value(entries, i);
}

/// Of two entries, the second longer than the first: a query that begins with
/// the second and is at least as long finds the second, not the first; a
/// query that begins with the first and is shorter than the second finds the
/// first. This holds in particular where the second begins with the first.
pub proof fn lemma_overlap_precedence(shorter: Entry, longer: Entry, key: u128, query_len: nat)
    requires
        shorter.prefix_len < longer.prefix_len <= 128,
    ensures
        longer.matches(key, query_len) ==> lpm(table_of(seq![shorter, longer]), key, query_len)
            == Some((longer.pop_id, longer.prefix_len)),
        shorter.matches(key, query_len) && query_len < longer.prefix_len ==> lpm(
            table_of(seq![shorter, longer]),
            key,
            query_len,
        ) == Some((shorter.pop_id, shorter.prefix_len)),
{
    let entries = seq![shorter, longer];
    assert(entries[0] == shorter && entries[1] == longer);
    assert(all_valid(entries));
    assert(!has_duplicate(entries));
    lemma_lpm_is_longest_entry(entries, key, query_len);
    if longer.matches(key, query_len) {
        assert(entries[1].matches(key, query_len));
    }
    if shorter.matches(key, query_len) && query_len < longer.prefix_len {
        assert(entries[0].matches(key, query_len));
        assert(!entries[1].matches(key, query_len));
    }
}

/// Taking a stored prefix out of a table and putting it back with the same
/// point of presence gives the table back, and so the same answer to every
/// query.
pub proof fn lemma_remove_then_insert_restores(table: Table, p: PrefixId, pop_id: u16)
    requires
        table.contains_pair(p, pop_id),
    ensures
        table.remove(p).insert(p, pop_id) == table,
        forall|key: u128, query_len: nat|
            lpm(table.remove(p).insert(p, pop_id), key, query_len) == #[trigger] lpm(
                table,
                key,
                query_len,
            ),
{
    assert(table.remove(p).insert(p, pop_id) =~= table);
}

/// Taking an entry out of a sequence without duplicates and adding it again
/// makes the table that the sequence made before.
pub proof fn lemma_remove_then_push_restores(entries: Seq<Entry>, i: int)
    requires
        !has_duplicate(entries),
        0 <= i < entries.len(),
    ensures
        !has_duplicate(entries.remove(i).push(entries[i])),
        table_of(entries.remove(i).push(entries[i])) == table_of(entries),
{
    lemma_table_of_remove(entries, i);
    lemma_table_of_push(entries.remove(i), entries[i]);
    lemma_table_of_value(entries, i);
    lemma_remove_then_insert_restores(table_of(entries), entries[i].prefix(), entries[i].pop_id);
}

} // verus!
