use lc_trie::error::LcTrieError;
use lc_trie::lc_trie::{LCTrie, Node, MAX_ENTRIES};
use lc_trie::prefix::{leading_bits, KEY_WIDTH};
use lc_trie::table::Entry;

fn entry(key: u128, prefix_len: usize, pop_id: u16) -> Entry {
    Entry { key, prefix_len, pop_id }
}

/// The two keys agree in their leading `len` bits.
fn same_bits(a: u128, b: u128, len: usize) -> bool {
    len == 0 || a >> (128 - len) == b >> (128 - len)
}

/// The longest match, found by trying every entry.
fn longest_by_scan(entries: &[Entry], key: u128, query_len: usize) -> Option<(u16, usize)> {
    let mut best: Option<(u16, usize)> = None;
    for e in entries {
        if e.prefix_len > query_len {
            continue;
        }
        if same_bits(e.key, key, e.prefix_len) && best.map_or(true, |(_, len)| len < e.prefix_len) {
            best = Some((e.pop_id, e.prefix_len));
        }
    }
    best
}

/// A fixed sequence of scattered numbers.
fn scatter(state: &mut u128) -> u128 {
    *state = state
        .wrapping_mul(0x2d99_787926d4_6932_a4c1_f32680f7_0c55)
        .wrapping_add(0x9e37_79b9_7f4a_7c15_f39c_c060_5ced_c835);
    *state ^ (*state >> 61)
}

#[test]
fn constants() {
    assert_eq!(KEY_WIDTH, 128);
    assert_eq!(MAX_ENTRIES, usize::MAX / 256 - 1);
}

#[test]
fn leading_bits_of_a_key() {
    let key: u128 = 0x2001_49f0_d0b8_8a00_0000_0000_0000_0001;
    assert_eq!(leading_bits(key, 0), 0);
    assert_eq!(leading_bits(key, 3), 0b001);
    assert_eq!(leading_bits(key, 16), 0x2001);
    assert_eq!(leading_bits(key, 56), 0x2001_49f0_d0b8_8a);
    assert_eq!(leading_bits(key, 128), key);
}

#[test]
fn empty_table_matches_nothing() {
    let trie = LCTrie::new();
    assert_eq!(trie.lookup(0, 0), None);
    assert_eq!(trie.lookup(u128::MAX, 128), None);
    assert_eq!(trie.lookup(u128::MAX, usize::MAX), None);
    assert_eq!(trie.node_count(), 0);
}

#[test]
fn build_of_nothing_is_one_root() {
    let trie = LCTrie::build(&[]).ok().unwrap();
    assert_eq!(trie.node_count(), 1);
    assert_eq!(trie.node(0), Some(Node { skip: 0, branch: 0, adr: 0, value: None }));
    assert_eq!(trie.node(1), None);
    assert_eq!(trie.lookup(0, 0), None);
    assert_eq!(trie.lookup(0x2001 << 112, 64), None);
}

#[test]
fn query_of_length_zero_sees_only_the_root() {
    let without_default = LCTrie::build(&[entry(0, 1, 4), entry(1 << 127, 1, 5)]).ok().unwrap();
    assert_eq!(without_default.lookup(0, 0), None);
    assert_eq!(without_default.lookup(u128::MAX, 0), None);

    let with_default =
        LCTrie::build(&[entry(0xdead << 112, 0, 9), entry(1 << 127, 1, 5)]).ok().unwrap();
    assert_eq!(with_default.lookup(0, 0), Some((9, 0)));
    assert_eq!(with_default.lookup(u128::MAX, 0), Some((9, 0)));
    assert_eq!(with_default.lookup(0, 128), Some((9, 0)));
    assert_eq!(with_default.lookup(u128::MAX, 128), Some((5, 1)));
}

#[test]
fn query_longer_than_every_stored_prefix() {
    let trie = LCTrie::build(&[entry(0x2001_49f0 << 96, 32, 7)]).ok().unwrap();
    let key: u128 = 0x2001_49f0_d0b8_8a00_0000_0000_0000_0001;
    assert_eq!(trie.lookup(key, 32), Some((7, 32)));
    assert_eq!(trie.lookup(key, 56), Some((7, 32)));
    assert_eq!(trie.lookup(key, 128), Some((7, 32)));
    assert_eq!(trie.lookup(key, 129), Some((7, 32)));
    assert_eq!(trie.lookup(key, usize::MAX), Some((7, 32)));
    assert_eq!(trie.lookup(key, 31), None);
}

#[test]
fn host_routes_of_full_length() {
    let a: u128 = 0x2001_49f0_d0b8_8a00_0000_0000_0000_0001;
    let b: u128 = 0x2001_49f0_d0b8_8a00_0000_0000_0000_0000;
    let entries = [entry(a, 128, 11), entry(b, 128, 12), entry(a, 127, 13)];
    let trie = LCTrie::build(&entries).ok().unwrap();
    assert_eq!(trie.lookup(a, 128), Some((11, 128)));
    assert_eq!(trie.lookup(b, 128), Some((12, 128)));
    assert_eq!(trie.lookup(a, 127), Some((13, 127)));
    assert_eq!(trie.lookup(b, 127), Some((13, 127)));
    assert_eq!(trie.lookup(a ^ 2, 128), None);
    assert_eq!(trie.lookup(a, 126), None);
}

#[test]
fn bits_past_the_prefix_do_not_count() {
    let trie = LCTrie::build(&[entry(0x20ff_ffff << 96, 8, 1)]).ok().unwrap();
    assert_eq!(trie.lookup(0x2000 << 112, 8), Some((1, 8)));
    assert_eq!(trie.lookup(0x20ab << 112, 128), Some((1, 8)));
    assert_eq!(trie.lookup(0x21ab << 112, 128), None);
}

#[test]
fn overlap_precedence() {
    let shorter = entry(0x20 << 120, 8, 1);
    let longer = entry(0x2001 << 112, 16, 2);
    let trie = LCTrie::build(&[shorter, longer]).ok().unwrap();
    let key: u128 = 0x2001_49f0_d0b8_8a00_0000_0000_0000_0001;
    assert_eq!(trie.lookup(key, 128), Some((2, 16)));
    assert_eq!(trie.lookup(key, 17), Some((2, 16)));
    assert_eq!(trie.lookup(key, 16), Some((2, 16)));
    for len in 8..16 {
        assert_eq!(trie.lookup(key, len), Some((1, 8)));
    }
    assert_eq!(trie.lookup(key, 7), None);
    assert_eq!(trie.lookup(0x2002 << 112, 56), Some((1, 8)));
    assert_eq!(trie.lookup(0x3001 << 112, 56), None);
}

#[test]
fn overlap_precedence_in_either_order() {
    let shorter = entry(0x20 << 120, 8, 1);
    let longer = entry(0x2001 << 112, 16, 2);
    let trie = LCTrie::build(&[longer, shorter]).ok().unwrap();
    let key: u128 = 0x2001_49f0_d0b8_8a00_0000_0000_0000_0001;
    assert_eq!(trie.lookup(key, 56), Some((2, 16)));
    assert_eq!(trie.lookup(key, 12), Some((1, 8)));
}

#[test]
fn round_trip_of_every_entry() {
    let entries = [
        entry(0, 0, 1),
        entry(0x2001 << 112, 16, 2),
        entry(0x2001_49f0 << 96, 32, 3),
        entry(0x2001_49f0_d0b8 << 80, 48, 4),
        entry(0x2001_49f0_d0b8_8a << 72, 56, 5),
        entry(0x2001_49f0_d0b8_8b << 72, 56, 6),
        entry(0x2a02 << 112, 16, 7),
        entry(0x2a02_26f0 << 96, 29, 8),
        entry(u128::MAX, 128, 9),
        entry(1 << 127, 1, 10),
    ];
    let trie = LCTrie::build(&entries).ok().unwrap();
    for e in &entries {
        assert_eq!(trie.lookup(e.key, e.prefix_len), Some((e.pop_id, e.prefix_len)));
    }
}

#[test]
fn route_example() {
    let entries = [
        entry(0x2001_49f0 << 96, 32, 3),
        entry(0x2001_49f0_d0b8 << 80, 48, 4),
        entry(0x2001_49f0_d0b8_8a00 << 64, 64, 5),
    ];
    let trie = LCTrie::build(&entries).ok().unwrap();
    let key: u128 = 0x2001_49f0_d0b8_8a00_0000_0000_0000_0001;
    assert_eq!(trie.lookup(key, 56), Some((4, 48)));
    assert_eq!(trie.lookup(key, 64), Some((5, 64)));
    assert_eq!(trie.lookup(key, 47), Some((3, 32)));
}

#[test]
fn node_table_of_one_prefix() {
    let trie = LCTrie::build(&[entry(1 << 127, 1, 7)]).ok().unwrap();
    assert_eq!(trie.node(0), Some(Node { skip: 0, branch: 1, adr: 1, value: None }));
    assert_eq!(trie.node(1), Some(Node { skip: 0, branch: 0, adr: 0, value: None }));
    assert_eq!(trie.node(2), Some(Node { skip: 0, branch: 0, adr: 0, value: Some((7, 1)) }));
    assert_eq!(trie.node(3), None);
    assert_eq!(LCTrie::new().node(0), None);
}

#[test]
fn children_lie_inside_the_table() {
    let entries = [entry(0x2001 << 112, 16, 2), entry(0x2a02_26f0 << 96, 29, 8), entry(0, 0, 1)];
    let trie = LCTrie::build(&entries).ok().unwrap();
    assert_eq!(trie.node(0).unwrap().value, Some((1, 0)));
    for index in 0..trie.node_count() {
        let node = trie.node(index).unwrap();
        assert_eq!(node.skip, 0);
        assert!(node.branch <= 1);
        if node.branch == 1 {
            assert!(node.adr + 2 <= trie.node_count());
        }
    }
}

#[test]
fn node_count_stays_within_its_bound() {
    let one = LCTrie::build(&[entry(1 << 127, 1, 1)]).ok().unwrap();
    assert_eq!(one.node_count(), 3);
    let chain = LCTrie::build(&[entry(0, 8, 1)]).ok().unwrap();
    assert_eq!(chain.node_count(), 17);
    let shared = LCTrie::build(&[entry(0, 8, 1), entry(1 << 120, 8, 2)]).ok().unwrap();
    assert_eq!(shared.node_count(), 17);
    let root_only = LCTrie::build(&[entry(5, 0, 1)]).ok().unwrap();
    assert_eq!(root_only.node_count(), 1);
}

#[test]
fn build_refuses_a_prefix_longer_than_the_key() {
    assert_eq!(LCTrie::build(&[entry(0, 129, 1)]).err(), Some(LcTrieError::InvalidPrefix));
    assert_eq!(
        LCTrie::build(&[entry(0, 8, 1), entry(0, usize::MAX, 1)]).err(),
        Some(LcTrieError::InvalidPrefix)
    );
    assert!(LCTrie::build(&[entry(0, 128, 1)]).is_ok());
}

#[test]
fn build_refuses_duplicates() {
    assert_eq!(
        LCTrie::build(&[entry(0x20 << 120, 8, 1), entry(0x20 << 120, 8, 1)]).err(),
        Some(LcTrieError::DuplicatePrefix)
    );
    assert_eq!(
        LCTrie::build(&[entry(0x20 << 120, 8, 1), entry(0x20ff << 112, 8, 2)]).err(),
        Some(LcTrieError::DuplicatePrefix)
    );
    assert_eq!(
        LCTrie::build(&[entry(1, 0, 1), entry(2, 0, 2)]).err(),
        Some(LcTrieError::DuplicatePrefix)
    );
    assert!(LCTrie::build(&[entry(0x20 << 120, 8, 1), entry(0x20 << 120, 9, 1)]).is_ok());
}

#[test]
fn a_long_prefix_is_reported_before_a_duplicate() {
    assert_eq!(
        LCTrie::build(&[entry(1, 8, 1), entry(1, 8, 2), entry(0, 200, 3)]).err(),
        Some(LcTrieError::InvalidPrefix)
    );
}

#[test]
fn lookup_agrees_with_a_scan_of_the_entries() {
    let mut state: u128 = 0x1234_5678_9abc_def0_0fed_cba9_8765_4321;
    let mut entries: Vec<Entry> = Vec::new();
    let lens = [0usize, 1, 2, 3, 7, 8, 9, 16, 23, 24, 32, 48, 56, 64, 96, 127, 128];
    let mut pop: u16 = 0;
    while entries.len() < 300 {
        // Few choices for the leading bits, so that short prefixes nest.
        let lead = scatter(&mut state) & 0x3;
        let key = lead << 126 | scatter(&mut state) >> 2;
        let len = lens[(scatter(&mut state) % lens.len() as u128) as usize];
        let dup = entries
            .iter()
            .any(|e| e.prefix_len == len && same_bits(e.key, key, len));
        if !dup {
            pop += 1;
            entries.push(entry(key, len, pop));
        }
    }
    let trie = LCTrie::build(&entries).ok().unwrap();
    for e in &entries {
        for len in [0usize, 1, 5, 8, 16, 24, 33, 64, 100, 128, 500] {
            assert_eq!(trie.lookup(e.key, len), longest_by_scan(&entries, e.key, len));
            let flipped = e.key ^ (1 << (127 - (e.prefix_len.saturating_sub(1)).min(127)));
            assert_eq!(trie.lookup(flipped, len), longest_by_scan(&entries, flipped, len));
        }
    }
    for _ in 0..500 {
        let key = scatter(&mut state);
        let len = (scatter(&mut state) % 140) as usize;
        assert_eq!(trie.lookup(key, len), longest_by_scan(&entries, key, len));
    }
}
