//! The node table of the trie, its construction, and the walk that answers a
//! query.
//!
//! The walk never compares the bits it passes over with a stored key, and it
//! tests the query's length before it reads a node's bits. So it finds the
//! longest match for every query only in a table whose nodes pass over no bit
//! and read one bit each. Those are the tables that are built here: a node
//! stands for the prefix that leads to it, and carries a value exactly where
//! that prefix is stored.

use vstd::prelude::*;
use vstd::arithmetic::div_mod::{lemma_basic_div, lemma_div_denominator};
use vstd::arithmetic::power2::{lemma2_to64, lemma_pow2_pos, lemma_pow2_unfold, pow2};
use crate::bits::extract_bits_u128;
use crate::error::LcTrieError;
use crate::prefix::{
    lemma_top_bits_is_field, lemma_top_bits_step, lemma_top_bits_truncate, lemma_top_bits_zero,
    prefix_of, PrefixId, Table, KEY_WIDTH,
};
use crate::table::{
    all_valid, has_duplicate, lemma_lpm_empty, lemma_table_of_dom, lpm, lpm_upto, stored, table_of,
    total_prefix_len, Entry,
};

verus! {

/// The most entries a table is built from: an entry takes up to 256 nodes,
/// and every node index has to fit in `usize`.
pub const MAX_ENTRIES: usize = usize::MAX / 256 - 1;

/// One slot of the node table.
#[derive(Debug, Clone, Copy, PartialEq, Eq)]
pub struct Node {
    /// Bits passed over before this node branches.
    pub skip: usize,
    /// Bits read at this node to choose a child; 0 at a leaf.
    pub branch: usize,
    /// Index of the left-most child; meaningful only where `branch > 0`.
    pub adr: usize,
    /// Present where a stored prefix ends at this node: its point of presence
    /// and its length.
    pub value: Option<(u16, usize)>,
}

/// The slot of the node that the bits of the prefix `p` lead to from the root,
/// one bit for each node on the way.
pub open spec fn node_at(nodes: Seq<Node>, p: PrefixId) -> Option<int>
    decreases p.1,
{
    if p.1 == 0 {
        if p.0 == 0 && nodes.len() > 0 {
            Some(0)
        } else {
            None
        }
    } else {
        match node_at(nodes, (p.0 / 2, (p.1 - 1) as nat)) {
            Some(parent) => {
                let child = nodes[parent].adr + p.0 % 2;
                if nodes[parent].branch == 1 && child < nodes.len() {
                    Some(child)
                } else {
                    None
                }
            },
            None => None,
        }
    }
}

/// What a node table stores: a prefix is stored where the node that its bits
/// lead to carries a value, and that value names its point of presence.
pub open spec fn table_in(nodes: Seq<Node>) -> Table {
    Map::new(
        |p: PrefixId| node_at(nodes, p) is Some && nodes[node_at(nodes, p).unwrap()].value is Some,
        |p: PrefixId| nodes[node_at(nodes, p).unwrap()].value.unwrap().0,
    )
}

/// The prefix one bit longer than `p`.
spec fn child_label(p: PrefixId, bit: nat) -> PrefixId {
    (2 * p.0 + bit, p.1 + 1)
}

/// `p` is longer than `q` and begins with it.
spec fn extends(p: PrefixId, q: PrefixId) -> bool {
    q.1 < p.1 && p.0 / pow2((p.1 - q.1) as nat) == q.0
}

/// Nothing lies below the prefix `p`: no node and no stored prefix.
spec fn leaf_ok(table: Table, labels: Seq<PrefixId>, p: PrefixId) -> bool {
    &&& forall|j: int| 0 <= j < labels.len() ==> !extends(#[trigger] labels[j], p)
    &&& forall|q: PrefixId| #[trigger] table.dom().contains(q) ==> !extends(q, p)
}

/// Node `i` stands for the prefix `labels[i]`: it carries what the table stores
/// for that prefix, and its two children stand for the two prefixes one bit longer.
spec fn node_ok(nodes: Seq<Node>, table: Table, labels: Seq<PrefixId>, i: int) -> bool {
    let n = nodes[i];
    let p = labels[i];
    &&& n.skip == 0
    &&& p.1 <= 128
    &&& n.value == stored(table, p)
    &&& if n.branch == 0 {
        leaf_ok(table, labels, p)
    } else {
        &&& n.branch == 1
        &&& p.1 < 128
        &&& n.adr + 1 < nodes.len()
        &&& labels[n.adr as int] == child_label(p, 0)
        &&& labels[n.adr + 1] == child_label(p, 1)
    }
}

/// The node table holds exactly `table`, with node `i` standing for `labels[i]`.
spec fn represents(nodes: Seq<Node>, table: Table, labels: Seq<PrefixId>) -> bool {
    &&& 0 < nodes.len() == labels.len()
    &&& labels[0] == (0nat, 0nat)
    &&& forall|i: int| 0 <= i < nodes.len() ==> #[trigger] node_ok(nodes, table, labels, i)
    &&& forall|i: int, j: int| 0 <= i < j < labels.len() ==> labels[i] != labels[j]
    &&& forall|q: PrefixId| #[trigger] table.dom().contains(q) ==> q.0 < pow2(q.1)
}

/// The longer of two prefixes of one key begins with the shorter.
proof fn lemma_key_extends(key: u128, len: nat, shorter: nat)
    requires
        shorter < len <= 128,
    ensures
        extends(prefix_of(key, len), prefix_of(key, shorter)),
{
    lemma_top_bits_truncate(key, len, shorter);
}

/// Below a prefix that nothing stored extends, longer queries find nothing new.
proof fn lemma_nothing_below(table: Table, key: u128, depth: nat, len: nat)
    requires
        depth <= len <= 128,
        forall|q: PrefixId| #[trigger]
            table.dom().contains(q) ==> !extends(q, prefix_of(key, depth)),
    ensures
        lpm_upto(table, key, len) == lpm_upto(table, key, depth),
    decreases len,
{
    if depth < len {
        lemma_key_extends(key, len, depth);
        lemma_nothing_below(table, key, depth, (len - 1) as nat);
    }
}

/// A child of `p` begins with `p`.
proof fn lemma_child_extends(p: PrefixId, bit: nat)
    requires
        bit <= 1,
    ensures
        extends(child_label(p, bit), p),
{
    lemma2_to64();
    let c = child_label(p, bit);
    assert((c.1 - p.1) as nat == 1);
    assert((2 * p.0 + bit) / 2 == p.0);
}

/// What begins with a child of `q` begins with `q`.
proof fn lemma_extends_child(x: PrefixId, q: PrefixId, bit: nat)
    requires
        bit <= 1,
        extends(x, child_label(q, bit)),
    ensures
        extends(x, q),
{
    let gap = (x.1 - q.1 - 1) as nat;
    lemma_pow2_pos(gap);
    lemma_pow2_unfold(gap + 1);
    lemma_div_denominator(x.0 as int, pow2(gap) as int, 2);
    assert(pow2(gap) * 2 == 2 * pow2(gap));
}

/// What a child of `q` begins with is `q` itself or something `q` begins with.
proof fn lemma_child_extends_only(q: PrefixId, bit: nat, r: PrefixId)
    requires
        bit <= 1,
        extends(child_label(q, bit), r),
    ensures
        r == q || extends(q, r),
{
    let c = child_label(q, bit);
    let gap = (q.1 - r.1) as nat;
    lemma_pow2_pos(gap);
    lemma_pow2_unfold(gap + 1);
    lemma2_to64();
    lemma_div_denominator(c.0 as int, 2, pow2(gap) as int);
    if gap == 0 {
        assert(c.0 / 2 == q.0);
    }
}

/// The bits of a node's prefix lead to that node.
proof fn lemma_node_at_label(nodes: Seq<Node>, table: Table, labels: Seq<PrefixId>, p: PrefixId)
    requires
        represents(nodes, table, labels),
        node_at(nodes, p) is Some,
    ensures
        0 <= node_at(nodes, p).unwrap() < nodes.len(),
        labels[node_at(nodes, p).unwrap()] == p,
    decreases p.1,
{
    if p.1 > 0 {
        let above = (p.0 / 2, (p.1 - 1) as nat);
        lemma_node_at_label(nodes, table, labels, above);
        let parent = node_at(nodes, above).unwrap();
        assert(node_ok(nodes, table, labels, parent));
    }
}

/// The leading `len` bits of a stored prefix lead to a node, which stands for them.
proof fn lemma_stored_is_reached(
    nodes: Seq<Node>,
    table: Table,
    labels: Seq<PrefixId>,
    p: PrefixId,
    len: nat,
)
    requires
        represents(nodes, table, labels),
        table.dom().contains(p),
        len <= p.1,
    ensures
        node_at(nodes, (p.0 / pow2((p.1 - len) as nat), len)) is Some,
    decreases len,
{
    if len == 0 {
        lemma_basic_div(p.0 as int, pow2(p.1) as int);
    } else {
        let gap = (p.1 - len) as nat;
        lemma_pow2_pos(gap);
        lemma_pow2_pos(gap + 1);
        let q: PrefixId = (p.0 / pow2(gap), len);
        let above: PrefixId = (p.0 / pow2(gap + 1), (len - 1) as nat);
        assert((p.1 - (len - 1) as nat) as nat == gap + 1);
        lemma_stored_is_reached(nodes, table, labels, p, (len - 1) as nat);
        lemma_node_at_label(nodes, table, labels, above);
        let parent = node_at(nodes, above).unwrap();
        assert(node_ok(nodes, table, labels, parent));
        assert(q.0 / 2 == above.0) by {
            lemma_pow2_unfold(gap + 1);
            lemma_div_denominator(p.0 as int, pow2(gap) as int, 2);
            assert(pow2(gap) * 2 == 2 * pow2(gap));
        }
        // A leaf has nothing stored below it, so the node on the way to `p` branches.
        assert(extends(p, above));
        assert(node_at(nodes, q) == Some(nodes[parent].adr + q.0 % 2));
    }
}

/// A node table stores exactly the table that it represents.
proof fn lemma_table_in(nodes: Seq<Node>, table: Table, labels: Seq<PrefixId>)
    requires
        represents(nodes, table, labels),
    ensures
        table_in(nodes) == table,
{
    let found = table_in(nodes);
    assert forall|p: PrefixId| found.dom().contains(p) <==> table.dom().contains(p) by {
        if found.dom().contains(p) {
            lemma_node_at_label(nodes, table, labels, p);
            assert(node_ok(nodes, table, labels, node_at(nodes, p).unwrap()));
        }
        if table.dom().contains(p) {
            lemma_stored_is_reached(nodes, table, labels, p, p.1);
            lemma2_to64();
            assert((p.1 - p.1) as nat == 0);
            assert(p.0 / 1 == p.0);
            lemma_node_at_label(nodes, table, labels, p);
            assert(node_ok(nodes, table, labels, node_at(nodes, p).unwrap()));
        }
    }
    assert forall|p: PrefixId| found.dom().contains(p) implies found[p] == table[p] by {
        lemma_node_at_label(nodes, table, labels, p);
        assert(node_ok(nodes, table, labels, node_at(nodes, p).unwrap()));
    }
    assert(found =~= table);
}

/// The table under construction: a node table, the prefixes it holds so far,
/// and the prefix that each node stands for.
struct Builder {
    nodes: Vec<Node>,
    table: Ghost<Table>,
    labels: Ghost<Seq<PrefixId>>,
}

impl Builder {
    /// The node table holds exactly what has been added.
    spec fn wf(&self) -> bool {
        represents(self.nodes@, self.table@, self.labels@)
    }

    /// A table of one root node that stores nothing.
    fn new() -> (b: Builder)
        ensures
            b.wf(),
            b.table@ == Map::<PrefixId, u16>::empty(),
            b.nodes@ == seq![Node { skip: 0, branch: 0, adr: 0, value: None }],
    {
        let mut nodes: Vec<Node> = Vec::new();
        nodes.push(Node { skip: 0, branch: 0, adr: 0, value: None });
        let b = Builder {
            nodes,
            table: Ghost(Map::empty()),
            labels: Ghost(Seq::empty().push((0nat, 0nat))),
        };
        proof {
            assert(node_ok(b.nodes@, b.table@, b.labels@, 0));
        }
        b
    }

    /// Gives the leaf `cur` two children, both leaves that store nothing.
    fn split(&mut self, cur: usize) -> (adr: usize)
        requires
            old(self).wf(),
            cur < old(self).nodes@.len(),
            old(self).nodes@[cur as int].branch == 0,
            old(self).labels@[cur as int].1 < 128,
            old(self).nodes@.len() + 2 <= usize::MAX,
        ensures
            final(self).wf(),
            final(self).table@ == old(self).table@,
            final(self).nodes@.len() == old(self).nodes@.len() + 2,
            adr == old(self).nodes@.len(),
            final(self).nodes@[cur as int].branch == 1,
            final(self).nodes@[cur as int].adr == adr,
            forall|i: int|
                0 <= i < old(self).labels@.len() ==> final(self).labels@[i] == old(self).labels@[i],
    {
        let node = self.nodes[cur];
        let adr: usize = self.nodes.len();
        let ghost p = self.labels@[cur as int];
        let ghost old_nodes = self.nodes@;
        let ghost old_labels = self.labels@;
        self.nodes.push(Node { skip: 0, branch: 0, adr: 0, value: None });
        self.nodes.push(Node { skip: 0, branch: 0, adr: 0, value: None });
        self.nodes.set(cur, Node { skip: 0, branch: 1, adr, value: node.value });
        self.labels = Ghost(old_labels.push(child_label(p, 0)).push(child_label(p, 1)));
        proof {
            let nodes = self.nodes@;
            let labels = self.labels@;
            let table = self.table@;
            assert(node_ok(old_nodes, table, old_labels, cur as int));
            lemma_child_extends(p, 0);
            lemma_child_extends(p, 1);
            assert forall|i: int, j: int| 0 <= i < j < labels.len() implies labels[i]
                != labels[j] by {
                if j >= old_labels.len() {
                    if i < old_labels.len() {
                        assert(labels[i] == old_labels[i]);
                    }
                }
            }
            assert forall|i: int| 0 <= i < nodes.len() implies #[trigger] node_ok(
                nodes,
                table,
                labels,
                i,
            ) by {
                if i >= old_nodes.len() {
                    let bit: nat = if i == old_nodes.len() { 0 } else { 1 };
                    let c = child_label(p, bit);
                    assert(labels[i] == c);
                    assert(!table.dom().contains(c));
                    assert forall|j: int| 0 <= j < labels.len() implies !extends(
                        #[trigger] labels[j],
                        c,
                    ) by {
                        if extends(labels[j], c) {
                            lemma_extends_child(labels[j], p, bit);
                            if j < old_labels.len() {
                                assert(labels[j] == old_labels[j]);
                            }
                        }
                    }
                    assert forall|q: PrefixId| #[trigger] table.dom().contains(q) implies !extends(
                        q,
                        c,
                    ) by {
                        if extends(q, c) {
                            lemma_extends_child(q, p, bit);
                        }
                    }
                } else if i != cur {
                    assert(node_ok(old_nodes, table, old_labels, i));
                    assert(nodes[i] == old_nodes[i]);
                    assert(labels[i] == old_labels[i]);
                    if nodes[i].branch == 0 {
                        let r = labels[i];
                        assert forall|j: int| 0 <= j < labels.len() implies !extends(
                            #[trigger] labels[j],
                            r,
                        ) by {
                            if j >= old_labels.len() {
                                let bit: nat = if j == old_labels.len() { 0 } else { 1 };
                                if extends(labels[j], r) {
                                    lemma_child_extends_only(p, bit, r);
                                    assert(!extends(old_labels[cur as int], r));
                                    assert(old_labels[i] != old_labels[cur as int]);
                                }
                            } else {
                                assert(labels[j] == old_labels[j]);
                            }
                        }
                    } else {
                        assert(labels[nodes[i].adr as int] == old_labels[nodes[i].adr as int]);
                        assert(labels[nodes[i].adr + 1] == old_labels[nodes[i].adr + 1]);
                    }
                }
            }
        }
        adr
    }

    /// Stores `pop_id` at node `cur` for the prefix that the node stands for.
    fn store(&mut self, cur: usize, pop_id: u16, prefix_len: usize)
        requires
            old(self).wf(),
            cur < old(self).nodes@.len(),
            old(self).labels@[cur as int].1 == prefix_len,
            old(self).labels@[cur as int].0 < pow2(prefix_len as nat),
            !old(self).table@.dom().contains(old(self).labels@[cur as int]),
        ensures
            final(self).wf(),
            final(self).table@ == old(self).table@.insert(old(self).labels@[cur as int], pop_id),
            final(self).nodes@.len() == old(self).nodes@.len(),
    {
        let node = self.nodes[cur];
        let ghost p = self.labels@[cur as int];
        let ghost old_nodes = self.nodes@;
        let ghost old_table = self.table@;
        self.nodes.set(
            cur,
            Node {
                skip: node.skip,
                branch: node.branch,
                adr: node.adr,
                value: Some((pop_id, prefix_len)),
            },
        );
        self.table = Ghost(old_table.insert(p, pop_id));
        proof {
            let nodes = self.nodes@;
            let labels = self.labels@;
            let table = self.table@;
            assert forall|i: int| 0 <= i < nodes.len() implies #[trigger] node_ok(
                nodes,
                table,
                labels,
                i,
            ) by {
                assert(node_ok(old_nodes, old_table, labels, i));
                assert(node_ok(old_nodes, old_table, labels, cur as int));
                if i != cur {
                    assert(labels[i] != p);
                }
            }
        }
    }

    /// Adds the entry's prefix to the table, unless the table already stores it.
    fn add(&mut self, entry: &Entry) -> (added: bool)
        requires
            old(self).wf(),
            entry.prefix_len <= 128,
            old(self).nodes@.len() + 256 <= usize::MAX,
        ensures
            final(self).wf(),
            added == !old(self).table@.dom().contains(entry.prefix()),
            added ==> final(self).table@ == old(self).table@.insert(entry.prefix(), entry.pop_id),
            !added ==> final(self).table@ == old(self).table@,
            final(self).nodes@.len() <= old(self).nodes@.len() + 2 * entry.prefix_len,
    {
        let mut cur: usize = 0;
        let mut depth: usize = 0;
        proof {
            lemma_top_bits_zero(entry.key);
        }
        while depth < entry.prefix_len
            invariant
                self.wf(),
                self.table@ == old(self).table@,
                cur < self.nodes@.len(),
                depth <= entry.prefix_len <= 128,
                self.labels@[cur as int] == prefix_of(entry.key, depth as nat),
                self.nodes@.len() <= old(self).nodes@.len() + 2 * depth,
                old(self).nodes@.len() + 256 <= usize::MAX,
            decreases entry.prefix_len - depth,
        {
            let node = self.nodes[cur];
            let adr: usize = if node.branch == 0 {
                self.split(cur)
            } else {
                node.adr
            };
            proof {
                assert(node_ok(self.nodes@, self.table@, self.labels@, cur as int));
                lemma_top_bits_step(entry.key, depth as nat);
            }
            let bit: usize = extract_bits_u128(entry.key, depth, 1) as usize;
            cur = adr + bit;
            depth += 1;
        }
        proof {
            assert(node_ok(self.nodes@, self.table@, self.labels@, cur as int));
            lemma_top_bits_is_field(entry.key, entry.prefix_len as nat);
        }
        if self.nodes[cur].value.is_some() {
            return false;
        }
        self.store(cur, entry.pop_id, entry.prefix_len);
        true
    }
}

/// A compact table of prefixes of 128-bit keys that answers longest-match queries.
#[derive(Debug)]
pub struct LCTrie {
    nodes: Vec<Node>,
}

impl View for LCTrie {
    type V = Table;

    /// The prefixes that the table stores, each with its point of presence.
    open spec fn view(&self) -> Table {
        table_in(self.spec_nodes())
    }
}

impl LCTrie {
    /// A table is without a node, or each of its nodes stands for one prefix
    /// as `represents` says.
    #[verifier::type_invariant]
    spec fn well_formed(&self) -> bool {
        self.nodes@.len() == 0 || exists|labels: Seq<PrefixId>|
            represents(self.nodes@, table_in(self.nodes@), labels)
    }

    /// The node table. The root is its first node.
    pub closed spec fn spec_nodes(&self) -> Seq<Node> {
        self.nodes@
    }

    /// How many nodes the table has.
    pub fn node_count(&self) -> (count: usize)
        ensures
            count == self.spec_nodes().len(),
    {
        self.nodes.len()
    }

    /// The node in slot `index`, if the table has that many. A node that
    /// branches reads one bit and skips none, its two children lie inside the
    /// table, and a value it carries has a length that fits in a key.
    pub fn node(&self, index: usize) -> (slot: Option<Node>)
        ensures
            slot == if index < self.spec_nodes().len() {
                Some(self.spec_nodes()[index as int])
            } else {
                None
            },
            slot matches Some(n) ==> {
                &&& n.skip == 0
                &&& n.branch <= 1
                &&& n.branch == 1 ==> n.adr + 2 <= self.spec_nodes().len()
                &&& n.value matches Some((_, len)) ==> len <= 128
            },
    {
        proof {
            use_type_invariant(self);
        }
        if index < self.nodes.len() {
            proof {
                let table = table_in(self.nodes@);
                let labels = choose|labels: Seq<PrefixId>| represents(self.nodes@, table, labels);
                assert(node_ok(self.nodes@, table, labels, index as int));
            }
            Some(self.nodes[index])
        } else {
            None
        }
    }

    /// The table without a node, which stores nothing.
    pub fn new() -> (trie: LCTrie)
        ensures
            trie@ == Map::<PrefixId, u16>::empty(),
            trie.spec_nodes().len() == 0,
    {
        let trie = LCTrie { nodes: Vec::new() };
        proof {
            assert(trie@ =~= Map::<PrefixId, u16>::empty());
        }
        trie
    }

    /// Builds the table of `entries`. An entry longer than a key refuses the
    /// build with `InvalidPrefix`; otherwise two entries with the same prefix
    /// refuse it with `DuplicatePrefix`.
    pub fn build(entries: &[Entry]) -> (built: Result<LCTrie, LcTrieError>)
        requires
            entries@.len() <= MAX_ENTRIES,
        ensures
            !all_valid(entries@) ==> built == Err::<LCTrie, LcTrieError>(
                LcTrieError::InvalidPrefix,
            ),
            all_valid(entries@) && has_duplicate(entries@) ==> built == Err::<LCTrie, LcTrieError>(
                LcTrieError::DuplicatePrefix,
            ),
            all_valid(entries@) && !has_duplicate(entries@) ==> built is Ok,
            built matches Ok(trie) ==> {
                &&& trie@ == table_of(entries@)
                &&& 1 <= trie.spec_nodes().len() <= 1 + 2 * total_prefix_len(entries@)
                &&& entries@.len() == 0 ==> trie.spec_nodes() == seq![
                    Node { skip: 0, branch: 0, adr: 0, value: None },
                ]
            },
    {
        let mut checked: usize = 0;
        while checked < entries.len()
            invariant
                checked <= entries@.len(),
                forall|k: int| 0 <= k < checked ==> (#[trigger] entries@[k]).prefix_len <= 128,
            decreases entries@.len() - checked,
        {
            if entries[checked].prefix_len > KEY_WIDTH {
                return Err(LcTrieError::InvalidPrefix);
            }
            checked += 1;
        }

        let mut builder = Builder::new();
        let mut done: usize = 0;
        proof {
            assert(entries@.take(0) =~= Seq::<Entry>::empty());
        }
        while done < entries.len()
            invariant
                all_valid(entries@),
                entries@.len() <= MAX_ENTRIES,
                done <= entries@.len(),
                builder.wf(),
                builder.table@ == table_of(entries@.take(done as int)),
                !has_duplicate(entries@.take(done as int)),
                builder.nodes@.len() <= 1 + 2 * total_prefix_len(entries@.take(done as int)),
                builder.nodes@.len() <= 1 + 256 * done,
                done == 0 ==> builder.nodes@ == seq![
                    Node { skip: 0, branch: 0, adr: 0, value: None },
                ],
            decreases entries@.len() - done,
        {
            let ghost before = entries@.take(done as int);
            let ghost after = entries@.take(done + 1);
            let entry = &entries[done];
            proof {
                assert(after.drop_last() =~= before);
                assert(after.last() == *entry);
                lemma_table_of_dom(before, entry.prefix());
            }
            let added = builder.add(entry);
            if !added {
                proof {
                    let i = choose|i: int|
                        0 <= i < before.len() && (#[trigger] before[i]).prefix() == entry.prefix();
                    assert(entries@[i].prefix() == entries@[done as int].prefix());
                }
                return Err(LcTrieError::DuplicatePrefix);
            }
            proof {
                if has_duplicate(after) {
                    let (i, j) = choose|i: int, j: int|
                        0 <= i < j < after.len() && (#[trigger] after[i]).prefix() == (
                        #[trigger] after[j]).prefix();
                    if j < done {
                        assert(before[i].prefix() == before[j].prefix());
                    } else {
                        assert(before[i].prefix() == entry.prefix());
                    }
                }
            }
            done += 1;
        }
        proof {
            assert(entries@.take(done as int) =~= entries@);
            lemma_table_in(builder.nodes@, builder.table@, builder.labels@);
        }
        Ok(LCTrie { nodes: builder.nodes })
    }

    /// The longest stored prefix among the leading `prefix_len` bits of
    /// `prefix_key`: its point of presence and its length.
    pub fn lookup(&self, prefix_key: u128, prefix_len: usize) -> (best_match: Option<(u16, usize)>)
        ensures
            best_match == lpm(self@, prefix_key, prefix_len as nat),
    {
        proof {
            use_type_invariant(self);
        }
        if self.nodes.is_empty() {
            proof {
                assert(self@ =~= Map::<PrefixId, u16>::empty());
                lemma_lpm_empty(prefix_key, prefix_len as nat);
            }
            return None;
        }
        let ghost table = table_in(self.nodes@);
        let ghost labels = choose|labels: Seq<PrefixId>| represents(self.nodes@, table, labels);
        let ghost bound: nat = if prefix_len <= 128 { prefix_len as nat } else { 128 };

        let mut node: &Node = &self.nodes[0];
        let mut pos: usize = node.skip;
        let mut adr: usize = node.adr;
        let mut best_match: Option<(u16, usize)> = node.value;
        let ghost mut cur: int = 0;
        let ghost mut depth: nat = 0;
        proof {
            assert(node_ok(self.nodes@, table, labels, 0));
            lemma_top_bits_zero(prefix_key);
            if node.branch == 0 {
                lemma_nothing_below(table, prefix_key, 0, bound);
            }
        }

        while node.branch > 0 && pos < prefix_len
            invariant
                represents(self.nodes@, table, labels),
                table == self@,
                bound == if prefix_len <= 128 { prefix_len as nat } else { 128 },
                0 <= cur < self.nodes@.len(),
                *node == self.nodes@[cur],
                adr == node.adr,
                labels[cur] == prefix_of(prefix_key, depth),
                depth <= bound,
                node.branch > 0 ==> pos == depth,
                best_match == lpm_upto(table, prefix_key, depth),
                node.branch == 0 ==> best_match == lpm_upto(table, prefix_key, bound),
            ensures
                best_match == lpm_upto(table, prefix_key, bound),
            decreases prefix_len - pos, node.branch,
        {
            proof {
                assert(node_ok(self.nodes@, table, labels, cur));
                lemma_top_bits_step(prefix_key, depth);
            }
            let level_idx: usize = extract_bits_u128(prefix_key, pos, node.branch) as usize;
            let ghost next: int = adr + level_idx;
            assert(next < self.nodes.len());

            match self.nodes.get(adr + level_idx) {
                Some(next_node) => {
                    node = next_node;
                    proof {
                        assert(node_ok(self.nodes@, table, labels, next));
                    }
                    pos += node.branch + node.skip;
                    adr = node.adr;

                    if let Some(_) = node.value {
                        best_match = node.value;
                    }
                    proof {
                        cur = next;
                        depth = depth + 1;
                        if node.branch == 0 {
                            lemma_nothing_below(table, prefix_key, depth, bound);
                        }
                    }
                },
                None => break,
            }
        }

        best_match
    }
}

} // verus!
