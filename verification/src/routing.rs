//! Kademlia routing table: 160 k-buckets of peer descriptors keyed by the
//! height of the XOR distance to the table's own (parent) identifier.
//!
//! The table employs least-recently-seen eviction: inserting into a full
//! bucket pops its oldest entry and records an `EvictionConflict`, so the
//! surrounding protocol can probe the evicted peer and possibly revert the
//! eviction. Lookups use a "bounce" traversal that visits buckets in order
//! of decreasing closeness to the target: the set bits of the distance in
//! descending position order, then the cleared bits in ascending order.

use vstd::prelude::*;
use crate::hash::{
    SubotaiHash, HASH_SIZE, height_of, xor_of, seq_lt, seq_le, lemma_height_properties,
    lemma_lt_determined, lemma_lt_of_equal, lemma_lt_trans, lemma_lt_connex,
};

verus! {

/// Depth of each bucket, and the default width of node lookups.
pub const K: usize = 20;

/// Parallelism degree expected by the surrounding iterative lookup.
pub const ALPHA: usize = 3;

const BUCKET_DEPTH: usize = K;

/// A routable transport endpoint for a peer (an IPv4 address and port,
/// already decoded by the surrounding network layer).
#[derive(Clone, Copy, PartialEq, Eq, Structural, Debug)]
pub struct NodeAddress {
    pub ip: u32,
    pub port: u16,
}

/// A peer descriptor: identifier plus transport endpoint.
#[derive(Debug, PartialEq, Eq)]
pub struct NodeInfo {
    pub id: SubotaiHash,
    pub address: NodeAddress,
}

/// The mathematical content of a `NodeInfo`: its identifier bits and its
/// endpoint.
pub ghost struct NodeData {
    pub id: Seq<bool>,
    pub address: NodeAddress,
}

impl View for NodeInfo {
    type V = NodeData;

    open spec fn view(&self) -> NodeData {
        NodeData { id: self.id@, address: self.address }
    }
}

impl Clone for NodeInfo {
    fn clone(&self) -> (r: Self)
        ensures
            r@ == self@,
    {
        NodeInfo { id: self.id.clone(), address: self.address }
    }
}

/// A record of a peer dropped from a full bucket (`evicted`) to make room
/// for a newer one (`inserted`).
#[derive(Debug)]
pub struct EvictionConflict {
    pub evicted: NodeInfo,
    pub inserted: NodeInfo,
}

/// The mathematical content of an `EvictionConflict`.
pub ghost struct ConflictData {
    pub evicted: NodeData,
    pub inserted: NodeData,
}

impl View for EvictionConflict {
    type V = ConflictData;

    open spec fn view(&self) -> ConflictData {
        ConflictData { evicted: self.evicted@, inserted: self.inserted@ }
    }
}

impl Clone for EvictionConflict {
    fn clone(&self) -> (r: Self)
        ensures
            r@ == self@,
    {
        EvictionConflict { evicted: self.evicted.clone(), inserted: self.inserted.clone() }
    }
}

/// The result of a node lookup.
#[derive(Debug, PartialEq, Eq)]
pub enum LookupResult {
    Myself,
    Found(NodeInfo),
    ClosestNodes(Vec<NodeInfo>),
    Nothing,
}

struct Bucket {
    entries: Vec<NodeInfo>,
}

impl Bucket {
    fn new() -> (r: Bucket)
        ensures
            r.entries@.len() == 0,
    {
        Bucket { entries: Vec::new() }
    }
}

/// The identifier bits and endpoints held by a sequence of peer
/// descriptors.
pub open spec fn nodes_of(s: Seq<NodeInfo>) -> Seq<NodeData> {
    s.map_values(|e: NodeInfo| e@)
}

/// XOR distance from a peer to a target.
pub open spec fn dist_to(nd: NodeData, target: Seq<bool>) -> Seq<bool> {
    xor_of(nd.id, target)
}

/// A peer belongs at bucket index `i` of a table with the given parent
/// exactly when the height of its XOR distance to the parent is `i + 1`.
pub open spec fn entry_in_place(parent: Seq<bool>, i: int, nd: NodeData) -> bool {
    &&& nd.id.len() == HASH_SIZE
    &&& height_of(xor_of(parent, nd.id)) == i + 1
}

/// Some peer in the sequence carries the given identifier.
pub open spec fn bucket_has_id(b: Seq<NodeData>, id: Seq<bool>) -> bool {
    exists|j: int| 0 <= j < b.len() && b[j].id == id
}

/// No identifier appears twice in the sequence.
pub open spec fn ids_distinct(b: Seq<NodeData>) -> bool {
    forall|j1: int, j2: int| 0 <= j1 < j2 < b.len() ==> b[j1].id != b[j2].id
}

/// The sequence is ordered by ascending XOR distance to a target.
pub open spec fn sorted_by_dist(s: Seq<NodeData>, target: Seq<bool>) -> bool {
    forall|j1: int, j2: int| 0 <= j1 < j2 < s.len()
        ==> seq_le(dist_to(s[j1], target), dist_to(s[j2], target))
}

/// The identifier appears in the list.
pub open spec fn id_in_list(l: Seq<Seq<bool>>, id: Seq<bool>) -> bool {
    exists|k: int| 0 <= k < l.len() && l[k] == id
}

/// The bucket index occurs somewhere in a traversal order.
pub open spec fn order_covers(r: Seq<usize>, idx: int) -> bool {
    exists|p: int| 0 <= p < r.len() && r[p] == idx
}

/// Kademlia routing table with `HASH_SIZE` buckets of up to `K` peers
/// each, built around a parent node identifier. Conflicts produced by
/// evicting peers from full buckets remain tracked so they can be
/// reverted later.
pub struct Table {
    buckets: Vec<Bucket>,
    conflicts: Vec<EvictionConflict>,
    parent_id: SubotaiHash,
}

impl Table {
    /// The owning node's identifier bits.
    pub closed spec fn parent(&self) -> Seq<bool> {
        self.parent_id@
    }

    /// How many buckets the table holds.
    pub closed spec fn bucket_count(&self) -> nat {
        self.buckets@.len()
    }

    /// The peers in bucket `i`, oldest first.
    pub closed spec fn bucket(&self, i: int) -> Seq<NodeData> {
        nodes_of(self.buckets@[i].entries@)
    }

    /// The tracked eviction conflicts, oldest first.
    pub closed spec fn conflicts_view(&self) -> Seq<ConflictData> {
        self.conflicts@.map_values(|c: EvictionConflict| c@)
    }

    /// Bucket `i` is within depth, every peer in it is at the right
    /// distance shell, and no identifier repeats.
    pub open spec fn bucket_wf(&self, i: int) -> bool {
        &&& self.bucket(i).len() <= K
        &&& (forall|j: int| 0 <= j < self.bucket(i).len()
            ==> entry_in_place(self.parent(), i, #[trigger] self.bucket(i)[j]))
        &&& ids_distinct(self.bucket(i))
    }

    /// Table invariant: a well-formed parent, one bucket per bit of the
    /// key space, and every bucket well formed.
    pub open spec fn wf(&self) -> bool {
        &&& self.parent().len() == HASH_SIZE
        &&& self.bucket_count() == HASH_SIZE
        &&& forall|i: int| 0 <= i < HASH_SIZE ==> #[trigger] self.bucket_wf(i)
    }

    /// Some bucket holds a peer with exactly this data.
    pub open spec fn has_entry(&self, nd: NodeData) -> bool {
        exists|i: int| 0 <= i < HASH_SIZE && #[trigger] self.bucket(i).contains(nd)
    }

    /// Some bucket holds a peer with this identifier.
    pub open spec fn has_node_id(&self, id: Seq<bool>) -> bool {
        exists|i: int| 0 <= i < HASH_SIZE && bucket_has_id(#[trigger] self.bucket(i), id)
    }

    /// Some peer in the table is not blacklisted.
    pub open spec fn exists_eligible(&self, blacklist: Seq<Seq<bool>>) -> bool {
        exists|i: int, j: int|
            0 <= i < HASH_SIZE && 0 <= j < self.bucket(i).len()
                && !id_in_list(blacklist, (#[trigger] self.bucket(i)[j]).id)
    }

    /// Constructs a routing table based on a parent node id. Other nodes
    /// are stored in this table based on their distance to that id.
    pub fn new(parent_id: SubotaiHash) -> (r: Table)
        requires
            parent_id.wf(),
        ensures
            r.wf(),
            r.parent() == parent_id@,
            forall|i: int| 0 <= i < HASH_SIZE ==> (#[trigger] r.bucket(i)).len() == 0,
            r.conflicts_view().len() == 0,
    {
        let mut buckets: Vec<Bucket> = Vec::new();
        let mut i: usize = 0;
        while i < HASH_SIZE
            invariant
                i <= HASH_SIZE,
                buckets@.len() == i,
                forall|k: int| 0 <= k < i ==> buckets@[k].entries@.len() == 0,
            decreases HASH_SIZE - i,
        {
            buckets.push(Bucket::new());
            i += 1;
        }
        Table { buckets, conflicts: Vec::new(), parent_id }
    }

    /// The bucket index where a node belongs: the height of its XOR
    /// distance to the parent, minus one. The parent itself has no bucket.
    fn bucket_for_node(&self, id: &SubotaiHash) -> (r: Option<usize>)
        requires
            self.wf(),
            id.wf(),
        ensures
            match r {
                Some(i) => i < HASH_SIZE && i + 1 == height_of(
                    xor_of(self.parent(), id@),
                ),
                None => height_of(xor_of(self.parent(), id@)) == 0,
            },
    {
        let h = self.parent_id.xor(id).height();
        if h == 0 {
            None
        } else {
            Some(h - 1)
        }
    }

    /// Inserts a node in the routing table. An already-known identifier is
    /// refreshed: its old entry leaves and the new one joins at the back,
    /// with no conflict recorded. Inserting into a full bucket pops the
    /// oldest entry and records an eviction conflict. The parent id is
    /// silently ignored.
    pub fn insert_node(&mut self, info: NodeInfo)
        requires
            old(self).wf(),
            info.id.wf(),
        ensures
            final(self).wf(),
            insert_effect(*old(self), *final(self), info@),
    {
        let d = self.parent_id.xor(&info.id);
        let h = d.height();
        if h == 0 {
            return;
        }
        let index = h - 1;
        let ghost pre = *self;
        let ghost b = self.bucket(index as int);
        let mut bucket = self.buckets.remove(index);
        let ghost entries0 = bucket.entries@;
        proof {
            assert(b =~= nodes_of(entries0));
            assert(pre.bucket_wf(index as int));
        }

        // Look for an entry that already carries this identifier.
        let mut j: usize = 0;
        let mut found: Option<usize> = None;
        while j < bucket.entries.len()
            invariant_except_break
                found.is_none(),
            invariant
                j <= entries0.len(),
                bucket.entries@ == entries0,
                b == nodes_of(entries0),
                forall|k: int| 0 <= k < j ==> nodes_of(entries0)[k].id != info@.id,
            ensures
                bucket.entries@ == entries0,
                match found {
                    Some(jj) => jj < entries0.len() && b[jj as int].id == info@.id,
                    None => !bucket_has_id(b, info@.id),
                },
            decreases entries0.len() - j,
        {
            if bucket.entries[j].id == info.id {
                found = Some(j);
                break;
            }
            j += 1;
        }

        match found {
            Some(jj) => {
                // Refresh: drop the stale entry; the new one joins below.
                bucket.entries.remove(jj);
            },
            None => {
                if bucket.entries.len() == BUCKET_DEPTH {
                    // Least-recently-seen eviction: pop the oldest entry
                    // and track the conflict.
                    let evicted = bucket.entries.remove(0);
                    let conflict = EvictionConflict { evicted, inserted: info.clone() };
                    self.conflicts.push(conflict);
                }
            },
        }
        bucket.entries.push(info);
        let ghost entries1 = bucket.entries@;
        self.buckets.insert(index, bucket);
        proof {
            assert(self.buckets@ =~= pre.buckets@.update(index as int, bucket));
            assert forall|k: int| 0 <= k < HASH_SIZE && k != index implies self.bucket(k)
                == pre.bucket(k) by {
                assert(self.buckets@[k] == pre.buckets@[k]);
            }
            let i = index as int;
            assert(self.bucket(i) == nodes_of(entries1));
            match found {
                Some(jj) => {
                    assert(bucket_has_id(b, info@.id));
                    assert(nodes_of(entries1) =~= b.remove(jj as int).push(info@));
                    assert(self.conflicts_view() == pre.conflicts_view());
                },
                None => {
                    if b.len() >= BUCKET_DEPTH {
                        assert(nodes_of(entries1) =~= b.subrange(1, b.len() as int).push(info@));
                        assert(self.conflicts_view() =~= pre.conflicts_view().push(
                            ConflictData { evicted: b[0], inserted: info@ },
                        ));
                    } else {
                        assert(nodes_of(entries1) =~= b.push(info@));
                        assert(self.conflicts_view() == pre.conflicts_view());
                    }
                },
            }
            assert(bucket_step(b, self.bucket(i), info@));
            lemma_insert_wf(pre, *self, info@, i);
        }
    }
}

/// How one insertion changes the table: the parent and all other buckets
/// are untouched; in the target bucket a known identifier is refreshed in
/// place, a new one joins a bucket with room at the back, and a new one
/// joining a full bucket evicts the oldest entry and appends exactly one
/// conflict record whose evicted peer has left the bucket.
pub open spec fn insert_effect(pre: Table, post: Table, info: NodeData) -> bool {
    let h = height_of(xor_of(pre.parent(), info.id));
    let i = h - 1;
    let b = pre.bucket(i as int);
    &&& post.parent() == pre.parent()
    &&& (h == 0 ==> {
        &&& (forall|k: int| 0 <= k < HASH_SIZE ==> post.bucket(k) == pre.bucket(k))
        &&& post.conflicts_view() == pre.conflicts_view()
    })
    &&& (h > 0 ==> {
        &&& (forall|k: int| 0 <= k < HASH_SIZE && k != i ==> post.bucket(k) == pre.bucket(k))
        &&& (if bucket_has_id(b, info.id) {
            // Idempotent insert: the bucket does not grow and no
            // conflict is recorded.
            &&& (exists|j: int|
                0 <= j < b.len() && b[j].id == info.id && post.bucket(i as int) == b.remove(
                    j,
                ).push(info))
            &&& post.bucket(i as int).len() == b.len()
            &&& post.conflicts_view() == pre.conflicts_view()
        } else if b.len() < K {
            &&& post.bucket(i as int) == b.push(info)
            &&& post.conflicts_view() == pre.conflicts_view()
        } else {
            // Eviction accounting: exactly one conflict is appended; its
            // evicted peer is the popped front entry and the inserted
            // peer sits at the back.
            &&& post.bucket(i as int) == b.subrange(1, b.len() as int).push(info)
            &&& post.conflicts_view() == pre.conflicts_view().push(
                ConflictData { evicted: b[0], inserted: info },
            )
        })
        &&& post.bucket(i as int).len() <= K
        &&& post.bucket(i as int)[post.bucket(i as int).len() - 1] == info
    })
}

/// The three ways the target bucket can change under an insertion:
/// refresh of a known identifier, plain append, or eviction of the front.
pub open spec fn bucket_step(b: Seq<NodeData>, nb: Seq<NodeData>, info: NodeData) -> bool {
    if bucket_has_id(b, info.id) {
        exists|j: int| 0 <= j < b.len() && b[j].id == info.id && nb == b.remove(j).push(info)
    } else if b.len() < K {
        nb == b.push(info)
    } else {
        nb == b.subrange(1, b.len() as int).push(info)
    }
}

/// Inserting a well-formed node according to `insert_effect` preserves the
/// table invariant.
proof fn lemma_insert_wf(pre: Table, post: Table, info: NodeData, i: int)
    requires
        pre.wf(),
        info.id.len() == HASH_SIZE,
        height_of(xor_of(pre.parent(), info.id)) == i + 1,
        0 <= i < HASH_SIZE,
        post.parent() == pre.parent(),
        post.bucket_count() == HASH_SIZE,
        forall|k: int| 0 <= k < HASH_SIZE && k != i ==> post.bucket(k) == pre.bucket(k),
        bucket_step(pre.bucket(i), post.bucket(i), info),
    ensures
        post.wf(),
{
    let b = pre.bucket(i);
    assert(pre.bucket_wf(i));
    assert forall|k: int| 0 <= k < HASH_SIZE implies #[trigger] post.bucket_wf(k) by {
        assert(pre.bucket_wf(k));
        if k == i {
            let nb = post.bucket(i);
            if bucket_has_id(b, info.id) {
                let j = choose|j: int|
                    0 <= j < b.len() && b[j].id == info.id && nb == b.remove(j).push(info);
                assert forall|m: int| 0 <= m < nb.len() implies entry_in_place(
                    post.parent(),
                    i,
                    #[trigger] nb[m],
                ) by {
                    if m < nb.len() - 1 {
                        if m < j {
                            assert(nb[m] == b[m]);
                        } else {
                            assert(nb[m] == b[m + 1]);
                        }
                    }
                }
                assert forall|m1: int, m2: int| 0 <= m1 < m2 < nb.len() implies nb[m1].id
                    != nb[m2].id by {
                    if m2 < nb.len() - 1 {
                        let o1 = if m1 < j { m1 } else { m1 + 1 };
                        let o2 = if m2 < j { m2 } else { m2 + 1 };
                        assert(nb[m1] == b[o1]);
                        assert(nb[m2] == b[o2]);
                    } else {
                        let o1 = if m1 < j { m1 } else { m1 + 1 };
                        assert(nb[m1] == b[o1]);
                        // b[o1] is not the removed entry, so its id differs
                        // from the refreshed one.
                        assert(o1 != j);
                        if b[o1].id == info.id {
                            assert(b[o1].id == b[j].id);
                        }
                    }
                }
            } else if b.len() < K {
                let nb2 = post.bucket(i);
                assert forall|m: int| 0 <= m < nb2.len() implies entry_in_place(
                    post.parent(),
                    i,
                    #[trigger] nb2[m],
                ) by {
                    if m < nb2.len() - 1 {
                        assert(nb2[m] == b[m]);
                    }
                }
                assert forall|m1: int, m2: int| 0 <= m1 < m2 < nb2.len() implies nb2[m1].id
                    != nb2[m2].id by {
                    assert(nb2[m1] == b[m1]);
                    if m2 < nb2.len() - 1 {
                        assert(nb2[m2] == b[m2]);
                    } else {
                        if b[m1].id == info.id {
                            assert(bucket_has_id(b, info.id));
                        }
                    }
                }
            } else {
                let nb2 = post.bucket(i);
                assert(nb2.len() == b.len());
                assert forall|m: int| 0 <= m < nb2.len() implies entry_in_place(
                    post.parent(),
                    i,
                    #[trigger] nb2[m],
                ) by {
                    if m < nb2.len() - 1 {
                        assert(nb2[m] == b[m + 1]);
                    }
                }
                assert forall|m1: int, m2: int| 0 <= m1 < m2 < nb2.len() implies nb2[m1].id
                    != nb2[m2].id by {
                    assert(nb2[m1] == b[m1 + 1]);
                    if m2 < nb2.len() - 1 {
                        assert(nb2[m2] == b[m2 + 1]);
                    } else {
                        if b[m1 + 1].id == info.id {
                            assert(bucket_has_id(b, info.id));
                        }
                    }
                }
            }
        }
    }
}

/// Eviction accounting: when a new identifier is inserted into a full
/// bucket, exactly one conflict record is appended; its evicted peer is
/// the bucket's popped front entry, whose identifier is no longer in the
/// bucket, while the inserted identifier is.
pub proof fn lemma_eviction_accounting(pre: Table, post: Table, info: NodeData)
    requires
        pre.wf(),
        insert_effect(pre, post, info),
        height_of(xor_of(pre.parent(), info.id)) > 0,
        !bucket_has_id(
            pre.bucket(height_of(xor_of(pre.parent(), info.id)) - 1),
            info.id,
        ),
        pre.bucket(height_of(xor_of(pre.parent(), info.id)) - 1).len() >= K,
    ensures
        post.conflicts_view() == pre.conflicts_view().push(
            ConflictData {
                evicted: pre.bucket(height_of(xor_of(pre.parent(), info.id)) - 1)[0],
                inserted: info,
            },
        ),
        !bucket_has_id(
            post.bucket(height_of(xor_of(pre.parent(), info.id)) - 1),
            pre.bucket(height_of(xor_of(pre.parent(), info.id)) - 1)[0].id,
        ),
        bucket_has_id(post.bucket(height_of(xor_of(pre.parent(), info.id)) - 1), info.id),
{
    let i = height_of(xor_of(pre.parent(), info.id)) - 1;
    lemma_height_properties(xor_of(pre.parent(), info.id));
    let b = pre.bucket(i);
    let nb = post.bucket(i);
    assert(pre.bucket_wf(i));
    assert(nb == b.subrange(1, b.len() as int).push(info));
    assert(nb[nb.len() - 1] == info);
    assert(bucket_has_id(nb, info.id));
    assert forall|j: int| 0 <= j < nb.len() implies nb[j].id != b[0].id by {
        if j < nb.len() - 1 {
            assert(nb[j] == b[j + 1]);
        } else {
            assert(nb[j] == info);
            if info.id == b[0].id {
                assert(bucket_has_id(b, info.id));
            }
        }
    }
}

/// Under the table invariant the parent id never appears in any bucket.
pub proof fn lemma_parent_absent(t: Table)
    requires
        t.wf(),
    ensures
        !t.has_node_id(t.parent()),
{
    assert forall|i: int| 0 <= i < HASH_SIZE implies !bucket_has_id(
        #[trigger] t.bucket(i),
        t.parent(),
    ) by {
        assert(t.bucket_wf(i));
        if bucket_has_id(t.bucket(i), t.parent()) {
            let j = choose|j: int| 0 <= j < t.bucket(i).len() && t.bucket(i)[j].id == t.parent();
            assert(entry_in_place(t.parent(), i, t.bucket(i)[j]));
            let x = xor_of(t.parent(), t.parent());
            assert(forall|k: int| 0 <= k < x.len() ==> !x[k]);
            lemma_height_properties(x);
            if height_of(x) > 0 {
                assert(x[height_of(x) - 1]);
            }
        }
    }
}


/// Membership in a distance shell: every bit of `x` strictly above `i`
/// agrees with `d`, and the bit at `i` is flipped.
pub open spec fn in_shell(d: Seq<bool>, i: int, x: Seq<bool>) -> bool {
    &&& x.len() == HASH_SIZE
    &&& x[i] == !d[i]
    &&& forall|k: int| i < k < HASH_SIZE ==> x[k] == d[k]
}

/// The bounce traversal visits bucket `i` before bucket `j`: set bits of
/// the distance in descending order, then cleared bits in ascending order.
pub open spec fn visits_before(d: Seq<bool>, i: int, j: int) -> bool {
    ||| (d[i] && d[j] && i > j)
    ||| (d[i] && !d[j])
    ||| (!d[i] && !d[j] && i < j)
}

/// A peer of bucket `i` has its distance-to-target in shell `i` of the
/// parent-to-target distance.
proof fn lemma_shell_of_entry(parent: Seq<bool>, target: Seq<bool>, id: Seq<bool>, i: int)
    requires
        parent.len() == HASH_SIZE,
        target.len() == HASH_SIZE,
        id.len() == HASH_SIZE,
        0 <= i < HASH_SIZE,
        height_of(xor_of(parent, id)) == i + 1,
    ensures
        in_shell(xor_of(parent, target), i, xor_of(id, target)),
{
    let x = xor_of(parent, id);
    lemma_height_properties(x);
    assert(x[i]);
    let d = xor_of(parent, target);
    let y = xor_of(id, target);
    assert(y[i] == !d[i]);
    assert forall|k: int| i < k < HASH_SIZE implies y[k] == d[k] by {
        assert(!x[k]);
    }
}

/// Bucket order is distance order: when the traversal visits bucket `i`
/// before bucket `j`, every distance in shell `i` is numerically below
/// every distance in shell `j`.
proof fn lemma_shell_order(d: Seq<bool>, i: int, j: int, a: Seq<bool>, b: Seq<bool>)
    requires
        d.len() == HASH_SIZE,
        0 <= i < HASH_SIZE,
        0 <= j < HASH_SIZE,
        visits_before(d, i, j),
        in_shell(d, i, a),
        in_shell(d, j, b),
    ensures
        seq_lt(a, b),
{
    if d[i] && d[j] && i > j {
        assert(!a[i] && b[i]);
        lemma_lt_determined(a, b, i);
    } else if d[i] && !d[j] {
        if i > j {
            assert(!a[i] && b[i]);
            lemma_lt_determined(a, b, i);
        } else {
            assert(i != j);
            assert(!a[j] && b[j]);
            lemma_lt_determined(a, b, j);
        }
    } else {
        assert(!a[j] && b[j]);
        lemma_lt_determined(a, b, j);
    }
}

/// Strictly-below composed with at-most, on equal-length sequences.
proof fn lemma_lt_le_trans(a: Seq<bool>, b: Seq<bool>, c: Seq<bool>)
    requires
        a.len() == b.len(),
        b.len() == c.len(),
        seq_lt(a, b),
        seq_le(b, c),
    ensures
        seq_le(a, c),
{
    if seq_lt(c, a) {
        lemma_lt_trans(c, a, b);
    }
}

/// Under the table invariant, a bucket holding an identifier pins that
/// bucket's index to the identifier's distance height.
proof fn lemma_id_pins_bucket(t: Table, id: Seq<bool>)
    requires
        t.wf(),
    ensures
        forall|i: int|
            0 <= i < HASH_SIZE && bucket_has_id(#[trigger] t.bucket(i), id) ==> i + 1
                == height_of(xor_of(t.parent(), id)),
{
    assert forall|i: int|
        0 <= i < HASH_SIZE && bucket_has_id(#[trigger] t.bucket(i), id) implies i + 1
        == height_of(xor_of(t.parent(), id)) by {
        assert(t.bucket_wf(i));
        let j = choose|j: int| 0 <= j < t.bucket(i).len() && t.bucket(i)[j].id == id;
        assert(entry_in_place(t.parent(), i, t.bucket(i)[j]));
    }
}

impl Table {
    /// Returns a copy of the table entry carrying the given identifier,
    /// if one exists.
    #[verifier::loop_isolation(false)]
    pub fn specific_node(&self, id: &SubotaiHash) -> (r: Option<NodeInfo>)
        requires
            self.wf(),
            id.wf(),
        ensures
            match r {
                Some(info) => info@.id == id@ && self.has_entry(info@),
                None => !self.has_node_id(id@),
            },
    {
        proof {
            lemma_id_pins_bucket(*self, id@);
        }
        match self.bucket_for_node(id) {
            Some(index) => {
                let ghost b = self.bucket(index as int);
                let entries = &self.buckets[index].entries;
                let n: usize = entries.len();
                let mut j: usize = 0;
                while j < n
                    invariant
                        j <= n,
                        n == entries@.len(),
                        b == nodes_of(entries@),
                        forall|k: int| 0 <= k < j ==> b[k].id != id@,
                    decreases n - j,
                {
                    if entries[j].id == *id {
                        let found = entries[j].clone();
                        proof {
                            assert(b[j as int] == found@);
                            assert(self.bucket(index as int).contains(found@));
                        }
                        return Some(found);
                    }
                    j += 1;
                }
                proof {
                    assert(!bucket_has_id(b, id@));
                }
                None
            },
            None => {
                proof {
                    if self.has_node_id(id@) {
                        let i = choose|i: int|
                            0 <= i < HASH_SIZE && bucket_has_id(#[trigger] self.bucket(i), id@);
                    }
                }
                None
            },
        }
    }

    /// The tracked eviction conflicts.
    pub fn conflicts(&self) -> (r: &Vec<EvictionConflict>)
        ensures
            conflict_data_of(r@) == self.conflicts_view(),
    {
        &self.conflicts
    }
}

/// The mathematical content of a sequence of conflict records.
pub open spec fn conflict_data_of(s: Seq<EvictionConflict>) -> Seq<ConflictData> {
    s.map_values(|c: EvictionConflict| c@)
}

/// The order in which a bounce traversal for distance `d` visits bucket
/// indices: positions of set bits of `d` descending, then positions of
/// cleared bits ascending. Every bucket index occurs, and earlier visits
/// precede later ones in the `visits_before` order.
#[verifier::loop_isolation(false)]
fn bounce_order(d: &SubotaiHash) -> (r: Vec<usize>)
    requires
        d.wf(),
    ensures
        forall|p: int| 0 <= p < r@.len() ==> (#[trigger] r@[p]) < HASH_SIZE,
        forall|idx: int| 0 <= idx < HASH_SIZE ==> #[trigger] order_covers(r@, idx),
        forall|p1: int, p2: int|
            0 <= p1 < p2 < r@.len() ==> visits_before(d@, r@[p1] as int, r@[p2] as int),
{
    let ones = d.ones();
    let zeroes = d.zeroes();
    let mut r: Vec<usize> = Vec::new();
    let ghost n1 = ones@.len();
    let mut i: usize = ones.len();
    while i > 0
        invariant
            i <= n1,
            r@.len() == n1 - i,
            forall|p: int| 0 <= p < r@.len() ==> r@[p] == ones@[n1 - 1 - p],
        decreases i,
    {
        i -= 1;
        r.push(ones[i]);
    }
    let mut j: usize = 0;
    while j < zeroes.len()
        invariant
            j <= zeroes@.len(),
            r@.len() == n1 + j,
            forall|p: int| 0 <= p < n1 ==> r@[p] == ones@[n1 - 1 - p],
            forall|p: int| n1 <= p < r@.len() ==> r@[p] == zeroes@[p - n1],
        decreases zeroes@.len() - j,
    {
        r.push(zeroes[j]);
        j += 1;
    }
    proof {
        assert forall|idx: int| 0 <= idx < HASH_SIZE implies #[trigger] order_covers(
            r@,
            idx,
        ) by {
            if d@[idx] {
                let q = choose|q: int| 0 <= q < ones@.len() && ones@[q] == idx;
                assert(r@[n1 - 1 - q] == idx);
            } else {
                let q = choose|q: int| 0 <= q < zeroes@.len() && zeroes@[q] == idx;
                assert(r@[n1 + q] == idx);
            }
        }
        assert forall|p1: int, p2: int|
            0 <= p1 < p2 < r@.len() implies visits_before(
            d@,
            r@[p1] as int,
            r@[p2] as int,
        ) by {
            if p2 < n1 {
                assert(r@[p1] == ones@[n1 - 1 - p1]);
                assert(r@[p2] == ones@[n1 - 1 - p2]);
                assert(ones@[n1 - 1 - p2] < ones@[n1 - 1 - p1]);
            } else if p1 < n1 {
                assert(r@[p1] == ones@[n1 - 1 - p1]);
                assert(r@[p2] == zeroes@[p2 - n1]);
            } else {
                assert(r@[p1] == zeroes@[p1 - n1]);
                assert(r@[p2] == zeroes@[p2 - n1]);
                assert(zeroes@[p1 - n1] < zeroes@[p2 - n1]);
            }
        }
    }
    r
}

/// Sorts peer descriptors by ascending XOR distance to a target, by
/// repeatedly extracting the closest remaining peer.
#[verifier::loop_isolation(false)]
fn sort_by_distance(input: Vec<NodeInfo>, target: &SubotaiHash) -> (r: Vec<NodeInfo>)
    requires
        target.wf(),
        forall|k: int| 0 <= k < input@.len() ==> (#[trigger] input@[k])@.id.len() == HASH_SIZE,
        ids_distinct(nodes_of(input@)),
    ensures
        nodes_of(r@).to_multiset() == nodes_of(input@).to_multiset(),
        sorted_by_dist(nodes_of(r@), target@),
        forall|k: int| 0 <= k < r@.len() ==> (#[trigger] r@[k])@.id.len() == HASH_SIZE,
        ids_distinct(nodes_of(r@)),
{
    broadcast use vstd::seq_lib::group_to_multiset_ensures;

    let mut rest = input;
    let mut out: Vec<NodeInfo> = Vec::new();
    while rest.len() > 0
        invariant
            nodes_of(out@).to_multiset().add(nodes_of(rest@).to_multiset()) == nodes_of(
                input@,
            ).to_multiset(),
            sorted_by_dist(nodes_of(out@), target@),
            forall|a: int, b: int|
                0 <= a < out@.len() && 0 <= b < rest@.len() ==> seq_le(
                    dist_to(nodes_of(out@)[a], target@),
                    dist_to(nodes_of(rest@)[b], target@),
                ),
            forall|k: int| 0 <= k < rest@.len() ==> (#[trigger] rest@[k])@.id.len() == HASH_SIZE,
            forall|k: int| 0 <= k < out@.len() ==> (#[trigger] out@[k])@.id.len() == HASH_SIZE,
            ids_distinct(nodes_of(out@)),
            ids_distinct(nodes_of(rest@)),
            forall|a: int, b: int|
                0 <= a < out@.len() && 0 <= b < rest@.len() ==> nodes_of(out@)[a].id != nodes_of(
                    rest@,
                )[b].id,
        decreases rest@.len(),
    {
        let mut best: usize = 0;
        let mut k: usize = 1;
        proof {
            let d0 = dist_to(nodes_of(rest@)[0], target@);
            lemma_lt_of_equal(d0, d0);
        }
        while k < rest.len()
            invariant
                best < k <= rest@.len(),
                forall|m: int|
                    0 <= m < k ==> seq_le(
                        dist_to(nodes_of(rest@)[best as int], target@),
                        dist_to(nodes_of(rest@)[m], target@),
                    ),
            decreases rest@.len() - k,
        {
            let dk = rest[k].id.xor(target);
            let db = rest[best].id.xor(target);
            if dk.less(&db) {
                proof {
                    let newd = dist_to(nodes_of(rest@)[k as int], target@);
                    let oldd = dist_to(nodes_of(rest@)[best as int], target@);
                    assert forall|m: int|
                        0 <= m < k + 1 implies seq_le(
                        newd,
                        dist_to(nodes_of(rest@)[m], target@),
                    ) by {
                        if m < k {
                            lemma_lt_le_trans(newd, oldd, dist_to(nodes_of(rest@)[m], target@));
                        } else {
                            lemma_lt_of_equal(newd, newd);
                        }
                    }
                }
                best = k;
            }
            k += 1;
        }
        let ghost rest0 = rest@;
        let ghost out0 = out@;
        let e = rest.remove(best);
        out.push(e);
        proof {
            assert(nodes_of(rest@) =~= nodes_of(rest0).remove(best as int));
            assert(nodes_of(out@) =~= nodes_of(out0).push(e@));
            assert(e@ == nodes_of(rest0)[best as int]);
            let ms_out0 = nodes_of(out0).to_multiset();
            let ms_rest0 = nodes_of(rest0).to_multiset();
            assert(nodes_of(rest@).to_multiset() =~= ms_rest0.remove(e@));
            assert(nodes_of(out@).to_multiset() =~= ms_out0.insert(e@));
            assert(ms_rest0.count(e@) > 0);
            assert(nodes_of(out@).to_multiset().add(nodes_of(rest@).to_multiset())
                =~= ms_out0.add(ms_rest0));
        }
    }
    out
}


/// The identifier bits of an optional blacklist.
pub open spec fn blacklist_view(blacklist: Option<&Vec<SubotaiHash>>) -> Seq<Seq<bool>> {
    match blacklist {
        Option::None => Seq::empty(),
        Option::Some(v) => v@.map_values(|h: SubotaiHash| h@),
    }
}

/// Whether an identifier occurs in an optional blacklist.
#[verifier::loop_isolation(false)]
fn in_blacklist(blacklist: Option<&Vec<SubotaiHash>>, id: &SubotaiHash) -> (r: bool)
    ensures
        r == id_in_list(blacklist_view(blacklist), id@),
{
    match blacklist {
        Option::None => {
            proof {
                assert(!id_in_list(blacklist_view(blacklist), id@));
            }
            false
        },
        Option::Some(list) => {
            let ghost blv = blacklist_view(blacklist);
            let n: usize = list.len();
            let mut k: usize = 0;
            while k < n
                invariant
                    k <= n,
                    n == list@.len(),
                    blv == blacklist_view(blacklist),
                    blv.len() == n,
                    forall|m: int| 0 <= m < k ==> blv[m] != id@,
                decreases n - k,
            {
                if list[k] == *id {
                    proof {
                        assert(blv[k as int] == id@);
                    }
                    return true;
                }
                k += 1;
            }
            proof {
                assert(!id_in_list(blv, id@));
            }
            false
        },
    }
}

/// Copies the peer descriptors of one bucket.
fn clone_entries(entries: &Vec<NodeInfo>) -> (r: Vec<NodeInfo>)
    ensures
        nodes_of(r@) == nodes_of(entries@),
{
    let n: usize = entries.len();
    let mut r: Vec<NodeInfo> = Vec::new();
    let mut j: usize = 0;
    while j < n
        invariant
            j <= n,
            n == entries@.len(),
            r@.len() == j,
            forall|k: int| 0 <= k < j ==> nodes_of(r@)[k] == nodes_of(entries@)[k],
        decreases n - j,
    {
        r.push(entries[j].clone());
        j += 1;
    }
    proof {
        assert(nodes_of(r@) =~= nodes_of(entries@));
    }
    r
}

/// Drops the peers whose identifiers occur in the blacklist, keeping
/// every other peer.
#[verifier::loop_isolation(false)]
fn filter_blacklist(input: Vec<NodeInfo>, blacklist: Option<&Vec<SubotaiHash>>) -> (r: Vec<
    NodeInfo,
>)
    requires
        ids_distinct(nodes_of(input@)),
    ensures
        forall|j: int|
            0 <= j < r@.len() ==> !id_in_list(
                blacklist_view(blacklist),
                (#[trigger] nodes_of(r@)[j]).id,
            ),
        forall|j: int|
            0 <= j < r@.len() ==> nodes_of(input@).contains(#[trigger] nodes_of(r@)[j]),
        forall|k: int|
            0 <= k < input@.len() && !id_in_list(
                blacklist_view(blacklist),
                (#[trigger] nodes_of(input@)[k]).id,
            ) ==> nodes_of(r@).contains(nodes_of(input@)[k]),
        ids_distinct(nodes_of(r@)),
{
    let n: usize = input.len();
    let mut r: Vec<NodeInfo> = Vec::new();
    let mut k: usize = 0;
    while k < n
        invariant
            k <= n,
            forall|j: int|
                0 <= j < r@.len() ==> !id_in_list(
                    blacklist_view(blacklist),
                    (#[trigger] nodes_of(r@)[j]).id,
                ),
            forall|j: int|
                0 <= j < r@.len() ==> exists|m: int|
                    0 <= m < k && #[trigger] nodes_of(r@)[j] == nodes_of(input@)[m],
            forall|m: int|
                0 <= m < k && !id_in_list(
                    blacklist_view(blacklist),
                    (#[trigger] nodes_of(input@)[m]).id,
                ) ==> nodes_of(r@).contains(nodes_of(input@)[m]),
            ids_distinct(nodes_of(r@)),
        decreases n - k,
    {
        let ghost r0 = r@;
        if !in_blacklist(blacklist, &input[k].id) {
            r.push(input[k].clone());
            proof {
                assert(nodes_of(r@) =~= nodes_of(r0).push(nodes_of(input@)[k as int]));
                assert(nodes_of(r@)[r0.len() as int] == nodes_of(input@)[k as int]);
                // The appended peer comes from a fresh input slot, whose id
                // no earlier kept peer can carry.
                assert forall|j1: int, j2: int|
                    0 <= j1 < j2 < nodes_of(r@).len() implies nodes_of(r@)[j1].id != nodes_of(
                    r@,
                )[j2].id by {
                    if j2 == nodes_of(r@).len() - 1 {
                        let m = choose|m: int|
                            0 <= m < k && nodes_of(r0)[j1] == nodes_of(input@)[m];
                        assert(nodes_of(r@)[j1] == nodes_of(input@)[m]);
                    }
                }
            }
        }
        proof {
            assert forall|m: int|
                0 <= m < k + 1 && !id_in_list(
                    blacklist_view(blacklist),
                    (#[trigger] nodes_of(input@)[m]).id,
                ) implies nodes_of(r@).contains(nodes_of(input@)[m]) by {
                if m < k {
                    let w = choose|w: int|
                        0 <= w < nodes_of(r0).len() && nodes_of(r0)[w] == nodes_of(input@)[m];
                    assert(nodes_of(r@)[w] == nodes_of(input@)[m]);
                }
            }
        }
        k += 1;
    }
    r
}

/// What a lookup returns, for every combination of target, width and
/// blacklist: the caller's own id answers `Myself`; a known id answers
/// `Found`; otherwise up to `n` eligible peers, sorted by ascending XOR
/// distance to the target, none blacklisted, and all eligible peers
/// included whenever fewer than `n` are returned; `Nothing` exactly when
/// no peer can be returned.
pub open spec fn lookup_post(
    t: Table,
    id: Seq<bool>,
    n: int,
    bl: Seq<Seq<bool>>,
    r: LookupResult,
) -> bool {
    match r {
        LookupResult::Myself => id == t.parent(),
        LookupResult::Found(info) => id != t.parent() && info@.id == id && t.has_entry(info@),
        LookupResult::ClosestNodes(list) => {
            &&& id != t.parent()
            &&& !t.has_node_id(id)
            &&& 1 <= list@.len() <= n
            &&& sorted_by_dist(nodes_of(list@), id)
            &&& ids_distinct(nodes_of(list@))
            &&& (forall|j: int|
                0 <= j < list@.len() ==> t.has_entry(#[trigger] nodes_of(list@)[j]))
            &&& (forall|j: int|
                0 <= j < list@.len() ==> !id_in_list(bl, (#[trigger] nodes_of(list@)[j]).id))
            &&& (list@.len() < n ==> (forall|i: int, jj: int|
                0 <= i < HASH_SIZE && 0 <= jj < t.bucket(i).len() && !id_in_list(
                    bl,
                    (#[trigger] t.bucket(i)[jj]).id,
                ) ==> nodes_of(list@).contains(t.bucket(i)[jj])))
            // Optimality: an eligible peer left out of the list is no
            // closer to the target than any member.
            &&& (forall|i: int, jj: int, w: int|
                0 <= i < HASH_SIZE && 0 <= jj < t.bucket(i).len() && !id_in_list(
                    bl,
                    (#[trigger] t.bucket(i)[jj]).id,
                ) && !nodes_of(list@).contains(t.bucket(i)[jj]) && 0 <= w < list@.len()
                    ==> seq_le(
                    dist_to(#[trigger] nodes_of(list@)[w], id),
                    dist_to(t.bucket(i)[jj], id),
                ))
        },
        LookupResult::Nothing => {
            &&& id != t.parent()
            &&& !t.has_node_id(id)
            &&& (n == 0 || !t.exists_eligible(bl))
        },
    }
}

impl Table {
    /// Bounce lookup: visits the buckets indexed by the positions of the
    /// set bits of the distance to the target in descending order, then
    /// by the positions of its cleared bits in ascending order, collecting
    /// up to `n` non-blacklisted peers sorted by distance to the target.
    #[verifier::loop_isolation(false)]
    fn closest_n_nodes_to(
        &self,
        id: &SubotaiHash,
        n: usize,
        blacklist: Option<&Vec<SubotaiHash>>,
    ) -> (r: Vec<NodeInfo>)
        requires
            self.wf(),
            id.wf(),
        ensures
            r@.len() <= n,
            sorted_by_dist(nodes_of(r@), id@),
            forall|j: int| 0 <= j < r@.len() ==> self.has_entry(#[trigger] nodes_of(r@)[j]),
            forall|j: int|
                0 <= j < r@.len() ==> !id_in_list(
                    blacklist_view(blacklist),
                    (#[trigger] nodes_of(r@)[j]).id,
                ),
            r@.len() < n ==> (forall|i: int, jj: int|
                0 <= i < HASH_SIZE && 0 <= jj < self.bucket(i).len() && !id_in_list(
                    blacklist_view(blacklist),
                    (#[trigger] self.bucket(i)[jj]).id,
                ) ==> nodes_of(r@).contains(self.bucket(i)[jj])),
            ids_distinct(nodes_of(r@)),
            forall|i: int, jj: int, w: int|
                0 <= i < HASH_SIZE && 0 <= jj < self.bucket(i).len() && !id_in_list(
                    blacklist_view(blacklist),
                    (#[trigger] self.bucket(i)[jj]).id,
                ) && !nodes_of(r@).contains(self.bucket(i)[jj]) && 0 <= w < r@.len() ==> seq_le(
                    dist_to(#[trigger] nodes_of(r@)[w], id@),
                    dist_to(self.bucket(i)[jj], id@),
                ),
    {
        broadcast use vstd::seq_lib::group_to_multiset_ensures;

        let ghost blv = blacklist_view(blacklist);
        let d = self.parent_id.xor(id);
        let order = bounce_order(&d);
        let mut closest: Vec<NodeInfo> = Vec::new();
        let mut pos: usize = 0;
        while pos < order.len() && closest.len() < n
            invariant
                pos <= order@.len(),
                closest@.len() <= n,
                sorted_by_dist(nodes_of(closest@), id@),
                forall|j: int|
                    0 <= j < closest@.len() ==> self.has_entry(#[trigger] nodes_of(closest@)[j]),
                forall|j: int|
                    0 <= j < closest@.len() ==> !id_in_list(
                        blv,
                        (#[trigger] nodes_of(closest@)[j]).id,
                    ),
                forall|j: int|
                    0 <= j < closest@.len() ==> (#[trigger] nodes_of(closest@)[j]).id.len()
                        == HASH_SIZE,
                forall|j: int|
                    0 <= j < closest@.len() ==> exists|p: int|
                        0 <= p < pos && in_shell(
                            d@,
                            order@[p] as int,
                            dist_to(#[trigger] nodes_of(closest@)[j], id@),
                        ),
                closest@.len() < n ==> (forall|p: int, jj: int|
                    0 <= p < pos && 0 <= jj < self.bucket(order@[p] as int).len()
                        && !id_in_list(
                        blv,
                        (#[trigger] self.bucket(order@[p] as int)[jj]).id,
                    ) ==> nodes_of(closest@).contains(self.bucket(order@[p] as int)[jj])),
                ids_distinct(nodes_of(closest@)),
                forall|p: int, jj: int, w: int|
                    0 <= p < pos && 0 <= jj < self.bucket(order@[p] as int).len()
                        && !id_in_list(
                        blv,
                        (#[trigger] self.bucket(order@[p] as int)[jj]).id,
                    ) && !nodes_of(closest@).contains(self.bucket(order@[p] as int)[jj]) && 0
                        <= w < closest@.len() ==> seq_le(
                        dist_to(#[trigger] nodes_of(closest@)[w], id@),
                        dist_to(self.bucket(order@[p] as int)[jj], id@),
                    ),
            decreases order@.len() - pos,
        {
            let bucket_index = order[pos];
            let ghost b = self.bucket(bucket_index as int);
            let cloned = clone_entries(&self.buckets[bucket_index].entries);
            proof {
                assert(self.bucket_wf(bucket_index as int));
                assert(ids_distinct(nodes_of(cloned@)));
            }
            let filtered = filter_blacklist(cloned, blacklist);
            proof {
                assert(self.bucket_wf(bucket_index as int));
                assert forall|kk: int| 0 <= kk < filtered@.len() implies (
                #[trigger] filtered@[kk])@.id.len() == HASH_SIZE by {
                    assert(nodes_of(cloned@).contains(nodes_of(filtered@)[kk]));
                    let w = choose|w: int| 0 <= w < b.len() && b[w] == nodes_of(filtered@)[kk];
                    assert(entry_in_place(self.parent(), bucket_index as int, b[w]));
                }
            }
            let sorted = sort_by_distance(filtered, id);
            proof {
                assert(self.bucket_wf(bucket_index as int));
                // Every sorted peer is an eligible peer of this bucket,
                // and its distance to the target lies in this bucket's
                // shell.
                assert forall|j: int| 0 <= j < sorted@.len() implies b.contains(
                    #[trigger] nodes_of(sorted@)[j],
                ) && !id_in_list(blv, nodes_of(sorted@)[j].id) && in_shell(
                    d@,
                    bucket_index as int,
                    dist_to(nodes_of(sorted@)[j], id@),
                ) by {
                    let e = nodes_of(sorted@)[j];
                    assert(nodes_of(sorted@).to_multiset().count(e) > 0);
                    assert(nodes_of(filtered@).contains(e));
                    let w = choose|w: int|
                        0 <= w < b.len() && b[w] == e;
                    assert(entry_in_place(self.parent(), bucket_index as int, e));
                    lemma_shell_of_entry(self.parent(), id@, e.id, bucket_index as int);
                }
                // Every eligible peer of this bucket appears among the
                // sorted peers.
                assert forall|jj: int|
                    0 <= jj < b.len() && !id_in_list(blv, (#[trigger] b[jj]).id) implies
                    nodes_of(sorted@).contains(b[jj]) by {
                    assert(nodes_of(filtered@).contains(b[jj]));
                    assert(nodes_of(filtered@).to_multiset().count(b[jj]) > 0);
                }
            }
            let ghost closest0 = closest@;
            let mut t: usize = 0;
            while t < sorted.len() && closest.len() < n
                invariant
                    t <= sorted@.len(),
                    closest@.len() == closest0.len() + t,
                    closest@.len() <= n,
                    nodes_of(closest@) == nodes_of(closest0) + nodes_of(sorted@).subrange(
                        0,
                        t as int,
                    ),
                decreases sorted@.len() - t,
            {
                let ghost c0 = closest@;
                closest.push(sorted[t].clone());
                proof {
                    assert(nodes_of(closest@) =~= nodes_of(c0).push(nodes_of(sorted@)[t as int]));
                    assert(nodes_of(closest@) =~= nodes_of(closest0) + nodes_of(
                        sorted@,
                    ).subrange(0, t + 1));
                }
                t += 1;
            }
            proof {
                let nc = nodes_of(closest@);
                let ns = nodes_of(sorted@).subrange(0, t as int);
                let n0 = nodes_of(closest0);
                // Re-establish the outer invariants for the extended list.
                assert forall|j: int| 0 <= j < nc.len() implies self.has_entry(
                    #[trigger] nc[j],
                ) && !id_in_list(blv, nc[j].id) && nc[j].id.len() == HASH_SIZE && (exists|p: int|
                    0 <= p < pos + 1 && in_shell(d@, order@[p] as int, dist_to(nc[j], id@))) by {
                    if j < n0.len() {
                        assert(nc[j] == n0[j]);
                        let p = choose|p: int|
                            0 <= p < pos && in_shell(d@, order@[p] as int, dist_to(n0[j], id@));
                        assert(0 <= p < pos + 1 && in_shell(
                            d@,
                            order@[p] as int,
                            dist_to(nc[j], id@),
                        ));
                    } else {
                        assert(nc[j] == nodes_of(sorted@)[j - n0.len()]);
                        assert(b.contains(nc[j]));
                        let w = choose|w: int| 0 <= w < b.len() && b[w] == nc[j];
                        assert(self.bucket(bucket_index as int).contains(nc[j]));
                        assert(in_shell(d@, order@[pos as int] as int, dist_to(nc[j], id@)));
                    }
                }
                assert forall|j1: int, j2: int| 0 <= j1 < j2 < nc.len() implies seq_le(
                    dist_to(nc[j1], id@),
                    dist_to(nc[j2], id@),
                ) by {
                    if j2 < n0.len() {
                        assert(nc[j1] == n0[j1]);
                        assert(nc[j2] == n0[j2]);
                        assert(seq_le(dist_to(n0[j1], id@), dist_to(n0[j2], id@)));
                    } else if j1 < n0.len() && j2 >= n0.len() {
                        let p = choose|p: int|
                            0 <= p < pos && in_shell(d@, order@[p] as int, dist_to(n0[j1], id@));
                        assert(nc[j1] == n0[j1]);
                        assert(nc[j2] == nodes_of(sorted@)[j2 - n0.len()]);
                        assert(in_shell(d@, bucket_index as int, dist_to(nc[j2], id@)));
                        assert(visits_before(d@, order@[p] as int, order@[pos as int] as int));
                        lemma_shell_order(
                            d@,
                            order@[p] as int,
                            bucket_index as int,
                            dist_to(nc[j1], id@),
                            dist_to(nc[j2], id@),
                        );
                        lemma_lt_connex(dist_to(nc[j1], id@), dist_to(nc[j2], id@));
                    } else {
                        assert(nc[j1] == nodes_of(sorted@)[j1 - n0.len()]);
                        assert(nc[j2] == nodes_of(sorted@)[j2 - n0.len()]);
                        assert(seq_le(
                            dist_to(nodes_of(sorted@)[j1 - n0.len()], id@),
                            dist_to(nodes_of(sorted@)[j2 - n0.len()], id@),
                        ));
                    }
                }
                assert forall|p: int, jj: int|
                    closest@.len() < n && 0 <= p < pos + 1 && 0 <= jj < self.bucket(
                        order@[p] as int,
                    ).len() && !id_in_list(
                        blv,
                        (#[trigger] self.bucket(order@[p] as int)[jj]).id,
                    ) implies nodes_of(closest@).contains(self.bucket(order@[p] as int)[jj]) by {
                    let e = self.bucket(order@[p] as int)[jj];
                    if p < pos {
                        let w = choose|w: int| 0 <= w < n0.len() && n0[w] == e;
                        assert(nc[w] == e);
                    } else {
                        // The inner loop exhausted this bucket, so every
                        // eligible peer of it sits in the appended block.
                        assert(t == sorted@.len());
                        let w = choose|w: int|
                            0 <= w < nodes_of(sorted@).len() && nodes_of(sorted@)[w] == e;
                        assert(nc[n0.len() + w] == e);
                    }
                }
                // No identifier repeats: peers from different visits lie in
                // different shells, peers of one visit are distinct already.
                assert forall|j1: int, j2: int| 0 <= j1 < j2 < nc.len() implies nc[j1].id
                    != nc[j2].id by {
                    if j2 < n0.len() {
                        assert(nc[j1] == n0[j1]);
                        assert(nc[j2] == n0[j2]);
                    } else if j1 >= n0.len() {
                        assert(nc[j1] == nodes_of(sorted@)[j1 - n0.len()]);
                        assert(nc[j2] == nodes_of(sorted@)[j2 - n0.len()]);
                    } else {
                        assert(nc[j1] == n0[j1]);
                        assert(nc[j2] == nodes_of(sorted@)[j2 - n0.len()]);
                        let p = choose|p: int|
                            0 <= p < pos && in_shell(d@, order@[p] as int, dist_to(n0[j1], id@));
                        assert(in_shell(d@, bucket_index as int, dist_to(nc[j2], id@)));
                        assert(visits_before(d@, order@[p] as int, order@[pos as int] as int));
                        let s1 = order@[p] as int;
                        let s2 = bucket_index as int;
                        assert(s1 != s2);
                        if nc[j1].id == nc[j2].id {
                            let x = dist_to(nc[j1], id@);
                            assert(x == dist_to(nc[j2], id@));
                            if s1 < s2 {
                                assert(x[s2] == d@[s2] && x[s2] == !d@[s2]);
                            } else {
                                assert(x[s1] == d@[s1] && x[s1] == !d@[s1]);
                            }
                        }
                    }
                }
                // Optimality over the visited buckets: a visited eligible
                // peer left out of the list is no closer to the target than
                // any member.
                assert forall|p: int, jj: int, w: int|
                    0 <= p < pos + 1 && 0 <= jj < self.bucket(order@[p] as int).len()
                        && !id_in_list(
                        blv,
                        (#[trigger] self.bucket(order@[p] as int)[jj]).id,
                    ) && !nc.contains(self.bucket(order@[p] as int)[jj]) && 0 <= w < nc.len()
                    implies seq_le(
                    dist_to(#[trigger] nc[w], id@),
                    dist_to(self.bucket(order@[p] as int)[jj], id@),
                ) by {
                    let e = self.bucket(order@[p] as int)[jj];
                    if p < pos {
                        // The outer loop only ran because the list was not
                        // full, so every eligible peer of an earlier visit
                        // is in it: nothing was left out there.
                        assert(nodes_of(closest0).contains(e));
                        let w0 = choose|w0: int| 0 <= w0 < n0.len() && n0[w0] == e;
                        assert(nc[w0] == e);
                    } else {
                        assert(nodes_of(sorted@).contains(e));
                        let w0 = choose|w0: int|
                            0 <= w0 < nodes_of(sorted@).len() && nodes_of(sorted@)[w0] == e;
                        if w0 < t {
                            assert(nc[n0.len() + w0] == e);
                        }
                        assert(w0 >= t);
                        if w < n0.len() {
                            let pw = choose|pw: int|
                                0 <= pw < pos && in_shell(
                                    d@,
                                    order@[pw] as int,
                                    dist_to(n0[w], id@),
                                );
                            assert(nc[w] == n0[w]);
                            assert(in_shell(d@, bucket_index as int, dist_to(e, id@)));
                            assert(visits_before(
                                d@,
                                order@[pw] as int,
                                order@[pos as int] as int,
                            ));
                            lemma_shell_order(
                                d@,
                                order@[pw] as int,
                                bucket_index as int,
                                dist_to(nc[w], id@),
                                dist_to(e, id@),
                            );
                            lemma_lt_connex(dist_to(nc[w], id@), dist_to(e, id@));
                        } else {
                            assert(nc[w] == nodes_of(sorted@)[w - n0.len()]);
                            assert(w - n0.len() < t <= w0);
                            assert(seq_le(
                                dist_to(nodes_of(sorted@)[w - n0.len()], id@),
                                dist_to(nodes_of(sorted@)[w0], id@),
                            ));
                        }
                    }
                }
            }
            pos += 1;
        }
        proof {
            if closest@.len() < n {
                assert forall|i: int, jj: int|
                    0 <= i < HASH_SIZE && 0 <= jj < self.bucket(i).len() && !id_in_list(
                        blv,
                        (#[trigger] self.bucket(i)[jj]).id,
                    ) implies nodes_of(closest@).contains(self.bucket(i)[jj]) by {
                    assert(order_covers(order@, i));
                    let p = choose|p: int| 0 <= p < order@.len() && order@[p] == i;
                }
            }
            // Optimality over the whole table: visited buckets by the loop
            // invariant, unvisited buckets because they lie in farther
            // shells than every member.
            assert forall|i: int, jj: int, w: int|
                0 <= i < HASH_SIZE && 0 <= jj < self.bucket(i).len() && !id_in_list(
                    blv,
                    (#[trigger] self.bucket(i)[jj]).id,
                ) && !nodes_of(closest@).contains(self.bucket(i)[jj]) && 0 <= w
                    < closest@.len() implies seq_le(
                dist_to(#[trigger] nodes_of(closest@)[w], id@),
                dist_to(self.bucket(i)[jj], id@),
            ) by {
                let e = self.bucket(i)[jj];
                assert(order_covers(order@, i));
                let p = choose|p: int| 0 <= p < order@.len() && order@[p] == i;
                if p >= pos {
                    assert(self.bucket_wf(i));
                    assert(entry_in_place(self.parent(), i, e));
                    lemma_shell_of_entry(self.parent(), id@, e.id, i);
                    let pw = choose|pw: int|
                        0 <= pw < pos && in_shell(
                            d@,
                            order@[pw] as int,
                            dist_to(nodes_of(closest@)[w], id@),
                        );
                    assert(visits_before(d@, order@[pw] as int, order@[p] as int));
                    lemma_shell_order(
                        d@,
                        order@[pw] as int,
                        order@[p] as int,
                        dist_to(nodes_of(closest@)[w], id@),
                        dist_to(e, id@),
                    );
                    lemma_lt_connex(dist_to(nodes_of(closest@)[w], id@), dist_to(e, id@));
                }
            }
        }
        closest
    }

    /// Performs a node lookup: the parent id answers `Myself`, a known id
    /// answers `Found`, and otherwise the bounce traversal collects up to
    /// `n` closest eligible peers, or `Nothing` when there are none.
    pub fn lookup(
        &self,
        id: &SubotaiHash,
        n: usize,
        blacklist: Option<&Vec<SubotaiHash>>,
    ) -> (r: LookupResult)
        requires
            self.wf(),
            id.wf(),
        ensures
            lookup_post(*self, id@, n as int, blacklist_view(blacklist), r),
    {
        if self.parent_id == *id {
            return LookupResult::Myself;
        }
        match self.specific_node(id) {
            Some(info) => LookupResult::Found(info),
            None => {
                let closest = self.closest_n_nodes_to(id, n, blacklist);
                if closest.len() == 0 {
                    proof {
                        if n > 0 && self.exists_eligible(blacklist_view(blacklist)) {
                            let (i, jj) = choose|i: int, jj: int|
                                0 <= i < HASH_SIZE && 0 <= jj < self.bucket(i).len()
                                    && !id_in_list(
                                    blacklist_view(blacklist),
                                    (#[trigger] self.bucket(i)[jj]).id,
                                );
                            assert(nodes_of(closest@).contains(self.bucket(i)[jj]));
                        }
                    }
                    LookupResult::Nothing
                } else {
                    LookupResult::ClosestNodes(closest)
                }
            },
        }
    }
}


/// Produces copies of all known nodes: buckets in ascending index
/// (closest distance shell to the parent first); within each bucket,
/// peers in descending distance to the parent.
pub struct AllNodes {
    nodes: Vec<NodeInfo>,
    next_index: usize,
}

impl AllNodes {
    /// The snapshot this iterator walks.
    pub closed spec fn items(&self) -> Seq<NodeData> {
        nodes_of(self.nodes@)
    }

    /// How many items have been yielded already.
    pub closed spec fn position(&self) -> int {
        self.next_index as int
    }

    /// Yields the next snapshot entry, if one is left.
    pub fn next(&mut self) -> (r: Option<NodeInfo>)
        requires
            0 <= old(self).position() <= old(self).items().len(),
        ensures
            final(self).items() == old(self).items(),
            match r {
                Some(info) => old(self).position() < old(self).items().len() && info@
                    == old(self).items()[old(self).position()] && final(self).position() == old(
                    self,
                ).position() + 1,
                None => old(self).position() == old(self).items().len() && final(self).position()
                    == old(self).position(),
            },
    {
        if self.next_index < self.nodes.len() {
            let info = self.nodes[self.next_index].clone();
            self.next_index += 1;
            Some(info)
        } else {
            None
        }
    }
}

impl Table {
    /// Takes a snapshot of all stored nodes, ordered by ascending bucket
    /// index; within each bucket, by descending distance to the parent.
    #[verifier::loop_isolation(false)]
    pub fn all_nodes(&self) -> (r: AllNodes)
        requires
            self.wf(),
        ensures
            r.position() == 0,
            0 <= r.position() <= r.items().len(),
            ids_distinct(r.items()),
            forall|j: int| 0 <= j < r.items().len() ==> self.has_entry(#[trigger] r.items()[j]),
            forall|i: int, jj: int|
                0 <= i < HASH_SIZE && 0 <= jj < self.bucket(i).len() ==> r.items().contains(
                    #[trigger] self.bucket(i)[jj],
                ),
            forall|j1: int, j2: int|
                0 <= j1 < j2 < r.items().len() ==> height_of(
                    dist_to(#[trigger] r.items()[j1], self.parent()),
                ) <= height_of(dist_to(#[trigger] r.items()[j2], self.parent())),
            forall|j1: int, j2: int|
                0 <= j1 < j2 < r.items().len() && height_of(
                    dist_to(#[trigger] r.items()[j1], self.parent()),
                ) == height_of(dist_to(#[trigger] r.items()[j2], self.parent())) ==> seq_le(
                    dist_to(r.items()[j2], self.parent()),
                    dist_to(r.items()[j1], self.parent()),
                ),
    {
        broadcast use vstd::seq_lib::group_to_multiset_ensures;

        let mut nodes: Vec<NodeInfo> = Vec::new();
        let mut i: usize = 0;
        while i < HASH_SIZE
            invariant
                i <= HASH_SIZE,
                forall|j: int|
                    0 <= j < nodes@.len() ==> self.has_entry(#[trigger] nodes_of(nodes@)[j]),
                forall|j: int|
                    0 <= j < nodes@.len() ==> 1 <= height_of(
                        dist_to(#[trigger] nodes_of(nodes@)[j], self.parent()),
                    ) <= i,
                forall|p: int, jj: int|
                    0 <= p < i && 0 <= jj < self.bucket(p).len() ==> nodes_of(nodes@).contains(
                        #[trigger] self.bucket(p)[jj],
                    ),
                ids_distinct(nodes_of(nodes@)),
                forall|j1: int, j2: int|
                    0 <= j1 < j2 < nodes@.len() ==> height_of(
                        dist_to(#[trigger] nodes_of(nodes@)[j1], self.parent()),
                    ) <= height_of(dist_to(#[trigger] nodes_of(nodes@)[j2], self.parent())),
                forall|j1: int, j2: int|
                    0 <= j1 < j2 < nodes@.len() && height_of(
                        dist_to(#[trigger] nodes_of(nodes@)[j1], self.parent()),
                    ) == height_of(dist_to(#[trigger] nodes_of(nodes@)[j2], self.parent()))
                        ==> seq_le(
                        dist_to(nodes_of(nodes@)[j2], self.parent()),
                        dist_to(nodes_of(nodes@)[j1], self.parent()),
                    ),
            decreases HASH_SIZE - i,
        {
            let ghost b = self.bucket(i as int);
            proof {
                assert(self.bucket_wf(i as int));
            }
            let cloned = clone_entries(&self.buckets[i].entries);
            proof {
                assert forall|kk: int| 0 <= kk < cloned@.len() implies (
                #[trigger] cloned@[kk])@.id.len() == HASH_SIZE by {
                    assert(nodes_of(cloned@)[kk] == b[kk]);
                    assert(entry_in_place(self.parent(), i as int, b[kk]));
                }
                assert(nodes_of(cloned@) == b);
                assert(ids_distinct(nodes_of(cloned@)));
            }
            let sorted = sort_by_distance(cloned, &self.parent_id);
            proof {
                assert forall|j: int| 0 <= j < sorted@.len() implies b.contains(
                    #[trigger] nodes_of(sorted@)[j],
                ) by {
                    let e = nodes_of(sorted@)[j];
                    assert(nodes_of(sorted@).to_multiset().count(e) > 0);
                    assert(nodes_of(cloned@).contains(e));
                }
                assert forall|jj: int| 0 <= jj < b.len() implies nodes_of(sorted@).contains(
                    #[trigger] b[jj],
                ) by {
                    assert(nodes_of(cloned@).contains(b[jj]));
                    assert(nodes_of(cloned@).to_multiset().count(b[jj]) > 0);
                }
            }
            let ghost nodes0 = nodes@;
            // Append the bucket's peers in descending distance order.
            let mut t: usize = sorted.len();
            while t > 0
                invariant
                    t <= sorted@.len(),
                    nodes@.len() == nodes0.len() + (sorted@.len() - t),
                    forall|j: int| 0 <= j < nodes0.len() ==> nodes_of(nodes@)[j] == nodes_of(
                        nodes0,
                    )[j],
                    forall|j: int|
                        nodes0.len() <= j < nodes@.len() ==> nodes_of(nodes@)[j] == nodes_of(
                            sorted@,
                        )[sorted@.len() + nodes0.len() - 1 - j],
                decreases t,
            {
                t -= 1;
                let ghost nprev = nodes@;
                nodes.push(sorted[t].clone());
                proof {
                    assert(nodes_of(nodes@) =~= nodes_of(nprev).push(
                        nodes_of(sorted@)[t as int],
                    ));
                }
            }
            proof {
                let nn = nodes_of(nodes@);
                let ns = nodes_of(sorted@);
                let base = nodes0.len() as int;
                assert forall|j: int| 0 <= j < nn.len() implies self.has_entry(
                    #[trigger] nn[j],
                ) && 1 <= height_of(dist_to(nn[j], self.parent())) <= i + 1 by {
                    if j < base {
                        assert(nn[j] == nodes_of(nodes0)[j]);
                    } else {
                        let e = nn[j];
                        assert(e == ns[ns.len() + base - 1 - j]);
                        assert(b.contains(e));
                        let w = choose|w: int| 0 <= w < b.len() && b[w] == e;
                        assert(entry_in_place(self.parent(), i as int, e));
                        assert(dist_to(e, self.parent()) =~= xor_of(self.parent(), e.id));
                        assert(self.bucket(i as int).contains(e));
                    }
                }
                assert forall|p: int, jj: int|
                    0 <= p < i + 1 && 0 <= jj < self.bucket(p).len() implies nn.contains(
                    #[trigger] self.bucket(p)[jj],
                ) by {
                    let e = self.bucket(p)[jj];
                    if p < i {
                        let w = choose|w: int|
                            0 <= w < nodes_of(nodes0).len() && nodes_of(nodes0)[w] == e;
                        assert(nn[w] == e);
                    } else {
                        let w = choose|w: int| 0 <= w < ns.len() && ns[w] == e;
                        assert(nn[ns.len() + base - 1 - w] == e);
                    }
                }
                assert forall|j1: int, j2: int| 0 <= j1 < j2 < nn.len() implies height_of(
                    dist_to(#[trigger] nn[j1], self.parent()),
                ) <= height_of(dist_to(#[trigger] nn[j2], self.parent())) by {
                    if j1 < base && j2 < base {
                        assert(nn[j1] == nodes_of(nodes0)[j1]);
                        assert(nn[j2] == nodes_of(nodes0)[j2]);
                    } else if j1 < base {
                        assert(nn[j1] == nodes_of(nodes0)[j1]);
                        let e = nn[j2];
                        assert(e == ns[ns.len() + base - 1 - j2]);
                        assert(b.contains(e));
                        let w = choose|w: int| 0 <= w < b.len() && b[w] == e;
                        assert(entry_in_place(self.parent(), i as int, e));
                        assert(dist_to(e, self.parent()) =~= xor_of(self.parent(), e.id));
                    } else {
                        let e1 = nn[j1];
                        let e2 = nn[j2];
                        assert(e1 == ns[ns.len() + base - 1 - j1]);
                        assert(e2 == ns[ns.len() + base - 1 - j2]);
                        assert(b.contains(e1));
                        assert(b.contains(e2));
                        let w1 = choose|w: int| 0 <= w < b.len() && b[w] == e1;
                        let w2 = choose|w: int| 0 <= w < b.len() && b[w] == e2;
                        assert(entry_in_place(self.parent(), i as int, e1));
                        assert(entry_in_place(self.parent(), i as int, e2));
                        assert(dist_to(e1, self.parent()) =~= xor_of(self.parent(), e1.id));
                        assert(dist_to(e2, self.parent()) =~= xor_of(self.parent(), e2.id));
                    }
                }
                assert forall|j1: int, j2: int|
                    0 <= j1 < j2 < nn.len() && height_of(
                        dist_to(#[trigger] nn[j1], self.parent()),
                    ) == height_of(dist_to(#[trigger] nn[j2], self.parent())) implies seq_le(
                    dist_to(nn[j2], self.parent()),
                    dist_to(nn[j1], self.parent()),
                ) by {
                    if j1 < base && j2 < base {
                        assert(nn[j1] == nodes_of(nodes0)[j1]);
                        assert(nn[j2] == nodes_of(nodes0)[j2]);
                    } else if j1 < base {
                        // Heights differ: the old item's height is at most
                        // i, the new item's height is i + 1.
                        assert(nn[j1] == nodes_of(nodes0)[j1]);
                        let e = nn[j2];
                        assert(e == ns[ns.len() + base - 1 - j2]);
                        assert(b.contains(e));
                        let w = choose|w: int| 0 <= w < b.len() && b[w] == e;
                        assert(entry_in_place(self.parent(), i as int, e));
                        assert(dist_to(e, self.parent()) =~= xor_of(self.parent(), e.id));
                    } else {
                        let k1 = ns.len() + base - 1 - j1;
                        let k2 = ns.len() + base - 1 - j2;
                        assert(nn[j1] == ns[k1]);
                        assert(nn[j2] == ns[k2]);
                        assert(k2 < k1);
                        assert(seq_le(dist_to(ns[k2], self.parent()), dist_to(
                            ns[k1],
                            self.parent(),
                        )));
                    }
                }
                // No identifier repeats in the snapshot: peers of earlier
                // buckets have strictly lower distance heights, and one
                // bucket's peers are distinct already.
                assert forall|j1: int, j2: int| 0 <= j1 < j2 < nn.len() implies nn[j1].id
                    != nn[j2].id by {
                    if j2 < base {
                        assert(nn[j1] == nodes_of(nodes0)[j1]);
                        assert(nn[j2] == nodes_of(nodes0)[j2]);
                    } else if j1 >= base {
                        assert(nn[j1] == ns[ns.len() + base - 1 - j1]);
                        assert(nn[j2] == ns[ns.len() + base - 1 - j2]);
                    } else {
                        assert(nn[j1] == nodes_of(nodes0)[j1]);
                        let e = nn[j2];
                        assert(e == ns[ns.len() + base - 1 - j2]);
                        assert(b.contains(e));
                        let w = choose|w: int| 0 <= w < b.len() && b[w] == e;
                        assert(entry_in_place(self.parent(), i as int, e));
                        assert(dist_to(e, self.parent()) =~= xor_of(self.parent(), e.id));
                        if nn[j1].id == nn[j2].id {
                            assert(dist_to(nn[j1], self.parent()) == dist_to(e, self.parent()));
                            assert(height_of(dist_to(nn[j1], self.parent())) <= i);
                            assert(height_of(dist_to(e, self.parent())) == i + 1);
                        }
                    }
                }
            }
            i += 1;
        }
        AllNodes { nodes, next_index: 0 }
    }

    /// Replaces the conflict's inserted peer, still present in its bucket,
    /// with the peer it evicted. Used by the surrounding protocol after a
    /// liveness probe confirms the evicted peer should be kept.
    #[verifier::loop_isolation(false)]
    pub fn revert_conflict(&mut self, conflict: EvictionConflict)
        requires
            old(self).wf(),
            conflict.inserted.id.wf(),
            conflict.evicted.id.wf(),
            height_of(xor_of(old(self).parent(), conflict.evicted@.id)) == height_of(
                xor_of(old(self).parent(), conflict.inserted@.id),
            ),
            old(self).has_node_id(conflict.inserted@.id),
            conflict.evicted@.id == conflict.inserted@.id || !old(self).has_node_id(
                conflict.evicted@.id,
            ),
        ensures
            final(self).wf(),
            final(self).parent() == old(self).parent(),
            final(self).conflicts_view() == old(self).conflicts_view(),
            revert_effect(*old(self), *final(self), conflict@),
    {
        proof {
            lemma_id_pins_bucket(*old(self), conflict.inserted@.id);
            let w = choose|i: int|
                0 <= i < HASH_SIZE && bucket_has_id(
                    #[trigger] old(self).bucket(i),
                    conflict.inserted@.id,
                );
        }
        let index = match self.bucket_for_node(&conflict.inserted.id) {
            Some(index) => index,
            None => {
                proof {
                    assert(false);
                }
                return ;
            },
        };
        let ghost pre = *self;
        let ghost b = self.bucket(index as int);
        let mut bucket = self.buckets.remove(index);
        let ghost entries0 = bucket.entries@;
        proof {
            assert(b =~= nodes_of(entries0));
            assert(pre.bucket_wf(index as int));
            assert(bucket_has_id(b, conflict.inserted@.id));
        }
        let n: usize = bucket.entries.len();
        let mut j: usize = 0;
        let mut found: Option<usize> = None;
        while j < n
            invariant
                j <= n,
                bucket.entries@ == entries0,
                match found {
                    Some(jj) => jj < n && b[jj as int].id == conflict.inserted@.id,
                    None => forall|k: int| 0 <= k < j ==> b[k].id != conflict.inserted@.id,
                },
            decreases n - j,
        {
            if found.is_none() && bucket.entries[j].id == conflict.inserted.id {
                found = Some(j);
            }
            j += 1;
        }
        let jj = match found {
            Some(jj) => jj,
            None => {
                proof {
                    assert(!bucket_has_id(b, conflict.inserted@.id));
                }
                return ;
            },
        };
        bucket.entries.remove(jj);
        bucket.entries.insert(jj, conflict.evicted);
        let ghost entries1 = bucket.entries@;
        self.buckets.insert(index, bucket);
        proof {
            assert(nodes_of(entries1) =~= b.update(jj as int, conflict@.evicted));
            assert(self.buckets@ =~= pre.buckets@.update(index as int, bucket));
            assert forall|k: int|
                0 <= k < HASH_SIZE && k != index implies self.bucket(k) == pre.bucket(k) by {
                assert(self.buckets@[k] == pre.buckets@[k]);
            }
            assert(self.bucket(index as int) == b.update(jj as int, conflict@.evicted));
            lemma_revert_wf(pre, *self, conflict@, index as int, jj as int);
            assert(self.conflicts_view() == pre.conflicts_view());
            assert(height_of(xor_of(pre.parent(), conflict@.inserted.id)) - 1 == index as int);
            assert(0 <= jj < pre.bucket(index as int).len() && pre.bucket(index as int)[
                jj as int
            ].id == conflict@.inserted.id && self.bucket(index as int) == pre.bucket(
                index as int,
            ).update(jj as int, conflict@.evicted));
            assert(revert_effect(pre, *self, conflict@));
        }
    }
}

/// How reverting a conflict changes the table: in the bucket shared by
/// the two peers, the inserted peer's slot now carries the evicted peer;
/// everything else is untouched.
pub open spec fn revert_effect(pre: Table, post: Table, c: ConflictData) -> bool {
    let i = height_of(xor_of(pre.parent(), c.inserted.id)) - 1;
    &&& (forall|k: int| 0 <= k < HASH_SIZE && k != i ==> post.bucket(k) == pre.bucket(k))
    &&& (exists|j: int|
        0 <= j < pre.bucket(i).len() && pre.bucket(i)[j].id == c.inserted.id && post.bucket(i)
            == pre.bucket(i).update(j, c.evicted))
    &&& post.bucket(i).len() == pre.bucket(i).len()
}

/// Replacing the inserted peer of a genuine conflict with its evicted
/// peer preserves the table invariant.
proof fn lemma_revert_wf(pre: Table, post: Table, c: ConflictData, i: int, j: int)
    requires
        pre.wf(),
        c.evicted.id.len() == HASH_SIZE,
        height_of(xor_of(pre.parent(), c.evicted.id)) == height_of(
            xor_of(pre.parent(), c.inserted.id),
        ),
        c.evicted.id == c.inserted.id || !pre.has_node_id(c.evicted.id),
        0 <= i < HASH_SIZE,
        0 <= j < pre.bucket(i).len(),
        pre.bucket(i)[j].id == c.inserted.id,
        post.parent() == pre.parent(),
        post.bucket_count() == HASH_SIZE,
        forall|k: int| 0 <= k < HASH_SIZE && k != i ==> post.bucket(k) == pre.bucket(k),
        post.bucket(i) == pre.bucket(i).update(j, c.evicted),
    ensures
        post.wf(),
{
    let b = pre.bucket(i);
    let nb = post.bucket(i);
    assert(pre.bucket_wf(i));
    assert(entry_in_place(pre.parent(), i, b[j]));
    assert forall|k: int| 0 <= k < HASH_SIZE implies #[trigger] post.bucket_wf(k) by {
        assert(pre.bucket_wf(k));
        if k == i {
            assert forall|m: int| 0 <= m < nb.len() implies entry_in_place(
                post.parent(),
                i,
                #[trigger] nb[m],
            ) by {
                if m != j {
                    assert(nb[m] == b[m]);
                }
            }
            assert forall|m1: int, m2: int| 0 <= m1 < m2 < nb.len() implies nb[m1].id
                != nb[m2].id by {
                if m1 != j && m2 != j {
                    assert(nb[m1] == b[m1]);
                    assert(nb[m2] == b[m2]);
                } else {
                    let other = if m1 == j { m2 } else { m1 };
                    assert(nb[other] == b[other]);
                    if c.evicted.id == c.inserted.id {
                        assert(b[j].id == c.inserted.id);
                    } else {
                        if b[other].id == c.evicted.id {
                            assert(bucket_has_id(pre.bucket(i), c.evicted.id));
                        }
                    }
                }
            }
        }
    }
}

} // verus!
