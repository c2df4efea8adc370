//! The Kademlia-style routing table: nodes keyed by 20-byte ids,
//! ordered by the XOR metric, with in-place refresh and
//! oldest-last-seen eviction when the table is full.
use vstd::prelude::*;

verus! {

use crate::bencode::lex_lt;
use crate::sha1::Sha1;
use crate::sha1::sha1_digest;
use crate::tinymt::TinyMT;
use crate::tinymt::tinymt_rand;
use crate::url::Url;
use crate::utils::u64_be;

/// How many nodes the flat routing table holds at most.
pub const TABLE_CAPACITY: usize = 256;

/// One known DHT participant: its 20-byte id, where to reach it, and
/// when it was last observed.
pub struct Node {
    pub id: [u8; 20],
    pub url: Url,
    pub last_seen: u64,
}

/// The element-wise XOR of two equal-length byte runs: the Kademlia
/// distance between two ids, read as a big-endian number.
pub open spec fn xor_bytes(a: Seq<u8>, b: Seq<u8>) -> Seq<u8> {
    Seq::new(a.len(), |i: int| a[i] ^ b[i])
}

/// Whether `a` is strictly closer to `target` than `b`.
pub open spec fn closer(a: Seq<u8>, b: Seq<u8>, target: Seq<u8>) -> bool {
    lex_lt(xor_bytes(a, target), xor_bytes(b, target))
}

/// Two nodes carry the same observable data.
pub open spec fn node_matches(a: Node, b: Node) -> bool {
    a.id@ == b.id@ && a.last_seen == b.last_seen && a.url.scheme == b.url.scheme && a.url.host@
        == b.url.host@ && a.url.location@ == b.url.location@
}

proof fn lemma_xor_u8(x: u8, y: u8)
    by (bit_vector)
    ensures
        x ^ x == 0,
        x ^ y == y ^ x,
        x ^ 0 == x,
        x ^ y == 0 ==> x == y,
{
}

/// The distance from an id to itself is zero.
pub proof fn lemma_xor_self(a: Seq<u8>)
    ensures
        xor_bytes(a, a) == Seq::new(a.len(), |i: int| 0u8),
{
    assert forall|i: int| 0 <= i < a.len() implies #[trigger] xor_bytes(a, a)[i] == 0u8 by {
        lemma_xor_u8(a[i], 0);
    }
    assert(xor_bytes(a, a) =~= Seq::new(a.len(), |i: int| 0u8));
}

/// The metric is symmetric.
pub proof fn lemma_xor_comm(a: Seq<u8>, b: Seq<u8>)
    requires
        a.len() == b.len(),
    ensures
        xor_bytes(a, b) == xor_bytes(b, a),
{
    assert forall|i: int| 0 <= i < a.len() implies #[trigger] xor_bytes(a, b)[i] == xor_bytes(
        b,
        a,
    )[i] by {
        lemma_xor_u8(a[i], b[i]);
    }
    assert(xor_bytes(a, b) =~= xor_bytes(b, a));
}

/// XOR against all-zero bytes is the identity.
pub proof fn lemma_xor_zero(a: Seq<u8>)
    ensures
        xor_bytes(a, Seq::new(a.len(), |i: int| 0u8)) == a,
{
    let z = Seq::new(a.len(), |i: int| 0u8);
    assert forall|i: int| 0 <= i < a.len() implies #[trigger] xor_bytes(a, z)[i] == a[i] by {
        lemma_xor_u8(a[i], 0);
    }
    assert(xor_bytes(a, z) =~= a);
}

/// Ids at the same distance from a target are the same id.
pub proof fn lemma_xor_cancel(a: Seq<u8>, b: Seq<u8>, target: Seq<u8>)
    requires
        a.len() == b.len(),
        xor_bytes(a, target) == xor_bytes(b, target),
    ensures
        a == b,
{
    assert forall|i: int| 0 <= i < a.len() implies a[i] == b[i] by {
        assert(xor_bytes(a, target)[i] == xor_bytes(b, target)[i]);
        assert(xor_bytes(a, target)[i] == (a[i] ^ target[i]));
        assert(xor_bytes(b, target)[i] == (b[i] ^ target[i]));
        let ai = a[i];
        let bi = b[i];
        let ti = target[i];
        assert((ai ^ ti) == (bi ^ ti));
        assert(ai == bi) by (bit_vector)
            requires
                (ai ^ ti) == (bi ^ ti),
        ;
    }
    assert(a =~= b);
}

/// Strict distance order is total on distinct distances: of two
/// different distances one is lexicographically below the other.
pub proof fn lemma_lex_total(a: Seq<u8>, b: Seq<u8>)
    requires
        a.len() == b.len(),
    ensures
        a == b || lex_lt(a, b) || lex_lt(b, a),
    decreases a.len(),
{
    if a.len() > 0 {
        if a.first() == b.first() {
            lemma_lex_total(a.drop_first(), b.drop_first());
            if a.drop_first() == b.drop_first() {
                assert forall|i: int| 0 <= i < a.len() implies a[i] == b[i] by {
                    if i > 0 {
                        assert(a[i] == a.drop_first()[i - 1]);
                        assert(b[i] == b.drop_first()[i - 1]);
                    }
                }
                assert(a =~= b);
            }
        }
    } else {
        assert(a =~= b);
    }
}

/// Nothing stands strictly below itself.
pub proof fn lemma_lex_irrefl(a: Seq<u8>)
    ensures
        !lex_lt(a, a),
    decreases a.len(),
{
    if a.len() > 0 {
        lemma_lex_irrefl(a.drop_first());
    }
}

/// Strict lexicographic order is transitive.
pub proof fn lemma_lex_trans(a: Seq<u8>, b: Seq<u8>, c: Seq<u8>)
    requires
        lex_lt(a, b),
        lex_lt(b, c),
    ensures
        lex_lt(a, c),
    decreases a.len(),
{
    if a.len() > 0 && b.len() > 0 && c.len() > 0 {
        if a.first() == b.first() && b.first() == c.first() {
            lemma_lex_trans(a.drop_first(), b.drop_first(), c.drop_first());
        }
    }
}

/// The element-wise XOR of two 20-byte ids.
pub fn xor_distance(a: &[u8; 20], b: &[u8; 20]) -> (r: [u8; 20])
    ensures
        r@ == xor_bytes(a@, b@),
{
    let mut out = [0u8; 20];
    let mut i: usize = 0;
    while i < 20
        invariant
            i <= 20,
            out@.len() == 20,
            forall|j: int| 0 <= j < i ==> out@[j] == (a@[j] ^ b@[j]),
        decreases 20 - i,
    {
        out[i] = a[i] ^ b[i];
        i = i + 1;
    }
    proof {
        assert(out@ =~= xor_bytes(a@, b@));
    }
    out
}

/// Strict lexicographic order on equal-length byte runs: the
/// big-endian order of distances.
fn lex_less_slice(a: &[u8], b: &[u8]) -> (r: bool)
    ensures
        r == lex_lt(a@, b@),
{
    let mut i: usize = 0;
    proof {
        assert(a@.skip(0) =~= a@);
        assert(b@.skip(0) =~= b@);
    }
    loop
        invariant
            i <= a@.len(),
            i <= b@.len(),
            lex_lt(a@, b@) == lex_lt(a@.skip(i as int), b@.skip(i as int)),
        decreases a@.len() - i,
    {
        if i == b.len() {
            proof {
                assert(b@.skip(i as int) =~= Seq::<u8>::empty());
            }
            return false;
        }
        if i == a.len() {
            proof {
                assert(a@.skip(i as int) =~= Seq::<u8>::empty());
                assert(b@.skip(i as int).len() > 0);
            }
            return true;
        }
        let x = a[i];
        let y = b[i];
        proof {
            assert(a@.skip(i as int).first() == a@[i as int]);
            assert(b@.skip(i as int).first() == b@[i as int]);
        }
        if x < y {
            return true;
        }
        if x > y {
            return false;
        }
        proof {
            assert(a@.skip(i as int).drop_first() =~= a@.skip(i + 1));
            assert(b@.skip(i as int).drop_first() =~= b@.skip(i + 1));
        }
        i = i + 1;
    }
}

/// Whether node id `a` stands strictly closer to `target` than `b`.
pub fn closer_to(a: &[u8; 20], b: &[u8; 20], target: &[u8; 20]) -> (r: bool)
    ensures
        r == closer(a@, b@, target@),
{
    let da = xor_distance(a, target);
    let db = xor_distance(b, target);
    lex_less_slice(da.as_slice(), db.as_slice())
}

/// A flat, bounded routing table: ids are unique and the node count
/// never passes the capacity.
pub struct RouteTable {
    nodes: Vec<Node>,
}

impl RouteTable {
    /// The nodes, in insertion order.
    pub closed spec fn view(&self) -> Seq<Node> {
        self.nodes@
    }

    /// The table invariant: bounded, with pairwise distinct ids.
    pub open spec fn wf(&self) -> bool {
        self@.len() <= TABLE_CAPACITY && forall|i: int, j: int|
            0 <= i < j < self@.len() ==> (#[trigger] self@[i].id@) != (#[trigger] self@[j].id@)
    }

    /// An empty table.
    pub fn new() -> (r: RouteTable)
        ensures
            r@.len() == 0,
            r.wf(),
    {
        RouteTable { nodes: Vec::new() }
    }

    /// How many nodes the table holds.
    pub fn len(&self) -> (r: usize)
        ensures
            r == self@.len(),
    {
        self.nodes.len()
    }

    /// The node at a position, for callers that walk a snapshot.
    pub fn node_at(&self, i: usize) -> (r: &Node)
        requires
            i < self@.len(),
        ensures
            *r == self@[i as int],
    {
        &self.nodes[i]
    }

    /// Observe a node: refresh it in place when its id is known,
    /// append it while there is room, and otherwise evict the node
    /// whose last-seen stamp is oldest.  The table never exceeds its
    /// capacity, and when full it is exactly the stalest entry that
    /// makes way.
    #[verifier::loop_isolation(false)]
    pub fn add(&mut self, node: Node)
        requires
            old(self).wf(),
        ensures
            final(self).wf(),
            (exists|j: int| 0 <= j < old(self)@.len() && old(self)@[j].id@ == node.id@) ==> (
            exists|j: int|
                0 <= j < old(self)@.len() && old(self)@[j].id@ == node.id@ && final(self)@ == old(self)@.update(j, node)),
            (forall|j: int| 0 <= j < old(self)@.len() ==> (#[trigger] old(self)@[j].id@)
                != node.id@) && old(self)@.len() < TABLE_CAPACITY ==> final(self)@ == old(self)@.push(node),
            (forall|j: int| 0 <= j < old(self)@.len() ==> (#[trigger] old(self)@[j].id@)
                != node.id@) && old(self)@.len() == TABLE_CAPACITY ==> (exists|j: int|
                0 <= j < old(self)@.len() && (forall|k: int|
                    0 <= k < old(self)@.len() ==> (#[trigger] old(self)@[k].last_seen) >= old(self)@[j].last_seen) && final(self)@ == old(self)@.update(j, node)),
    {
        let n = self.nodes.len();
        let mut i: usize = 0;
        while i < n
            invariant
                i <= n,
                n == self@.len(),
                self@ == old(self)@,
                forall|j: int| 0 <= j < i ==> (#[trigger] self@[j].id@) != node.id@,
            decreases n - i,
        {
            if crate::utils::eq_bytes_slices(self.nodes[i].id.as_slice(), node.id.as_slice()) {
                self.nodes[i] = node;
                proof {
                    assert(final(self)@ == old(self)@.update(i as int, node));
                    assert forall|p: int, q: int|
                        0 <= p < q < final(self)@.len() implies (#[trigger] final(self)@[p].id@)
                        != (#[trigger] final(self)@[q].id@) by {
                        assert(old(self)@[p].id@ != old(self)@[q].id@);
                    }
                }
                return ;
            }
            i = i + 1;
        }
        if n < TABLE_CAPACITY {
            self.nodes.push(node);
            proof {
                assert forall|p: int, q: int|
                    0 <= p < q < final(self)@.len() implies (#[trigger] final(self)@[p].id@) != (
                #[trigger] final(self)@[q].id@) by {
                    if q < final(self)@.len() - 1 {
                        assert(old(self)@[p].id@ != old(self)@[q].id@);
                    } else {
                        assert(final(self)@[q] == node);
                        assert(old(self)@[p].id@ != node.id@);
                    }
                }
            }
            return ;
        }
        // full: evict the node observed longest ago
        let mut oldest: usize = 0;
        let mut j: usize = 1;
        while j < n
            invariant
                n == self@.len(),
                n == TABLE_CAPACITY,
                self@ == old(self)@,
                oldest < j <= n,
                forall|k: int| 0 <= k < j ==> (#[trigger] self@[k].last_seen)
                    >= self@[oldest as int].last_seen,
            decreases n - j,
        {
            if self.nodes[j].last_seen < self.nodes[oldest].last_seen {
                oldest = j;
            }
            j = j + 1;
        }
        self.nodes[oldest] = node;
        proof {
            assert(final(self)@ == old(self)@.update(oldest as int, node));
            assert forall|p: int, q: int|
                0 <= p < q < final(self)@.len() implies (#[trigger] final(self)@[p].id@) != (
            #[trigger] final(self)@[q].id@) by {
                assert(old(self)@[p].id@ != old(self)@[q].id@);
                if p == oldest {
                    assert(final(self)@[p] == node);
                    assert(old(self)@[q].id@ != node.id@);
                }
                if q == oldest {
                    assert(final(self)@[q] == node);
                    assert(old(self)@[p].id@ != node.id@);
                }
            }
        }
    }

    /// Drop the node with the given id, keeping every other node in
    /// order.
    #[verifier::loop_isolation(false)]
    pub fn remove(&mut self, id: &[u8; 20])
        requires
            old(self).wf(),
        ensures
            final(self).wf(),
            final(self)@.len() == old(self)@.len() || final(self)@.len() == old(self)@.len() - 1,
            forall|j: int|
                0 <= j < final(self)@.len() ==> (#[trigger] final(self)@[j].id@) != id@ && exists|
                    k: int,
                |
                    0 <= k < old(self)@.len() && old(self)@[k] == final(self)@[j],
            forall|k: int|
                0 <= k < old(self)@.len() && (#[trigger] old(self)@[k].id@) != id@ ==> exists|
                    j: int,
                |
                    0 <= j < final(self)@.len() && final(self)@[j] == old(self)@[k],
    {
        let n = self.nodes.len();
        let mut i: usize = 0;
        while i < n
            invariant
                i <= n,
                n == self@.len(),
                self@ == old(self)@,
                forall|j: int| 0 <= j < i ==> (#[trigger] self@[j].id@) != id@,
            decreases n - i,
        {
            if crate::utils::eq_bytes_slices(self.nodes[i].id.as_slice(), id.as_slice()) {
                self.nodes.remove(i);
                proof {
                    old(self)@.remove_ensures(i as int);
                    assert forall|j: int| 0 <= j < final(self)@.len() implies (#[trigger] final(self)@[j].id@) != id@ && exists|k: int|
                        0 <= k < old(self)@.len() && old(self)@[k] == final(self)@[j] by {
                        if j < i {
                            assert(old(self)@[j] == final(self)@[j]);
                        } else {
                            assert(old(self)@[j + 1] == final(self)@[j]);
                        }
                    }
                    assert forall|k: int|
                        0 <= k < old(self)@.len() && (#[trigger] old(self)@[k].id@)
                            != id@ implies exists|j: int|
                        0 <= j < final(self)@.len() && final(self)@[j] == old(self)@[k] by {
                        if k < i {
                            assert(final(self)@[k] == old(self)@[k]);
                        } else {
                            assert(k > i);
                            assert(final(self)@[k - 1] == old(self)@[k]);
                        }
                    }
                }
                return ;
            }
            i = i + 1;
        }
    }

    /// The table position of the node that stands closest to `target`
    /// among those strictly beyond the last entry of `out`, if any.
    #[verifier::loop_isolation(false)]
    fn pick_next(&self, out: &Vec<Node>, target: &[u8; 20]) -> (r: Option<usize>)
        requires
            self.wf(),
        ensures
            match r {
                Some(b) => b < self@.len() && (out@.len() == 0 || closer(
                    out@[out@.len() - 1].id@,
                    self@[b as int].id@,
                    target@,
                )) && forall|m: int|
                    0 <= m < self@.len() && (out@.len() == 0 || closer(
                        out@[out@.len() - 1].id@,
                        (#[trigger] self@[m].id@),
                        target@,
                    )) ==> !closer(self@[m].id@, self@[b as int].id@, target@),
                None => self@.len() == 0 || (out@.len() > 0 && forall|m: int|
                    0 <= m < self@.len() ==> !closer(
                        out@[out@.len() - 1].id@,
                        (#[trigger] self@[m].id@),
                        target@,
                    )),
            },
    {
        let n = self.nodes.len();
        let mut best: Option<usize> = None;
        let mut j: usize = 0;
        while j < n
            invariant
                j <= n,
                match best {
                    Some(b) => b < j && (out@.len() == 0 || closer(
                        out@[out@.len() - 1].id@,
                        self@[b as int].id@,
                        target@,
                    )) && forall|m: int|
                        0 <= m < j && (out@.len() == 0 || closer(
                            out@[out@.len() - 1].id@,
                            (#[trigger] self@[m].id@),
                            target@,
                        )) ==> !closer(self@[m].id@, self@[b as int].id@, target@),
                    None => j == 0 || (out@.len() > 0 && forall|m: int|
                        0 <= m < j ==> !closer(
                            out@[out@.len() - 1].id@,
                            (#[trigger] self@[m].id@),
                            target@,
                        )),
                },
            decreases n - j,
        {
            let candidate = if out.len() == 0 {
                true
            } else {
                let last = out.len() - 1;
                closer_to(&out[last].id, &self.nodes[j].id, target)
            };
            if candidate {
                let better = match best {
                    Some(b) => closer_to(&self.nodes[j].id, &self.nodes[b].id, target),
                    None => true,
                };
                if better {
                    proof {
                        lemma_lex_irrefl(xor_bytes(self@[j as int].id@, target@));
                        match best {
                            Some(b) => {
                                assert forall|m: int|
                                    0 <= m < j && (out@.len() == 0 || closer(
                                        out@[out@.len() - 1].id@,
                                        (#[trigger] self@[m].id@),
                                        target@,
                                    )) implies !closer(
                                    self@[m].id@,
                                    self@[j as int].id@,
                                    target@,
                                ) by {
                                    if closer(self@[m].id@, self@[j as int].id@, target@) {
                                        lemma_lex_trans(
                                            xor_bytes(self@[m].id@, target@),
                                            xor_bytes(self@[j as int].id@, target@),
                                            xor_bytes(self@[b as int].id@, target@),
                                        );
                                    }
                                }
                            },
                            None => {},
                        }
                    }
                    best = Some(j);
                }
            }
            j = j + 1;
        }
        best
    }

    /// The up-to-`k` nodes whose ids stand closest to `target`, closest
    /// first.  Every returned node mirrors a table entry, the distances
    /// strictly grow along the result, and a table node is absent only
    /// when the result is full and that node stands farther than the
    /// last one returned.
    #[verifier::rlimit(60)]
    #[verifier::loop_isolation(false)]
    pub fn closest(&self, target: &[u8; 20], k: usize) -> (r: Vec<Node>)
        requires
            self.wf(),
        ensures
            r@.len() <= k,
            forall|i: int|
                0 <= i < r@.len() - 1 ==> closer(#[trigger] r@[i].id@, r@[i + 1].id@, target@),
            forall|i: int|
                0 <= i < r@.len() ==> exists|j: int|
                    0 <= j < self@.len() && node_matches(#[trigger] r@[i], self@[j]),
            forall|j: int|
                0 <= j < self@.len() ==> (exists|i: int|
                    0 <= i < r@.len() && (#[trigger] self@[j].id@) == r@[i].id@) || r@.len() == 0
                    || closer(r@[r@.len() - 1].id@, self@[j].id@, target@),
            r@.len() < k ==> forall|j: int|
                0 <= j < self@.len() ==> exists|i: int|
                    0 <= i < r@.len() && (#[trigger] self@[j].id@) == r@[i].id@,
    {
        let mut out: Vec<Node> = Vec::new();
        loop
            invariant
                out@.len() <= k,
                forall|i: int|
                    0 <= i < out@.len() - 1 ==> closer(
                        #[trigger] out@[i].id@,
                        out@[i + 1].id@,
                        target@,
                    ),
                forall|i: int|
                    0 <= i < out@.len() ==> exists|j: int|
                        0 <= j < self@.len() && node_matches(#[trigger] out@[i], self@[j]),
                forall|j: int|
                    0 <= j < self@.len() ==> (exists|i: int|
                        0 <= i < out@.len() && (#[trigger] self@[j].id@) == out@[i].id@)
                        || out@.len() == 0 || closer(
                        out@[out@.len() - 1].id@,
                        self@[j].id@,
                        target@,
                    ),
            decreases k - out@.len(),
        {
            if out.len() >= k {
                return out;
            }
            match self.pick_next(&out, target) {
                Some(b) => {
                    let copy = Node {
                        id: self.nodes[b].id,
                        url: Url {
                            scheme: self.nodes[b].url.scheme,
                            host: self.nodes[b].url.host.clone(),
                            location: self.nodes[b].url.location.clone(),
                        },
                        last_seen: self.nodes[b].last_seen,
                    };
                    let ghost prev = out@;
                    proof {
                        assert(node_matches(copy, self@[b as int]));
                    }
                    out.push(copy);
                    proof {
                        assert(out@.len() == prev.len() + 1);
                        assert(out@[out@.len() - 1] == copy);
                        assert(forall|i: int| 0 <= i < prev.len() ==> out@[i] == prev[i]);
                        // the picked node keeps the result sorted
                        assert forall|i: int|
                            0 <= i < out@.len() - 1 implies closer(
                            #[trigger] out@[i].id@,
                            out@[i + 1].id@,
                            target@,
                        ) by {
                            if i == prev.len() - 1 {
                                assert(closer(prev[prev.len() - 1].id@, copy.id@, target@));
                            }
                        }
                        // every table node is picked or stands beyond the new last
                        assert forall|j2: int| 0 <= j2 < self@.len() implies (exists|i: int|
                            0 <= i < out@.len() && (#[trigger] self@[j2].id@) == out@[i].id@)
                            || closer(out@[out@.len() - 1].id@, self@[j2].id@, target@) by {
                            if self@[j2].id@ == copy.id@ {
                                assert(out@[out@.len() - 1].id@ == self@[j2].id@);
                            } else {
                                lemma_lex_total(
                                    xor_bytes(self@[j2].id@, target@),
                                    xor_bytes(copy.id@, target@),
                                );
                                if xor_bytes(self@[j2].id@, target@) == xor_bytes(
                                    copy.id@,
                                    target@,
                                ) {
                                    lemma_xor_cancel(self@[j2].id@, copy.id@, target@);
                                    assert(false);
                                }
                                if closer(self@[j2].id@, copy.id@, target@) {
                                    // it would have been the better candidate, so it
                                    // was picked earlier
                                    if prev.len() == 0 || closer(
                                        prev[prev.len() - 1].id@,
                                        self@[j2].id@,
                                        target@,
                                    ) {
                                        assert(!closer(
                                            self@[j2].id@,
                                            self@[b as int].id@,
                                            target@,
                                        ));
                                        assert(false);
                                    } else {
                                        assert(exists|i: int|
                                            0 <= i < prev.len() && (#[trigger] self@[j2].id@)
                                                == prev[i].id@);
                                        let wi = choose|i: int|
                                            0 <= i < prev.len() && (#[trigger] self@[j2].id@)
                                                == prev[i].id@;
                                        assert(out@[wi].id@ == self@[j2].id@);
                                    }
                                }
                            }
                        }
                    }
                },
                None => {
                    proof {
                        // nothing stands beyond the last picked node, so every
                        // table node is already in the result
                        assert forall|j2: int| 0 <= j2 < self@.len() implies exists|i: int|
                            0 <= i < out@.len() && (#[trigger] self@[j2].id@) == out@[i].id@ by {
                            assert(out@.len() > 0);
                            assert(!closer(
                                out@[out@.len() - 1].id@,
                                self@[j2].id@,
                                target@,
                            ));
                        }
                    }
                    return out;
                },
            }
        }
    }
}

/// A DHT client's identity and routing table.
pub struct DHT {
    pub node_id: [u8; 20],
    pub table: RouteTable,
}

impl DHT {
    /// The node id derived from a seed: the SHA-1 digest of the eight
    /// big-endian bytes of the seed scaled by its own pseudo-random
    /// draw.
    pub open spec fn id_of_seed(seed: u32) -> Seq<u8> {
        sha1_digest(u64_be(((tinymt_rand(seed) as int) * (seed as int)) as u64))
    }

    /// A client whose id is derived from the given seed.
    pub fn with_seed(seed: u32) -> (r: DHT)
        ensures
            r.node_id@ == DHT::id_of_seed(seed),
            r.table@.len() == 0,
            r.table.wf(),
    {
        let draw = TinyMT::rand(seed);
        proof {
            assert((draw as u64) * (seed as u64) <= 0xFFFF_FFFFu64 * 0xFFFF_FFFFu64)
                by (nonlinear_arith)
                requires
                    draw <= 0xFFFF_FFFFu32,
                    seed <= 0xFFFF_FFFFu32,
            ;
        }
        let scaled: u64 = (draw as u64) * (seed as u64);
        let mut bytes: Vec<u8> = Vec::new();
        crate::utils::push_u64_be(&mut bytes, scaled);
        let mut sha = Sha1::new();
        sha.append_hash(bytes.as_slice());
        let digest = sha.get_hash();
        proof {
            assert(bytes@ =~= u64_be(scaled));
        }
        DHT { node_id: digest, table: RouteTable::new() }
    }

    /// A client seeded from the clock, as a fresh start wants.
    pub fn new() -> (r: DHT)
        ensures
            exists|seed: u32| r.node_id@ == DHT::id_of_seed(seed),
            r.table@.len() == 0,
            r.table.wf(),
    {
        let (secs, _micros) = crate::utils::unix_time();
        let seed = (secs % 0x1_0000_0000) as u32;
        let r = DHT::with_seed(seed);
        proof {
            assert(r.node_id@ == DHT::id_of_seed(seed));
        }
        r
    }
}

} // verus!
