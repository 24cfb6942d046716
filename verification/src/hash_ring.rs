//! A consistent hash ring that maps points to shards.
//!
//! Every shard stands on the ring with `scale` virtual nodes. A point goes to
//! the shard of the first node at or after the point's own hash, going round
//! to the first node of the ring when there is none. The ring depends only on
//! the set of shards and the scale, never on the order in which the shards
//! were added: every peer computes the same assignment.

use vstd::prelude::*;
use crate::types::{PointId, ShardId};

verus! {

/// Number of virtual nodes that each shard of a collection gets.
pub const HASH_RING_SHARD_SCALE: u32 = 100;

/// Mixes the bits of `x`.
pub open spec fn spec_mix(x: u64) -> u64 {
    let a = (x ^ (x >> 30)).wrapping_mul(0xbf58476d1ce4e5b9);
    let b = (a ^ (a >> 27)).wrapping_mul(0x94d049bb133111eb);
    b ^ (b >> 31)
}

/// Mixes the bits of `x`.
pub fn mix(x: u64) -> (h: u64)
    ensures
        h == spec_mix(x),
{
    let a = (x ^ (x >> 30)).wrapping_mul(0xbf58476d1ce4e5b9);
    let b = (a ^ (a >> 27)).wrapping_mul(0x94d049bb133111eb);
    b ^ (b >> 31)
}

/// The place of a point on the ring.
pub open spec fn spec_point_hash(point: PointId) -> u64 {
    match point {
        PointId::NumId(n) => spec_mix(n),
        PointId::Uuid(u) => spec_mix(
            spec_mix((u / 0x1_0000_0000_0000_0000) as u64) ^ ((u % 0x1_0000_0000_0000_0000) as u64),
        ),
    }
}

/// The place of a point on the ring.
pub fn point_hash(point: &PointId) -> (h: u64)
    ensures
        h == spec_point_hash(*point),
{
    match point {
        PointId::NumId(n) => mix(*n),
        PointId::Uuid(u) => {
            let high = (*u / 0x1_0000_0000_0000_0000) as u64;
            let low = (*u % 0x1_0000_0000_0000_0000) as u64;
            mix(mix(high) ^ low)
        },
    }
}

/// The place of a virtual node on the ring.
pub open spec fn spec_node_hash(shard: ShardId, vnode: u32) -> u64 {
    spec_mix(spec_mix(shard as u64) ^ (vnode as u64))
}

/// The key of a virtual node: its place on the ring, then the shard, then the
/// number of the node, packed into one integer so that keys are ordered by
/// place first.
pub open spec fn node_key(shard: ShardId, vnode: u32) -> u128 {
    (spec_node_hash(shard, vnode) as int * 0x1_0000_0000_0000_0000 + shard as int * 0x1_0000_0000
        + vnode as int) as u128
}

/// A key packed from a place, a shard and a node number gives them back.
pub proof fn lemma_key_parts(place: u64, shard: u32, vnode: u32)
    ensures
        place * 0x1_0000_0000_0000_0000 + shard * 0x1_0000_0000 + vnode
            < 0x1_0000_0000_0000_0000_0000_0000_0000_0000,
        ((place * 0x1_0000_0000_0000_0000 + shard * 0x1_0000_0000 + vnode) / 0x1_0000_0000)
            % 0x1_0000_0000 == shard,
        (place * 0x1_0000_0000_0000_0000 + shard * 0x1_0000_0000 + vnode) % 0x1_0000_0000
            == vnode,
        (place * 0x1_0000_0000_0000_0000 + shard * 0x1_0000_0000 + vnode)
            / 0x1_0000_0000_0000_0000 == place,
{
    let p = place as int;
    let s = shard as int;
    let v = vnode as int;
    let k = p * 0x1_0000_0000_0000_0000 + s * 0x1_0000_0000 + v;
    let upper = p * 0x1_0000_0000 + s;
    assert(k == upper * 0x1_0000_0000 + v);
    assert(k / 0x1_0000_0000 == upper && k % 0x1_0000_0000 == v) by {
        vstd::arithmetic::div_mod::lemma_fundamental_div_mod_converse(k, 0x1_0000_0000, upper, v);
    }
    assert(upper / 0x1_0000_0000 == p && upper % 0x1_0000_0000 == s) by {
        vstd::arithmetic::div_mod::lemma_fundamental_div_mod_converse(
            upper,
            0x1_0000_0000,
            p,
            s,
        );
    }
    assert(k == p * 0x1_0000_0000_0000_0000 + (s * 0x1_0000_0000 + v));
    assert(k / 0x1_0000_0000_0000_0000 == p) by {
        vstd::arithmetic::div_mod::lemma_fundamental_div_mod_converse(
            k,
            0x1_0000_0000_0000_0000,
            p,
            s * 0x1_0000_0000 + v,
        );
    }
}

/// The key of a virtual node.
pub fn make_node_key(shard: ShardId, vnode: u32) -> (key: u128)
    ensures
        key == node_key(shard, vnode),
        shard_of(key) == shard,
        vnode_of(key) == vnode,
{
    let h = mix(mix(shard as u64) ^ (vnode as u64));
    proof {
        lemma_key_parts(h, shard, vnode);
    }
    (h as u128) * 0x1_0000_0000_0000_0000 + (shard as u128) * 0x1_0000_0000 + (vnode as u128)
}

/// The shard that a key belongs to.
pub open spec fn shard_of(key: u128) -> ShardId {
    ((key / 0x1_0000_0000) % 0x1_0000_0000) as ShardId
}

/// The number of the virtual node of a key.
pub open spec fn vnode_of(key: u128) -> u32 {
    (key % 0x1_0000_0000) as u32
}

/// The smallest key at a place on the ring.
pub open spec fn place_key(place: u64) -> u128 {
    (place as int * 0x1_0000_0000_0000_0000) as u128
}

/// The keys of all virtual nodes of the shards of `shards`.
pub open spec fn ring_keys(shards: Set<ShardId>, scale: u32) -> Set<u128> {
    Set::new(
        |key: u128|
            shards.contains(shard_of(key)) && vnode_of(key) < scale && key == node_key(
                shard_of(key),
                vnode_of(key),
            ),
    )
}

/// Strictly increasing.
pub open spec fn increasing(keys: Seq<u128>) -> bool {
    forall|i: int, j: int| 0 <= i < j < keys.len() ==> keys[i] < keys[j]
}

/// Index of the first key that is at least `target`, or the length if there
/// is none.
pub open spec fn lower_bound(keys: Seq<u128>, target: u128) -> int
    decreases keys.len(),
{
    if keys.len() == 0 {
        0
    } else if keys[0] >= target {
        0
    } else {
        1 + lower_bound(keys.skip(1), target)
    }
}

/// `lower_bound` points at the first key that is at least `target`.
pub proof fn lemma_lower_bound(keys: Seq<u128>, target: u128)
    ensures
        0 <= lower_bound(keys, target) <= keys.len(),
        lower_bound(keys, target) < keys.len() ==> keys[lower_bound(keys, target)] >= target,
        forall|i: int| 0 <= i < lower_bound(keys, target) ==> keys[i] < target,
    decreases keys.len(),
{
    if keys.len() != 0 && keys[0] < target {
        lemma_lower_bound(keys.skip(1), target);
        assert forall|i: int| 0 <= i < lower_bound(keys, target) implies keys[i] < target by {
            if i > 0 {
                assert(keys.skip(1)[i - 1] == keys[i]);
            }
        }
    }
}

/// A split of increasing keys into those below `target` and the others is at
/// `lower_bound`.
pub proof fn lemma_lower_bound_is(keys: Seq<u128>, target: u128, at: int)
    requires
        0 <= at <= keys.len(),
        forall|i: int| 0 <= i < at ==> keys[i] < target,
        at < keys.len() ==> keys[at] >= target,
    ensures
        lower_bound(keys, target) == at,
{
    lemma_lower_bound(keys, target);
    let b = lower_bound(keys, target);
    if b < at {
        assert(keys[b] < target);
    }
    if at < b {
        assert(keys[at] < target);
    }
}

/// The shard that the point at `place` goes to on the ring of `keys`.
pub open spec fn shard_at(keys: Seq<u128>, place: u64) -> Option<ShardId> {
    if keys.len() == 0 {
        None
    } else {
        let i = lower_bound(keys, place_key(place));
        if i < keys.len() {
            Some(shard_of(keys[i]))
        } else {
            Some(shard_of(keys[0]))
        }
    }
}

/// Two increasing sequences with the same elements are equal.
pub proof fn lemma_increasing_determined(a: Seq<u128>, b: Seq<u128>)
    requires
        increasing(a),
        increasing(b),
        a.to_set() == b.to_set(),
    ensures
        a == b,
    decreases a.len(),
{
    if a.len() == 0 {
        if b.len() > 0 {
            assert(b.to_set().contains(b[0]));
            assert(a.to_set().contains(b[0]));
        }
        assert(a =~= b);
    } else {
        assert(a.to_set().contains(a[0]));
        assert(b.to_set().contains(a[0]));
        let ib = choose|i: int| 0 <= i < b.len() && b[i] == a[0];
        assert(b.to_set().contains(b[0]));
        assert(a.to_set().contains(b[0]));
        let ia = choose|i: int| 0 <= i < a.len() && a[i] == b[0];
        assert(a[0] == b[0]) by {
            if ia > 0 {
                assert(a[0] < a[ia]);
            }
            if ib > 0 {
                assert(b[0] < b[ib]);
            }
        }
        let ta = a.skip(1);
        let tb = b.skip(1);
        assert forall|k: u128| ta.to_set().contains(k) == tb.to_set().contains(k) by {
            if ta.to_set().contains(k) {
                let i = choose|i: int| 0 <= i < ta.len() && ta[i] == k;
                assert(a[i + 1] == k);
                assert(a[0] < a[i + 1]);
                assert(a.to_set().contains(k));
                assert(b.to_set().contains(k));
                let j = choose|j: int| 0 <= j < b.len() && b[j] == k;
                assert(j > 0);
                assert(tb[j - 1] == k);
            }
            if tb.to_set().contains(k) {
                let i = choose|i: int| 0 <= i < tb.len() && tb[i] == k;
                assert(b[i + 1] == k);
                assert(b[0] < b[i + 1]);
                assert(b.to_set().contains(k));
                assert(a.to_set().contains(k));
                let j = choose|j: int| 0 <= j < a.len() && a[j] == k;
                assert(j > 0);
                assert(ta[j - 1] == k);
            }
        }
        assert(ta.to_set() =~= tb.to_set());
        assert(increasing(ta)) by {
            assert forall|i: int, j: int| 0 <= i < j < ta.len() implies ta[i] < ta[j] by {
                assert(a[i + 1] < a[j + 1]);
            }
        }
        assert(increasing(tb)) by {
            assert forall|i: int, j: int| 0 <= i < j < tb.len() implies tb[i] < tb[j] by {
                assert(b[i + 1] < b[j + 1]);
            }
        }
        lemma_increasing_determined(ta, tb);
        assert(a =~= seq![a[0]] + ta);
        assert(b =~= seq![b[0]] + tb);
    }
}

/// A consistent hash ring with `scale` virtual nodes for each shard.
pub struct HashRing {
    scale: u32,
    keys: Vec<u128>,
}

impl HashRing {
    /// The keys of the virtual nodes, in increasing order.
    pub closed spec fn keys(&self) -> Seq<u128> {
        self.keys@
    }

    /// Number of virtual nodes of each shard.
    pub closed spec fn scale(&self) -> u32 {
        self.scale
    }

    /// The shards on the ring.
    pub open spec fn shards(&self) -> Set<ShardId> {
        Set::new(|shard: ShardId| self.keys().contains(node_key(shard, 0)))
    }

    /// The keys are increasing and are exactly the keys of the virtual nodes
    /// of the shards on the ring.
    pub open spec fn wf(&self) -> bool {
        &&& self.scale() > 0
        &&& increasing(self.keys())
        &&& self.keys().to_set() == ring_keys(self.shards(), self.scale())
    }

    /// The shard that `point` goes to; `None` on an empty ring.
    pub open spec fn spec_get(&self, point: PointId) -> Option<ShardId> {
        shard_at(self.keys(), spec_point_hash(point))
    }

    /// An empty ring on which every shard will get `scale` virtual nodes.
    pub fn fair(scale: u32) -> (ring: Self)
        requires
            scale > 0,
        ensures
            ring.wf(),
            ring.scale() == scale,
            ring.shards() == Set::<ShardId>::empty(),
            ring.keys().len() == 0,
    {
        let ring = HashRing { scale, keys: Vec::new() };
        assert(ring.shards() =~= Set::<ShardId>::empty());
        assert(ring.keys().to_set() =~= ring_keys(ring.shards(), scale));
        ring
    }

    /// An empty ring with the scale of this one.
    pub fn emptied(self) -> (ring: Self)
        requires
            self.wf(),
        ensures
            ring.wf(),
            ring.scale() == self.scale(),
            ring.keys().len() == 0,
            self.keys().len() == 0 ==> ring == self,
    {
        if self.keys.len() == 0 {
            self
        } else {
            HashRing::fair(self.scale)
        }
    }

    /// True when no shard is on the ring.
    pub fn is_empty(&self) -> (b: bool)
        ensures
            b == (self.keys().len() == 0),
    {
        self.keys.len() == 0
    }

    /// Index of the first key that is at least `target`.
    fn search(&self, target: u128) -> (at: usize)
        requires
            increasing(self.keys()),
        ensures
            at == lower_bound(self.keys(), target),
            at <= self.keys().len(),
    {
        let mut low: usize = 0;
        let mut high: usize = self.keys.len();
        while low < high
            invariant
                0 <= low <= high <= self.keys.len(),
                increasing(self.keys@),
                forall|i: int| 0 <= i < low ==> self.keys@[i] < target,
                forall|i: int| high <= i < self.keys@.len() ==> self.keys@[i] >= target,
            decreases high - low,
        {
            let mid = low + (high - low) / 2;
            if self.keys[mid] < target {
                low = mid + 1;
            } else {
                high = mid;
            }
        }
        proof {
            lemma_lower_bound_is(self.keys@, target, low as int);
        }
        low
    }

    /// True when `shard` is on the ring.
    pub fn contains(&self, shard: ShardId) -> (b: bool)
        requires
            self.wf(),
        ensures
            b == self.shards().contains(shard),
    {
        let key = make_node_key(shard, 0);
        let at = self.search(key);
        proof {
            lemma_lower_bound(self.keys@, key);
            if self.keys@.contains(key) {
                let i = choose|i: int| 0 <= i < self.keys@.len() && self.keys@[i] == key;
                if i < at {
                    assert(self.keys@[i] < key);
                }
                if at < i {
                    assert(self.keys@[at as int] < self.keys@[i]);
                }
            }
        }
        at < self.keys.len() && self.keys[at] == key
    }

    /// The shard that `point` goes to; `None` on an empty ring.
    pub fn get(&self, point: &PointId) -> (shard: Option<ShardId>)
        requires
            self.wf(),
        ensures
            shard == self.spec_get(*point),
            shard matches Some(s) ==> self.shards().contains(s),
    {
        if self.keys.len() == 0 {
            return None;
        }
        let place = point_hash(point);
        let target = (place as u128) * 0x1_0000_0000_0000_0000;
        let at = self.search(target);
        let key = if at < self.keys.len() {
            self.keys[at]
        } else {
            self.keys[0]
        };
        proof {
            assert(self.keys@.to_set().contains(key));
            assert(ring_keys(self.shards(), self.scale()).contains(key));
        }
        Some(((key / 0x1_0000_0000) % 0x1_0000_0000) as ShardId)
    }
}

/// A node's key gives back the node's shard and number.
pub proof fn lemma_node_key(shard: ShardId, vnode: u32)
    ensures
        shard_of(node_key(shard, vnode)) == shard,
        vnode_of(node_key(shard, vnode)) == vnode,
{
    lemma_key_parts(spec_node_hash(shard, vnode), shard, vnode);
}

/// The keys of the first `count` virtual nodes of `shard`.
pub open spec fn shard_keys(shard: ShardId, count: int) -> Set<u128> {
    Set::new(|key: u128| shard_of(key) == shard && vnode_of(key) < count && key == node_key(shard, vnode_of(key)))
}

impl HashRing {
    /// Puts `key` at its place among the keys.
    fn insert_key(&mut self, key: u128)
        requires
            increasing(old(self).keys()),
            !old(self).keys().contains(key),
        ensures
            increasing(final(self).keys()),
            final(self).keys().to_set() == old(self).keys().to_set().insert(key),
            final(self).scale() == old(self).scale(),
    {
        let at = self.search(key);
        let ghost before = self.keys@;
        proof {
            lemma_lower_bound(before, key);
            if at < before.len() && before[at as int] == key {
                assert(before.contains(key));
            }
        }
        self.keys.insert(at, key);
        proof {
            let after = self.keys@;
            assert(forall|i: int| 0 <= i < at ==> after[i] == before[i]);
            assert(after[at as int] == key);
            assert(forall|i: int| at < i < after.len() ==> after[i] == before[i - 1]);
            assert forall|k: u128| after.to_set().contains(k) == before.to_set().insert(
                key,
            ).contains(k) by {
                if after.to_set().contains(k) {
                    let i = choose|i: int| 0 <= i < after.len() && after[i] == k;
                    if i < at {
                        assert(before[i] == k);
                    } else if i > at {
                        assert(before[i - 1] == k);
                    }
                }
                if before.to_set().contains(k) {
                    let i = choose|i: int| 0 <= i < before.len() && before[i] == k;
                    if i < at {
                        assert(after[i] == k);
                    } else {
                        assert(after[i + 1] == k);
                    }
                }
            }
            assert(after.to_set() =~= before.to_set().insert(key));
        }
    }

    /// Puts `shard` on the ring. A shard that is on the ring already stays as
    /// it is.
    pub fn add(&mut self, shard: ShardId)
        requires
            old(self).wf(),
        ensures
            final(self).wf(),
            final(self).scale() == old(self).scale(),
            final(self).shards() == old(self).shards().insert(shard),
    {
        if self.contains(shard) {
            assert(old(self).shards().insert(shard) =~= old(self).shards());
            return ;
        }
        let ghost shards = self.shards();
        let ghost scale = self.scale;
        let mut vnode: u32 = 0;
        while vnode < self.scale
            invariant
                vnode <= self.scale,
                self.scale == scale,
                scale > 0,
                !shards.contains(shard),
                increasing(self.keys()),
                self.keys().to_set() == ring_keys(shards, scale).union(
                    shard_keys(shard, vnode as int),
                ),
            decreases self.scale - vnode,
        {
            let key = make_node_key(shard, vnode);
            proof {
                if self.keys().contains(key) {
                    assert(self.keys().to_set().contains(key));
                }
            }
            let ghost before = self.keys().to_set();
            self.insert_key(key);
            proof {
                assert forall|k: u128| before.insert(key).contains(k) == ring_keys(
                    shards,
                    scale,
                ).union(shard_keys(shard, vnode + 1)).contains(k) by {
                    if shard_keys(shard, vnode + 1).contains(k) && !shard_keys(
                        shard,
                        vnode as int,
                    ).contains(k) {
                        assert(vnode_of(k) == vnode);
                    }
                }
                assert(self.keys().to_set() =~= ring_keys(shards, scale).union(
                    shard_keys(shard, vnode + 1),
                ));
            }
            vnode += 1;
        }
        proof {
            let all = shards.insert(shard);
            assert forall|k: u128| self.keys().to_set().contains(k) == ring_keys(
                all,
                scale,
            ).contains(k) by {}
            assert(self.keys().to_set() =~= ring_keys(all, scale));
            assert forall|s: ShardId| self.shards().contains(s) == all.contains(s) by {
                lemma_node_key(s, 0);
                let k = node_key(s, 0);
                assert(self.keys().contains(k) == self.keys().to_set().contains(k));
                assert(old(self).keys().contains(k) == old(self).keys().to_set().contains(k));
            }
            assert(self.shards() =~= all);
        }
    }
}

/// Two rings with the same scale and the same shards assign every point to
/// the same shard, whatever the order in which their shards were added.
pub proof fn lemma_ring_determined(a: HashRing, b: HashRing, point: PointId)
    requires
        a.wf(),
        b.wf(),
        a.scale() == b.scale(),
        a.shards() == b.shards(),
    ensures
        a.keys() == b.keys(),
        a.spec_get(point) == b.spec_get(point),
{
    lemma_increasing_determined(a.keys(), b.keys());
}

/// A ring that is not empty assigns every point to one of its shards.
pub proof fn lemma_ring_assigns(ring: HashRing, point: PointId)
    requires
        ring.wf(),
        ring.keys().len() > 0,
    ensures
        ring.spec_get(point) is Some,
        ring.shards().contains(ring.spec_get(point)->Some_0),
{
    let keys = ring.keys();
    let i = lower_bound(keys, place_key(spec_point_hash(point)));
    lemma_lower_bound(keys, place_key(spec_point_hash(point)));
    let key = if i < keys.len() {
        keys[i]
    } else {
        keys[0]
    };
    assert(keys.to_set().contains(key));
    assert(ring_keys(ring.shards(), ring.scale()).contains(key));
}

} // verus!
