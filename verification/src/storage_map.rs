//! The storage map: a weighted tree whose leaves are devices, and the walk
//! that places a group of objects on devices.

use std::collections::HashSet;
use vstd::prelude::*;

use crate::hash::{compute_hash, compute_object_hash, spec_hash, spec_object_hash};
use crate::ident::{DeviceId, GroupId, ObjectId};

verus! {

broadcast use vstd::std_specs::hash::group_hash_axioms;

/// The configuration for a storage pool.
///
/// This contains the tree used to map a group to a device, as well as the
/// current number of groups.
pub struct StorageMap {
    pub generation: u32,
    pub groups: u32,
    pub replicas: u32,
    pub map_root: Node,
}

/// A node in the storage map.
#[derive(Debug)]
pub enum Node {
    Device(DeviceId),
    Bucket(Bucket),
}

/// Internal node in the storage map, allows picking one of multiple children.
#[derive(Debug)]
pub struct Bucket {
    pub id: u32,
    pub algorithm: Algorithm,
    pub pick_mode: PickMode,
    pub children: Vec<NodeEntry>,
}

#[derive(Clone, Copy, Debug)]
pub enum PickMode {
    /// Pseudo-random mode, pick whatever the hash function gives us.
    PseudoRandom,
    /// Don't pick the same child twice, fail instead.
    NeverRepeat,
}

#[derive(Debug)]
pub struct NodeEntry {
    pub weight: u32,
    pub node: Node,
}

#[derive(Clone, Debug, PartialEq, Eq)]
pub enum Algorithm {
    Uniform,
    Straw(Vec<u32>),
    List,
    Fallback,
}

/// The sum of the weights of the given children.
pub open spec fn weights_sum(children: Seq<NodeEntry>) -> int
    decreases children.len(),
{
    if children.len() == 0 {
        0
    } else {
        weights_sum(children.drop_last()) + children.last().weight
    }
}

/// What a bucket needs for a draw in it to be defined: a child to pick, a
/// total weight to reduce by where weights count, a positive factor for every
/// child where straws are drawn.
pub open spec fn bucket_ok(bucket: Bucket) -> bool {
    &&& 1 <= bucket.children@.len() <= u32::MAX
    &&& match bucket.algorithm {
        Algorithm::Uniform => true,
        Algorithm::List => 1 <= weights_sum(bucket.children@) <= u32::MAX,
        Algorithm::Straw(factors) => {
            &&& factors@.len() == bucket.children@.len()
            &&& forall|i: int| 0 <= i < factors@.len() ==> factors@[i] > 0
        },
        Algorithm::Fallback => true,
    }
}

/// A tree is well formed at a level when every bucket in it is fit for a
/// draw and its depth can be counted in 32 bits from that level.
pub open spec fn node_wf(node: Node, level: u32) -> bool
    decreases node,
{
    match node {
        Node::Device(_) => true,
        Node::Bucket(bucket) => {
            &&& bucket_ok(bucket)
            &&& level < u32::MAX
            &&& forall|i: int|
                0 <= i < bucket.children@.len() ==> node_wf(
                    (#[trigger] bucket.children@[i]).node,
                    (level + 1) as u32,
                )
        },
    }
}

/// The IDs of the buckets of a tree: that of the bucket at its root, then
/// those of the buckets below its children, child by child.
pub open spec fn node_ids(node: Node) -> Seq<u32>
    decreases node, 0nat,
{
    match node {
        Node::Device(_) => Seq::empty(),
        Node::Bucket(bucket) => seq![bucket.id] + children_ids(
            bucket.children@,
            bucket.children@.len() as int,
        ),
    }
}

/// The IDs of the buckets below the first `n` of some children.
pub open spec fn children_ids(children: Seq<NodeEntry>, n: int) -> Seq<u32>
    decreases children, n,
{
    if n <= 0 || n > children.len() {
        Seq::empty()
    } else {
        children_ids(children, n - 1) + node_ids(children[n - 1].node)
    }
}

impl StorageMap {
    /// A map is well formed when it has a group to hash into, a replica to
    /// place, and a well-formed tree in which no two buckets have the same
    /// ID.
    pub open spec fn wf(&self) -> bool {
        &&& self.groups >= 1
        &&& self.replicas >= 1
        &&& node_wf(self.map_root, 0)
        &&& node_ids(self.map_root).no_duplicates()
    }
}

/// The group that an object's name falls into when there are `groups` groups.
pub open spec fn spec_object_group(name: Seq<u8>, groups: u32) -> u32 {
    spec_object_hash(name) % groups
}

/// The key under which child `index` of bucket `id` is remembered as picked.
pub open spec fn pick_key(id: u32, index: u32) -> u64 {
    (id as u64 * 0x1_0000_0000 + index as u64) as u64
}

/// Every child of the bucket has been picked.
pub open spec fn all_picked(bucket: Bucket, picked: Set<u64>) -> bool {
    forall|i: int|
        0 <= i < bucket.children@.len() ==> picked.contains(#[trigger] pick_key(bucket.id, i as u32))
}

/// The straw that child `idx` draws: its hash, reduced by its factor.
pub open spec fn spec_straw(
    group: u32,
    replica_num: u32,
    level: u32,
    attempt: u32,
    idx: u32,
    factor: u32,
) -> int {
    spec_hash(level, group, replica_num, attempt, idx) as int % factor as int
}

/// The child with the longest straw among the first `n`; of two equal straws
/// the earlier child wins.
pub open spec fn spec_straw_pick(
    factors: Seq<u32>,
    group: u32,
    replica_num: u32,
    level: u32,
    attempt: u32,
    n: int,
) -> int
    decreases n,
{
    if n <= 1 {
        0
    } else {
        let best = spec_straw_pick(factors, group, replica_num, level, attempt, n - 1);
        if spec_straw(group, replica_num, level, attempt, (n - 1) as u32, factors[n - 1])
            > spec_straw(group, replica_num, level, attempt, best as u32, factors[best]) {
            n - 1
        } else {
            best
        }
    }
}

/// Walks the children from `from` on with a draw `h`: a child whose weight
/// exceeds what is left of the draw is picked, else its weight is taken off
/// the draw. The last child takes what remains.
pub open spec fn spec_list_pick(children: Seq<NodeEntry>, h: int, from: int) -> int
    decreases children.len() - from,
{
    if from >= children.len() - 1 {
        children.len() - 1
    } else if h < children[from].weight {
        from
    } else {
        spec_list_pick(children, h - children[from].weight, from + 1)
    }
}

/// The index that a bucket's algorithm selects for one attempt.
pub open spec fn spec_index_in_bucket(
    bucket: Bucket,
    group: u32,
    replica_num: u32,
    level: u32,
    attempt: u32,
) -> int {
    match bucket.algorithm {
        Algorithm::Uniform => spec_hash(level, group, replica_num, attempt, 0) as int
            % bucket.children@.len() as int,
        Algorithm::List => spec_list_pick(
            bucket.children@,
            spec_hash(level, group, replica_num, attempt, 0) as int % weights_sum(bucket.children@),
            0,
        ),
        Algorithm::Straw(factors) => spec_straw_pick(
            factors@,
            group,
            replica_num,
            level,
            attempt,
            bucket.children@.len() as int,
        ),
        Algorithm::Fallback => attempt as int,
    }
}

/// The outcome of a walk: the device it ended on, if any, and the children
/// remembered as picked when it ended.
pub struct Walk {
    pub device: Option<DeviceId>,
    pub picked: Set<u64>,
}

/// Walks the tree from `node` for one replica of a group, starting with the
/// given attempt.
///
/// A device is the end of the walk. In a bucket the algorithm draws a child.
/// A bucket that never repeats gives up once all its children are picked,
/// draws again when the child drawn was picked before, and remembers the
/// child otherwise. The walk goes on below the child; when nothing is found
/// there, the bucket draws again. Nothing is found when the draw falls
/// outside the children or the attempts run out.
pub open spec fn spec_locate(
    node: Node,
    group: u32,
    replica_num: u32,
    level: u32,
    attempt: u32,
    picked: Set<u64>,
) -> Walk
    decreases node, u32::MAX - attempt,
{
    match node {
        Node::Device(id) => Walk { device: Some(id), picked },
        Node::Bucket(bucket) => {
            let never_repeat = bucket.pick_mode is NeverRepeat;
            let index = spec_index_in_bucket(bucket, group, replica_num, level, attempt);
            if never_repeat && all_picked(bucket, picked) {
                Walk { device: None, picked }
            } else if !(0 <= index < bucket.children@.len()) {
                Walk { device: None, picked }
            } else if never_repeat && picked.contains(pick_key(bucket.id, index as u32)) {
                if attempt == u32::MAX {
                    Walk { device: None, picked }
                } else {
                    spec_locate(node, group, replica_num, level, (attempt + 1) as u32, picked)
                }
            } else {
                let marked = if never_repeat {
                    picked.insert(pick_key(bucket.id, index as u32))
                } else {
                    picked
                };
                let below = spec_locate(
                    bucket.children@[index].node,
                    group,
                    replica_num,
                    (level + 1) as u32,
                    0,
                    marked,
                );
                if below.device is Some || attempt == u32::MAX {
                    below
                } else {
                    spec_locate(node, group, replica_num, level, (attempt + 1) as u32, below.picked)
                }
            }
        },
    }
}

/// The devices of replicas `from` up to `count` of a group, in order. The
/// list ends early at the first replica for which the walk finds nothing.
pub open spec fn spec_replicas(root: Node, group: u32, from: int, count: int, picked: Set<u64>) -> Seq<
    DeviceId,
>
    decreases count - from,
{
    if from >= count {
        Seq::empty()
    } else {
        let walk = spec_locate(root, group, from as u32, 0, 0, picked);
        match walk.device {
            Some(device) => seq![device] + spec_replicas(root, group, from + 1, count, walk.picked),
            None => Seq::empty(),
        }
    }
}

fn draw_straw(group_id: &GroupId, replica_num: u32, level: u32, attempt: u32, idx: usize, weight: u32) -> (r: u32)
    requires
        weight > 0,
        idx <= u32::MAX,
    ensures
        r == spec_straw(group_id.0, replica_num, level, attempt, idx as u32, weight),
{
    let hash = compute_hash(level, group_id, replica_num, attempt, idx as u32);
    hash % weight
}

proof fn lemma_weights_sum_prefix(children: Seq<NodeEntry>, n: int)
    requires
        0 <= n <= children.len(),
    ensures
        0 <= weights_sum(children.subrange(0, n)) <= weights_sum(children),
        n < children.len() ==> weights_sum(children.subrange(0, n + 1)) == weights_sum(
            children.subrange(0, n),
        ) + children[n].weight,
        weights_sum(children.subrange(0, children.len() as int)) == weights_sum(children),
    decreases children.len() - n,
{
    assert(children.subrange(0, children.len() as int) =~= children);
    if n < children.len() {
        assert(children.subrange(0, n + 1).drop_last() =~= children.subrange(0, n));
        lemma_weights_sum_prefix(children, n + 1);
    }
    if n == 0 {
        assert(children.subrange(0, 0).len() == 0);
    } else {
        assert(children.subrange(0, n).drop_last() =~= children.subrange(0, n - 1));
        lemma_weights_sum_nonneg(children.subrange(0, n));
    }
}

proof fn lemma_weights_sum_nonneg(children: Seq<NodeEntry>)
    ensures
        weights_sum(children) >= 0,
    decreases children.len(),
{
    if children.len() > 0 {
        lemma_weights_sum_nonneg(children.drop_last());
    }
}

/// Adds up the weights of the children.
fn total_weight(children: &Vec<NodeEntry>) -> (r: u64)
    requires
        children@.len() <= u32::MAX,
    ensures
        r == weights_sum(children@),
{
    let mut sum: u64 = 0;
    let mut i: usize = 0;
    while i < children.len()
        invariant
            i <= children@.len() <= u32::MAX,
            sum == weights_sum(children@.subrange(0, i as int)),
            sum <= i * 0xffff_ffff,
        decreases children@.len() - i,
    {
        proof {
            lemma_weights_sum_prefix(children@, i as int);
            assert(i * 0xffff_ffff + 0xffff_ffff <= 0xffff_ffff * 0xffff_ffff + 0xffff_ffff) by (nonlinear_arith)
                requires
                    i <= 0xffff_ffff,
            ;
        }
        sum = sum + children[i].weight as u64;
        i += 1;
    }
    proof {
        lemma_weights_sum_prefix(children@, i as int);
    }
    sum
}

fn compute_location_in_bucket(
    bucket: &Bucket,
    group_id: &GroupId,
    replica_num: u32,
    level: u32,
    attempt: u32,
) -> (r: usize)
    requires
        bucket_ok(*bucket),
    ensures
        r == spec_index_in_bucket(*bucket, group_id.0, replica_num, level, attempt),
        !(bucket.algorithm is Fallback) ==> r < bucket.children@.len(),
{
    match &bucket.algorithm {
        Algorithm::Uniform => {
            // Hash the input
            let hash = compute_hash(level, group_id, replica_num, attempt, 0);

            // Pick the entry
            hash as usize % bucket.children.len()
        },
        Algorithm::List => {
            // Compute total weight
            let total = total_weight(&bucket.children);

            // Draw
            let first = compute_hash(level, group_id, replica_num, attempt, 0) as u64 % total;
            let mut hash = first;
            let last = bucket.children.len() - 1;
            let mut i: usize = 0;
            while i < last
                invariant
                    i <= last,
                    last == bucket.children@.len() - 1,
                    bucket.algorithm is List,
                    first as int == spec_hash(level, group_id.0, replica_num, attempt, 0) as int
                        % weights_sum(bucket.children@),
                    spec_list_pick(bucket.children@, hash as int, i as int) == spec_list_pick(
                        bucket.children@,
                        first as int,
                        0,
                    ),
                decreases last - i,
            {
                let weight = bucket.children[i].weight as u64;
                if hash < weight {
                    return i;
                }
                hash = hash - weight;
                i += 1;
            }
            last
        },
        Algorithm::Straw(factors) => {
            // Draw straws for every entry, scaled by the factors
            let mut best: usize = 0;
            let mut best_straw = draw_straw(group_id, replica_num, level, attempt, 0, factors[0]);
            let n = bucket.children.len();
            let mut i: usize = 1;
            while i < n
                invariant
                    1 <= i <= n,
                    n == bucket.children@.len(),
                    n <= u32::MAX,
                    factors@.len() == n,
                    forall|j: int| 0 <= j < factors@.len() ==> factors@[j] > 0,
                    best < i,
                    best == spec_straw_pick(factors@, group_id.0, replica_num, level, attempt, i as int),
                    best_straw == spec_straw(
                        group_id.0,
                        replica_num,
                        level,
                        attempt,
                        best as u32,
                        factors@[best as int],
                    ),
                decreases n - i,
            {
                let straw = draw_straw(group_id, replica_num, level, attempt, i, factors[i]);
                if straw > best_straw {
                    best = i;
                    best_straw = straw;
                }
                i += 1;
            }
            best
        },
        Algorithm::Fallback => attempt as usize,
    }
}

/// Computes the key of a picked child.
fn make_pick_key(id: u32, index: u32) -> (r: u64)
    ensures
        r == pick_key(id, index),
{
    id as u64 * 0x1_0000_0000 + index as u64
}

/// Tells whether every child of the bucket has been picked.
fn is_exhausted(bucket: &Bucket, already_picked: &HashSet<u64>) -> (r: bool)
    requires
        bucket.children@.len() <= u32::MAX,
    ensures
        r == all_picked(*bucket, already_picked@),
{
    let mut i: usize = 0;
    while i < bucket.children.len()
        invariant
            i <= bucket.children@.len() <= u32::MAX,
            forall|j: int| 0 <= j < i ==> already_picked@.contains(#[trigger] pick_key(bucket.id, j as u32)),
        decreases bucket.children@.len() - i,
    {
        let key = make_pick_key(bucket.id, i as u32);
        if !already_picked.contains(&key) {
            return false;
        }
        i += 1;
    }
    true
}

/// Walks the tree from `node` for one replica of a group and returns the
/// device that the walk ends on, if any.
///
/// `already_picked` holds the children that earlier replicas went through in
/// buckets that never repeat; the walk adds those that it picks.
pub fn compute_location(
    node: &Node,
    group_id: &GroupId,
    replica_num: u32,
    level: u32,
    already_picked: &mut HashSet<u64>,
) -> (r: Option<DeviceId>)
    requires
        node_wf(*node, level),
    ensures
        r == spec_locate(*node, group_id.0, replica_num, level, 0, old(already_picked)@).device,
        final(already_picked)@ == spec_locate(
            *node,
            group_id.0,
            replica_num,
            level,
            0,
            old(already_picked)@,
        ).picked,
    decreases node,
{
    match node {
        Node::Device(id) => Some(*id),
        Node::Bucket(bucket) => {
            let ghost goal = spec_locate(*node, group_id.0, replica_num, level, 0, already_picked@);
            let mut attempt: u32 = 0;
            loop
                invariant
                    *node == Node::Bucket(*bucket),
                    node_wf(*node, level),
                    goal == spec_locate(*node, group_id.0, replica_num, level, 0, old(already_picked)@),
                    spec_locate(*node, group_id.0, replica_num, level, attempt, already_picked@) == goal,
                decreases u32::MAX - attempt,
            {
                let never_repeat = match bucket.pick_mode {
                    PickMode::NeverRepeat => true,
                    PickMode::PseudoRandom => false,
                };

                // Check that there are still children to be picked
                if never_repeat && is_exhausted(bucket, already_picked) {
                    return None;
                }

                // Compute location based on bucket's algorithm
                let index = compute_location_in_bucket(bucket, group_id, replica_num, level, attempt);
                if index >= bucket.children.len() {
                    return None;
                }

                // Avoid repeats by drawing again if child has already been picked
                if never_repeat {
                    let key = make_pick_key(bucket.id, index as u32);
                    let ghost before = already_picked@;
                    let was_already_marked = !already_picked.insert(key);
                    if was_already_marked {
                        assert(already_picked@ =~= before);
                        if attempt == u32::MAX {
                            return None;
                        }
                        attempt += 1;
                        continue;
                    }
                }

                // Recursively process that child
                let found = compute_location(
                    &bucket.children[index].node,
                    group_id,
                    replica_num,
                    level + 1,
                    already_picked,
                );
                if found.is_some() || attempt == u32::MAX {
                    return found;
                }
                attempt += 1;
            }
        },
    }
}

impl StorageMap {
    /// The group that an object belongs to. It depends on the object's name
    /// and on the number of groups, and on nothing else in the map.
    pub fn object_to_group(&self, object_id: &ObjectId) -> (r: GroupId)
        requires
            self.groups >= 1,
        ensures
            r.0 == spec_object_group(object_id@, self.groups),
            r.0 < self.groups,
    {
        let h = compute_object_hash(object_id);
        GroupId(h % self.groups)
    }

    /// Gets the devices handling the given object group, in order.
    ///
    /// The list holds one device for each replica asked for, and fewer when
    /// the walk for a replica finds no device.
    pub fn group_to_devices(&self, group_id: &GroupId, replicas: usize) -> (r: Vec<DeviceId>)
        requires
            node_wf(self.map_root, 0),
            replicas <= u32::MAX,
        ensures
            r@ == spec_replicas(self.map_root, group_id.0, 0, replicas as int, Set::empty()),
            r@.len() <= replicas,
    {
        let mut devices: Vec<DeviceId> = Vec::new();
        let mut already_picked: HashSet<u64> = HashSet::new();
        let mut i: usize = 0;
        while i < replicas
            invariant
                i <= replicas <= u32::MAX,
                node_wf(self.map_root, 0),
                devices@.len() == i,
                devices@ + spec_replicas(
                    self.map_root,
                    group_id.0,
                    i as int,
                    replicas as int,
                    already_picked@,
                ) == spec_replicas(self.map_root, group_id.0, 0, replicas as int, Set::empty()),
            decreases replicas - i,
        {
            let ghost before = devices@;
            let ghost rest = spec_replicas(
                self.map_root,
                group_id.0,
                i as int,
                replicas as int,
                already_picked@,
            );
            match compute_location(&self.map_root, group_id, i as u32, 0, &mut already_picked) {
                Some(device) => {
                    devices.push(device);
                    proof {
                        let tail = spec_replicas(
                            self.map_root,
                            group_id.0,
                            i + 1,
                            replicas as int,
                            already_picked@,
                        );
                        assert(rest == seq![device] + tail);
                        assert(devices@ + tail =~= before + rest);
                    }
                },
                None => {
                    assert(rest == Seq::<DeviceId>::empty());
                    assert(devices@ + rest =~= devices@);
                    return devices;
                },
            }
            i += 1;
        }
        assert(devices@ + Seq::<DeviceId>::empty() =~= devices@);
        devices
    }

    /// Gets the first device handling the given object group.
    ///
    /// Shortcut for the first entry of `group_to_devices`. A well-formed map
    /// has a first device for every group.
    pub fn group_to_first_device(&self, group_id: &GroupId) -> (r: Option<DeviceId>)
        requires
            node_wf(self.map_root, 0),
        ensures
            r == spec_locate(self.map_root, group_id.0, 0, 0, 0, Set::empty()).device,
            self.wf() ==> r is Some,
    {
        proof {
            if self.wf() {
                lemma_first_device_exists(*self, group_id.0);
            }
        }
        let mut already_picked: HashSet<u64> = HashSet::new();
        compute_location(&self.map_root, group_id, 0, 0, &mut already_picked)
    }
}

/// Builds a bucket that draws straws, from its children and the factor of
/// each child.
///
/// The factors scale the straws so that each child is drawn as often as its
/// weight asks for; they are computed from the weights beforehand. The
/// bucket is fit for a draw when there is a child, and a positive factor for
/// each child.
pub fn build_straw_bucket(children: Vec<NodeEntry>, factors: Vec<u32>, id: u32, pick_mode: PickMode) -> (r:
    Bucket)
    ensures
        r.id == id,
        r.pick_mode == pick_mode,
        r.children == children,
        r.algorithm == Algorithm::Straw(factors),
{
    Bucket { id, algorithm: Algorithm::Straw(factors), pick_mode, children }
}

/// Tells whether a bucket is fit for a draw.
fn check_bucket(bucket: &Bucket) -> (r: bool)
    ensures
        r == bucket_ok(*bucket),
{
    let n = bucket.children.len();
    if n < 1 || n > u32::MAX as usize {
        return false;
    }
    match &bucket.algorithm {
        Algorithm::Uniform => true,
        Algorithm::List => {
            let total = total_weight(&bucket.children);
            1 <= total && total <= u32::MAX as u64
        },
        Algorithm::Straw(factors) => {
            if factors.len() != n {
                return false;
            }
            let mut i: usize = 0;
            while i < n
                invariant
                    i <= n,
                    n == factors@.len(),
                    1 <= n <= u32::MAX,
                    n == bucket.children@.len(),
                    bucket.algorithm == Algorithm::Straw(*factors),
                    forall|j: int| 0 <= j < i ==> factors@[j] > 0,
                decreases n - i,
            {
                if factors[i] == 0 {
                    return false;
                }
                i += 1;
            }
            true
        },
        Algorithm::Fallback => true,
    }
}

/// Tells whether a tree is well formed at a level.
pub fn check_node(node: &Node, level: u32) -> (r: bool)
    ensures
        r == node_wf(*node, level),
    decreases node,
{
    match node {
        Node::Device(_) => true,
        Node::Bucket(bucket) => {
            if level == u32::MAX || !check_bucket(bucket) {
                return false;
            }
            let mut i: usize = 0;
            while i < bucket.children.len()
                invariant
                    i <= bucket.children@.len(),
                    *node == Node::Bucket(*bucket),
                    level < u32::MAX,
                    forall|j: int|
                        0 <= j < i ==> node_wf(
                            (#[trigger] bucket.children@[j]).node,
                            (level + 1) as u32,
                        ),
                decreases bucket.children@.len() - i,
            {
                assert(decreases_to!(*node => bucket.children@[i as int].node)) by {
                    assert(decreases_to!(*node => bucket.children));
                    assert(decreases_to!(bucket.children => bucket.children@[i as int]));
                }
                if !check_node(&bucket.children[i].node, level + 1) {
                    return false;
                }
                i += 1;
            }
            true
        },
    }
}

/// Lists the IDs of the buckets of a tree, after those listed already.
fn collect_ids(node: &Node, ids: &mut Vec<u32>)
    ensures
        final(ids)@ == old(ids)@ + node_ids(*node),
    decreases node,
{
    match node {
        Node::Device(_) => {
            assert(ids@ =~= old(ids)@ + node_ids(*node));
        },
        Node::Bucket(bucket) => {
            ids.push(bucket.id);
            let mut i: usize = 0;
            assert(ids@ =~= old(ids)@ + seq![bucket.id] + children_ids(bucket.children@, 0));
            while i < bucket.children.len()
                invariant
                    i <= bucket.children@.len(),
                    *node == Node::Bucket(*bucket),
                    ids@ == old(ids)@ + seq![bucket.id] + children_ids(bucket.children@, i as int),
                decreases bucket.children@.len() - i,
            {
                assert(decreases_to!(*node => bucket.children@[i as int].node)) by {
                    assert(node->Bucket_0 == *bucket);
                    assert(decreases_to!(bucket.children => bucket.children@[i as int]));
                }
                collect_ids(&bucket.children[i].node, ids);
                i += 1;
                assert(ids@ =~= old(ids)@ + seq![bucket.id] + children_ids(
                    bucket.children@,
                    i as int,
                ));
            }
            assert(ids@ =~= old(ids)@ + node_ids(*node));
        },
    }
}

/// Tells whether no number comes twice in a list.
fn all_different(ids: &Vec<u32>) -> (r: bool)
    ensures
        r == ids@.no_duplicates(),
{
    let mut seen: HashSet<u32> = HashSet::new();
    let mut i: usize = 0;
    while i < ids.len()
        invariant
            i <= ids@.len(),
            forall|j: int| 0 <= j < i ==> seen@.contains(#[trigger] ids@[j]),
            forall|id: u32| #[trigger]
                seen@.contains(id) ==> exists|j: int| 0 <= j < i && ids@[j] == id,
            forall|a: int, b: int| 0 <= a < b < i ==> ids@[a] != ids@[b],
        decreases ids@.len() - i,
    {
        let ghost before = seen@;
        if !seen.insert(ids[i]) {
            proof {
                let j = choose|j: int| 0 <= j < i && ids@[j] == ids@[i as int];
                assert(ids@[j] == ids@[i as int] && j != i);
            }
            return false;
        }
        proof {
            assert forall|id: u32| #[trigger] seen@.contains(id) implies exists|j: int|
                0 <= j < i + 1 && ids@[j] == id by {
                if id == ids@[i as int] {
                    assert(ids@[i as int] == id);
                } else {
                    assert(before.contains(id));
                    let j = choose|j: int| 0 <= j < i && ids@[j] == id;
                    assert(0 <= j < i + 1 && ids@[j] == id);
                }
            }
            assert forall|a: int, b: int| 0 <= a < b < i + 1 implies ids@[a] != ids@[b] by {
                if b == i {
                    assert(before.contains(ids@[a]));
                }
            }
        }
        i += 1;
    }
    true
}

impl StorageMap {
    /// Tells whether the map is well formed.
    pub fn is_well_formed(&self) -> (r: bool)
        ensures
            r == self.wf(),
    {
        if !(self.groups >= 1 && self.replicas >= 1 && check_node(&self.map_root, 0)) {
            return false;
        }
        let mut ids: Vec<u32> = Vec::new();
        collect_ids(&self.map_root, &mut ids);
        assert(ids@ =~= node_ids(self.map_root));
        all_different(&ids)
    }
}

/// The group of an object lies below the number of groups.
pub proof fn lemma_group_in_range(name: Seq<u8>, groups: u32)
    requires
        groups >= 1,
    ensures
        spec_object_group(name, groups) < groups,
{
}

/// The group of an object depends on its name and on the number of groups
/// alone: two maps with as many groups put an object into the same group,
/// whatever their trees.
pub proof fn lemma_group_ignores_tree(a: StorageMap, b: StorageMap, name: Seq<u8>)
    requires
        a.groups == b.groups,
    ensures
        spec_object_group(name, a.groups) == spec_object_group(name, b.groups),
{
}

/// When the number of groups doubles, an object stays in its group or moves
/// to the new group that lies as far above it as there were groups: no
/// object moves from one old group to another.
pub proof fn lemma_group_doubling(name: Seq<u8>, groups: u32)
    requires
        groups >= 1,
        2 * groups <= u32::MAX,
    ensures
        ({
            let before = spec_object_group(name, groups);
            let after = spec_object_group(name, (2 * groups) as u32);
            after == before || after == before + groups
        }),
{
    let h = spec_object_hash(name) as int;
    let g = groups as int;
    let q = h / (2 * g);
    let r = h % (2 * g);
    assert(h == (2 * g) * q + r && 0 <= r < 2 * g) by {
        vstd::arithmetic::div_mod::lemma_fundamental_div_mod(h, 2 * g);
    }
    if r < g {
        assert(h == g * (2 * q) + r) by (nonlinear_arith)
            requires
                h == (2 * g) * q + r,
        ;
        vstd::arithmetic::div_mod::lemma_fundamental_div_mod_converse(h, g, 2 * q, r);
    } else {
        assert(h == g * (2 * q + 1) + (r - g)) by (nonlinear_arith)
            requires
                h == (2 * g) * q + r,
        ;
        vstd::arithmetic::div_mod::lemma_fundamental_div_mod_converse(h, g, 2 * q + 1, r - g);
    }
}

/// The first device of a group is the first of its devices: asking for one
/// replica gives that device, if there is one, and nothing if there is
/// none.
pub proof fn lemma_first_device(map: StorageMap, group: u32)
    ensures
        spec_replicas(map.map_root, group, 0, 1, Set::empty()) == match spec_locate(
            map.map_root,
            group,
            0,
            0,
            0,
            Set::empty(),
        ).device {
            Some(device) => seq![device],
            None => Seq::empty(),
        },
{
    let walk = spec_locate(map.map_root, group, 0, 0, 0, Set::empty());
    match walk.device {
        Some(device) => {
            assert(spec_replicas(map.map_root, group, 1, 1, walk.picked) == Seq::<DeviceId>::empty());
            assert(seq![device] + Seq::<DeviceId>::empty() =~= seq![device]);
        },
        None => {},
    }
}

/// A list draw picks the child in whose share of the total weight the draw
/// falls: the weights of the children before it add up to no more than the
/// draw, and with its own weight to more.
pub proof fn lemma_list_pick(children: Seq<NodeEntry>, h: int)
    requires
        children.len() >= 1,
        0 <= h < weights_sum(children),
    ensures
        ({
            let i = spec_list_pick(children, h, 0);
            &&& 0 <= i < children.len()
            &&& weights_sum(children.subrange(0, i)) <= h < weights_sum(children.subrange(0, i + 1))
        }),
{
    lemma_list_pick_from(children, h, 0);
    assert(children.subrange(0, 0) =~= Seq::<NodeEntry>::empty());
}

proof fn lemma_list_pick_from(children: Seq<NodeEntry>, h: int, from: int)
    requires
        children.len() >= 1,
        0 <= from < children.len(),
        0 <= h,
        weights_sum(children.subrange(0, from)) + h < weights_sum(children),
    ensures
        ({
            let i = spec_list_pick(children, h, from);
            let start = weights_sum(children.subrange(0, from));
            &&& from <= i < children.len()
            &&& weights_sum(children.subrange(0, i)) <= start + h < weights_sum(
                children.subrange(0, i + 1),
            )
        }),
    decreases children.len() - from,
{
    lemma_weights_sum_prefix(children, from);
    if from >= children.len() - 1 {
        assert(children.subrange(0, from + 1) =~= children);
    } else if h < children[from].weight {
    } else {
        lemma_list_pick_from(children, h - children[from].weight, from + 1);
    }
}

/// A straw draw picks a child with the longest straw, and the first of
/// those.
pub proof fn lemma_straw_pick(
    factors: Seq<u32>,
    group: u32,
    replica_num: u32,
    level: u32,
    attempt: u32,
    n: int,
)
    requires
        1 <= n,
    ensures
        ({
            let best = spec_straw_pick(factors, group, replica_num, level, attempt, n);
            &&& 0 <= best < n
            &&& forall|j: int|
                0 <= j < n ==> spec_straw(group, replica_num, level, attempt, j as u32, factors[j])
                    <= spec_straw(group, replica_num, level, attempt, best as u32, factors[best])
            &&& forall|j: int|
                0 <= j < best ==> spec_straw(group, replica_num, level, attempt, j as u32, factors[j])
                    < spec_straw(group, replica_num, level, attempt, best as u32, factors[best])
        }),
    decreases n,
{
    if n > 1 {
        lemma_straw_pick(factors, group, replica_num, level, attempt, n - 1);
    }
}

/// The child of a bucket below which a walk found its device; -1 where the
/// walk found none, or did not start in a bucket.
pub open spec fn spec_choice(
    node: Node,
    group: u32,
    replica_num: u32,
    level: u32,
    attempt: u32,
    picked: Set<u64>,
) -> int
    decreases u32::MAX - attempt,
{
    match node {
        Node::Device(_) => -1,
        Node::Bucket(bucket) => {
            let never_repeat = bucket.pick_mode is NeverRepeat;
            let index = spec_index_in_bucket(bucket, group, replica_num, level, attempt);
            if never_repeat && all_picked(bucket, picked) {
                -1
            } else if !(0 <= index < bucket.children@.len()) {
                -1
            } else if never_repeat && picked.contains(pick_key(bucket.id, index as u32)) {
                if attempt == u32::MAX {
                    -1
                } else {
                    spec_choice(node, group, replica_num, level, (attempt + 1) as u32, picked)
                }
            } else {
                let marked = if never_repeat {
                    picked.insert(pick_key(bucket.id, index as u32))
                } else {
                    picked
                };
                let below = spec_locate(
                    bucket.children@[index].node,
                    group,
                    replica_num,
                    (level + 1) as u32,
                    0,
                    marked,
                );
                if below.device is Some {
                    index
                } else if attempt == u32::MAX {
                    -1
                } else {
                    spec_choice(
                        node,
                        group,
                        replica_num,
                        level,
                        (attempt + 1) as u32,
                        below.picked,
                    )
                }
            }
        },
    }
}

/// A walk forgets no child: what was picked before it is picked after it.
pub proof fn lemma_walk_keeps_picked(
    node: Node,
    group: u32,
    replica_num: u32,
    level: u32,
    attempt: u32,
    picked: Set<u64>,
)
    ensures
        picked.subset_of(spec_locate(node, group, replica_num, level, attempt, picked).picked),
    decreases node, u32::MAX - attempt,
{
    match node {
        Node::Device(_) => {},
        Node::Bucket(bucket) => {
            let never_repeat = bucket.pick_mode is NeverRepeat;
            let index = spec_index_in_bucket(bucket, group, replica_num, level, attempt);
            if never_repeat && all_picked(bucket, picked) {
            } else if !(0 <= index < bucket.children@.len()) {
            } else if never_repeat && picked.contains(pick_key(bucket.id, index as u32)) {
                if attempt < u32::MAX {
                    lemma_walk_keeps_picked(
                        node,
                        group,
                        replica_num,
                        level,
                        (attempt + 1) as u32,
                        picked,
                    );
                }
            } else {
                let marked = if never_repeat {
                    picked.insert(pick_key(bucket.id, index as u32))
                } else {
                    picked
                };
                let child = bucket.children@[index].node;
                lemma_walk_keeps_picked(child, group, replica_num, (level + 1) as u32, 0, marked);
                let below = spec_locate(child, group, replica_num, (level + 1) as u32, 0, marked);
                if below.device is None && attempt < u32::MAX {
                    lemma_walk_keeps_picked(
                        node,
                        group,
                        replica_num,
                        level,
                        (attempt + 1) as u32,
                        below.picked,
                    );
                }
            }
        },
    }
}

/// A walk that finds a device from a bucket that never repeats goes below
/// a child that was not picked before, and leaves that child picked. Where
/// the child is a device, that device is the one found.
pub proof fn lemma_choice_is_fresh(
    node: Node,
    group: u32,
    replica_num: u32,
    level: u32,
    attempt: u32,
    picked: Set<u64>,
)
    requires
        node matches Node::Bucket(bucket) && bucket.pick_mode is NeverRepeat,
        spec_locate(node, group, replica_num, level, attempt, picked).device is Some,
    ensures
        ({
            let bucket = node->Bucket_0;
            let walk = spec_locate(node, group, replica_num, level, attempt, picked);
            let choice = spec_choice(node, group, replica_num, level, attempt, picked);
            &&& 0 <= choice < bucket.children@.len()
            &&& !picked.contains(pick_key(bucket.id, choice as u32))
            &&& walk.picked.contains(pick_key(bucket.id, choice as u32))
            &&& bucket.children@[choice].node matches Node::Device(device) ==> walk.device == Some(
                device,
            )
        }),
    decreases u32::MAX - attempt,
{
    let bucket = node->Bucket_0;
    let index = spec_index_in_bucket(bucket, group, replica_num, level, attempt);
    if all_picked(bucket, picked) {
    } else if !(0 <= index < bucket.children@.len()) {
    } else if picked.contains(pick_key(bucket.id, index as u32)) {
        lemma_choice_is_fresh(node, group, replica_num, level, (attempt + 1) as u32, picked);
    } else {
        let marked = picked.insert(pick_key(bucket.id, index as u32));
        let child = bucket.children@[index].node;
        let below = spec_locate(child, group, replica_num, (level + 1) as u32, 0, marked);
        lemma_walk_keeps_picked(child, group, replica_num, (level + 1) as u32, 0, marked);
        if below.device is Some {
            assert(marked.contains(pick_key(bucket.id, index as u32)));
        } else {
            lemma_choice_is_fresh(
                node,
                group,
                replica_num,
                level,
                (attempt + 1) as u32,
                below.picked,
            );
        }
    }
}

/// The children that are picked when the walk for a replica starts: those
/// that the walks for the replicas before it left picked.
pub open spec fn spec_picked_before(root: Node, group: u32, replica: int) -> Set<u64>
    decreases replica,
{
    if replica <= 0 {
        Set::empty()
    } else {
        spec_locate(
            root,
            group,
            (replica - 1) as u32,
            0,
            0,
            spec_picked_before(root, group, replica - 1),
        ).picked
    }
}

/// The child of the root below which the walk for a replica finds its
/// device.
pub open spec fn spec_replica_choice(root: Node, group: u32, replica: int) -> int {
    spec_choice(root, group, replica as u32, 0, 0, spec_picked_before(root, group, replica))
}

/// The walk for each replica in the list starts with what the walks before
/// it left picked, and finds the device that the list holds for it.
pub proof fn lemma_replica_walk(root: Node, group: u32, count: int, replica: int)
    requires
        0 <= replica < spec_replicas(root, group, 0, count, Set::empty()).len(),
    ensures
        replica < count,
        spec_locate(
            root,
            group,
            replica as u32,
            0,
            0,
            spec_picked_before(root, group, replica),
        ).device == Some(spec_replicas(root, group, 0, count, Set::empty())[replica]),
{
    lemma_replicas_from(root, group, count, 0, replica);
}

proof fn lemma_replicas_from(root: Node, group: u32, count: int, from: int, replica: int)
    requires
        0 <= from <= replica,
        replica - from < spec_replicas(
            root,
            group,
            from,
            count,
            spec_picked_before(root, group, from),
        ).len(),
    ensures
        replica < count,
        spec_locate(
            root,
            group,
            replica as u32,
            0,
            0,
            spec_picked_before(root, group, replica),
        ).device == Some(
            spec_replicas(root, group, from, count, spec_picked_before(root, group, from))[replica
                - from],
        ),
    decreases replica - from,
{
    let picked = spec_picked_before(root, group, from);
    let walk = spec_locate(root, group, from as u32, 0, 0, picked);
    let list = spec_replicas(root, group, from, count, picked);
    assert(from < count);
    assert(walk.device is Some);
    assert(spec_picked_before(root, group, from + 1) == walk.picked);
    let tail = spec_replicas(root, group, from + 1, count, walk.picked);
    assert(list == seq![walk.device->0] + tail);
    if from < replica {
        lemma_replicas_from(root, group, count, from + 1, replica);
        assert(list[replica - from] == tail[replica - from - 1]);
    }
}

/// What is picked before the walk for a replica is still picked before the
/// walk for any later one.
proof fn lemma_picked_grows(root: Node, group: u32, earlier: int, later: int)
    requires
        0 <= earlier <= later,
    ensures
        spec_picked_before(root, group, earlier).subset_of(spec_picked_before(root, group, later)),
    decreases later - earlier,
{
    if earlier < later {
        lemma_picked_grows(root, group, earlier, later - 1);
        lemma_walk_keeps_picked(
            root,
            group,
            (later - 1) as u32,
            0,
            0,
            spec_picked_before(root, group, later - 1),
        );
    }
}

/// Two children of a bucket have different keys.
pub proof fn lemma_pick_key_injective(id: u32, a: u32, b: u32)
    ensures
        pick_key(id, a) == pick_key(id, b) ==> a == b,
{
}

/// Under a root that never repeats, the replicas of a group go below
/// different children of the root: no two devices in the list were found
/// below the same child.
pub proof fn lemma_replicas_through_distinct_children(
    root: Node,
    group: u32,
    count: int,
    i: int,
    j: int,
)
    requires
        root matches Node::Bucket(bucket) && bucket.pick_mode is NeverRepeat
            && bucket.children@.len() <= u32::MAX,
        0 <= i < j < spec_replicas(root, group, 0, count, Set::empty()).len(),
    ensures
        0 <= spec_replica_choice(root, group, i) < root->Bucket_0.children@.len(),
        0 <= spec_replica_choice(root, group, j) < root->Bucket_0.children@.len(),
        spec_replica_choice(root, group, i) != spec_replica_choice(root, group, j),
{
    let bucket = root->Bucket_0;
    lemma_replica_walk(root, group, count, i);
    lemma_replica_walk(root, group, count, j);
    let before_i = spec_picked_before(root, group, i);
    let before_j = spec_picked_before(root, group, j);
    lemma_choice_is_fresh(root, group, i as u32, 0, 0, before_i);
    lemma_choice_is_fresh(root, group, j as u32, 0, 0, before_j);
    let choice_i = spec_replica_choice(root, group, i);
    let choice_j = spec_replica_choice(root, group, j);
    assert(spec_picked_before(root, group, i + 1).contains(pick_key(bucket.id, choice_i as u32)));
    lemma_picked_grows(root, group, i + 1, j);
    assert(before_j.contains(pick_key(bucket.id, choice_i as u32)));
    lemma_pick_key_injective(bucket.id, choice_i as u32, choice_j as u32);
}

/// All the children of the bucket are devices, and no two of them the same.
pub open spec fn spec_distinct_devices(bucket: Bucket) -> bool {
    &&& forall|i: int| 0 <= i < bucket.children@.len() ==> (#[trigger] bucket.children@[i]).node is Device
    &&& forall|i: int, j: int|
        0 <= i < j < bucket.children@.len() ==> (#[trigger] bucket.children@[i]).node != (
        #[trigger] bucket.children@[j]).node
}

/// Under a root that never repeats and whose children are devices, each
/// different from the others, no device comes twice in the list of the
/// replicas of a group.
pub proof fn lemma_replicas_distinct(root: Node, group: u32, count: int)
    requires
        root matches Node::Bucket(bucket) && bucket.pick_mode is NeverRepeat
            && bucket.children@.len() <= u32::MAX && spec_distinct_devices(bucket),
    ensures
        spec_replicas(root, group, 0, count, Set::empty()).no_duplicates(),
{
    let bucket = root->Bucket_0;
    let list = spec_replicas(root, group, 0, count, Set::empty());
    assert forall|i: int, j: int| 0 <= i < list.len() && 0 <= j < list.len() && i != j implies list[i]
        != list[j] by {
        let (a, b) = if i < j {
            (i, j)
        } else {
            (j, i)
        };
        lemma_replicas_through_distinct_children(root, group, count, a, b);
        lemma_replica_walk(root, group, count, a);
        lemma_replica_walk(root, group, count, b);
        lemma_choice_is_fresh(root, group, a as u32, 0, 0, spec_picked_before(root, group, a));
        lemma_choice_is_fresh(root, group, b as u32, 0, 0, spec_picked_before(root, group, b));
        let choice_a = spec_replica_choice(root, group, a);
        let choice_b = spec_replica_choice(root, group, b);
        assert(bucket.children@[choice_a].node is Device);
        assert(bucket.children@[choice_b].node is Device);
        if choice_a < choice_b {
            assert(bucket.children@[choice_a].node != bucket.children@[choice_b].node);
        } else {
            assert(bucket.children@[choice_b].node != bucket.children@[choice_a].node);
        }
    }
}

/// The children of the root below which the first `n` replicas were found.
pub open spec fn spec_choices(root: Node, group: u32, n: int) -> Set<int>
    decreases n,
{
    if n <= 0 {
        Set::empty()
    } else {
        spec_choices(root, group, n - 1).insert(spec_replica_choice(root, group, n - 1))
    }
}

proof fn lemma_choices_count(root: Node, group: u32, count: int, n: int)
    requires
        root matches Node::Bucket(bucket) && bucket.pick_mode is NeverRepeat
            && bucket.children@.len() <= u32::MAX,
        0 <= n <= spec_replicas(root, group, 0, count, Set::empty()).len(),
    ensures
        spec_choices(root, group, n).finite(),
        spec_choices(root, group, n).len() == n,
        spec_choices(root, group, n).subset_of(
            vstd::set_lib::set_int_range(0, root->Bucket_0.children@.len() as int),
        ),
        forall|c: int| #[trigger]
            spec_choices(root, group, n).contains(c) ==> exists|i: int|
                0 <= i < n && spec_replica_choice(root, group, i) == c,
    decreases n,
{
    if n > 0 {
        lemma_choices_count(root, group, count, n - 1);
        let before = spec_choices(root, group, n - 1);
        let choice = spec_replica_choice(root, group, n - 1);
        if before.contains(choice) {
            let i = choose|i: int| 0 <= i < n - 1 && spec_replica_choice(root, group, i) == choice;
            lemma_replicas_through_distinct_children(root, group, count, i, n - 1);
        }
        if n >= 2 {
            lemma_replicas_through_distinct_children(root, group, count, 0, n - 1);
        } else {
            lemma_replica_walk(root, group, count, 0);
            lemma_choice_is_fresh(root, group, 0, 0, 0, spec_picked_before(root, group, 0));
        }
        assert forall|c: int| #[trigger]
            spec_choices(root, group, n).contains(c) implies exists|i: int|
            0 <= i < n && spec_replica_choice(root, group, i) == c by {
            if c == choice {
                assert(spec_replica_choice(root, group, n - 1) == c);
            } else {
                assert(before.contains(c));
                let i = choose|i: int| 0 <= i < n - 1 && spec_replica_choice(root, group, i) == c;
                assert(0 <= i < n && spec_replica_choice(root, group, i) == c);
            }
        }
    }
}

/// A root that never repeats gives no more replicas than it has children:
/// when every child has been picked, the list of the devices ends.
pub proof fn lemma_replicas_bounded(root: Node, group: u32, count: int)
    requires
        root matches Node::Bucket(bucket) && bucket.pick_mode is NeverRepeat
            && bucket.children@.len() <= u32::MAX,
    ensures
        spec_replicas(root, group, 0, count, Set::empty()).len() <= root->Bucket_0.children@.len(),
{
    let n = spec_replicas(root, group, 0, count, Set::empty()).len() as int;
    let children = root->Bucket_0.children@.len() as int;
    lemma_choices_count(root, group, count, n);
    vstd::set_lib::lemma_int_range(0, children);
    vstd::set_lib::lemma_len_subset(
        spec_choices(root, group, n),
        vstd::set_lib::set_int_range(0, children),
    );
}

/// The list of the devices of a group is no longer than the number of
/// replicas asked for.
pub proof fn lemma_replicas_at_most(root: Node, group: u32, from: int, count: int, picked: Set<u64>)
    requires
        from <= count,
    ensures
        spec_replicas(root, group, from, count, picked).len() <= count - from,
    decreases count - from,
{
    if from < count {
        let walk = spec_locate(root, group, from as u32, 0, 0, picked);
        lemma_replicas_at_most(root, group, from + 1, count, walk.picked);
    }
}

/// A map whose root is a device puts every replica of every group on that
/// device.
pub proof fn lemma_replicas_of_device(device: DeviceId, group: u32, from: int, count: int, picked: Set<u64>)
    requires
        from <= count,
    ensures
        spec_replicas(Node::Device(device), group, from, count, picked) == Seq::new(
            (count - from) as nat,
            |i: int| device,
        ),
    decreases count - from,
{
    let list = spec_replicas(Node::Device(device), group, from, count, picked);
    if from < count {
        lemma_replicas_of_device(device, group, from + 1, count, picked);
    }
    assert(list =~= Seq::new((count - from) as nat, |i: int| device));
}

/// The keys of the first `n` children of a bucket.
pub open spec fn spec_first_keys(id: u32, n: int) -> Set<u64> {
    Set::new(|key: u64| exists|i: int| 0 <= i < n && key == #[trigger] pick_key(id, i as u32))
}

/// A bucket that lists its devices in order and never repeats: an ordered
/// list of fallbacks.
pub open spec fn spec_fallback_list(bucket: Bucket) -> bool {
    &&& bucket.algorithm is Fallback
    &&& bucket.pick_mode is NeverRepeat
    &&& bucket.children@.len() <= u32::MAX
    &&& forall|i: int| 0 <= i < bucket.children@.len() ==> (#[trigger] bucket.children@[i]).node is Device
}

proof fn lemma_first_keys(id: u32, n: int, i: int)
    requires
        0 <= n <= u32::MAX,
        0 <= i <= u32::MAX,
    ensures
        spec_first_keys(id, n).contains(pick_key(id, i as u32)) <==> i < n,
        spec_first_keys(id, n + 1) == spec_first_keys(id, n).insert(pick_key(id, n as u32)),
{
    if spec_first_keys(id, n).contains(pick_key(id, i as u32)) {
        let j = choose|j: int| 0 <= j < n && pick_key(id, i as u32) == #[trigger] pick_key(id, j as u32);
        lemma_pick_key_injective(id, i as u32, j as u32);
    }
    if i < n {
        assert(pick_key(id, i as u32) == pick_key(id, i as u32));
    }
    assert forall|key: u64| #[trigger]
        spec_first_keys(id, n + 1).contains(key) == spec_first_keys(id, n).insert(
            pick_key(id, n as u32),
        ).contains(key) by {
        if spec_first_keys(id, n + 1).contains(key) {
            let j = choose|j: int| 0 <= j < n + 1 && key == #[trigger] pick_key(id, j as u32);
            if j < n {
                assert(spec_first_keys(id, n).contains(key));
            }
        }
        if spec_first_keys(id, n).contains(key) {
            let j = choose|j: int| 0 <= j < n && key == #[trigger] pick_key(id, j as u32);
            assert(0 <= j < n + 1);
        }
        if key == pick_key(id, n as u32) {
            assert(0 <= n < n + 1 && key == pick_key(id, n as u32));
        }
    }
    assert(spec_first_keys(id, n + 1) =~= spec_first_keys(id, n).insert(pick_key(id, n as u32)));
}

/// In an ordered list of fallbacks of which the first `replica` children
/// are picked, a walk goes by the picked children and finds the next.
proof fn lemma_fallback_walk(bucket: Bucket, group: u32, replica: int, level: u32, attempt: u32)
    requires
        spec_fallback_list(bucket),
        0 <= attempt <= replica < bucket.children@.len(),
    ensures
        spec_locate(
            Node::Bucket(bucket),
            group,
            replica as u32,
            level,
            attempt,
            spec_first_keys(bucket.id, replica),
        ) == (Walk {
            device: Some(bucket.children@[replica].node->Device_0),
            picked: spec_first_keys(bucket.id, replica + 1),
        }),
    decreases replica - attempt,
{
    let picked = spec_first_keys(bucket.id, replica);
    lemma_first_keys(bucket.id, replica, replica);
    lemma_first_keys(bucket.id, replica, attempt as int);
    assert(!all_picked(bucket, picked)) by {
        assert(!picked.contains(pick_key(bucket.id, replica as u32)));
    }
    let node = Node::Bucket(bucket);
    let index = spec_index_in_bucket(bucket, group, replica as u32, level, attempt);
    assert(index == attempt);
    if attempt < replica {
        lemma_fallback_walk(bucket, group, replica, level, (attempt + 1) as u32);
        assert(picked.contains(pick_key(bucket.id, index as u32)));
        assert(spec_locate(node, group, replica as u32, level, attempt, picked) == spec_locate(
            node,
            group,
            replica as u32,
            level,
            (attempt + 1) as u32,
            picked,
        ));
    } else {
        let child = bucket.children@[replica].node;
        assert(child is Device);
        let marked = picked.insert(pick_key(bucket.id, index as u32));
        assert(marked == spec_first_keys(bucket.id, replica + 1));
        assert(spec_locate(child, group, replica as u32, (level + 1) as u32, 0, marked) == (Walk {
            device: Some(child->Device_0),
            picked: marked,
        }));
    }
}

/// An ordered list of fallbacks gives its devices in order, as many as are
/// asked for and no more than it has: the first replica goes to the first
/// device, the second to the second, and the list ends with the last.
pub proof fn lemma_fallback_list(bucket: Bucket, group: u32, count: int)
    requires
        spec_fallback_list(bucket),
        0 <= count,
    ensures
        spec_replicas(Node::Bucket(bucket), group, 0, count, Set::empty()) == Seq::new(
            (if count < bucket.children@.len() {
                count
            } else {
                bucket.children@.len() as int
            }) as nat,
            |i: int| bucket.children@[i].node->Device_0,
        ),
{
    assert(spec_first_keys(bucket.id, 0) =~= Set::<u64>::empty());
    lemma_fallback_list_from(bucket, group, 0, count);
    let n = bucket.children@.len() as int;
    let upto = if count < n { count } else { n };
    assert(Seq::new((upto - 0) as nat, |i: int| bucket.children@[0 + i].node->Device_0) =~= Seq::new(
        upto as nat,
        |i: int| bucket.children@[i].node->Device_0,
    ));
}

proof fn lemma_fallback_list_from(bucket: Bucket, group: u32, from: int, count: int)
    requires
        spec_fallback_list(bucket),
        0 <= from <= bucket.children@.len(),
    ensures
        ({
            let n = bucket.children@.len() as int;
            let upto = if count < n { count } else { n };
            let upto = if upto < from { from } else { upto };
            spec_replicas(
                Node::Bucket(bucket),
                group,
                from,
                count,
                spec_first_keys(bucket.id, from),
            ) == Seq::new((upto - from) as nat, |i: int| bucket.children@[from + i].node->Device_0)
        }),
    decreases bucket.children@.len() - from,
{
    let n = bucket.children@.len() as int;
    let root = Node::Bucket(bucket);
    let picked = spec_first_keys(bucket.id, from);
    let list = spec_replicas(root, group, from, count, picked);
    let upto = if count < n { count } else { n };
    let upto = if upto < from { from } else { upto };
    let expected = Seq::new((upto - from) as nat, |i: int| bucket.children@[from + i].node->Device_0);
    if from >= count {
        assert(list =~= expected);
    } else if from == n {
        assert(all_picked(bucket, picked)) by {
            assert forall|i: int| 0 <= i < n implies picked.contains(
                #[trigger] pick_key(bucket.id, i as u32),
            ) by {
                lemma_first_keys(bucket.id, from, i);
            }
        }
        assert(list =~= expected);
    } else {
        lemma_fallback_walk(bucket, group, from, 0, 0);
        lemma_fallback_list_from(bucket, group, from + 1, count);
        let tail = spec_replicas(root, group, from + 1, count, spec_first_keys(bucket.id, from + 1));
        assert(list == seq![bucket.children@[from].node->Device_0] + tail);
        assert(list =~= expected);
    }
}

/// The children come in the order of their weights, heaviest first, and
/// children of the same weight in the order in which they stand in the
/// bucket.
pub open spec fn spec_by_weight(children: Seq<NodeEntry>, order: Seq<usize>) -> bool {
    &&& forall|a: int| 0 <= a < order.len() ==> (#[trigger] order[a]) < children.len()
    &&& forall|a: int, b: int|
        0 <= a < b < order.len() ==> {
            let first = children[(#[trigger] order[a]) as int].weight;
            let second = children[(#[trigger] order[b]) as int].weight;
            first > second || (first == second && order[a] < order[b])
        }
}

/// Puts the children of a bucket in the order of their weights, heaviest
/// first: the order in which the factors of a bucket that draws straws are
/// computed. Every child comes once.
pub fn straw_order(children: &Vec<NodeEntry>) -> (r: Vec<usize>)
    ensures
        r@.len() == children@.len(),
        spec_by_weight(children@, r@),
        forall|i: usize| i < children@.len() ==> #[trigger] r@.contains(i),
{
    let n = children.len();
    let mut order: Vec<usize> = Vec::new();
    let mut i: usize = 0;
    while i < n
        invariant
            i <= n,
            n == children@.len(),
            order@.len() == i,
            spec_by_weight(children@, order@),
            forall|a: int| 0 <= a < order@.len() ==> (#[trigger] order@[a]) < i,
            forall|k: usize| k < i ==> #[trigger] order@.contains(k),
        decreases n - i,
    {
        let weight = children[i].weight;
        let mut at: usize = 0;
        while at < order.len() && children[order[at]].weight >= weight
            invariant
                at <= order@.len(),
                i < n,
                n == children@.len(),
                weight == children@[i as int].weight,
                forall|a: int| 0 <= a < order@.len() ==> (#[trigger] order@[a]) < i,
                forall|a: int| 0 <= a < at ==> children@[(#[trigger] order@[a]) as int].weight >= weight,
            decreases order@.len() - at,
        {
            at += 1;
        }
        let ghost before = order@;
        order.insert(at, i);
        proof {
            let after = order@;
            assert forall|a: int| 0 <= a < after.len() implies (#[trigger] after[a]) < i + 1 by {
                if a < at {
                    assert(after[a] == before[a]);
                } else if a > at {
                    assert(after[a] == before[a - 1]);
                }
            }
            assert forall|a: int, b: int| 0 <= a < b < after.len() implies ({
                let first = children@[(#[trigger] after[a]) as int].weight;
                let second = children@[(#[trigger] after[b]) as int].weight;
                first > second || (first == second && after[a] < after[b])
            }) by {
                if b < at {
                    assert(after[a] == before[a] && after[b] == before[b]);
                } else if b == at {
                    assert(after[a] == before[a]);
                    assert(before[a] < i);
                } else if a == at {
                    assert(after[b] == before[b - 1]);
                    if b - 1 > at {
                        assert(after[at + 1] == before[at as int]);
                        let pivot = children@[before[at as int] as int].weight;
                        let second = children@[before[b - 1] as int].weight;
                        assert(pivot > second || (pivot == second && before[at as int] < before[b
                            - 1]));
                    }
                } else if a > at {
                    assert(after[a] == before[a - 1] && after[b] == before[b - 1]);
                } else {
                    assert(after[a] == before[a] && after[b] == before[b - 1]);
                }
            }
            assert forall|k: usize| k < i + 1 implies #[trigger] after.contains(k) by {
                if k == i {
                    assert(after[at as int] == i);
                } else {
                    assert(before.contains(k));
                    let a = choose|a: int| 0 <= a < before.len() && before[a] == k;
                    if a < at {
                        assert(after[a] == k);
                    } else {
                        assert(after[a + 1] == k);
                    }
                }
            }
        }
        i += 1;
    }
    order
}

/// No child of any bucket of the tree is picked.
pub open spec fn spec_unpicked(node: Node, picked: Set<u64>) -> bool {
    forall|id: u32, index: u32|
        node_ids(node).contains(id) ==> !picked.contains(#[trigger] pick_key(id, index))
}

/// The IDs below the first children are listed before those below the
/// children after them.
proof fn lemma_children_ids_prefix(children: Seq<NodeEntry>, m: int, n: int)
    requires
        0 <= m <= n <= children.len(),
    ensures
        children_ids(children, m).len() <= children_ids(children, n).len(),
        children_ids(children, n).subrange(0, children_ids(children, m).len() as int)
            == children_ids(children, m),
    decreases n - m,
{
    if m < n {
        lemma_children_ids_prefix(children, m, n - 1);
        let shorter = children_ids(children, n - 1);
        let longer = children_ids(children, n);
        assert(longer == shorter + node_ids(children[n - 1].node));
        assert(longer.subrange(0, children_ids(children, m).len() as int) =~= shorter.subrange(
            0,
            children_ids(children, m).len() as int,
        ));
    } else {
        assert(children_ids(children, n).subrange(0, children_ids(children, n).len() as int)
            =~= children_ids(children, n));
    }
}

/// The IDs of the buckets below a child of a bucket stand together in the
/// list of the IDs of the bucket, after its own.
proof fn lemma_child_ids(bucket: Bucket, i: int)
    requires
        0 <= i < bucket.children@.len(),
    ensures
        ({
            let all = node_ids(Node::Bucket(bucket));
            let below = node_ids(bucket.children@[i].node);
            let at = 1 + children_ids(bucket.children@, i).len() as int;
            &&& at + below.len() <= all.len()
            &&& all[0] == bucket.id
            &&& all.subrange(at, at + below.len()) == below
        }),
{
    let children = bucket.children@;
    let all = node_ids(Node::Bucket(bucket));
    let below = node_ids(children[i].node);
    let before = children_ids(children, i);
    let upto = children_ids(children, i + 1);
    let whole = children_ids(children, children.len() as int);
    lemma_children_ids_prefix(children, i + 1, children.len() as int);
    assert(upto == before + below);
    assert(whole.subrange(0, upto.len() as int) == upto);
    let at = 1 + before.len() as int;
    assert(all == seq![bucket.id] + whole);
    assert forall|k: int| 0 <= k < below.len() implies all.subrange(at, at + below.len())[k]
        == below[k] by {
        assert(all[at + k] == whole[before.len() + k]);
        assert(whole[before.len() + k] == whole.subrange(0, upto.len() as int)[before.len() + k]);
        assert(upto[before.len() + k] == below[k]);
    }
    assert(all.subrange(at, at + below.len()) =~= below);
}

/// In a tree in which no two buckets have the same ID, the same holds below
/// every child of the root, and no bucket below has the ID of the root.
pub proof fn lemma_child_ids_unique(bucket: Bucket, i: int)
    requires
        0 <= i < bucket.children@.len(),
        node_ids(Node::Bucket(bucket)).no_duplicates(),
    ensures
        node_ids(bucket.children@[i].node).no_duplicates(),
        !node_ids(bucket.children@[i].node).contains(bucket.id),
        forall|id: u32|
            node_ids(bucket.children@[i].node).contains(id) ==> node_ids(
                Node::Bucket(bucket),
            ).contains(id),
{
    lemma_child_ids(bucket, i);
    let all = node_ids(Node::Bucket(bucket));
    let below = node_ids(bucket.children@[i].node);
    let at = 1 + children_ids(bucket.children@, i).len() as int;
    assert forall|k: int| 0 <= k < below.len() implies below[k] == all[at + k] by {
        assert(all.subrange(at, at + below.len())[k] == all[at + k]);
    }
    assert forall|a: int, b: int| 0 <= a < below.len() && 0 <= b < below.len() && a != b implies below[a]
        != below[b] by {
        assert(below[a] == all[at + a] && below[b] == all[at + b]);
    }
    if below.contains(bucket.id) {
        let k = choose|k: int| 0 <= k < below.len() && below[k] == bucket.id;
        assert(all[at + k] == all[0]);
    }
    assert forall|id: u32| below.contains(id) implies all.contains(id) by {
        let k = choose|k: int| 0 <= k < below.len() && below[k] == id;
        assert(all[at + k] == id);
    }
}

/// The child that a bucket fit for a draw selects is one of its children,
/// but for a list of fallbacks that has run out.
pub proof fn lemma_index_in_bucket(bucket: Bucket, group: u32, replica_num: u32, level: u32, attempt: u32)
    requires
        bucket_ok(bucket),
        bucket.algorithm is Fallback ==> attempt < bucket.children@.len(),
    ensures
        0 <= spec_index_in_bucket(bucket, group, replica_num, level, attempt)
            < bucket.children@.len(),
{
    match bucket.algorithm {
        Algorithm::Uniform => {},
        Algorithm::List => {
            let h = spec_hash(level, group, replica_num, attempt, 0) as int % weights_sum(
                bucket.children@,
            );
            lemma_list_pick(bucket.children@, h);
        },
        Algorithm::Straw(factors) => {
            lemma_straw_pick(
                factors@,
                group,
                replica_num,
                level,
                attempt,
                bucket.children@.len() as int,
            );
        },
        Algorithm::Fallback => {},
    }
}

/// Placement does not fail on a well-formed tree of which no child is
/// picked: the walk finds a device, for every group and every replica.
pub proof fn lemma_unpicked_walk_finds(
    node: Node,
    group: u32,
    replica_num: u32,
    level: u32,
    picked: Set<u64>,
)
    requires
        node_wf(node, level),
        node_ids(node).no_duplicates(),
        spec_unpicked(node, picked),
    ensures
        spec_locate(node, group, replica_num, level, 0, picked).device is Some,
    decreases node,
{
    match node {
        Node::Device(_) => {},
        Node::Bucket(bucket) => {
            let index = spec_index_in_bucket(bucket, group, replica_num, level, 0);
            lemma_index_in_bucket(bucket, group, replica_num, level, 0);
            assert(node_ids(node)[0] == bucket.id);
            assert(!picked.contains(pick_key(bucket.id, 0)));
            assert(!picked.contains(pick_key(bucket.id, index as u32)));
            let never_repeat = bucket.pick_mode is NeverRepeat;
            let marked = if never_repeat {
                picked.insert(pick_key(bucket.id, index as u32))
            } else {
                picked
            };
            let child = bucket.children@[index].node;
            lemma_child_ids_unique(bucket, index);
            assert forall|id: u32, at: u32| node_ids(child).contains(id) implies !marked.contains(
                #[trigger] pick_key(id, at),
            ) by {
                assert(!picked.contains(pick_key(id, at)));
                if pick_key(id, at) == pick_key(bucket.id, index as u32) {
                    lemma_pick_key_one_bucket(id, at, bucket.id, index as u32);
                }
            }
            lemma_unpicked_walk_finds(child, group, replica_num, (level + 1) as u32, marked);
        },
    }
}

/// Two buckets have no key in common.
pub proof fn lemma_pick_key_one_bucket(id: u32, index: u32, other_id: u32, other_index: u32)
    requires
        pick_key(id, index) == pick_key(other_id, other_index),
    ensures
        id == other_id,
        index == other_index,
{
}

/// Placement does not fail on a well-formed map: every group has a first
/// device.
pub proof fn lemma_first_device_exists(map: StorageMap, group: u32)
    requires
        map.wf(),
    ensures
        spec_locate(map.map_root, group, 0, 0, 0, Set::empty()).device is Some,
        spec_replicas(map.map_root, group, 0, map.replicas as int, Set::empty()).len() >= 1,
{
    lemma_unpicked_walk_finds(map.map_root, group, 0, 0, Set::empty());
}


/// Asking for more replicas keeps the devices of the first ones: the list
/// for fewer replicas is the start of the list for more, and it is shorter
/// than asked for only if the longer list ends there too.
pub proof fn lemma_replicas_prefix(
    root: Node,
    group: u32,
    from: int,
    count: int,
    more: int,
    picked: Set<u64>,
)
    requires
        from <= count <= more,
    ensures
        ({
            let fewer = spec_replicas(root, group, from, count, picked);
            let longer = spec_replicas(root, group, from, more, picked);
            &&& fewer.len() <= longer.len()
            &&& longer.subrange(0, fewer.len() as int) == fewer
            &&& fewer.len() == count - from || fewer == longer
        }),
    decreases count - from,
{
    let fewer = spec_replicas(root, group, from, count, picked);
    let longer = spec_replicas(root, group, from, more, picked);
    if from < count {
        let walk = spec_locate(root, group, from as u32, 0, 0, picked);
        match walk.device {
            Some(device) => {
                lemma_replicas_prefix(root, group, from + 1, count, more, walk.picked);
                let fewer_tail = spec_replicas(root, group, from + 1, count, walk.picked);
                let longer_tail = spec_replicas(root, group, from + 1, more, walk.picked);
                assert(fewer == seq![device] + fewer_tail);
                assert(longer == seq![device] + longer_tail);
                assert(longer.subrange(0, fewer.len() as int) =~= seq![device]
                    + longer_tail.subrange(0, fewer_tail.len() as int));
            },
            None => {},
        }
    } else {
        assert(longer.subrange(0, 0) =~= fewer);
    }
}

} // verus!
