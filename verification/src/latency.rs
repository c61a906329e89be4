//! The viewer's bookkeeping: the grid of shards it shows and the latency
//! and errors of its requests to each node.

use vstd::prelude::*;
use crate::cluster::HostInfo;
use crate::model::Shard;

verus! {

/// The viewer's picture of the colony: its size and its grid of shards.
#[derive(Clone, Copy, Debug, PartialEq, Eq, Structural)]
pub struct ShardConfig {
    pub total_width: i32,
    pub total_height: i32,
    pub cols: usize,
    pub rows: usize,
}

/// The configuration describes a non-negative colony and a grid whose
/// counts fit in `i32`.
pub open spec fn config_ok(c: ShardConfig) -> bool {
    &&& c.total_width >= 0
    &&& c.total_height >= 0
    &&& c.cols <= i32::MAX
    &&& c.rows <= i32::MAX
}

/// Width of one shard: the colony width over the number of columns, or 0
/// without columns.
pub open spec fn spec_shard_width(c: ShardConfig) -> int {
    if c.cols > 0 { (c.total_width as int) / (c.cols as int) } else { 0 }
}

/// Height of one shard: the colony height over the number of rows, or 0
/// without rows.
pub open spec fn spec_shard_height(c: ShardConfig) -> int {
    if c.rows > 0 { (c.total_height as int) / (c.rows as int) } else { 0 }
}

/// The `index`-th shard of the grid, row after row: an even share of the
/// colony, where the last column and the last row also take the remainder
/// of the division.
pub open spec fn spec_grid_shard(c: ShardConfig, index: int) -> Shard {
    let col = index % (c.cols as int);
    let row = index / (c.cols as int);
    let w = spec_shard_width(c);
    let h = spec_shard_height(c);
    Shard {
        x: (col * w) as i32,
        y: (row * h) as i32,
        width: (if col == c.cols - 1 { c.total_width - (c.cols - 1) * w } else { w }) as i32,
        height: (if row == c.rows - 1 { c.total_height - (c.rows - 1) * h } else { h }) as i32,
    }
}

impl ShardConfig {
    /// Width of one shard.
    pub fn shard_width(&self) -> (w: i32)
        requires
            config_ok(*self),
        ensures
            w == spec_shard_width(*self),
    {
        if self.cols > 0 {
            self.total_width / (self.cols as i32)
        } else {
            0
        }
    }

    /// Height of one shard.
    pub fn shard_height(&self) -> (h: i32)
        requires
            config_ok(*self),
        ensures
            h == spec_shard_height(*self),
    {
        if self.rows > 0 {
            self.total_height / (self.rows as i32)
        } else {
            0
        }
    }

    /// Number of shards in the grid.
    pub fn total_shards(&self) -> (n: usize)
        requires
            self.cols * self.rows <= usize::MAX,
        ensures
            n == self.cols * self.rows,
    {
        self.cols * self.rows
    }

    /// The `index`-th shard of the grid, row after row; the last column and
    /// the last row take up what the even split leaves over.
    pub fn get_shard(&self, index: usize) -> (s: Shard)
        requires
            config_ok(*self),
            self.cols > 0,
            self.rows > 0,
            (index as int / self.cols as int) * spec_shard_height(*self) <= i32::MAX,
        ensures
            s == spec_grid_shard(*self, index as int),
    {
        let row = index / self.cols;
        let col = index % self.cols;
        let w = self.shard_width();
        let h = self.shard_height();
        proof {
            vstd::arithmetic::div_mod::lemma_fundamental_div_mod(index as int, self.cols as int);
            assert(col * w <= self.cols * w) by (nonlinear_arith)
                requires
                    col < self.cols,
                    w >= 0,
            ;
            assert(self.cols * w <= self.total_width) by (nonlinear_arith)
                requires
                    w == (self.total_width as int) / (self.cols as int),
                    self.cols > 0,
                    self.total_width >= 0,
            ;
            assert(0 <= col * w) by (nonlinear_arith)
                requires
                    col >= 0,
                    w >= 0,
            ;
            assert(0 <= row * h) by (nonlinear_arith)
                requires
                    row >= 0,
                    h >= 0,
            ;
            assert(h > 0 ==> row <= row * h) by (nonlinear_arith)
                requires
                    row >= 0,
                    h >= 0,
            ;
            assert((self.cols - 1) * w <= self.total_width) by (nonlinear_arith)
                requires
                    self.cols * w <= self.total_width,
                    w >= 0,
            ;
            assert(0 <= (self.cols - 1) * w) by (nonlinear_arith)
                requires
                    self.cols >= 1,
                    w >= 0,
            ;
            assert(self.rows * h <= self.total_height) by (nonlinear_arith)
                requires
                    h == (self.total_height as int) / (self.rows as int),
                    self.rows > 0,
                    self.total_height >= 0,
            ;
            assert((self.rows - 1) * h <= self.total_height) by (nonlinear_arith)
                requires
                    self.rows * h <= self.total_height,
                    h >= 0,
            ;
            assert(0 <= (self.rows - 1) * h) by (nonlinear_arith)
                requires
                    self.rows >= 1,
                    h >= 0,
            ;
        }
        let width = if col == self.cols - 1 { self.total_width - ((self.cols - 1) as i32) * w } else { w };
        let height = if row == self.rows - 1 { self.total_height - ((self.rows - 1) as i32) * h } else { h };
        let y: i32 = if h == 0 { 0 } else { (row as i32) * h };
        proof {
            if h == 0 {
                assert(row * h == 0) by (nonlinear_arith)
                    requires
                        h == 0,
                ;
            }
            assert(y == row * h);
        }
        Shard { x: (col as i32) * w, y, width, height }
    }
}

/// The kinds of request the viewer times.
#[derive(Clone, Copy, Debug, PartialEq, Eq, Structural)]
pub enum OperationType {
    GetShardImage,
    GetShardLayer,
}

/// A kind of request to one node.
#[derive(Debug)]
pub struct OperationKey {
    pub operation_type: OperationType,
    pub target_node: HostInfo,
}

/// What identifies a key: the kind of request and the node's address.
pub open spec fn key_view(k: OperationKey) -> (OperationType, Seq<char>, u16) {
    (k.operation_type, k.target_node.hostname@, k.target_node.port)
}

impl OperationKey {
    /// The key of a kind of request to a node.
    pub fn new(operation_type: OperationType, target_node: HostInfo) -> (k: OperationKey)
        ensures
            k.operation_type == operation_type,
            k.target_node == target_node,
    {
        OperationKey { operation_type, target_node }
    }

    /// A copy of the key.
    pub fn duplicate(&self) -> (k: OperationKey)
        ensures
            k == *self,
    {
        OperationKey { operation_type: self.operation_type, target_node: self.target_node.duplicate() }
    }

    fn same_key(&self, other: &OperationKey) -> (r: bool)
        ensures
            r == (key_view(*self) == key_view(*other)),
    {
        self.operation_type == other.operation_type && self.target_node.same_host(&other.target_node)
    }
}

/// The samples and error count of one kind of request, summed up.
#[derive(Clone, Copy, Debug, PartialEq, Eq, Structural)]
pub struct LatencySummary {
    pub total_nanos: u128,
    pub sample_count: usize,
    pub error_count: usize,
}

/// Both kinds of request to one node, summed up.
#[derive(Clone, Copy, Debug, PartialEq, Eq, Structural)]
pub struct NodeCounts {
    pub image: Option<LatencySummary>,
    pub layer: Option<LatencySummary>,
    pub total_samples: u128,
    pub total_errors: u128,
}

/// Latencies, in nanoseconds, of the last `max_samples` successful requests
/// of each kind, and the number of failed ones.
pub struct LatencyTracker {
    measurements: Vec<(OperationKey, Vec<u64>)>,
    errors: Vec<(OperationKey, usize)>,
    max_samples: usize,
}

/// Position of the entry for key `kv`, if any.
pub open spec fn entry_of<T>(entries: Seq<(OperationKey, T)>, kv: (OperationType, Seq<char>, u16)) -> Option<int> {
    if exists|i: int| 0 <= i < entries.len() && key_view((#[trigger] entries[i]).0) == kv {
        Some(choose|i: int| 0 <= i < entries.len() && key_view((#[trigger] entries[i]).0) == kv)
    } else {
        None
    }
}

/// No key has two entries.
pub open spec fn keys_unique<T>(entries: Seq<(OperationKey, T)>) -> bool {
    forall|i: int, j: int| 0 <= i < j < entries.len() ==> key_view((#[trigger] entries[i]).0) != key_view((#[trigger] entries[j]).0)
}

/// The kept latencies of key `kv`, oldest first.
pub closed spec fn samples_of(t: LatencyTracker, kv: (OperationType, Seq<char>, u16)) -> Seq<u64> {
    match entry_of(t.measurements@, kv) {
        Some(i) => t.measurements@[i].1@,
        None => Seq::empty(),
    }
}

/// The number of failed requests of key `kv`.
pub closed spec fn errors_of(t: LatencyTracker, kv: (OperationType, Seq<char>, u16)) -> int {
    match entry_of(t.errors@, kv) {
        Some(i) => t.errors@[i].1 as int,
        None => 0,
    }
}

/// A new sample added to a window of at most `max` samples: the oldest
/// sample leaves when the window overflows.
pub open spec fn windowed(s: Seq<u64>, sample: u64, max: int) -> Seq<u64> {
    let t = s.push(sample);
    if t.len() > max { t.drop_first() } else { t }
}

/// Sum of the samples.
pub open spec fn sum_samples(s: Seq<u64>) -> int
    decreases s.len(),
{
    if s.len() == 0 { 0 } else { sum_samples(s.drop_last()) + s.last() }
}

/// In entries with unique keys, the entry found for a key is the one that
/// holds it.
proof fn lemma_entry_of<T>(entries: Seq<(OperationKey, T)>, i: int)
    requires
        keys_unique(entries),
        0 <= i < entries.len(),
    ensures
        entry_of(entries, key_view(entries[i].0)) == Some(i),
{
    let kv = key_view(entries[i].0);
    let k = choose|k: int| 0 <= k < entries.len() && key_view((#[trigger] entries[k]).0) == kv;
    if k != i {
        if k < i {
            assert(key_view(entries[k].0) != key_view(entries[i].0));
        } else {
            assert(key_view(entries[i].0) != key_view(entries[k].0));
        }
    }
}

fn find_key<T>(entries: &Vec<(OperationKey, T)>, key: &OperationKey) -> (r: Option<usize>)
    requires
        keys_unique(entries@),
    ensures
        match r {
            Some(i) => i < entries@.len() && key_view(entries@[i as int].0) == key_view(*key)
                && entry_of(entries@, key_view(*key)) == Some(i as int),
            None => entry_of(entries@, key_view(*key)) is None,
        },
{
    let mut i: usize = 0;
    while i < entries.len()
        invariant
            keys_unique(entries@),
            i <= entries@.len(),
            forall|k: int| 0 <= k < i ==> key_view((#[trigger] entries@[k]).0) != key_view(*key),
        decreases entries@.len() - i,
    {
        if entries[i].0.same_key(key) {
            proof {
                lemma_entry_of(entries@, i as int);
            }
            return Some(i);
        }
        i += 1;
    }
    None
}

impl LatencyTracker {
    /// How many latencies of each kind of request are kept.
    pub closed spec fn window(&self) -> usize {
        self.max_samples
    }

    /// How many latencies of each kind of request are kept.
    pub fn max_samples(&self) -> (m: usize)
        ensures
            m == self.window(),
    {
        self.max_samples
    }

    /// The number of failed requests of a kind.
    pub fn error_count(&self, key: &OperationKey) -> (n: usize)
        requires
            self.wf(),
        ensures
            n == errors_of(*self, key_view(*key)),
    {
        match find_key(&self.errors, key) {
            Some(j) => self.errors[j].1,
            None => 0,
        }
    }

    /// Records how one request went: its latency when it was answered, an
    /// error when it failed.
    pub fn record_fetch(&mut self, key: OperationKey, latency_nanos: Option<u64>)
        requires
            old(self).wf(),
            latency_nanos is None ==> errors_of(*old(self), key_view(key)) < usize::MAX,
        ensures
            final(self).wf(),
            final(self).window() == old(self).window(),
            fetch_recorded(*old(self), *final(self), key_view(key), latency_nanos),
    {
        match latency_nanos {
            Some(l) => self.record_success(key, l),
            None => self.record_error(key),
        }
    }

    /// Keys are unique in both tables.
    pub closed spec fn wf(&self) -> bool {
        keys_unique(self.measurements@) && keys_unique(self.errors@)
    }

    /// A tracker that keeps the last `max_samples` latencies of each kind of
    /// request.
    pub fn new(max_samples: usize) -> (t: LatencyTracker)
        ensures
            t.wf(),
            t.window() == max_samples,
            forall|kv: (OperationType, Seq<char>, u16)| samples_of(t, kv).len() == 0 && errors_of(t, kv) == 0,
    {
        LatencyTracker { measurements: Vec::new(), errors: Vec::new(), max_samples }
    }

    /// Records the latency of a successful request.
    pub fn record_success(&mut self, key: OperationKey, latency_nanos: u64)
        requires
            old(self).wf(),
        ensures
            final(self).wf(),
            final(self).window() == old(self).window(),
            forall|kv: (OperationType, Seq<char>, u16)| #[trigger] samples_of(*final(self), kv)
                == if kv == key_view(key) { windowed(samples_of(*old(self), kv), latency_nanos, old(self).window() as int) }
                   else { samples_of(*old(self), kv) },
            forall|kv: (OperationType, Seq<char>, u16)| #[trigger] errors_of(*final(self), kv) == errors_of(*old(self), kv),
            fetch_recorded(*old(self), *final(self), key_view(key), Some(latency_nanos)),
    {
        let ghost m0 = self.measurements@;
        match find_key(&self.measurements, &key) {
            Some(i) => {
                let mut samples = Vec::new();
                std::mem::swap(&mut samples, &mut self.measurements[i].1);
                let ghost s0 = samples@;
                samples.push(latency_nanos);
                if samples.len() > self.max_samples {
                    samples.remove(0);
                }
                assert(samples@ =~= windowed(s0, latency_nanos, self.max_samples as int));
                std::mem::swap(&mut samples, &mut self.measurements[i].1);
                proof {
                    let m1 = self.measurements@;
                    assert forall|a: int, b: int| 0 <= a < b < m1.len() implies
                        key_view((#[trigger] m1[a]).0) != key_view((#[trigger] m1[b]).0) by {
                        assert(m1[a].0 == m0[a].0 && m1[b].0 == m0[b].0);
                    }
                    assert forall|kv: (OperationType, Seq<char>, u16)| #[trigger] samples_of(*self, kv)
                        == if kv == key_view(key) { windowed(samples_of(*old(self), kv), latency_nanos, old(self).window() as int) }
                           else { samples_of(*old(self), kv) } by {
                        lemma_entry_of(m1, i as int);
                        if kv != key_view(key) {
                            if entry_of(m0, kv) is Some {
                                let j = entry_of(m0, kv).unwrap();
                                lemma_entry_of(m0, j);
                                lemma_entry_of(m1, j);
                            } else if entry_of(m1, kv) is Some {
                                let j = entry_of(m1, kv).unwrap();
                                assert(m1[j].0 == m0[j].0);
                            }
                        }
                    }
                }
            },
            None => {
                let mut samples: Vec<u64> = Vec::new();
                samples.push(latency_nanos);
                if samples.len() > self.max_samples {
                    samples.remove(0);
                }
                assert(samples@ =~= windowed(Seq::empty(), latency_nanos, self.max_samples as int));
                let ghost kv0 = key_view(key);
                self.measurements.push((key, samples));
                proof {
                    let m1 = self.measurements@;
                    let n = m0.len() as int;
                    assert forall|a: int, b: int| 0 <= a < b < m1.len() implies
                        key_view((#[trigger] m1[a]).0) != key_view((#[trigger] m1[b]).0) by {
                        if b == n {
                            assert(m1[a] == m0[a]);
                        } else {
                            assert(m1[a] == m0[a] && m1[b] == m0[b]);
                        }
                    }
                    lemma_entry_of(m1, n);
                    assert forall|kv: (OperationType, Seq<char>, u16)| #[trigger] samples_of(*self, kv)
                        == if kv == kv0 { windowed(samples_of(*old(self), kv), latency_nanos, old(self).window() as int) }
                           else { samples_of(*old(self), kv) } by {
                        if kv != kv0 {
                            if entry_of(m0, kv) is Some {
                                let j = entry_of(m0, kv).unwrap();
                                lemma_entry_of(m0, j);
                                assert(m1[j] == m0[j]);
                                lemma_entry_of(m1, j);
                            } else if entry_of(m1, kv) is Some {
                                let j = entry_of(m1, kv).unwrap();
                                assert(j != n);
                                assert(m1[j] == m0[j]);
                            }
                        }
                    }
                }
            },
        }
    }

    /// Counts a failed request.
    pub fn record_error(&mut self, key: OperationKey)
        requires
            old(self).wf(),
            errors_of(*old(self), key_view(key)) < usize::MAX,
        ensures
            final(self).wf(),
            final(self).window() == old(self).window(),
            forall|kv: (OperationType, Seq<char>, u16)| #[trigger] errors_of(*final(self), kv)
                == if kv == key_view(key) { errors_of(*old(self), kv) + 1 } else { errors_of(*old(self), kv) },
            forall|kv: (OperationType, Seq<char>, u16)| #[trigger] samples_of(*final(self), kv) == samples_of(*old(self), kv),
            fetch_recorded(*old(self), *final(self), key_view(key), None),
    {
        let ghost e0 = self.errors@;
        let ghost kv0 = key_view(key);
        match find_key(&self.errors, &key) {
            Some(i) => {
                let count = self.errors[i].1;
                self.errors[i].1 = count + 1;
                proof {
                    let e1 = self.errors@;
                    assert forall|a: int, b: int| 0 <= a < b < e1.len() implies
                        key_view((#[trigger] e1[a]).0) != key_view((#[trigger] e1[b]).0) by {
                        assert(e1[a].0 == e0[a].0 && e1[b].0 == e0[b].0);
                    }
                    assert forall|kv: (OperationType, Seq<char>, u16)| #[trigger] errors_of(*self, kv)
                        == if kv == kv0 { errors_of(*old(self), kv) + 1 } else { errors_of(*old(self), kv) } by {
                        lemma_entry_of(e1, i as int);
                        if kv != kv0 {
                            if entry_of(e0, kv) is Some {
                                let j = entry_of(e0, kv).unwrap();
                                lemma_entry_of(e0, j);
                                lemma_entry_of(e1, j);
                            } else if entry_of(e1, kv) is Some {
                                let j = entry_of(e1, kv).unwrap();
                                assert(e1[j].0 == e0[j].0);
                            }
                        }
                    }
                }
            },
            None => {
                self.errors.push((key, 1));
                proof {
                    let e1 = self.errors@;
                    let n = e0.len() as int;
                    assert forall|a: int, b: int| 0 <= a < b < e1.len() implies
                        key_view((#[trigger] e1[a]).0) != key_view((#[trigger] e1[b]).0) by {
                        if b == n {
                            assert(e1[a] == e0[a]);
                        } else {
                            assert(e1[a] == e0[a] && e1[b] == e0[b]);
                        }
                    }
                    lemma_entry_of(e1, n);
                    assert forall|kv: (OperationType, Seq<char>, u16)| #[trigger] errors_of(*self, kv)
                        == if kv == kv0 { errors_of(*old(self), kv) + 1 } else { errors_of(*old(self), kv) } by {
                        if kv != kv0 {
                            if entry_of(e0, kv) is Some {
                                let j = entry_of(e0, kv).unwrap();
                                lemma_entry_of(e0, j);
                                assert(e1[j] == e0[j]);
                                lemma_entry_of(e1, j);
                            } else if entry_of(e1, kv) is Some {
                                let j = entry_of(e1, kv).unwrap();
                                assert(j != n);
                                assert(e1[j] == e0[j]);
                            }
                        }
                    }
                }
            },
        }
    }

    /// The kept latencies of a kind of request summed up with its error
    /// count; `None` while no latency is kept.
    pub fn get_stats(&self, key: &OperationKey) -> (r: Option<LatencySummary>)
        requires
            self.wf(),
        ensures
            match r {
                None => samples_of(*self, key_view(*key)).len() == 0,
                Some(s) => {
                    &&& samples_of(*self, key_view(*key)).len() > 0
                    &&& s.sample_count == samples_of(*self, key_view(*key)).len()
                    &&& s.total_nanos == sum_samples(samples_of(*self, key_view(*key)))
                    &&& s.error_count == errors_of(*self, key_view(*key))
                },
            },
    {
        let i = match find_key(&self.measurements, key) {
            Some(i) => i,
            None => return None,
        };
        let samples = &self.measurements[i].1;
        if samples.len() == 0 {
            return None;
        }
        let mut total: u128 = 0;
        let mut k: usize = 0;
        while k < samples.len()
            invariant
                k <= samples@.len(),
                total == sum_samples(samples@.take(k as int)),
                total <= k * 0xFFFF_FFFF_FFFF_FFFF,
            decreases samples@.len() - k,
        {
            assert(samples@.take(k as int + 1).drop_last() =~= samples@.take(k as int));
            total = total + samples[k] as u128;
            k += 1;
        }
        assert(samples@.take(k as int) =~= samples@);
        let error_count = match find_key(&self.errors, key) {
            Some(j) => self.errors[j].1,
            None => 0,
        };
        Some(LatencySummary { total_nanos: total, sample_count: samples.len(), error_count })
    }

    /// Both kinds of request to a node, summed up, with the total numbers
    /// of kept samples and of errors.
    pub fn get_node_stats(&self, node: &HostInfo) -> (r: NodeCounts)
        requires
            self.wf(),
        ensures
            ({
                let image_kv = (OperationType::GetShardImage, node.hostname@, node.port);
                let layer_kv = (OperationType::GetShardLayer, node.hostname@, node.port);
                &&& r.image is Some <==> samples_of(*self, image_kv).len() > 0
                &&& r.layer is Some <==> samples_of(*self, layer_kv).len() > 0
                &&& r.image matches Some(s) ==> s.sample_count == samples_of(*self, image_kv).len()
                    && s.total_nanos == sum_samples(samples_of(*self, image_kv)) && s.error_count == errors_of(*self, image_kv)
                &&& r.layer matches Some(s) ==> s.sample_count == samples_of(*self, layer_kv).len()
                    && s.total_nanos == sum_samples(samples_of(*self, layer_kv)) && s.error_count == errors_of(*self, layer_kv)
                &&& r.total_samples == (match r.image { Some(s) => s.sample_count as int, None => 0 })
                    + (match r.layer { Some(s) => s.sample_count as int, None => 0 })
                &&& r.total_errors == (match r.image { Some(s) => s.error_count as int, None => 0 })
                    + (match r.layer { Some(s) => s.error_count as int, None => 0 })
            }),
    {
        let image_key = OperationKey::new(OperationType::GetShardImage, node.duplicate());
        let layer_key = OperationKey::new(OperationType::GetShardLayer, node.duplicate());
        let image = self.get_stats(&image_key);
        let layer = self.get_stats(&layer_key);
        let image_samples: u128 = match image { Some(s) => s.sample_count as u128, None => 0 };
        let layer_samples: u128 = match layer { Some(s) => s.sample_count as u128, None => 0 };
        let image_errors: u128 = match image { Some(s) => s.error_count as u128, None => 0 };
        let layer_errors: u128 = match layer { Some(s) => s.error_count as u128, None => 0 };
        NodeCounts {
            image,
            layer,
            total_samples: image_samples + layer_samples,
            total_errors: image_errors + layer_errors,
        }
    }
}


/// The window after recording `samples` one after another, oldest first.
pub open spec fn window_after(s: Seq<u64>, samples: Seq<u64>, max: int) -> Seq<u64>
    decreases samples.len(),
{
    if samples.len() == 0 {
        s
    } else {
        windowed(window_after(s, samples.drop_last(), max), samples.last(), max)
    }
}

/// The last `max` elements of `t`, or all of them when there are fewer.
pub open spec fn latest(t: Seq<u64>, max: int) -> Seq<u64> {
    if t.len() > max { t.skip(t.len() - max) } else { t }
}

/// However many latencies are recorded one after another, the window holds
/// the most recent `max` of everything recorded, in the order they came.
pub proof fn law_window_keeps_latest(s: Seq<u64>, samples: Seq<u64>, max: int)
    requires
        max >= 1,
        s.len() <= max,
    ensures
        window_after(s, samples, max) == latest(s + samples, max),
    decreases samples.len(),
{
    if samples.len() == 0 {
        assert(s + samples =~= s);
    } else {
        let x = samples.last();
        let t = s + samples.drop_last();
        law_window_keeps_latest(s, samples.drop_last(), max);
        assert(s + samples =~= t.push(x));
        let w = latest(t, max);
        if t.len() + 1 <= max {
            assert(windowed(w, x, max) =~= t.push(x));
        } else if t.len() == max {
            assert(w =~= t);
            assert(windowed(w, x, max) =~= t.push(x).skip(t.len() + 1 - max));
        } else {
            assert(windowed(w, x, max) =~= t.push(x).skip(t.len() + 1 - max));
        }
    }
}

/// What the kind of request and node of a key are, as a plain value.
pub type KeyView = (OperationType, Seq<char>, u16);

/// One call on the tracker, taking it from `before` to `after`: the request
/// of key `key` was answered after `outcome` nanoseconds (`Some`), or failed
/// (`None`). An answer enters the window of its key, a failure counts as an
/// error of its key; every other key is left as it was.
pub open spec fn fetch_recorded(before: LatencyTracker, after: LatencyTracker, key: KeyView, outcome: Option<u64>) -> bool {
    &&& after.wf()
    &&& after.window() == before.window()
    &&& forall|kv: KeyView| #[trigger] samples_of(after, kv)
        == match outcome {
            Some(l) => if kv == key { windowed(samples_of(before, kv), l, before.window() as int) } else { samples_of(before, kv) },
            None => samples_of(before, kv),
        }
    &&& forall|kv: KeyView| #[trigger] errors_of(after, kv)
        == if outcome is None && kv == key { errors_of(before, kv) + 1 } else { errors_of(before, kv) }
}

/// The latencies of the answered calls of key `kv`, in order.
pub open spec fn successes(ops: Seq<(KeyView, Option<u64>)>, kv: KeyView) -> Seq<u64>
    decreases ops.len(),
{
    if ops.len() == 0 {
        Seq::empty()
    } else {
        let rest = successes(ops.drop_last(), kv);
        if ops.last().0 == kv && ops.last().1 is Some { rest.push(ops.last().1.unwrap()) } else { rest }
    }
}

/// The number of failed calls of key `kv`.
pub open spec fn failures(ops: Seq<(KeyView, Option<u64>)>, kv: KeyView) -> int
    decreases ops.len(),
{
    if ops.len() == 0 {
        0
    } else {
        failures(ops.drop_last(), kv) + if ops.last().0 == kv && ops.last().1 is None { 1int } else { 0int }
    }
}

proof fn lemma_calls_prefix(ts: Seq<LatencyTracker>, ops: Seq<(KeyView, Option<u64>)>, kv: KeyView, n: int)
    requires
        ts.len() == ops.len() + 1,
        forall|i: int| 0 <= i < ops.len() ==> fetch_recorded(#[trigger] ts[i], ts[i + 1], ops[i].0, ops[i].1),
        0 <= n <= ops.len(),
    ensures
        ts[n].window() == ts[0].window(),
        samples_of(ts[n], kv) == window_after(samples_of(ts[0], kv), successes(ops.take(n), kv), ts[0].window() as int),
        errors_of(ts[n], kv) == errors_of(ts[0], kv) + failures(ops.take(n), kv),
    decreases n,
{
    if n == 0 {
        assert(ops.take(0).len() == 0);
    } else {
        lemma_calls_prefix(ts, ops, kv, n - 1);
        assert(ops.take(n).drop_last() =~= ops.take(n - 1));
        assert(ops.take(n).last() == ops[n - 1]);
        assert(fetch_recorded(ts[n - 1], ts[n], ops[n - 1].0, ops[n - 1].1));
        let prev = successes(ops.take(n - 1), kv);
        let s0 = samples_of(ts[0], kv);
        let max = ts[0].window() as int;
        assert(samples_of(ts[n], kv) == match ops[n - 1].1 {
            Some(l) => if kv == ops[n - 1].0 { windowed(samples_of(ts[n - 1], kv), l, max) } else { samples_of(ts[n - 1], kv) },
            None => samples_of(ts[n - 1], kv),
        });
        assert(errors_of(ts[n], kv) == if ops[n - 1].1 is None && kv == ops[n - 1].0 {
            errors_of(ts[n - 1], kv) + 1
        } else {
            errors_of(ts[n - 1], kv)
        });
        if ops[n - 1].0 == kv && ops[n - 1].1 is Some {
            let l = ops[n - 1].1.unwrap();
            assert(successes(ops.take(n), kv) == prev.push(l));
            assert(prev.push(l).drop_last() =~= prev);
            assert(window_after(s0, prev.push(l), max) == windowed(window_after(s0, prev, max), l, max));
        } else {
            assert(successes(ops.take(n), kv) == prev);
        }
    }
}

/// Over any run of calls, answered or failed, on any keys: the window of a
/// key holds the latest `window` of its earlier samples followed by the
/// latencies of its answered calls, in order, and its error count grows by
/// the number of its failed calls. Calls on other keys leave it alone.
pub proof fn law_calls_over_time(ts: Seq<LatencyTracker>, ops: Seq<(KeyView, Option<u64>)>, kv: KeyView)
    requires
        ts.len() == ops.len() + 1,
        forall|i: int| 0 <= i < ops.len() ==> fetch_recorded(#[trigger] ts[i], ts[i + 1], ops[i].0, ops[i].1),
        ts[0].window() >= 1,
        samples_of(ts[0], kv).len() <= ts[0].window(),
    ensures
        ts.last().window() == ts[0].window(),
        samples_of(ts.last(), kv) == latest(samples_of(ts[0], kv) + successes(ops, kv), ts[0].window() as int),
        errors_of(ts.last(), kv) == errors_of(ts[0], kv) + failures(ops, kv),
{
    let n = ops.len() as int;
    lemma_calls_prefix(ts, ops, kv, n);
    assert(ops.take(n) =~= ops);
    law_window_keeps_latest(samples_of(ts[0], kv), successes(ops, kv), ts[0].window() as int);
}

/// The rolling window never holds more than `max` samples, and its newest
/// sample is the one just recorded.
pub proof fn law_window_bounded(s: Seq<u64>, sample: u64, max: int)
    requires
        s.len() <= max,
        max >= 1,
    ensures
        windowed(s, sample, max).len() <= max,
        windowed(s, sample, max).last() == sample,
{
}

} // verus!
