//! The shards a backend hosts, keyed by the shard they cover.

use vstd::prelude::*;
use crate::cluster::{HostInfo, first_occurrences, same_host, unique_hosts};
use crate::model::{Shard, same_shard};
use crate::random::new_random_generator;
use crate::shard::{ColonyShard, NeighborPermutations, ticked};
use crate::shard_utils::{ShardUtils, UpdatedShardContentsRequest, export_shaped, is_export_of, is_update_of, lemma_export_shaped, side_of};

verus! {

/// The colony as one backend sees it: its size and the shards it hosts.
#[derive(Debug)]
pub struct Colony {
    pub _width: i32,
    pub _height: i32,
    pub shards: Vec<ColonyShard>,
}

/// Whether some hosted shard covers `shard`.
pub open spec fn hosts(shards: Seq<ColonyShard>, shard: Shard) -> bool {
    exists|i: int| 0 <= i < shards.len() && (#[trigger] shards[i]).shard == shard
}

impl Colony {
    /// Every hosted shard is well formed and no shard is hosted twice.
    pub open spec fn wf(&self) -> bool {
        &&& forall|i: int| 0 <= i < self.shards@.len() ==> (#[trigger] self.shards@[i]).wf()
        &&& forall|i: int, j: int| 0 <= i < j < self.shards@.len() ==>
            (#[trigger] self.shards@[i]).shard != (#[trigger] self.shards@[j]).shard
    }

    /// A colony of the given size that hosts no shard yet.
    pub fn init(width: i32, height: i32) -> (c: Colony)
        ensures
            c.wf(),
            c._width == width,
            c._height == height,
            c.shards@.len() == 0,
    {
        Colony { _width: width, _height: height, shards: Vec::new() }
    }

    /// Position of the hosted shard that covers `shard`, if any.
    pub fn find_shard(&self, shard: &Shard) -> (r: Option<usize>)
        ensures
            match r {
                Some(i) => i < self.shards@.len() && self.shards@[i as int].shard == *shard,
                None => !hosts(self.shards@, *shard),
            },
    {
        let mut i: usize = 0;
        while i < self.shards.len()
            invariant
                i <= self.shards@.len(),
                forall|k: int| 0 <= k < i ==> (#[trigger] self.shards@[k]).shard != *shard,
            decreases self.shards@.len() - i,
        {
            if same_shard(&self.shards[i].shard, shard) {
                return Some(i);
            }
            i += 1;
        }
        None
    }

    /// Hosts a new shard. A shard that is already hosted is left as it was
    /// and `false` is returned.
    pub fn add_shard(&mut self, colony_shard: ColonyShard) -> (added: bool)
        requires
            old(self).wf(),
            colony_shard.wf(),
        ensures
            final(self).wf(),
            final(self)._width == old(self)._width,
            final(self)._height == old(self)._height,
            added == !hosts(old(self).shards@, colony_shard.shard),
            added ==> final(self).shards@ == old(self).shards@.push(colony_shard),
            !added ==> final(self).shards@ == old(self).shards@,
    {
        if self.find_shard(&colony_shard.shard).is_some() {
            return false;
        }
        self.shards.push(colony_shard);
        true
    }

    /// Whether `shard` is hosted here.
    pub fn has_shard(&self, shard: Shard) -> (r: bool)
        ensures
            r == hosts(self.shards@, shard),
    {
        self.find_shard(&shard).is_some()
    }

    /// The shards hosted here, in the order they were added.
    pub fn get_all_shards(&self) -> (r: Vec<Shard>)
        ensures
            r@ == self.shards@.map_values(|c: ColonyShard| c.shard),
    {
        let mut out: Vec<Shard> = Vec::new();
        let mut i: usize = 0;
        while i < self.shards.len()
            invariant
                i <= self.shards@.len(),
                out@ == self.shards@.take(i as int).map_values(|c: ColonyShard| c.shard),
            decreases self.shards@.len() - i,
        {
            out.push(self.shards[i].shard);
            assert(self.shards@.take(i as int + 1) =~= self.shards@.take(i as int).push(self.shards@[i as int]));
            i += 1;
        }
        assert(self.shards@.take(i as int) =~= self.shards@);
        out
    }

    /// The hosted shard that covers `shard`, if any.
    pub fn get_colony_shard(&self, shard: &Shard) -> (r: Option<&ColonyShard>)
        ensures
            match r {
                Some(cs) => cs.shard == *shard && self.shards@.contains(*cs),
                None => !hosts(self.shards@, *shard),
            },
    {
        match self.find_shard(shard) {
            Some(i) => Some(&self.shards[i]),
            None => None,
        }
    }

    /// Whether `shard` is a nonempty rectangle inside the colony.
    pub fn is_valid_shard_dimensions(&self, shard: &Shard) -> (r: bool)
        ensures
            r == (shard.x >= 0 && shard.y >= 0 && shard.width > 0 && shard.height > 0
                && shard.x + shard.width <= self._width && shard.y + shard.height <= self._height),
    {
        shard.x >= 0 && shard.y >= 0 && shard.width > 0 && shard.height > 0
            && (shard.x as i64) + (shard.width as i64) <= self._width as i64
            && (shard.y as i64) + (shard.height as i64) <= self._height as i64
    }
}

/// Once added, a shard stays hosted: whatever `add_shard` returned, the
/// colony afterwards hosts the shard, and it still hosts every shard it
/// hosted before.
pub proof fn law_add_shard_hosts(before: Colony, after: Colony, cs: ColonyShard, added: bool, other: Shard)
    requires
        added == !hosts(before.shards@, cs.shard),
        added ==> after.shards@ == before.shards@.push(cs),
        !added ==> after.shards@ == before.shards@,
    ensures
        hosts(after.shards@, cs.shard),
        hosts(before.shards@, other) ==> hosts(after.shards@, other),
{
    if added {
        assert(after.shards@[before.shards@.len() as int] == cs);
        if hosts(before.shards@, other) {
            let i = choose|i: int| 0 <= i < before.shards@.len() && (#[trigger] before.shards@[i]).shard == other;
            assert(after.shards@[i] == before.shards@[i]);
        }
    }
}


impl Colony {
    /// One tick of every hosted shard, each with a freshly seeded generator;
    /// returns the borders each shard exports afterwards, in shard order.
    pub fn tick_shards(&mut self, perms: &NeighborPermutations) -> (exports: Vec<UpdatedShardContentsRequest>)
        requires
            old(self).wf(),
            perms.wf(),
            forall|i: int| 0 <= i < old(self).shards@.len() ==> (#[trigger] old(self).shards@[i]).current_tick < u64::MAX,
        ensures
            final(self).wf(),
            final(self)._width == old(self)._width,
            final(self)._height == old(self)._height,
            final(self).shards@.len() == old(self).shards@.len(),
            exports@.len() == old(self).shards@.len(),
            forall|i: int| 0 <= i < old(self).shards@.len() ==> {
                let o = old(self).shards@[i];
                let n = #[trigger] final(self).shards@[i];
                &&& ticked(o, n)
                &&& is_export_of(exports@[i], n)
                &&& export_shaped(exports@[i])
            },
    {
        let ghost old_colony = *old(self);
        let mut exports: Vec<UpdatedShardContentsRequest> = Vec::new();
        let mut i: usize = 0;
        while i < self.shards.len()
            invariant
                old_colony == *old(self),
                perms.wf(),
                forall|k: int| 0 <= k < old_colony.shards@.len() ==> (#[trigger] old_colony.shards@[k]).current_tick < u64::MAX,
                self._width == old_colony._width,
                self._height == old_colony._height,
                self.shards@.len() == old_colony.shards@.len(),
                i <= self.shards@.len(),
                exports@.len() == i,
                forall|k: int| 0 <= k < self.shards@.len() ==> (#[trigger] self.shards@[k]).wf(),
                forall|k: int| 0 <= k < self.shards@.len() ==> (#[trigger] self.shards@[k]).shard == old_colony.shards@[k].shard,
                forall|k: int| i <= k < self.shards@.len() ==> #[trigger] self.shards@[k] == old_colony.shards@[k],
                forall|k: int| 0 <= k < i ==> {
                    let o = old_colony.shards@[k];
                    let n = #[trigger] self.shards@[k];
                    &&& ticked(o, n)
                    &&& is_export_of(exports@[k], n)
                    &&& export_shaped(exports@[k])
                },
            decreases self.shards@.len() - i,
        {
            assert(old_colony.shards@[i as int].current_tick < u64::MAX);
            let mut rng = new_random_generator();
            self.shards[i].tick(&mut rng, perms);
            let export = ShardUtils::export_shard_contents(&self.shards[i]);
            proof {
                lemma_export_shaped(export, self.shards@[i as int]);
            }
            exports.push(export);
            i += 1;
        }
        proof {
            assert forall|a: int, b: int| 0 <= a < b < self.shards@.len() implies
                (#[trigger] self.shards@[a]).shard != (#[trigger] self.shards@[b]).shard by {
                assert(old_colony.shards@[a].shard != old_colony.shards@[b].shard);
            }
        }
        exports
    }

    /// Copies an exported border into every hosted shard that borders the
    /// exporting shard; the other shards are left as they were.
    pub fn apply_export(&mut self, req: &UpdatedShardContentsRequest)
        requires
            old(self).wf(),
            export_shaped(*req),
        ensures
            final(self).wf(),
            final(self)._width == old(self)._width,
            final(self)._height == old(self)._height,
            final(self).shards@.len() == old(self).shards@.len(),
            forall|i: int| 0 <= i < old(self).shards@.len() ==> {
                let o = old(self).shards@[i];
                let n = #[trigger] final(self).shards@[i];
                if side_of(req.updated_shard, o.shard) is Some { is_update_of(n, o, *req) } else { n == o }
            },
    {
        let ghost old_colony = *old(self);
        let mut i: usize = 0;
        while i < self.shards.len()
            invariant
                old_colony == *old(self),
                export_shaped(*req),
                self._width == old_colony._width,
                self._height == old_colony._height,
                self.shards@.len() == old_colony.shards@.len(),
                i <= self.shards@.len(),
                forall|k: int| 0 <= k < self.shards@.len() ==> (#[trigger] self.shards@[k]).wf(),
                forall|k: int| 0 <= k < self.shards@.len() ==> (#[trigger] self.shards@[k]).shard == old_colony.shards@[k].shard,
                forall|k: int| i <= k < self.shards@.len() ==> #[trigger] self.shards@[k] == old_colony.shards@[k],
                forall|k: int| 0 <= k < i ==> {
                    let o = old_colony.shards@[k];
                    let n = #[trigger] self.shards@[k];
                    if side_of(req.updated_shard, o.shard) is Some { is_update_of(n, o, *req) } else { n == o }
                },
            decreases self.shards@.len() - i,
        {
            proof {
                crate::shard_utils::law_adjacency_symmetric(req.updated_shard, self.shards@[i as int].shard);
            }
            if ShardUtils::is_adjacent_shard(&req.updated_shard, &self.shards[i].shard) {
                ShardUtils::updated_shard_contents(&mut self.shards[i], req);
            }
            i += 1;
        }
        proof {
            assert forall|a: int, b: int| 0 <= a < b < self.shards@.len() implies
                (#[trigger] self.shards@[a]).shard != (#[trigger] self.shards@[b]).shard by {
                assert(old_colony.shards@[a].shard != old_colony.shards@[b].shard);
            }
        }
    }
}

/// The hosts, other than `this_host`, of the mapped shards that border
/// `updated`, in map order, repeats included.
pub open spec fn neighbour_hosts(shard_map: Seq<(Shard, HostInfo)>, updated: Shard, this_host: HostInfo) -> Seq<HostInfo>
    decreases shard_map.len(),
{
    if shard_map.len() == 0 {
        Seq::empty()
    } else {
        let rest = neighbour_hosts(shard_map.drop_last(), updated, this_host);
        let (s, h) = shard_map.last();
        if side_of(s, updated) is Some && !same_host(h, this_host) { rest.push(h) } else { rest }
    }
}

/// The other backends that host a shard bordering `updated`, each once, in
/// the order they first appear in the shard map: where the exported borders
/// of `updated` must be sent.
pub fn remote_targets(shard_map: &Vec<(Shard, HostInfo)>, updated: &Shard, this_host: &HostInfo) -> (r: Vec<HostInfo>)
    ensures
        ({
            let hosts = neighbour_hosts(shard_map@, *updated, *this_host);
            &&& r@.len() == first_occurrences(hosts, hosts.len() as int).len()
            &&& forall|p: int| 0 <= p < r@.len() ==> #[trigger] r@[p] == hosts[first_occurrences(hosts, hosts.len() as int)[p]]
        }),
{
    let mut hosts: Vec<HostInfo> = Vec::new();
    let mut i: usize = 0;
    while i < shard_map.len()
        invariant
            i <= shard_map@.len(),
            hosts@ == neighbour_hosts(shard_map@.take(i as int), *updated, *this_host),
        decreases shard_map@.len() - i,
    {
        assert(shard_map@.take(i as int + 1).drop_last() =~= shard_map@.take(i as int));
        let entry = &shard_map[i];
        if ShardUtils::is_adjacent_shard(updated, &entry.0) && !entry.1.same_host(this_host) {
            hosts.push(entry.1.duplicate());
        }
        i += 1;
    }
    assert(shard_map@.take(i as int) =~= shard_map@);
    unique_hosts(&hosts)
}

} // verus!
