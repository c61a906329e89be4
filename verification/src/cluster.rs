//! Nodes of the cluster and how the colony's shards are laid out over them.

use vstd::prelude::*;
use crate::model::{Color, Shard};

verus! {

/// A node's internal address: host name and RPC port.
#[derive(Debug)]
pub struct HostInfo {
    pub hostname: String,
    pub port: u16,
}

impl HostInfo {
    /// The address of a node.
    pub fn new(hostname: String, port: u16) -> (h: HostInfo)
        ensures
            h.hostname == hostname,
            h.port == port,
    {
        HostInfo { hostname, port }
    }

    /// A copy of the address.
    pub fn duplicate(&self) -> (h: HostInfo)
        ensures
            h == *self,
    {
        HostInfo { hostname: self.hostname.clone(), port: self.port }
    }

    /// Whether two addresses name the same node.
    pub fn same_host(&self, other: &HostInfo) -> (r: bool)
        ensures
            r == same_host(*self, *other),
    {
        self.port == other.port && self.hostname == other.hostname
    }
}

/// Two addresses name the same node.
pub open spec fn same_host(a: HostInfo, b: HostInfo) -> bool {
    a.hostname@ == b.hostname@ && a.port == b.port
}

/// A node as discovery reports it: private and public IP, RPC and HTTP port.
#[derive(Debug)]
pub struct NodeAddress {
    pub private_ip: String,
    pub public_ip: String,
    pub internal_port: u16,
    pub http_port: u16,
}

impl NodeAddress {
    /// A discovered node.
    pub fn new(private_ip: String, public_ip: String, internal_port: u16, http_port: u16) -> (a: NodeAddress)
        ensures
            a.private_ip == private_ip,
            a.public_ip == public_ip,
            a.internal_port == internal_port,
            a.http_port == http_port,
    {
        NodeAddress { private_ip, public_ip, internal_port, http_port }
    }
}

/// The discovered node is the coordinator itself: same private IP and same
/// RPC port. On one machine all nodes share the IP, so the port decides.
pub open spec fn is_coordinator_address(node: NodeAddress, coordinator: NodeAddress) -> bool {
    node.private_ip@ == coordinator.private_ip@ && node.internal_port == coordinator.internal_port
}

/// The addresses of the nodes that are not the coordinator.
pub open spec fn backend_hosts_of(nodes: Seq<NodeAddress>, coordinator: NodeAddress) -> Seq<(Seq<char>, u16)>
    decreases nodes.len(),
{
    if nodes.len() == 0 {
        Seq::empty()
    } else {
        let rest = backend_hosts_of(nodes.drop_last(), coordinator);
        let n = nodes.last();
        if is_coordinator_address(n, coordinator) { rest } else { rest.push((n.private_ip@, n.internal_port)) }
    }
}

/// The host of each discovered node except the coordinator, in order.
pub fn filter_backends_by_address(backend_addresses: &Vec<NodeAddress>, coordinator_address: &NodeAddress) -> (r: Vec<HostInfo>)
    ensures
        r@.map_values(|h: HostInfo| (h.hostname@, h.port)) == backend_hosts_of(backend_addresses@, *coordinator_address),
{
    let mut out: Vec<HostInfo> = Vec::new();
    let mut i: usize = 0;
    while i < backend_addresses.len()
        invariant
            i <= backend_addresses@.len(),
            out@.map_values(|h: HostInfo| (h.hostname@, h.port)) == backend_hosts_of(backend_addresses@.take(i as int), *coordinator_address),
        decreases backend_addresses@.len() - i,
    {
        assert(backend_addresses@.take(i as int + 1).drop_last() =~= backend_addresses@.take(i as int));
        let node = &backend_addresses[i];
        let is_coordinator = node.private_ip == coordinator_address.private_ip
            && node.internal_port == coordinator_address.internal_port;
        if !is_coordinator {
            let ghost before = out@;
            out.push(HostInfo::new(node.private_ip.clone(), node.internal_port));
            assert(out@.map_values(|h: HostInfo| (h.hostname@, h.port)) =~= before.map_values(|h: HostInfo| (h.hostname@, h.port)).push((node.private_ip@, node.internal_port)));
        }
        i += 1;
    }
    assert(backend_addresses@.take(i as int) =~= backend_addresses@);
    out
}

/// Name and port of a host.
pub open spec fn host_key(h: HostInfo) -> (Seq<char>, u16) {
    (h.hostname@, h.port)
}

/// The hosts whose ping was answered, in order; `answered[i]` tells whether
/// `hosts[i]` answered.
pub open spec fn answering(hosts: Seq<(Seq<char>, u16)>, answered: Seq<bool>) -> Seq<(Seq<char>, u16)>
    decreases hosts.len(),
{
    if hosts.len() == 0 {
        Seq::empty()
    } else {
        let rest = answering(hosts.drop_last(), answered.take(hosts.len() - 1));
        if answered[hosts.len() - 1] { rest.push(hosts.last()) } else { rest }
    }
}

/// Keeps the candidate backends that answered their ping, in order.
pub fn keep_answering(candidates: &Vec<HostInfo>, answered: &Vec<bool>) -> (r: Vec<HostInfo>)
    requires
        answered@.len() == candidates@.len(),
    ensures
        r@.map_values(|h: HostInfo| host_key(h)) == answering(candidates@.map_values(|h: HostInfo| host_key(h)), answered@),
{
    let ghost keys = candidates@.map_values(|h: HostInfo| host_key(h));
    let mut out: Vec<HostInfo> = Vec::new();
    let mut i: usize = 0;
    while i < candidates.len()
        invariant
            answered@.len() == candidates@.len(),
            keys == candidates@.map_values(|h: HostInfo| host_key(h)),
            i <= candidates@.len(),
            out@.map_values(|h: HostInfo| host_key(h)) == answering(keys.take(i as int), answered@.take(i as int)),
        decreases candidates@.len() - i,
    {
        assert(keys.take(i as int + 1).drop_last() =~= keys.take(i as int));
        assert(answered@.take(i as int + 1).take(i as int) =~= answered@.take(i as int));
        if answered[i] {
            let ghost before = out@;
            out.push(candidates[i].duplicate());
            assert(out@.map_values(|h: HostInfo| host_key(h)) =~= before.map_values(|h: HostInfo| host_key(h)).push(keys[i as int]));
        }
        i += 1;
    }
    assert(keys.take(i as int) =~= keys);
    assert(answered@.take(i as int) =~= answered@);
    out
}

/// A host is kept exactly when it is among the candidates and answered its
/// ping there.
pub proof fn law_answering_members(hosts: Seq<(Seq<char>, u16)>, answered: Seq<bool>, h: (Seq<char>, u16))
    requires
        answered.len() == hosts.len(),
    ensures
        answering(hosts, answered).contains(h) <==> exists|i: int| 0 <= i < hosts.len() && hosts[i] == h && answered[i],
    decreases hosts.len(),
{
    if hosts.len() > 0 {
        let n = hosts.len() - 1;
        let rest = answering(hosts.drop_last(), answered.take(n));
        law_answering_members(hosts.drop_last(), answered.take(n), h);
        if answering(hosts, answered).contains(h) {
            if rest.contains(h) {
                let i = choose|i: int| 0 <= i < n && hosts.drop_last()[i] == h && answered.take(n)[i];
                assert(hosts[i] == h && answered[i]);
            } else {
                let k = choose|k: int| 0 <= k < answering(hosts, answered).len() && answering(hosts, answered)[k] == h;
                assert(k == rest.len());
                assert(hosts[n] == h && answered[n]);
            }
        }
        if exists|i: int| 0 <= i < hosts.len() && hosts[i] == h && answered[i] {
            let i = choose|i: int| 0 <= i < hosts.len() && hosts[i] == h && answered[i];
            if i < n {
                assert(hosts.drop_last()[i] == h && answered.take(n)[i]);
                let k = choose|k: int| 0 <= k < rest.len() && rest[k] == h;
                assert(answering(hosts, answered)[k] == h);
            } else {
                assert(answering(hosts, answered)[rest.len() as int] == h);
            }
        }
    }
}

/// Host `i` is the first of its kind: no earlier host names the same node.
pub open spec fn is_first_occurrence(hosts: Seq<HostInfo>, i: int) -> bool {
    forall|j: int| 0 <= j < i ==> !same_host(#[trigger] hosts[j], hosts[i])
}

/// The positions, among the first `n`, of hosts that are the first of
/// their kind, in order.
pub open spec fn first_occurrences(hosts: Seq<HostInfo>, n: int) -> Seq<int>
    decreases n,
{
    if n <= 0 {
        Seq::empty()
    } else {
        let rest = first_occurrences(hosts, n - 1);
        if is_first_occurrence(hosts, n - 1) { rest.push(n - 1) } else { rest }
    }
}

/// The hosts with repeats left out, each kept where it first appears.
pub fn unique_hosts(hosts: &Vec<HostInfo>) -> (r: Vec<HostInfo>)
    ensures
        r@.len() == first_occurrences(hosts@, hosts@.len() as int).len(),
        forall|p: int| 0 <= p < r@.len() ==>
            #[trigger] r@[p] == hosts@[first_occurrences(hosts@, hosts@.len() as int)[p]],
{
    let mut out: Vec<HostInfo> = Vec::new();
    let mut i: usize = 0;
    while i < hosts.len()
        invariant
            i <= hosts@.len(),
            out@.len() == first_occurrences(hosts@, i as int).len(),
            forall|p: int| 0 <= p < out@.len() ==> #[trigger] out@[p] == hosts@[first_occurrences(hosts@, i as int)[p]],
        decreases hosts@.len() - i,
    {
        let mut seen = false;
        let mut j: usize = 0;
        while j < i
            invariant
                i < hosts@.len(),
                j <= i,
                seen == exists|k: int| 0 <= k < j && same_host(#[trigger] hosts@[k], hosts@[i as int]),
            decreases i - j,
        {
            if hosts[j].same_host(&hosts[i]) {
                seen = true;
            }
            j += 1;
        }
        assert(seen == !is_first_occurrence(hosts@, i as int));
        if !seen {
            out.push(hosts[i].duplicate());
        }
        i += 1;
    }
    out
}

/// The `index`-th shard of a grid of `cols` shards per row, in row-major
/// order.
pub open spec fn grid_shard(index: int, cols: int, shard_width: int, shard_height: int) -> Shard {
    Shard {
        x: ((index % cols) * shard_width) as i32,
        y: ((index / cols) * shard_height) as i32,
        width: shard_width as i32,
        height: shard_height as i32,
    }
}

/// The grid of shards fits in `i32` coordinates.
pub open spec fn grid_fits(cols: int, rows: int, shard_width: int, shard_height: int) -> bool {
    &&& 1 <= cols
    &&& 0 <= rows
    &&& 0 <= shard_width
    &&& 0 <= shard_height
    &&& cols * shard_width <= i32::MAX
    &&& rows * shard_height <= i32::MAX
    &&& cols * rows <= usize::MAX
}

/// Lays the colony out as a grid of shards, row after row, and deals them
/// out to the backends in turn: shard `i` goes to backend `i % n`.
pub fn create_shard_map_with_even_distribution(
    backends: &Vec<HostInfo>,
    width_in_shards: i32,
    height_in_shards: i32,
    shard_width: i32,
    shard_height: i32,
) -> (map: Vec<(Shard, HostInfo)>)
    requires
        backends@.len() > 0,
        grid_fits(width_in_shards as int, height_in_shards as int, shard_width as int, shard_height as int),
    ensures
        map@.len() == width_in_shards * height_in_shards,
        forall|i: int| 0 <= i < map@.len() ==> {
            &&& (#[trigger] map@[i]).0 == grid_shard(i, width_in_shards as int, shard_width as int, shard_height as int)
            &&& map@[i].1 == backends@[i % backends@.len() as int]
        },
{
    let cols = width_in_shards as usize;
    let rows = height_in_shards as usize;
    let n = backends.len();
    let mut map: Vec<(Shard, HostInfo)> = Vec::new();
    let mut y: usize = 0;
    let mut index: usize = 0;
    while y < rows
        invariant
            cols == width_in_shards,
            rows == height_in_shards,
            n == backends@.len(),
            n > 0,
            grid_fits(cols as int, rows as int, shard_width as int, shard_height as int),
            y <= rows,
            index == y * cols,
            map@.len() == index,
            forall|i: int| 0 <= i < map@.len() ==> {
                &&& (#[trigger] map@[i]).0 == grid_shard(i, cols as int, shard_width as int, shard_height as int)
                &&& map@[i].1 == backends@[i % n as int]
            },
        decreases rows - y,
    {
        let mut x: usize = 0;
        while x < cols
            invariant
                cols == width_in_shards,
                rows == height_in_shards,
                n == backends@.len(),
                n > 0,
                grid_fits(cols as int, rows as int, shard_width as int, shard_height as int),
                y < rows,
                x <= cols,
                index == y * cols + x,
                map@.len() == index,
                forall|i: int| 0 <= i < map@.len() ==> {
                    &&& (#[trigger] map@[i]).0 == grid_shard(i, cols as int, shard_width as int, shard_height as int)
                    &&& map@[i].1 == backends@[i % n as int]
                },
            decreases cols - x,
        {
            proof {
                assert(y * cols + x < cols * rows) by (nonlinear_arith)
                    requires
                        x < cols,
                        y < rows,
                ;
                assert(x * shard_width <= cols * shard_width) by (nonlinear_arith)
                    requires
                        x < cols,
                        shard_width >= 0,
                ;
                assert(y * shard_height <= rows * shard_height) by (nonlinear_arith)
                    requires
                        y < rows,
                        shard_height >= 0,
                ;
                assert(0 <= x * shard_width) by (nonlinear_arith)
                    requires
                        shard_width >= 0,
                ;
                assert(0 <= y * shard_height) by (nonlinear_arith)
                    requires
                        shard_height >= 0,
                ;
                vstd::arithmetic::div_mod::lemma_fundamental_div_mod_converse(index as int, cols as int, y as int, x as int);
            }
            let shard = Shard {
                x: (x as i32) * shard_width,
                y: (y as i32) * shard_height,
                width: shard_width,
                height: shard_height,
            };
            let host = backends[index % n].duplicate();
            map.push((shard, host));
            x += 1;
            index += 1;
        }
        proof {
            assert((y + 1) * cols == y * cols + cols) by (nonlinear_arith);
        }
        y += 1;
    }
    proof {
        assert(rows * cols == width_in_shards * height_in_shards) by (nonlinear_arith)
            requires
                cols == width_in_shards,
                rows == height_in_shards,
        ;
    }
    map
}

/// Number of the first `count` shards dealt to backend `b` of `n`.
pub open spec fn dealt_to(count: nat, n: nat, b: int) -> nat
    decreases count,
{
    if count == 0 {
        0
    } else {
        dealt_to((count - 1) as nat, n, b) + if ((count - 1) as int) % (n as int) == b { 1nat } else { 0nat }
    }
}

/// Even distribution: of `count` shards dealt in turn to `n` backends, each
/// backend gets `count / n` shards, and those before `count % n` get one
/// more; so any two backends' shares differ by at most one.
pub proof fn law_even_distribution(count: nat, n: nat, b: int)
    requires
        n > 0,
        0 <= b < n,
    ensures
        dealt_to(count, n, b) == (count as int) / (n as int) + if b < (count as int) % (n as int) { 1int } else { 0int },
    decreases count,
{
    if count == 0 {
        vstd::arithmetic::div_mod::lemma_fundamental_div_mod_converse(0, n as int, 0, 0);
    } else {
        let c = (count - 1) as nat;
        law_even_distribution(c, n, b);
        let ni = n as int;
        vstd::arithmetic::div_mod::lemma_fundamental_div_mod(c as int, ni);
        vstd::arithmetic::div_mod::lemma_mod_pos_bound(c as int, ni);
        vstd::arithmetic::div_mod::lemma_fundamental_div_mod(count as int, ni);
        vstd::arithmetic::div_mod::lemma_mod_pos_bound(count as int, ni);
        let q = c as int / ni;
        let r = c as int % ni;
        assert(ni * q == q * ni) by (nonlinear_arith);
        assert(q * ni + ni == (q + 1) * ni) by (nonlinear_arith);
        assert(dealt_to(count, n, b) == dealt_to(c, n, b) + if r == b { 1nat } else { 0nat });
        if r + 1 < ni {
            vstd::arithmetic::div_mod::lemma_fundamental_div_mod_converse(count as int, ni, q, r + 1);
            assert((count as int) % ni == r + 1);
            assert((count as int) / ni == q);
        } else {
            vstd::arithmetic::div_mod::lemma_fundamental_div_mod_converse(count as int, ni, q + 1, 0);
            assert((count as int) % ni == 0);
            assert((count as int) / ni == q + 1);
        }
    }
}

/// The black image of the given size with the first `k` shard images
/// painted in at their places, later shards over earlier ones. Pixels
/// outside the image, and pixels a short shard image lacks, are skipped;
/// with `whole_only`, a shard image whose length is not its shard's area
/// is skipped altogether.
pub open spec fn combined_pixel(images: Seq<Vec<Color>>, shards: Seq<Shard>, k: int, gx: int, gy: int, whole_only: bool) -> Color
    decreases k,
{
    if k <= 0 {
        Color { red: 0, green: 0, blue: 0 }
    } else {
        let s = shards[k - 1];
        let img = images[k - 1]@;
        let lx = gx - s.x;
        let ly = gy - s.y;
        let local = ly * s.width + lx;
        if 0 <= lx < s.width && 0 <= ly < s.height && local < img.len() && (!whole_only || img.len() == s.width * s.height) {
            img[local]
        } else {
            combined_pixel(images, shards, k - 1, gx, gy, whole_only)
        }
    }
}

/// The point `(gx, gy)` lies in the shard.
pub open spec fn shard_covers(s: Shard, gx: int, gy: int) -> bool {
    s.x <= gx < s.x + s.width && s.y <= gy < s.y + s.height
}

/// When the shards do not overlap and each image has its shard's size,
/// every point of a shard shows that shard's pixel for the point.
pub proof fn law_combine_places_shards(images: Seq<Vec<Color>>, shards: Seq<Shard>, n: int, k: int, gx: int, gy: int, whole_only: bool)
    requires
        0 <= k < n,
        n <= images.len(),
        n <= shards.len(),
        forall|a: int, b: int, x: int, y: int| 0 <= a < n && 0 <= b < n && a != b && #[trigger] shard_covers(shards[a], x, y)
            ==> !#[trigger] shard_covers(shards[b], x, y),
        images[k]@.len() == shards[k].width * shards[k].height,
        shard_covers(shards[k], gx, gy),
    ensures
        combined_pixel(images, shards, n, gx, gy, whole_only)
            == images[k]@[(gy - shards[k].y) * shards[k].width + (gx - shards[k].x)],
    decreases n,
{
    let s = shards[k];
    crate::arith::lemma_index_in_grid(s.width as int, s.height as int, gx - s.x, gy - s.y);
    if n > k + 1 {
        assert(!shard_covers(shards[n - 1], gx, gy));
        law_combine_places_shards(images, shards, n - 1, k, gx, gy, whole_only);
    }
}

/// The number of shard images that are painted: one per shard that has an
/// image.
pub open spec fn paired_count(images: Seq<Vec<Color>>, shards: Seq<Shard>) -> int {
    if images.len() < shards.len() { images.len() as int } else { shards.len() as int }
}

/// Paints shard images into one image of the whole colony, row-major:
/// every pixel of a shard image that lies in the colony image and in the
/// shard image is painted.
pub fn combine_shards(images: &[Vec<Color>], shards: &[Shard], full_width: u32, full_height: u32) -> (combined: Vec<Color>)
    requires
        full_width * full_height <= u32::MAX,
    ensures
        combined@.len() == full_width * full_height,
        forall|gx: int, gy: int| 0 <= gx < full_width && 0 <= gy < full_height ==>
            #[trigger] combined@[crate::shard::grid_index(full_width as int, gx, gy)]
                == combined_pixel(images@, shards@, paired_count(images@, shards@), gx, gy, false),
{
    paint_shards(images, shards, full_width, full_height, false)
}

/// Paints shard images into one image of the whole colony, row-major, as
/// the colony capture does: a shard image whose length is not its shard's
/// area is left out, and pixels no painted shard covers stay black.
pub fn combine_shard_images(images: &[Vec<Color>], shards: &[Shard], full_width: u32, full_height: u32) -> (combined: Vec<Color>)
    requires
        full_width * full_height <= u32::MAX,
    ensures
        combined@.len() == full_width * full_height,
        forall|gx: int, gy: int| 0 <= gx < full_width && 0 <= gy < full_height ==>
            #[trigger] combined@[crate::shard::grid_index(full_width as int, gx, gy)]
                == combined_pixel(images@, shards@, paired_count(images@, shards@), gx, gy, true),
{
    paint_shards(images, shards, full_width, full_height, true)
}

fn paint_shards(images: &[Vec<Color>], shards: &[Shard], full_width: u32, full_height: u32, whole_only: bool) -> (combined: Vec<Color>)
    requires
        full_width * full_height <= u32::MAX,
    ensures
        combined@.len() == full_width * full_height,
        forall|gx: int, gy: int| 0 <= gx < full_width && 0 <= gy < full_height ==>
            #[trigger] combined@[crate::shard::grid_index(full_width as int, gx, gy)]
                == combined_pixel(images@, shards@, paired_count(images@, shards@), gx, gy, whole_only),
{
    let total = (full_width as usize) * (full_height as usize);
    let mut combined: Vec<Color> = Vec::new();
    let mut i: usize = 0;
    while i < total
        invariant
            i <= total,
            combined@.len() == i,
            forall|j: int| 0 <= j < i ==> #[trigger] combined@[j] == (Color { red: 0, green: 0, blue: 0 }),
        decreases total - i,
    {
        combined.push(Color { red: 0, green: 0, blue: 0 });
        i += 1;
    }
    proof {
        assert forall|gx: int, gy: int| 0 <= gx < full_width && 0 <= gy < full_height implies
            #[trigger] combined@[crate::shard::grid_index(full_width as int, gx, gy)]
                == combined_pixel(images@, shards@, 0, gx, gy, whole_only) by {
            crate::arith::lemma_index_in_grid(full_width as int, full_height as int, gx, gy);
        }
    }
    let count = if images.len() < shards.len() { images.len() } else { shards.len() };
    let mut k: usize = 0;
    while k < count
        invariant
            count <= images@.len(),
            count <= shards@.len(),
            full_width * full_height <= u32::MAX,
            total == full_width * full_height,
            combined@.len() == total,
            k <= count,
            forall|gx: int, gy: int| 0 <= gx < full_width && 0 <= gy < full_height ==>
                #[trigger] combined@[crate::shard::grid_index(full_width as int, gx, gy)]
                    == combined_pixel(images@, shards@, k as int, gx, gy, whole_only),
        decreases count - k,
    {
        let ghost before = combined@;
        let s = shards[k];
        let img = &images[k];
        let sized: bool = if s.width >= 0 && s.height >= 0 {
            proof {
                assert((s.width as int) * (s.height as int) <= 0x8000_0000 * 0x8000_0000) by (nonlinear_arith)
                    requires
                        0 <= s.width <= 0x8000_0000,
                        0 <= s.height <= 0x8000_0000,
                ;
            }
            (img.len() as u64) == (s.width as u64) * (s.height as u64)
        } else {
            false
        };
        if sized || !whole_only {
            let mut y: i64 = 0;
            while y < s.height as i64
                invariant
                    count <= images@.len(),
                    count <= shards@.len(),
                    k < count,
                    s == shards@[k as int],
                    img == &images@[k as int],
                    full_width * full_height <= u32::MAX,
                    total == full_width * full_height,
                    combined@.len() == total,
                    0 <= y <= if s.height >= 0 { s.height as int } else { 0 },
                    forall|gx: int, gy: int| 0 <= gx < full_width && 0 <= gy < full_height ==>
                        #[trigger] combined@[crate::shard::grid_index(full_width as int, gx, gy)]
                            == if s.y <= gy < s.y + y && 0 <= gx - s.x < s.width && (gy - s.y) * s.width + (gx - s.x) < img@.len() {
                                img@[(gy - s.y) * s.width + (gx - s.x)]
                            } else {
                                before[crate::shard::grid_index(full_width as int, gx, gy)]
                            },
                decreases s.height - y,
            {
                let mut x: i64 = 0;
                while x < s.width as i64
                    invariant
                        count <= images@.len(),
                        count <= shards@.len(),
                        k < count,
                        s == shards@[k as int],
                        img == &images@[k as int],
                        full_width * full_height <= u32::MAX,
                        total == full_width * full_height,
                        combined@.len() == total,
                        0 <= y < s.height,
                        0 <= x <= if s.width >= 0 { s.width as int } else { 0 },
                        forall|gx: int, gy: int| 0 <= gx < full_width && 0 <= gy < full_height ==>
                            #[trigger] combined@[crate::shard::grid_index(full_width as int, gx, gy)]
                                == if ((s.y <= gy < s.y + y) || (gy == s.y + y && gx - s.x < x)) && 0 <= gx - s.x < s.width
                                    && (gy - s.y) * s.width + (gx - s.x) < img@.len() {
                                    img@[(gy - s.y) * s.width + (gx - s.x)]
                                } else {
                                    before[crate::shard::grid_index(full_width as int, gx, gy)]
                                },
                    decreases s.width - x,
                {
                    let global_x: i64 = s.x as i64 + x;
                    let global_y: i64 = s.y as i64 + y;
                    proof {
                        assert(0 <= y * s.width <= (s.height as int) * (s.width as int)) by (nonlinear_arith)
                            requires
                                0 <= y < s.height,
                                0 <= s.width,
                        ;
                        assert((s.height as int) * (s.width as int) <= 0x8000_0000 * 0x8000_0000) by (nonlinear_arith)
                            requires
                                0 <= s.height <= 0x8000_0000,
                                0 <= s.width <= 0x8000_0000,
                        ;
                    }
                    let local: i64 = y * (s.width as i64) + x;
                    if global_x >= 0 && global_y >= 0 && global_x < full_width as i64 && global_y < full_height as i64
                        && (local as u64) < (img.len() as u64) {
                        proof {
                            crate::arith::lemma_index_in_grid(full_width as int, full_height as int, global_x as int, global_y as int);
                        }
                        let gi = (global_y as usize) * (full_width as usize) + (global_x as usize);
                        let ghost mid = combined@;
                        combined.set(gi, img[local as usize]);
                        assert(gi == crate::shard::grid_index(full_width as int, global_x as int, global_y as int));
                        proof {
                            assert forall|gx: int, gy: int| 0 <= gx < full_width && 0 <= gy < full_height implies
                                #[trigger] combined@[crate::shard::grid_index(full_width as int, gx, gy)]
                                    == if ((s.y <= gy < s.y + y) || (gy == s.y + y && gx - s.x < x + 1)) && 0 <= gx - s.x < s.width
                                        && (gy - s.y) * s.width + (gx - s.x) < img@.len() {
                                        img@[(gy - s.y) * s.width + (gx - s.x)]
                                    } else {
                                        before[crate::shard::grid_index(full_width as int, gx, gy)]
                                    } by {
                                crate::arith::lemma_index_in_grid(full_width as int, full_height as int, gx, gy);
                                if gx != global_x || gy != global_y {
                                    crate::arith::lemma_distinct_index(full_width as int, gx, gy, global_x as int, global_y as int);
                                    assert(mid[crate::shard::grid_index(full_width as int, gx, gy)] == combined@[crate::shard::grid_index(full_width as int, gx, gy)]);
                                } else {
                                    assert(gy - s.y == y);
                                    assert((gy - s.y) * s.width + (gx - s.x) == local);
                                }
                            }
                        }
                    } else {
                        proof {
                            assert forall|gx: int, gy: int| 0 <= gx < full_width && 0 <= gy < full_height implies
                                #[trigger] combined@[crate::shard::grid_index(full_width as int, gx, gy)]
                                    == if ((s.y <= gy < s.y + y) || (gy == s.y + y && gx - s.x < x + 1)) && 0 <= gx - s.x < s.width
                                        && (gy - s.y) * s.width + (gx - s.x) < img@.len() {
                                        img@[(gy - s.y) * s.width + (gx - s.x)]
                                    } else {
                                        before[crate::shard::grid_index(full_width as int, gx, gy)]
                                    } by {
                                if gx == global_x && gy == global_y {
                                    assert((gy - s.y) * s.width + (gx - s.x) == local);
                                }
                            }
                        }
                    }
                    x += 1;
                }
                y += 1;
            }
            proof {
                assert forall|gx: int, gy: int| 0 <= gx < full_width && 0 <= gy < full_height implies
                    #[trigger] combined@[crate::shard::grid_index(full_width as int, gx, gy)]
                        == combined_pixel(images@, shards@, k as int + 1, gx, gy, whole_only) by {
                    assert(before[crate::shard::grid_index(full_width as int, gx, gy)] == combined_pixel(images@, shards@, k as int, gx, gy, whole_only));
                    if 0 <= gx - s.x < s.width && 0 <= gy - s.y < s.height {
                        crate::arith::lemma_index_in_grid(s.width as int, s.height as int, gx - s.x, gy - s.y);
                    }
                }
            }
        } else {
            proof {
                assert forall|gx: int, gy: int| 0 <= gx < full_width && 0 <= gy < full_height implies
                    #[trigger] combined@[crate::shard::grid_index(full_width as int, gx, gy)]
                        == combined_pixel(images@, shards@, k as int + 1, gx, gy, whole_only) by {
                    assert(before[crate::shard::grid_index(full_width as int, gx, gy)] == combined_pixel(images@, shards@, k as int, gx, gy, whole_only));
                }
            }
        }
        k += 1;
    }
    combined
}

} // verus!
