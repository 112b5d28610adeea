//! Fetch scheduling: dedup by key, every request answered exactly once,
//! cancel flags checked at pickup and between assets, and at most
//! `max(threads, 1)` tiles in flight at once. The caller performs the
//! fetches the scheduler starts and reports each outcome back.

use vstd::prelude::*;
use std::collections::VecDeque;
use crate::config::{NetworkConfig, MAX_ZOOM, MIN_ZOOM};
use crate::keys::KeyMap;
use crate::lod::{halve_n, TileKey};
use crate::source::{expand_url, spec_expand_url, Kind, TileDrop, TileRequest, CANCELLED};

verus! {

/// What a scheduling step leaves to the caller.
pub struct Pumped {
    /// Jobs to start now, in queue order.
    pub started: Vec<TileRequest>,
    /// Jobs cancelled before they started, in queue order; each is answered
    /// with `TileDrop::Cancelled`.
    pub cancelled: Vec<TileKey>,
}

/// The cancel flag of a queued request.
pub open spec fn flagged(flags: Map<TileKey, bool>, r: TileRequest) -> bool {
    flags[r.key]
}

/// `after` and `p` are what pumping `queue` gives, from cancel flags
/// `flags` and `active` running jobs under capacity `cap`: jobs are taken
/// from the front while fewer than `cap` run; a flagged job is answered as
/// cancelled without taking a slot, any other starts.
pub open spec fn pumped_from(
    flags: Map<TileKey, bool>,
    queue: Seq<TileRequest>,
    active: nat,
    cap: nat,
    after: TileSource,
    p: Pumped,
) -> bool {
    let n = queue.len() - after.queued().len();
    &&& after.queued().len() <= queue.len()
    &&& after.queued() == queue.skip(n)
    &&& p.started@ == queue.take(n).filter(|r: TileRequest| !flagged(flags, r))
    &&& p.cancelled@ == queue.take(n).filter(|r: TileRequest| flagged(flags, r)).map_values(
        |r: TileRequest| r.key,
    )
    &&& after.running() == active + p.started@.len()
    &&& after.flights() == flags.remove_keys(p.cancelled@.to_set())
    &&& (after.running() >= cap || n == queue.len())
    &&& forall|k: int|
        0 <= k < n ==> active + (#[trigger] queue.take(k)).filter(|r: TileRequest| !flagged(flags, r)).len()
            < cap
}

/// The answer to a finished job of tile `key`: cancelled when its flag was
/// set or it reported the cancellation reason, the payload (`None`) on
/// success, else the failure with its reason.
pub open spec fn answer_for(key: TileKey, cancelled: bool, result: Result<(), String>) -> Option<TileDrop> {
    if cancelled {
        Some(TileDrop::Cancelled(key))
    } else {
        match result {
            Ok(_) => None,
            Err(e) => if e@ == CANCELLED@ {
                Some(TileDrop::Cancelled(key))
            } else {
                Some(TileDrop::Failed(key, e))
            },
        }
    }
}

/// Where the heightmap of a tile comes from.
#[derive(Clone, Copy, Debug, PartialEq, Eq, Structural)]
pub enum HeightmapPlan {
    /// Downloaded at the tile's own zoom.
    Fetch,
    /// Synthesized from the native-zoom ancestor `(ax, az)` (provider
    /// coordinates at `native`).
    Synthesize { native: u8, ax: i32, az: i32 },
}

/// The asset a running job has just fetched.
#[derive(Clone, Copy, Debug, PartialEq, Eq, Structural)]
pub enum JobStep {
    /// The imagery (fetched and decoded).
    Albedo,
    /// The heightmap (fetched and decoded, or synthesized).
    Heightmap,
    /// The normal map (fetched and decoded).
    Normals,
}

/// What a running job does next.
#[derive(Debug)]
pub enum JobAction {
    /// Fetch the next asset.
    Continue,
    /// The tile is complete; deliver it, with the flat default normal map
    /// when the normal map could not be had.
    Deliver { flat_normals: bool },
    /// Stop and report this failure reason.
    Fail(String),
    /// Stop: the job was cancelled; report [`CANCELLED`].
    Cancelled,
}

/// The step rule of a job: an imagery or heightmap error ends the job with
/// that error; after each of these assets a set cancel flag ends it as
/// cancelled; the normal map never fails a tile (a failure falls back
/// to the flat default).
pub open spec fn spec_job_step(cancelled: bool, step: JobStep, fetched: Result<(), String>) -> JobAction {
    match step {
        JobStep::Normals => JobAction::Deliver { flat_normals: fetched is Err },
        _ => match fetched {
            Err(e) => JobAction::Fail(e),
            Ok(_) => if cancelled {
                JobAction::Cancelled
            } else {
                JobAction::Continue
            },
        },
    }
}

/// The step rule, case by case: after the imagery or the heightmap, a
/// fetch that succeeded ends the job as cancelled exactly when its cancel
/// flag is set (and lets it go on otherwise), and a failed fetch fails the
/// job with that error whatever the flag; after the normal map the job
/// always delivers, with flat normals exactly when that fetch failed.
pub proof fn job_step_cases(cancelled: bool, step: JobStep, fetched: Result<(), String>)
    ensures
        step != JobStep::Normals && fetched is Ok && cancelled ==> spec_job_step(cancelled, step, fetched)
            is Cancelled,
        step != JobStep::Normals && fetched is Ok && !cancelled ==> spec_job_step(cancelled, step, fetched)
            is Continue,
        step != JobStep::Normals ==> (fetched matches Err(e) ==> spec_job_step(cancelled, step, fetched)
            == JobAction::Fail(e)),
        step == JobStep::Normals ==> spec_job_step(cancelled, step, fetched) == (JobAction::Deliver {
            flat_normals: fetched is Err,
        }),
{
}

/// A cancelled job stops before its next asset: once the cancel flag of
/// `key` is set, a successful imagery or heightmap fetch of its job ends
/// it as cancelled, so the normal map is never fetched.
pub proof fn cancelled_job_stops_before_next_asset(src: TileSource, key: TileKey, step: JobStep)
    requires
        src.flights().contains_key(key),
        src.flights()[key],
        step == JobStep::Albedo || step == JobStep::Heightmap,
    ensures
        spec_job_step(src.flights().contains_key(key) && src.flights()[key], step, Ok(())) is Cancelled,
{
}

/// The background tile fetcher's bookkeeping. Hand out requests, start the
/// jobs it returns, and report each job's outcome with
/// [`TileSource::finish`].
pub struct TileSource {
    cfg: NetworkConfig,
    max_active: usize,
    in_flight: KeyMap<bool>,
    queue: VecDeque<TileRequest>,
    active: usize,
}

impl TileSource {
    /// Tiles requested and not yet answered, with their cancel flag.
    pub closed spec fn flights(self) -> Map<TileKey, bool> {
        self.in_flight@
    }

    /// Requests waiting for a slot, in order.
    pub closed spec fn queued(self) -> Seq<TileRequest> {
        self.queue@
    }

    /// Jobs started and not yet finished.
    pub closed spec fn running(self) -> nat {
        self.active as nat
    }

    /// Maximum number of jobs running at once.
    pub closed spec fn capacity(self) -> nat {
        self.max_active as nat
    }

    /// The network configuration the source was made with.
    pub closed spec fn config(self) -> NetworkConfig {
        self.cfg
    }

    /// Keys of the queued requests.
    pub open spec fn queued_keys(self) -> Seq<TileKey> {
        self.queued().map_values(|r: TileRequest| r.key)
    }

    /// The bookkeeping is consistent: at least one slot, no more jobs
    /// running than slots, every queued request in flight and queued once,
    /// and every in-flight tile either queued or running.
    pub open spec fn wf(self) -> bool {
        &&& 1 <= self.capacity()
        &&& self.running() <= self.capacity()
        &&& self.flights().dom().finite()
        &&& self.flights().len() == self.running() + self.queued().len()
        &&& self.queued_keys().no_duplicates()
        &&& forall|i: int| 0 <= i < self.queued().len() ==> self.flights().contains_key(#[trigger] self.queued()[i].key)
        &&& MIN_ZOOM <= self.config().native_terrain_zoom <= MAX_ZOOM
    }

    /// Creates the fetcher with nothing in flight and `max(threads, 1)`
    /// slots. The native terrain zoom must lie in `[MIN_ZOOM, MAX_ZOOM]`.
    pub fn new(cfg: &NetworkConfig) -> (s: Self)
        requires
            MIN_ZOOM <= cfg.native_terrain_zoom <= MAX_ZOOM,
        ensures
            s.wf(),
            s.flights() == Map::<TileKey, bool>::empty(),
            s.queued() == Seq::<TileRequest>::empty(),
            s.running() == 0,
            s.capacity() == if cfg.threads < 1 { 1 } else { cfg.threads as nat },
            s.config().threads == cfg.threads,
            s.config().cache_dir@ == cfg.cache_dir@,
            s.config().texture_url@ == cfg.texture_url@,
            s.config().heightmap_url@ == cfg.heightmap_url@,
            s.config().normals_url@ == cfg.normals_url@,
            s.config().native_terrain_zoom == cfg.native_terrain_zoom,
            s.config().connect_timeout_secs == cfg.connect_timeout_secs,
            s.config().read_timeout_secs == cfg.read_timeout_secs,
    {
        let copy = NetworkConfig {
            threads: cfg.threads,
            cache_dir: cfg.cache_dir.clone(),
            texture_url: cfg.texture_url.clone(),
            heightmap_url: cfg.heightmap_url.clone(),
            normals_url: cfg.normals_url.clone(),
            native_terrain_zoom: cfg.native_terrain_zoom,
            connect_timeout_secs: cfg.connect_timeout_secs,
            read_timeout_secs: cfg.read_timeout_secs,
        };
        let max_active = if cfg.threads < 1 {
            1
        } else {
            cfg.threads
        };
        let s = TileSource {
            cfg: copy,
            max_active,
            in_flight: KeyMap::new(),
            queue: VecDeque::new(),
            active: 0,
        };
        proof {
            assert(s.queued_keys() =~= Seq::<TileKey>::empty());
        }
        s
    }

    /// Whether `key` was requested and not yet answered.
    pub fn in_flight(&self, key: &TileKey) -> (b: bool)
        ensures
            b == self.flights().contains_key(*key),
    {
        self.in_flight.contains_key(key)
    }

    /// Whether the job of `key` was flagged for cancellation.
    pub fn is_cancelled(&self, key: &TileKey) -> (b: bool)
        ensures
            b == (self.flights().contains_key(*key) && self.flights()[*key]),
    {
        match self.in_flight.get(key) {
            Some(flag) => *flag,
            None => false,
        }
    }

    /// Whether the job of `key` has started and not finished.
    pub fn is_running(&self, key: &TileKey) -> (b: bool)
        ensures
            b == (self.flights().contains_key(*key) && !self.queued_keys().contains(*key)),
    {
        if !self.in_flight.contains_key(key) {
            return false;
        }
        let mut i: usize = 0;
        while i < self.queue.len()
            invariant
                i <= self.queue@.len(),
                forall|j: int| 0 <= j < i ==> self.queue@[j].key != *key,
            decreases self.queue@.len() - i,
        {
            if self.queue[i].key == *key {
                proof {
                    assert(self.queued_keys()[i as int] == *key);
                }
                return false;
            }
            i = i + 1;
        }
        proof {
            assert(!self.queued_keys().contains(*key)) by {
                if self.queued_keys().contains(*key) {
                    let j = choose|j: int| 0 <= j < self.queued_keys().len() && self.queued_keys()[j] == *key;
                    assert(self.queue@[j].key == *key);
                }
            }
        }
        true
    }

    /// Queues one tile fetch, then starts what the slots allow. A no-op
    /// while the key is in flight (a cancelled job counts until answered).
    pub fn request(&mut self, req: TileRequest) -> (p: Pumped)
        requires
            old(self).wf(),
        ensures
            final(self).wf(),
            final(self).config() == old(self).config(),
            final(self).capacity() == old(self).capacity(),
            old(self).flights().contains_key(req.key) ==> {
                &&& final(self).flights() == old(self).flights()
                &&& final(self).queued() == old(self).queued()
                &&& final(self).running() == old(self).running()
                &&& p.started@.len() == 0
                &&& p.cancelled@.len() == 0
            },
            !old(self).flights().contains_key(req.key) ==> pumped_from(
                old(self).flights().insert(req.key, false),
                old(self).queued().push(req),
                old(self).running(),
                old(self).capacity(),
                *final(self),
                p,
            ),
    {
        if self.in_flight.contains_key(&req.key) {
            return Pumped { started: Vec::new(), cancelled: Vec::new() };
        }
        let ghost pre = *self;
        self.in_flight.insert(req.key, false);
        self.queue.push_back(req);
        proof {
            assert(self.queued_keys() =~= pre.queued_keys().push(req.key));
            assert(!pre.queued_keys().contains(req.key)) by {
                if pre.queued_keys().contains(req.key) {
                    let j = choose|j: int| 0 <= j < pre.queued_keys().len() && pre.queued_keys()[j] == req.key;
                    assert(pre.flights().contains_key(pre.queued()[j].key));
                }
            }
            assert forall|i: int| 0 <= i < self.queued().len() implies self.flights().contains_key(
                #[trigger] self.queued()[i].key,
            ) by {
                if i < pre.queued().len() {
                    assert(self.queued()[i] == pre.queued()[i]);
                }
            }
        }
        self.pump()
    }

    /// Flags the job of `key` for cancellation (checked at pickup and
    /// between assets). No effect on tiles not in flight.
    pub fn cancel(&mut self, key: &TileKey)
        requires
            old(self).wf(),
        ensures
            final(self).wf(),
            final(self).flights() == if old(self).flights().contains_key(*key) {
                old(self).flights().insert(*key, true)
            } else {
                old(self).flights()
            },
            final(self).queued() == old(self).queued(),
            final(self).running() == old(self).running(),
            final(self).capacity() == old(self).capacity(),
            final(self).config() == old(self).config(),
    {
        if self.in_flight.contains_key(key) {
            self.in_flight.insert(*key, true);
            proof {
                assert(self.flights().dom() =~= old(self).flights().dom());
            }
        }
    }

    /// Starts queued jobs while fewer than `capacity` run. Jobs cancelled
    /// before pickup are answered immediately without taking a slot.
    pub fn pump(&mut self) -> (p: Pumped)
        requires
            old(self).wf(),
        ensures
            final(self).wf(),
            final(self).config() == old(self).config(),
            final(self).capacity() == old(self).capacity(),
            pumped_from(
                old(self).flights(),
                old(self).queued(),
                old(self).running(),
                old(self).capacity(),
                *final(self),
                p,
            ),
    {
        let ghost flags = self.in_flight@;
        let ghost q0 = self.queue@;
        let ghost a0 = self.active as nat;
        let ghost nf = |r: TileRequest| !flagged(flags, r);
        let ghost fl = |r: TileRequest| flagged(flags, r);
        let mut started: Vec<TileRequest> = Vec::new();
        let mut cancelled: Vec<TileKey> = Vec::new();
        let mut c: usize = 0;
        let _ = self.queue.len();
        loop
            invariant
                self.wf(),
                self.cfg == old(self).cfg,
                self.max_active == old(self).max_active,
                c <= q0.len(),
                q0.len() <= usize::MAX,
                self.queue@ == q0.skip(c as int),
                q0.map_values(|r: TileRequest| r.key).no_duplicates(),
                forall|i: int| 0 <= i < q0.len() ==> flags.contains_key(#[trigger] q0[i].key),
                forall|r: TileRequest| #[trigger] nf(r) == !flagged(flags, r),
                forall|r: TileRequest| #[trigger] fl(r) == flagged(flags, r),
                started@ == q0.take(c as int).filter(nf),
                cancelled@ == q0.take(c as int).filter(fl).map_values(|r: TileRequest| r.key),
                self.active == a0 + started@.len(),
                self.in_flight@ == flags.remove_keys(cancelled@.to_set()),
                forall|k: int| 0 <= k < c ==> a0 + (#[trigger] q0.take(k)).filter(nf).len() < self.max_active,
            ensures
                self.wf(),
                self.cfg == old(self).cfg,
                self.max_active == old(self).max_active,
                c <= q0.len(),
                self.queue@ == q0.skip(c as int),
                started@ == q0.take(c as int).filter(nf),
                cancelled@ == q0.take(c as int).filter(fl).map_values(|r: TileRequest| r.key),
                self.active == a0 + started@.len(),
                self.in_flight@ == flags.remove_keys(cancelled@.to_set()),
                forall|k: int| 0 <= k < c ==> a0 + (#[trigger] q0.take(k)).filter(nf).len() < self.max_active,
                self.active >= self.max_active || c == q0.len(),
            decreases q0.len() - c,
        {
            if self.active >= self.max_active {
                break;
            }
            let ghost pre = *self;
            let job = match self.queue.pop_front() {
                Some(job) => job,
                None => {
                    proof {
                        assert(q0.skip(c as int).len() == 0);
                    }
                    break;
                },
            };
            proof {
                assert(job == q0[c as int]);
                assert(q0.take(c + 1).drop_last() =~= q0.take(c as int));
                assert(q0.take(c + 1).last() == job);
                reveal_with_fuel(Seq::filter, 1);
                // the job's key was not answered earlier in this pump
                assert(!cancelled@.to_set().contains(job.key)) by {
                    if cancelled@.to_set().contains(job.key) {
                        let m = choose|m: int| 0 <= m < cancelled@.len() && cancelled@[m] == job.key;
                        let fq = q0.take(c as int).filter(fl);
                        assert(cancelled@[m] == fq[m].key);
                        assert(fq.contains(fq[m]));
                        q0.take(c as int).lemma_filter_contains_rev(fl, fq[m]);
                        let j = choose|j: int| 0 <= j < q0.take(c as int).len() && q0.take(c as int)[j] == fq[m];
                        assert(q0[j] == fq[m]);
                        assert(q0.map_values(|r: TileRequest| r.key)[j] == q0.map_values(|r: TileRequest| r.key)[c as int]);
                    }
                }
                assert(pre.in_flight@.contains_key(job.key));
                assert(pre.in_flight@[job.key] == flags[job.key]);
            }
            let flag = match self.in_flight.get(&job.key) {
                Some(f) => *f,
                None => false,
            };
            if flag {
                let ghost prev_c = cancelled@;
                let ghost prev_flights = self.in_flight@;
                self.in_flight.remove(&job.key);
                cancelled.push(job.key);
                proof {
                    let old_c = prev_c;
                    assert(prev_flights == flags.remove_keys(old_c.to_set()));
                    assert(self.in_flight@ == prev_flights.remove(job.key));
                    assert(cancelled@ =~= old_c.push(job.key));
                    assert(cancelled@ =~= q0.take(c + 1).filter(fl).map_values(|r: TileRequest| r.key));
                    old_c.lemma_push_to_set_commute(job.key);
                    assert(flags.remove_keys(old_c.to_set()).remove(job.key) =~= flags.remove_keys(old_c.to_set().insert(job.key)));
                    assert(self.in_flight@ =~= flags.remove_keys(cancelled@.to_set()));
                    assert(started@ =~= q0.take(c + 1).filter(nf));
                }
            } else {
                self.active = self.active + 1;
                started.push(job);
                proof {
                    assert(started@ =~= q0.take(c + 1).filter(nf));
                    assert(cancelled@ =~= q0.take(c + 1).filter(fl).map_values(|r: TileRequest| r.key));
                }
            }
            proof {
                assert(self.queue@ =~= q0.skip(c + 1));
                assert(self.queued_keys() =~= pre.queued_keys().drop_first());
                assert forall|i: int| 0 <= i < self.queued().len() implies self.flights().contains_key(
                    #[trigger] self.queued()[i].key,
                ) by {
                    assert(self.queued()[i] == pre.queued()[i + 1]);
                    assert(pre.flights().contains_key(pre.queued()[i + 1].key));
                    if flag {
                        assert(pre.queued_keys()[i + 1] != pre.queued_keys()[0]);
                    }
                }
                assert forall|k: int| 0 <= k < c + 1 implies a0 + (#[trigger] q0.take(k)).filter(nf).len()
                    < self.max_active by {
                    if k == c {
                        assert(a0 + q0.take(c as int).filter(nf).len() == pre.active);
                    }
                }
            }
            c = c + 1;
        }
        Pumped { started, cancelled }
    }

    /// Reports the outcome of the running job of `key` and answers it:
    /// cancelled when flagged (or when it reported [`CANCELLED`]), the
    /// payload (`None`) on success, else the failure. The job's slot is
    /// freed and queued jobs are started.
    pub fn finish(&mut self, key: TileKey, result: Result<(), String>) -> (r: (Option<TileDrop>, Pumped))
        requires
            old(self).wf(),
            old(self).flights().contains_key(key),
            !old(self).queued_keys().contains(key),
        ensures
            final(self).wf(),
            final(self).config() == old(self).config(),
            final(self).capacity() == old(self).capacity(),
            r.0 == answer_for(key, old(self).flights()[key], result),
            pumped_from(
                old(self).flights().remove(key),
                old(self).queued(),
                (old(self).running() - 1) as nat,
                old(self).capacity(),
                *final(self),
                r.1,
            ),
    {
        let ghost pre = *self;
        proof {
            // a running job holds a slot
            let qk = pre.queued_keys();
            qk.unique_seq_to_set();
            assert(qk.to_set().insert(key).subset_of(pre.flights().dom())) by {
                assert forall|k: TileKey| qk.to_set().insert(key).contains(k) implies pre.flights().dom().contains(k) by {
                    if k != key {
                        let j = choose|j: int| 0 <= j < qk.len() && qk[j] == k;
                        assert(pre.flights().contains_key(pre.queued()[j].key));
                    }
                }
            }
            vstd::set_lib::lemma_len_subset(qk.to_set().insert(key), pre.flights().dom());
        }
        let flag = match self.in_flight.get(&key) {
            Some(f) => *f,
            None => false,
        };
        self.in_flight.remove(&key);
        let cancel_reason = String::from_str(CANCELLED);
        let answer = if flag {
            Some(TileDrop::Cancelled(key))
        } else {
            match result {
                Ok(_) => None,
                Err(e) => if e == cancel_reason {
                    Some(TileDrop::Cancelled(key))
                } else {
                    Some(TileDrop::Failed(key, e))
                },
            }
        };
        self.active = self.active - 1;
        proof {
            assert forall|i: int| 0 <= i < self.queued().len() implies self.flights().contains_key(
                #[trigger] self.queued()[i].key,
            ) by {
                assert(pre.flights().contains_key(pre.queued()[i].key));
                assert(pre.queued_keys()[i] == pre.queued()[i].key);
            }
        }
        let p = self.pump();
        (answer, p)
    }

    /// The URL of `kind` for tile `(zoom, x, z)` at the provider.
    pub fn url(&self, kind: Kind, zoom: u8, x: i32, z: i32) -> (u: String)
        ensures
            u@ == spec_expand_url(kind.spec_template(self.config()), zoom, x, z),
    {
        expand_url(kind.url_template(&self.cfg), zoom, x, z)
    }

    /// Heightmaps up to the native zoom are downloaded; above it they are
    /// synthesized from the native ancestor, whose provider coordinates are
    /// the request's shifted right by the zoom difference.
    pub fn heightmap_plan(&self, req: &TileRequest) -> (plan: HeightmapPlan)
        requires
            req.key.zoom > self.config().native_terrain_zoom ==> req.key.zoom - self.config().native_terrain_zoom
                < 32,
        ensures
            req.key.zoom <= self.config().native_terrain_zoom ==> plan == HeightmapPlan::Fetch,
            req.key.zoom > self.config().native_terrain_zoom ==> plan == (HeightmapPlan::Synthesize {
                native: self.config().native_terrain_zoom,
                ax: halve_n(req.x as int, (req.key.zoom - self.config().native_terrain_zoom) as nat) as i32,
                az: halve_n(req.z as int, (req.key.zoom - self.config().native_terrain_zoom) as nat) as i32,
            }),
    {
        let native = self.cfg.native_terrain_zoom;
        if req.key.zoom <= native {
            return HeightmapPlan::Fetch;
        }
        let dz = req.key.zoom - native;
        let mut ax = req.x;
        let mut az = req.z;
        let mut s: u8 = 0;
        while s < dz
            invariant
                s <= dz,
                ax == halve_n(req.x as int, s as nat),
                az == halve_n(req.z as int, s as nat),
            decreases dz - s,
        {
            proof {
                crate::lod::lemma_halve_step(req.x as int, s as nat);
                crate::lod::lemma_halve_step(req.z as int, s as nat);
            }
            ax = crate::lod::halve(ax);
            az = crate::lod::halve(az);
            s = s + 1;
        }
        HeightmapPlan::Synthesize { native, ax, az }
    }

    /// The next action of the running job of `key`, which has just fetched
    /// the asset `step` with outcome `fetched` (see [`spec_job_step`]); the
    /// cancel flag is read here, between assets.
    pub fn job_step(&self, key: &TileKey, step: JobStep, fetched: Result<(), String>) -> (a: JobAction)
        ensures
            a == spec_job_step(
                self.flights().contains_key(*key) && self.flights()[*key],
                step,
                fetched,
            ),
    {
        match step {
            JobStep::Normals => JobAction::Deliver { flat_normals: fetched.is_err() },
            _ => match fetched {
                Err(e) => JobAction::Fail(e),
                Ok(_) => if self.is_cancelled(key) {
                    JobAction::Cancelled
                } else {
                    JobAction::Continue
                },
            },
        }
    }

    /// The highest zoom the terrain providers serve natively.
    pub fn native_terrain_zoom(&self) -> (z: u8)
        ensures
            z == self.config().native_terrain_zoom,
    {
        self.cfg.native_terrain_zoom
    }

    /// Normals are downloaded up to the native zoom; above it no request is
    /// made and the flat default is used.
    pub fn fetches_normals(&self, req: &TileRequest) -> (b: bool)
        ensures
            b == (req.key.zoom <= self.config().native_terrain_zoom),
    {
        req.key.zoom <= self.cfg.native_terrain_zoom
    }
}


/// Every request is answered exactly once: a pump answers only queued,
/// in-flight tiles, each once, and they leave the in-flight set; the jobs
/// it starts stay in flight until [`TileSource::finish`] answers them; the
/// other in-flight tiles are untouched.
pub proof fn pump_answers_once(
    flags: Map<TileKey, bool>,
    queue: Seq<TileRequest>,
    active: nat,
    cap: nat,
    after: TileSource,
    p: Pumped,
)
    requires
        pumped_from(flags, queue, active, cap, after, p),
        queue.map_values(|r: TileRequest| r.key).no_duplicates(),
        forall|i: int| 0 <= i < queue.len() ==> flags.contains_key(#[trigger] queue[i].key),
    ensures
        p.cancelled@.no_duplicates(),
        forall|i: int|
            0 <= i < p.cancelled@.len() ==> flags.contains_key(#[trigger] p.cancelled@[i])
                && !after.flights().contains_key(p.cancelled@[i]),
        forall|i: int| 0 <= i < p.started@.len() ==> after.flights().contains_key(#[trigger] p.started@[i].key),
        after.flights().dom() == flags.dom().difference(p.cancelled@.to_set()),
{
    broadcast use vstd::seq_lib::group_filter_ensures;

    let n = queue.len() - after.queued().len();
    let t = queue.take(n);
    let fl = |r: TileRequest| flagged(flags, r);
    let nf = |r: TileRequest| !flagged(flags, r);
    let keys = t.map_values(|r: TileRequest| r.key);
    assert(keys.no_duplicates()) by {
        assert forall|a: int, b: int| 0 <= a < keys.len() && 0 <= b < keys.len() && a != b implies keys[a]
            != keys[b] by {
            assert(queue.map_values(|r: TileRequest| r.key)[a] == keys[a]);
            assert(queue.map_values(|r: TileRequest| r.key)[b] == keys[b]);
        }
    }
    // every answered or started request comes from the consumed prefix
    assert forall|i: int| 0 <= i < p.cancelled@.len() implies flags.contains_key(#[trigger] p.cancelled@[i])
        && !after.flights().contains_key(p.cancelled@[i]) by {
        let r = t.filter(fl)[i];
        assert(t.filter(fl).contains(r));
        t.lemma_filter_contains_rev(fl, r);
        let j = choose|j: int| 0 <= j < t.len() && t[j] == r;
        assert(queue[j] == r);
        assert(p.cancelled@.to_set().contains(p.cancelled@[i]));
    }
    assert forall|i: int| 0 <= i < p.started@.len() implies after.flights().contains_key(
        #[trigger] p.started@[i].key,
    ) by {
        let r = t.filter(nf)[i];
        assert(t.filter(nf).contains(r));
        t.lemma_filter_contains_rev(nf, r);
        let j = choose|j: int| 0 <= j < t.len() && t[j] == r;
        assert(queue[j] == r);
        assert(!flagged(flags, r));
        if p.cancelled@.to_set().contains(r.key) {
            let m = choose|m: int| 0 <= m < p.cancelled@.len() && p.cancelled@[m] == r.key;
            let c = t.filter(fl)[m];
            assert(t.filter(fl).contains(c));
            t.lemma_filter_contains_rev(fl, c);
            let j2 = choose|j2: int| 0 <= j2 < t.len() && t[j2] == c;
            assert(flagged(flags, c));
            assert(keys[j] == keys[j2]);
        }
    }
    assert(p.cancelled@.no_duplicates()) by {
        assert forall|a: int, b: int| 0 <= a < p.cancelled@.len() && 0 <= b < p.cancelled@.len() && a != b implies p.cancelled@[a]
            != p.cancelled@[b] by {
            lemma_filter_keys_distinct(t, fl, a, b);
        }
    }
    assert(after.flights().dom() =~= flags.dom().difference(p.cancelled@.to_set()));
}

/// A cancelled job is answered `Cancelled`, never with a payload or a
/// failure: a pump never starts a flagged job (it answers it at pickup),
/// the flag stays set while the job is in flight, and finishing a flagged
/// job answers `Cancelled` whatever the fetch reported.
pub proof fn cancelled_job_answers_cancelled(
    flags: Map<TileKey, bool>,
    queue: Seq<TileRequest>,
    active: nat,
    cap: nat,
    after: TileSource,
    p: Pumped,
    key: TileKey,
    result: Result<(), String>,
)
    requires
        pumped_from(flags, queue, active, cap, after, p),
        flags.contains_key(key),
        flags[key],
    ensures
        forall|i: int| 0 <= i < p.started@.len() ==> (#[trigger] p.started@[i]).key != key,
        after.flights().contains_key(key) ==> after.flights()[key],
        answer_for(key, flags[key], result) == Some(TileDrop::Cancelled(key)),
{
    broadcast use vstd::seq_lib::group_filter_ensures;

    let n = queue.len() - after.queued().len();
    let nf = |r: TileRequest| !flagged(flags, r);
    assert forall|i: int| 0 <= i < p.started@.len() implies (#[trigger] p.started@[i]).key != key by {
        assert(nf(queue.take(n).filter(nf)[i]));
    }
}

/// Distinct entries of a filtered request sequence with distinct keys have
/// distinct keys.
proof fn lemma_filter_keys_distinct(t: Seq<TileRequest>, f: spec_fn(TileRequest) -> bool, a: int, b: int)
    requires
        t.map_values(|r: TileRequest| r.key).no_duplicates(),
        0 <= a < t.filter(f).len(),
        0 <= b < t.filter(f).len(),
        a != b,
    ensures
        t.filter(f)[a].key != t.filter(f)[b].key,
    decreases t.len(),
{
    reveal_with_fuel(Seq::filter, 1);
    broadcast use vstd::seq_lib::group_filter_ensures;

    let rest = t.drop_last();
    let rk = rest.map_values(|r: TileRequest| r.key);
    assert(rk.no_duplicates()) by {
        assert forall|i: int, j: int|
            0 <= i < rest.len() && 0 <= j < rest.len() && i != j implies #[trigger] rk[i] != #[trigger] rk[j] by {
            assert(t.map_values(|r: TileRequest| r.key)[i] != t.map_values(|r: TileRequest| r.key)[j]);
        }
    }
    if f(t.last()) {
        let n = rest.filter(f).len() as int;
        if a < n && b < n {
            lemma_filter_keys_distinct(rest, f, a, b);
        } else {
            let o = if a < n { a } else { b };
            let r = rest.filter(f)[o];
            assert(rest.filter(f).contains(r));
            rest.lemma_filter_contains_rev(f, r);
            let j = choose|j: int| 0 <= j < rest.len() && rest[j] == r;
            assert(t.map_values(|r: TileRequest| r.key)[j] != t.map_values(|r: TileRequest| r.key)[t.len() - 1]);
        }
    } else {
        lemma_filter_keys_distinct(rest, f, a, b);
    }
}

/// Capacity of the native-ancestor heightmap cache: when full, it is
/// flushed wholesale before the next insertion.
pub const PARENT_CACHE_CAP: usize = 64;

/// Decoded native-zoom heightmaps shared between the descendants
/// synthesized from them, keyed by provider coordinates `(ax, az)` at the
/// native zoom.
pub struct ParentCache<V> {
    map: KeyMap<V>,
}

/// The slot key of native tile `(ax, az)`.
pub open spec fn parent_slot(ax: i32, az: i32) -> TileKey {
    TileKey { zoom: 0, x: ax, z: az }
}

impl<V> ParentCache<V> {
    /// The cached entries.
    pub closed spec fn view(&self) -> Map<(i32, i32), V> {
        Map::new(
            |k: (i32, i32)| self.map@.contains_key(parent_slot(k.0, k.1)),
            |k: (i32, i32)| self.map@[parent_slot(k.0, k.1)],
        )
    }

    /// Number of cached entries.
    pub closed spec fn size(&self) -> nat {
        self.map@.len()
    }

    /// The cache holds at most [`PARENT_CACHE_CAP`] entries.
    pub open spec fn wf(&self) -> bool {
        self.size() <= PARENT_CACHE_CAP
    }

    /// An empty cache.
    pub fn new() -> (c: Self)
        ensures
            c@ == Map::<(i32, i32), V>::empty(),
            c.size() == 0,
            c.wf(),
    {
        let c = ParentCache { map: KeyMap::new() };
        assert(c@ =~= Map::<(i32, i32), V>::empty());
        c
    }

    /// The heightmap cached for native tile `(ax, az)`.
    pub fn get(&self, ax: i32, az: i32) -> (r: Option<&V>)
        ensures
            match r {
                Some(v) => self@.contains_key((ax, az)) && *v == self@[(ax, az)],
                None => !self@.contains_key((ax, az)),
            },
    {
        self.map.get(&TileKey { zoom: 0, x: ax, z: az })
    }

    /// Caches `v` for native tile `(ax, az)`, first flushing everything when
    /// the cache is full.
    pub fn insert(&mut self, ax: i32, az: i32, v: V)
        requires
            old(self).wf(),
        ensures
            final(self).wf(),
            final(self)@ == (if old(self).size() >= PARENT_CACHE_CAP {
                Map::<(i32, i32), V>::empty()
            } else {
                old(self)@
            }).insert((ax, az), v),
    {
        let ghost pre = self@;
        let n = self.map.len();
        let flushed = n >= PARENT_CACHE_CAP;
        if flushed {
            self.map.clear();
        }
        let ghost mid = self.map@;
        proof {
            if flushed {
                assert(mid.len() == 0);
            }
        }
        let k = TileKey { zoom: 0, x: ax, z: az };
        self.map.insert(k, v);
        proof {
            let base = if flushed { Map::<(i32, i32), V>::empty() } else { pre };
            assert forall|key: (i32, i32)| #[trigger] self@.contains_key(key) <==> base.insert((ax, az), v).contains_key(key) by {
                if key != (ax, az) {
                    assert(parent_slot(key.0, key.1) != k);
                }
            }
            assert forall|key: (i32, i32)| #[trigger] self@.contains_key(key) implies self@[key] == base.insert((ax, az), v)[key] by {
                if key != (ax, az) {
                    assert(parent_slot(key.0, key.1) != k);
                }
            }
            assert(self@ =~= base.insert((ax, az), v));
            if mid.contains_key(k) {
                assert(self.map@.dom() =~= mid.dom());
            } else {
                assert(self.map@.dom() =~= mid.dom().insert(k));
            }
            if !flushed && !mid.contains_key(k) {
                assert(mid.len() < PARENT_CACHE_CAP);
            }
        }
    }
}

} // verus!
