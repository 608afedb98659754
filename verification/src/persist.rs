//! The persistence state of a node, the save that every shard takes part in, and
//! the manifest that a save commits.
use vstd::prelude::*;
use vstd::string::*;
use vstd::utf8::encode_utf8;
use crate::bytes::{all_ascii, ascii_chars, bytes_of, bytes_text, decimal_bytes,
    lemma_decimal_bytes, lemma_text_back, push_decimal_bytes, same_bytes, text_of};
use crate::coordinator::{no_deltas, replies_view, CounterDeltas, ReplyView, ShardReply};
use crate::handoff::{fits_in_ram, handoff_staging_dir, handoff_target, headroom, headroom_for,
    path_below, HandoffTarget, HANDOFF_SUBDIR};
use crate::text::{append_decimal, copy_str, decimal, lemma_decimal_round_trip, lemma_decimal_value, opt_string,
    parse_unsigned, unsigned_of};
use crate::value::{arguments, values, ErrorReply, Request, Value, ValueModel};

verus! {

/// The verb that lets a shard write its part of a snapshot.
pub const ICSAVE: &'static str = "__ICSAVE";

/// How many milliseconds an exit waits for a save that is under way, and for its
/// own save.
pub const SHUTDOWN_SAVE_WAIT: u64 = 5000;

/// How many milliseconds an exit sleeps between two looks at the save latch.
pub const SHUTDOWN_SAVE_POLL: u64 = 20;

/// The figures of the node's saves.
#[derive(Debug, Clone, Copy, PartialEq, Eq, Structural)]
pub struct PersistStats {
    /// When the last save was committed, in seconds since the epoch; zero before
    /// the first.
    pub last_save_unix_secs: u64,
    /// How many writes there were since the last durable save.
    pub dirty: u64,
    /// Whether the last save succeeded.
    pub last_bgsave_ok: bool,
}

/// The persistence state of a node.
#[derive(Debug)]
pub struct PersistState {
    /// Where durable snapshots are kept.
    pub dir: String,
    /// The RAM-backed mount for the snapshot of an upgrade, where there is one.
    pub handoff_base: Option<String>,
    /// The directory that this boot loads from.
    pub boot_load_dir: String,
    /// The directory to remove once every shard has loaded.
    pub handoff_cleanup_dir: Option<String>,
    /// How many shards have not loaded yet.
    pub shards_pending_load: usize,
    /// The figures of the node's saves.
    pub stats: PersistStats,
    /// The generation of the last base that was saved.
    pub save_id: u64,
    /// Whether a save is under way.
    pub saving: bool,
    /// Whether the next durable save has to be a base.
    pub needs_base: bool,
}

/// The right to save, held by one save at a time.
#[derive(Debug)]
pub struct SaveGuard {
    held: bool,
}

/// Whether a save may begin.
pub open spec fn begin_granted(p: PersistState) -> bool {
    !p.saving
}

/// The state after somebody asked to begin a save.
pub open spec fn begun(p: PersistState) -> PersistState {
    PersistState { saving: true, ..p }
}

/// The state after a save has ended.
pub open spec fn ended(p: PersistState) -> PersistState {
    PersistState { saving: false, ..p }
}

/// One save runs at a time: once one was asked for, no other may begin, however often
/// it asks, until it has ended; then one may, and nothing else has changed.
pub proof fn law_one_save_at_a_time(p: PersistState)
    ensures
        !begin_granted(begun(p)),
        begun(begun(p)) == begun(p),
        begin_granted(ended(begun(p))),
        ended(begun(p)) == ended(p),
{
}

/// The state after one more shard has loaded.
pub open spec fn shard_loaded(p: PersistState) -> PersistState {
    PersistState {
        shards_pending_load: if p.shards_pending_load == 0 {
            usize::MAX
        } else {
            (p.shards_pending_load - 1) as usize
        },
        ..p
    }
}

/// The directory to remove when one more shard has loaded.
pub open spec fn removed_on_load(p: PersistState) -> Option<Seq<char>> {
    if p.shards_pending_load == 1 {
        opt_string(p.handoff_cleanup_dir)
    } else {
        None
    }
}

/// The state after `k` more shards have loaded.
pub open spec fn shards_loaded(p: PersistState, k: nat) -> PersistState
    decreases k,
{
    if k == 0 {
        p
    } else {
        shard_loaded(shards_loaded(p, (k - 1) as nat))
    }
}

/// The staging directory is removed once every shard has loaded, and not before: of
/// the loads that are due, the last one removes it, and no other removes anything.
pub proof fn law_staging_outlives_every_load(p: PersistState, k: nat)
    requires
        k < p.shards_pending_load,
    ensures
        shards_loaded(p, k) == (PersistState {
            shards_pending_load: (p.shards_pending_load - k) as usize,
            ..p
        }),
        removed_on_load(shards_loaded(p, k)) == (if k + 1 == p.shards_pending_load {
            opt_string(p.handoff_cleanup_dir)
        } else {
            None
        }),
    decreases k,
{
    if k > 0 {
        law_staging_outlives_every_load(p, (k - 1) as nat);
    }
}

/// The directory that a boot loads from, and the one to remove afterwards: the
/// staging directory where its snapshot is there and at least as fresh as the
/// durable one.
pub open spec fn boot_dirs(
    data_dir: Seq<char>,
    handoff_base: Option<Seq<char>>,
    handoff_saved: Option<u64>,
    durable_saved: Option<u64>,
) -> (Seq<char>, Option<Seq<char>>) {
    match (handoff_base, handoff_saved) {
        (Some(base), Some(h)) => if durable_saved is None || h >= durable_saved->0 {
            let staging = path_below(base, HANDOFF_SUBDIR@);
            (staging, Some(staging))
        } else {
            (data_dir, None)
        },
        _ => (data_dir, None),
    }
}

/// Which snapshot a boot loads from, and the staging directory to remove once it
/// has. The times are those in the manifests of the two directories.
pub fn resolve_boot_load_dir(
    data_dir: &str,
    handoff_base: Option<&str>,
    handoff_saved: Option<u64>,
    durable_saved: Option<u64>,
) -> (r: (String, Option<String>))
    ensures
        (r.0@, opt_string(r.1)) == boot_dirs(
            data_dir@,
            opt_str(handoff_base),
            handoff_saved,
            durable_saved,
        ),
        handoff_base is Some && handoff_saved is Some && (durable_saved is None || durable_saved->0
            <= handoff_saved->0) ==> r.0@ == path_below(handoff_base->0@, HANDOFF_SUBDIR@) && (
        r.1 matches Some(d) && d@ == r.0@),
        durable_saved is Some && (handoff_saved is None || durable_saved->0 > handoff_saved->0)
            ==> r.0@ == data_dir@ && r.1 is None,
{
    if let Some(base) = handoff_base {
        if let Some(h) = handoff_saved {
            let fresh = match durable_saved {
                Some(d) => h >= d,
                None => true,
            };
            if fresh {
                let staging = handoff_staging_dir(base);
                return (staging.clone(), Some(staging));
            }
        }
    }
    (copy_str(data_dir), None)
}

/// The text of an optional string slice.
pub open spec fn opt_str(s: Option<&str>) -> Option<Seq<char>> {
    match s {
        Some(t) => Some(t@),
        None => None,
    }
}

/// Where the snapshot of an upgrade goes: into RAM where its size is known and it
/// fits there with headroom.
pub open spec fn handoff_choice(
    base: Option<Seq<char>>,
    live_mem: u64,
    maxmemory: u64,
    available: Option<u64>,
) -> Option<Seq<char>> {
    let estimate = if live_mem > maxmemory {
        live_mem
    } else {
        maxmemory
    };
    if base is Some && estimate > 0 && fits_in_ram(estimate, available, headroom(estimate)) {
        Some(path_below(base->0, HANDOFF_SUBDIR@))
    } else {
        None
    }
}

/// The directory of a handoff target.
pub open spec fn target_dir(t: HandoffTarget) -> Option<Seq<char>> {
    match t {
        HandoffTarget::Tmpfs(d) => Some(d@),
        HandoffTarget::DataDir => None,
    }
}

/// A counter that goes round at its end.
pub open spec fn next_count(n: u64) -> u64 {
    if n == u64::MAX {
        0
    } else {
        (n + 1) as u64
    }
}

fn count_up(n: u64) -> (r: u64)
    ensures
        r == next_count(n),
{
    if n == u64::MAX {
        0
    } else {
        n + 1
    }
}

impl PersistState {
    /// The state of a node that has a data directory; no state where it has none.
    pub fn from_config(
        data_dir: Option<&str>,
        handoff_base: Option<&str>,
        handoff_saved: Option<u64>,
        durable_saved: Option<u64>,
        shards: usize,
    ) -> (r: Option<PersistState>)
        ensures
            r is Some <==> data_dir is Some,
            r matches Some(p) ==> {
                let dirs = boot_dirs(
                    data_dir->0@,
                    opt_str(handoff_base),
                    handoff_saved,
                    durable_saved,
                );
                &&& p.dir@ == data_dir->0@
                &&& opt_string(p.handoff_base) == opt_str(handoff_base)
                &&& p.boot_load_dir@ == dirs.0
                &&& opt_string(p.handoff_cleanup_dir) == dirs.1
                &&& p.shards_pending_load == (if shards == 0 {
                    1
                } else {
                    shards
                })
                &&& p.stats == PersistStats {
                    last_save_unix_secs: 0,
                    dirty: 0,
                    last_bgsave_ok: true,
                }
                &&& p.save_id == 0
                &&& !p.saving
                &&& p.needs_base
            },
    {
        match data_dir {
            Some(dir) => {
                let (boot_load_dir, handoff_cleanup_dir) = resolve_boot_load_dir(
                    dir,
                    handoff_base,
                    handoff_saved,
                    durable_saved,
                );
                let base = match handoff_base {
                    Some(b) => Some(copy_str(b)),
                    None => None,
                };
                Some(
                    PersistState {
                        dir: copy_str(dir),
                        handoff_base: base,
                        boot_load_dir,
                        handoff_cleanup_dir,
                        shards_pending_load: if shards == 0 {
                            1
                        } else {
                            shards
                        },
                        stats: PersistStats {
                            last_save_unix_secs: 0,
                            dirty: 0,
                            last_bgsave_ok: true,
                        },
                        save_id: 0,
                        saving: false,
                        needs_base: true,
                    },
                )
            },
            None => None,
        }
    }

    /// The figures of the node's saves.
    pub fn stats(&self) -> (r: PersistStats)
        ensures
            r == self.stats,
    {
        self.stats
    }

    /// When the last save was committed.
    pub fn last_save(&self) -> (r: u64)
        ensures
            r == self.stats.last_save_unix_secs,
    {
        self.stats.last_save_unix_secs
    }

    /// How many writes there were since the last durable save.
    pub fn dirty(&self) -> (r: u64)
        ensures
            r == self.stats.dirty,
    {
        self.stats.dirty
    }

    /// Takes the time of the last save from the manifest of the snapshot that this
    /// boot has loaded, unless a save has set it already.
    pub fn seed_last_save_from_manifest(&mut self, saved: Option<u64>)
        ensures
            *final(self) == (PersistState {
                stats: PersistStats {
                    last_save_unix_secs: if old(self).stats.last_save_unix_secs == 0
                        && saved is Some {
                        saved->0
                    } else {
                        old(self).stats.last_save_unix_secs
                    },
                    ..old(self).stats
                },
                ..*old(self)
            }),
    {
        if self.stats.last_save_unix_secs == 0 {
            if let Some(secs) = saved {
                self.stats.last_save_unix_secs = secs;
            }
        }
    }

    /// Counts a write.
    pub fn note_write(&mut self)
        ensures
            *final(self) == (PersistState {
                stats: PersistStats {
                    dirty: next_count(old(self).stats.dirty),
                    ..old(self).stats
                },
                ..*old(self)
            }),
    {
        self.stats.dirty = count_up(self.stats.dirty);
    }

    /// Takes the save latch, unless a save is under way.
    pub fn try_begin_save(&mut self) -> (r: Option<SaveGuard>)
        ensures
            r is Some <==> begin_granted(*old(self)),
            *final(self) == begun(*old(self)),
    {
        if self.saving {
            None
        } else {
            self.saving = true;
            Some(SaveGuard { held: true })
        }
    }

    /// Frees the save latch.
    pub fn release_save(&mut self)
        ensures
            *final(self) == ended(*old(self)),
    {
        self.saving = false;
    }

    /// Records a base that was committed durably.
    pub fn record_committed(&mut self, save_unix_secs: u64)
        ensures
            *final(self) == (PersistState {
                stats: PersistStats {
                    last_save_unix_secs: save_unix_secs,
                    dirty: 0,
                    last_bgsave_ok: true,
                },
                save_id: next_count(old(self).save_id),
                ..*old(self)
            }),
    {
        self.stats = PersistStats {
            last_save_unix_secs: save_unix_secs,
            dirty: 0,
            last_bgsave_ok: true,
        };
        self.save_id = count_up(self.save_id);
    }

    /// Records a delta that was committed durably; it stays on its base.
    pub fn record_committed_delta(&mut self, save_unix_secs: u64)
        ensures
            *final(self) == (PersistState {
                stats: PersistStats {
                    last_save_unix_secs: save_unix_secs,
                    dirty: 0,
                    last_bgsave_ok: true,
                },
                ..*old(self)
            }),
    {
        self.stats = PersistStats {
            last_save_unix_secs: save_unix_secs,
            dirty: 0,
            last_bgsave_ok: true,
        };
    }

    /// Whether the next durable save has to be a base.
    pub fn needs_base(&self) -> (r: bool)
        ensures
            r == self.needs_base,
    {
        self.needs_base
    }

    /// The next durable save may be a delta.
    pub fn clear_needs_base(&mut self)
        ensures
            *final(self) == (PersistState { needs_base: false, ..*old(self) }),
    {
        self.needs_base = false;
    }

    /// The next durable save has to be a base.
    pub fn force_needs_base(&mut self)
        ensures
            *final(self) == (PersistState { needs_base: true, ..*old(self) }),
    {
        self.needs_base = true;
    }

    /// Records a save that failed. The last one stays valid.
    pub fn record_save_failed(&mut self)
        ensures
            *final(self) == (PersistState {
                stats: PersistStats { last_bgsave_ok: false, ..old(self).stats },
                ..*old(self)
            }),
    {
        self.stats.last_bgsave_ok = false;
    }

    /// Records the snapshot of an upgrade that went into RAM. It is no durable
    /// save: the count of writes and the health of the saves stay.
    pub fn record_handoff_committed(&mut self, save_unix_secs: u64)
        ensures
            *final(self) == (PersistState {
                stats: PersistStats {
                    last_save_unix_secs: save_unix_secs,
                    ..old(self).stats
                },
                save_id: next_count(old(self).save_id),
                ..*old(self)
            }),
    {
        self.stats.last_save_unix_secs = save_unix_secs;
        self.save_id = count_up(self.save_id);
    }

    /// Counts a shard that has loaded. The last one gets the directory to remove.
    pub fn note_shard_loaded(&mut self) -> (r: Option<String>)
        ensures
            *final(self) == shard_loaded(*old(self)),
            opt_string(r) == removed_on_load(*old(self)),
    {
        let pending: usize = self.shards_pending_load;
        self.shards_pending_load = if pending == 0 {
            usize::MAX
        } else {
            pending - 1
        };
        if pending == 1 {
            match &self.handoff_cleanup_dir {
                Some(dir) => Some(dir.clone()),
                None => None,
            }
        } else {
            None
        }
    }

    /// The generation that the next base gets.
    pub fn next_save_id(&self) -> (r: u64)
        ensures
            r == (if self.save_id == u64::MAX {
                u64::MAX
            } else {
                (self.save_id + 1) as u64
            }),
    {
        if self.save_id == u64::MAX {
            u64::MAX
        } else {
            self.save_id + 1
        }
    }

    /// Where the snapshot of an upgrade goes. The size is estimated from the memory
    /// in use and its ceiling, whichever is larger.
    pub fn resolve_handoff_target(
        &self,
        live_mem: u64,
        maxmemory: u64,
        available_ram_bytes: Option<u64>,
    ) -> (r: HandoffTarget)
        ensures
            target_dir(r) == handoff_choice(
                opt_string(self.handoff_base),
                live_mem,
                maxmemory,
                available_ram_bytes,
            ),
    {
        let estimate: u64 = if live_mem > maxmemory {
            live_mem
        } else {
            maxmemory
        };
        match &self.handoff_base {
            Some(base) => {
                if estimate == 0 {
                    return HandoffTarget::DataDir;
                }
                handoff_target(
                    estimate,
                    available_ram_bytes,
                    headroom_for(estimate),
                    base.as_str(),
                )
            },
            None => HandoffTarget::DataDir,
        }
    }
}

impl SaveGuard {
    /// Ends the save and frees the latch.
    pub fn release(self, persist: &mut PersistState)
        ensures
            *final(persist) == ended(*old(persist)),
    {
        persist.release_save();
    }
}

/// What an exit does next while it waits for the save latch.
#[derive(Debug)]
pub enum WaitStep {
    /// It has the latch.
    Acquired(SaveGuard),
    /// It sleeps for so many milliseconds, then looks again.
    Sleep(u64),
    /// It has waited long enough.
    TimedOut,
}

/// A wait for the save latch.
#[derive(Debug)]
pub struct SaveWait {
    /// For how many milliseconds it has slept.
    pub waited: u64,
    /// For how many milliseconds it may sleep in all.
    pub deadline: u64,
}

/// Begins to wait for the save latch.
pub fn wait_to_begin_save(deadline: u64) -> (r: SaveWait)
    ensures
        r.waited == 0,
        r.deadline == deadline,
{
    SaveWait { waited: 0, deadline }
}

/// How long the next sleep of a wait is.
pub open spec fn next_sleep(w: SaveWait) -> u64 {
    if w.deadline - w.waited < SHUTDOWN_SAVE_POLL {
        (w.deadline - w.waited) as u64
    } else {
        SHUTDOWN_SAVE_POLL
    }
}

impl SaveWait {
    /// Looks at the latch: takes it where it is free, sleeps where time is left,
    /// and gives up otherwise.
    pub fn poll(&mut self, persist: &mut PersistState) -> (r: WaitStep)
        ensures
            final(self).deadline == old(self).deadline,
            *final(persist) == (PersistState { saving: true, ..*old(persist) }),
            match r {
                WaitStep::Acquired(_) => !old(persist).saving && final(self).waited == old(
                    self,
                ).waited,
                WaitStep::Sleep(ms) => old(persist).saving && old(self).waited < old(self).deadline
                    && ms == next_sleep(*old(self)) && final(self).waited == old(self).waited + ms,
                WaitStep::TimedOut => old(persist).saving && old(self).waited >= old(self).deadline
                    && final(self).waited == old(self).waited,
            },
    {
        if let Some(guard) = persist.try_begin_save() {
            return WaitStep::Acquired(guard);
        }
        if self.waited >= self.deadline {
            return WaitStep::TimedOut;
        }
        let left: u64 = self.deadline - self.waited;
        let ms: u64 = if left < SHUTDOWN_SAVE_POLL {
            left
        } else {
            SHUTDOWN_SAVE_POLL
        };
        self.waited = self.waited + ms;
        WaitStep::Sleep(ms)
    }
}

/// How many more sleeps a wait has at most.
pub open spec fn sleeps_left(w: SaveWait) -> int
    decreases w.deadline - w.waited,
{
    if w.waited < w.deadline {
        1 + sleeps_left(SaveWait { waited: (w.waited + next_sleep(w)) as u64, ..w })
    } else {
        0
    }
}

/// A wait ends: a latch that never becomes free costs the deadline in sleeps, and
/// not more.
pub proof fn law_wait_is_bounded(w: SaveWait)
    ensures
        w.waited < w.deadline ==> {
            &&& 0 < next_sleep(w) <= SHUTDOWN_SAVE_POLL
            &&& w.waited + next_sleep(w) <= w.deadline
        },
        0 <= sleeps_left(w),
        w.waited <= w.deadline ==> sleeps_left(w) == (w.deadline - w.waited + SHUTDOWN_SAVE_POLL
            - 1) / SHUTDOWN_SAVE_POLL as int,
    decreases w.deadline - w.waited,
{
    if w.waited < w.deadline {
        law_wait_is_bounded(SaveWait { waited: (w.waited + next_sleep(w)) as u64, ..w });
    }
}

/// The part of a shard in a base.
#[derive(Debug, PartialEq, Eq)]
pub struct ShardManifestEntry {
    /// The shard.
    pub shard: u32,
    /// The file.
    pub file: String,
    /// How many keys it holds.
    pub keys: u64,
    /// Its checksum.
    pub crc: u32,
}

/// The part of a shard in a delta.
#[derive(Debug, PartialEq, Eq)]
pub struct DeltaManifestEntry {
    /// The shard.
    pub shard: u32,
    /// The file.
    pub file: String,
    /// How many keys it sets.
    pub puts: u64,
    /// How many keys it removes.
    pub tombstones: u64,
    /// Its checksum.
    pub crc: u32,
    /// The generation of the base that it goes on from.
    pub base_epoch: u64,
    /// Its place in the chain of deltas.
    pub delta_epoch: u64,
}

/// The mathematical value of a shard's part in a base.
pub struct EntryView {
    /// The shard.
    pub shard: u32,
    /// The file.
    pub file: Seq<char>,
    /// How many keys it holds.
    pub keys: u64,
    /// Its checksum.
    pub crc: u32,
}

/// The mathematical value of a shard's part in a delta.
pub struct DeltaView {
    /// The shard.
    pub shard: u32,
    /// The file.
    pub file: Seq<char>,
    /// How many keys it sets.
    pub puts: u64,
    /// How many keys it removes.
    pub tombstones: u64,
    /// Its checksum.
    pub crc: u32,
    /// The generation of the base that it goes on from.
    pub base_epoch: u64,
    /// Its place in the chain of deltas.
    pub delta_epoch: u64,
}

impl View for ShardManifestEntry {
    type V = EntryView;

    open spec fn view(&self) -> EntryView {
        EntryView { shard: self.shard, file: self.file@, keys: self.keys, crc: self.crc }
    }
}

impl View for DeltaManifestEntry {
    type V = DeltaView;

    open spec fn view(&self) -> DeltaView {
        DeltaView {
            shard: self.shard,
            file: self.file@,
            puts: self.puts,
            tombstones: self.tombstones,
            crc: self.crc,
            base_epoch: self.base_epoch,
            delta_epoch: self.delta_epoch,
        }
    }
}

impl ShardManifestEntry {
    fn copy(&self) -> (r: ShardManifestEntry)
        ensures
            r@ == self@,
    {
        ShardManifestEntry {
            shard: self.shard,
            file: self.file.clone(),
            keys: self.keys,
            crc: self.crc,
        }
    }
}

impl DeltaManifestEntry {
    fn copy(&self) -> (r: DeltaManifestEntry)
        ensures
            r@ == self@,
    {
        DeltaManifestEntry {
            shard: self.shard,
            file: self.file.clone(),
            puts: self.puts,
            tombstones: self.tombstones,
            crc: self.crc,
            base_epoch: self.base_epoch,
            delta_epoch: self.delta_epoch,
        }
    }
}

/// What a shard wrote in a save.
#[derive(Debug, PartialEq, Eq)]
pub enum SaveReply {
    /// Its part of a base.
    Base(ShardManifestEntry),
    /// Its part of a delta.
    Delta(DeltaManifestEntry),
}

/// The mathematical value of what a shard wrote.
pub enum SaveView {
    /// Its part of a base.
    Base(EntryView),
    /// Its part of a delta.
    Delta(DeltaView),
}

impl View for SaveReply {
    type V = SaveView;

    open spec fn view(&self) -> SaveView {
        match self {
            SaveReply::Base(e) => SaveView::Base(e@),
            SaveReply::Delta(d) => SaveView::Delta(d@),
        }
    }
}

/// The name of a shard's file in a base.
pub open spec fn shard_file(shard: u32) -> Seq<char> {
    "dump-shard-"@ + decimal(shard as nat) + ".icss"@
}

/// The name of a shard's file in a base.
pub fn shard_file_name(shard: u32) -> (r: String)
    ensures
        r@ == shard_file(shard),
{
    let mut r: String = "dump-shard-".to_owned();
    append_decimal(&mut r, shard as u64);
    r.append(".icss");
    r
}

/// The name of a shard's file in a delta.
pub open spec fn delta_file(shard: u32, delta_epoch: u64) -> Seq<char> {
    "dump-shard-"@ + decimal(shard as nat) + "-delta-"@ + decimal(delta_epoch as nat) + ".icsd"@
}

/// The name of a shard's file in a delta.
pub fn delta_file_name(shard: u32, delta_epoch: u64) -> (r: String)
    ensures
        r@ == delta_file(shard, delta_epoch),
{
    let mut r: String = "dump-shard-".to_owned();
    append_decimal(&mut r, shard as u64);
    r.append("-delta-");
    append_decimal(&mut r, delta_epoch);
    r.append(".icsd");
    r
}

/// An unsigned number as the signed one with the same bits.
pub open spec fn signed_bits(n: u64) -> i64 {
    if n <= i64::MAX {
        n as i64
    } else {
        (n - 0x1_0000_0000_0000_0000) as i64
    }
}

fn to_signed(n: u64) -> (r: i64)
    ensures
        r == signed_bits(n),
{
    if n <= 0x7fff_ffff_ffff_ffff {
        n as i64
    } else {
        let rest: i64 = (u64::MAX - n) as i64;
        -rest - 1
    }
}

/// Integers as values.
pub open spec fn integers(s: Seq<i64>) -> ValueModel {
    ValueModel::Array(Some(s.map_values(|n: i64| ValueModel::Integer(n))))
}

/// What a shard's answer to a save looks like: a tag, then the figures.
pub open spec fn encoded_save(r: SaveView) -> ValueModel {
    match r {
        SaveView::Base(e) => integers(
            seq![0i64, e.shard as i64, signed_bits(e.keys), e.crc as i64],
        ),
        SaveView::Delta(d) => integers(
            seq![
                1i64,
                d.shard as i64,
                signed_bits(d.puts),
                signed_bits(d.tombstones),
                d.crc as i64,
                signed_bits(d.base_epoch),
                signed_bits(d.delta_epoch),
            ],
        ),
    }
}

fn integer_array(ns: &[i64]) -> (v: Value)
    ensures
        v.model() == integers(ns@),
{
    let mut items: Vec<Value> = Vec::new();
    let ghost all = ns@.map_values(|n: i64| ValueModel::Integer(n));
    assert(values(items@) =~= all.take(0));
    for i in 0..ns.len()
        invariant
            all == ns@.map_values(|n: i64| ValueModel::Integer(n)),
            values(items@) == all.take(i as int),
    {
        let ghost before = items@;
        items.push(Value::Integer(ns[i]));
        proof {
            crate::value::lemma_values_push(before, Value::Integer(ns@[i as int]));
            assert(all.take(i as int + 1) =~= all.take(i as int).push(all[i as int]));
        }
    }
    assert(all.take(all.len() as int) =~= all);
    Value::Array(Some(items))
}

/// A shard's answer to a save.
pub fn encode_save_reply(reply: &SaveReply) -> (v: Value)
    ensures
        v.model() == encoded_save(reply@),
{
    match reply {
        SaveReply::Base(e) => {
            let ns = [0i64, e.shard as i64, to_signed(e.keys), e.crc as i64];
            assert(ns@ =~= seq![0i64, e.shard as i64, signed_bits(e.keys), e.crc as i64]);
            integer_array(&ns)
        },
        SaveReply::Delta(d) => {
            let ns = [
                1i64,
                d.shard as i64,
                to_signed(d.puts),
                to_signed(d.tombstones),
                d.crc as i64,
                to_signed(d.base_epoch),
                to_signed(d.delta_epoch),
            ];
            assert(ns@ =~= seq![
                1i64,
                d.shard as i64,
                signed_bits(d.puts),
                signed_bits(d.tombstones),
                d.crc as i64,
                signed_bits(d.base_epoch),
                signed_bits(d.delta_epoch),
            ]);
            integer_array(&ns)
        },
    }
}

/// The integers of an array that holds nothing else.
pub open spec fn integers_of(items: Seq<ValueModel>) -> Option<Seq<i64>>
    decreases items.len(),
{
    if items.len() == 0 {
        Some(Seq::empty())
    } else {
        match (integers_of(items.drop_last()), items.last()) {
            (Some(s), ValueModel::Integer(n)) => Some(s.push(n)),
            _ => None,
        }
    }
}

/// What figures say that a shard wrote. The tag says how many there are; a shard or
/// checksum has to fit in 32 bits, and nothing may be negative.
pub open spec fn decoded_figures(s: Seq<i64>) -> Option<SaveView> {
    if s.len() == 4 && s[0] == 0 {
        if 0 <= s[1] <= u32::MAX && 0 <= s[2] && 0 <= s[3] <= u32::MAX {
            Some(
                SaveView::Base(
                    EntryView {
                        shard: s[1] as u32,
                        file: shard_file(s[1] as u32),
                        keys: s[2] as u64,
                        crc: s[3] as u32,
                    },
                ),
            )
        } else {
            None
        }
    } else if s.len() == 7 && s[0] == 1 {
        if 0 <= s[1] <= u32::MAX && 0 <= s[2] && 0 <= s[3] && 0 <= s[4] <= u32::MAX && 0 <= s[5]
            && 0 <= s[6] {
            Some(
                SaveView::Delta(
                    DeltaView {
                        shard: s[1] as u32,
                        file: delta_file(s[1] as u32, s[6] as u64),
                        puts: s[2] as u64,
                        tombstones: s[3] as u64,
                        crc: s[4] as u32,
                        base_epoch: s[5] as u64,
                        delta_epoch: s[6] as u64,
                    },
                ),
            )
        } else {
            None
        }
    } else {
        None
    }
}

/// What a shard's answer says that it wrote.
pub open spec fn decoded_save(v: ValueModel) -> Option<SaveView> {
    match v {
        ValueModel::Array(Some(items)) => match integers_of(items) {
            Some(s) => decoded_figures(s),
            None => None,
        },
        _ => None,
    }
}

/// The mathematical value of an optional answer.
pub open spec fn opt_save(r: Option<SaveReply>) -> Option<SaveView> {
    match r {
        Some(x) => Some(x@),
        None => None,
    }
}

fn figures(items: &Vec<Value>) -> (r: Option<Vec<i64>>)
    ensures
        match r {
            Some(v) => integers_of(values(items@)) == Some(v@),
            None => integers_of(values(items@)) is None,
        },
{
    let ghost models = values(items@);
    let mut out: Vec<i64> = Vec::new();
    proof {
        crate::value::lemma_values(items@);
    }
    for i in 0..items.len()
        invariant
            models == values(items@),
            models.len() == items@.len(),
            forall|k: int| 0 <= k < items@.len() ==> #[trigger] models[k] == items@[k].model(),
            integers_of(models.take(i as int)) == Some(out@),
    {
        assert(models.take(i as int + 1).drop_last() =~= models.take(i as int));
        match &items[i] {
            Value::Integer(n) => {
                out.push(*n);
            },
            _ => {
                proof {
                    lemma_not_integers(models, i as int + 1);
                }
                return None;
            },
        }
    }
    assert(models.take(models.len() as int) =~= models);
    Some(out)
}

proof fn lemma_not_integers(items: Seq<ValueModel>, k: int)
    requires
        0 <= k <= items.len(),
        integers_of(items.take(k)) is None,
    ensures
        integers_of(items) is None,
    decreases items.len(),
{
    if k == items.len() {
        assert(items.take(k) =~= items);
    } else {
        assert(items.drop_last().take(k) =~= items.take(k));
        lemma_not_integers(items.drop_last(), k);
    }
}

/// What a shard's answer says that it wrote; nothing where the answer has another
/// shape.
pub fn decode_save_reply(value: &Value) -> (r: Option<SaveReply>)
    ensures
        opt_save(r) == decoded_save(value.model()),
{
    let items = match value {
        Value::Array(Some(items)) => items,
        _ => {
            return None;
        },
    };
    let s = match figures(items) {
        Some(s) => s,
        None => {
            return None;
        },
    };
    let max: i64 = 0xffff_ffff;
    if s.len() == 4 && s[0] == 0 {
        if s[1] < 0 || s[1] > max || s[2] < 0 || s[3] < 0 || s[3] > max {
            return None;
        }
        let shard: u32 = s[1] as u32;
        return Some(
            SaveReply::Base(
                ShardManifestEntry {
                    shard,
                    file: shard_file_name(shard),
                    keys: s[2] as u64,
                    crc: s[3] as u32,
                },
            ),
        );
    }
    if s.len() == 7 && s[0] == 1 {
        if s[1] < 0 || s[1] > max || s[2] < 0 || s[3] < 0 || s[4] < 0 || s[4] > max || s[5] < 0
            || s[6] < 0 {
            return None;
        }
        let shard: u32 = s[1] as u32;
        let delta_epoch: u64 = s[6] as u64;
        return Some(
            SaveReply::Delta(
                DeltaManifestEntry {
                    shard,
                    file: delta_file_name(shard, delta_epoch),
                    puts: s[2] as u64,
                    tombstones: s[3] as u64,
                    crc: s[4] as u32,
                    base_epoch: s[5] as u64,
                    delta_epoch,
                },
            ),
        );
    }
    None
}

proof fn lemma_integers_back(s: Seq<i64>)
    ensures
        integers_of(s.map_values(|n: i64| ValueModel::Integer(n))) == Some(s),
    decreases s.len(),
{
    let items = s.map_values(|n: i64| ValueModel::Integer(n));
    if s.len() > 0 {
        lemma_integers_back(s.drop_last());
        assert(items.drop_last() =~= s.drop_last().map_values(|n: i64| ValueModel::Integer(n)));
        assert(s.drop_last().push(s.last()) =~= s);
    } else {
        assert(s =~= Seq::<i64>::empty());
    }
}

/// Whether a shard's part has the file name that its figures give, and its counts
/// fit in an answer.
pub open spec fn answerable(r: SaveView) -> bool {
    match r {
        SaveView::Base(e) => e.file == shard_file(e.shard) && e.keys <= i64::MAX,
        SaveView::Delta(d) => d.file == delta_file(d.shard, d.delta_epoch) && d.puts <= i64::MAX
            && d.tombstones <= i64::MAX && d.base_epoch <= i64::MAX && d.delta_epoch <= i64::MAX,
    }
}

/// The home core reads out of a shard's answer what the shard wrote.
pub proof fn law_save_reply_round_trip(r: SaveView)
    requires
        answerable(r),
    ensures
        decoded_save(encoded_save(r)) == Some(r),
{
    match r {
        SaveView::Base(e) => {
            lemma_integers_back(seq![0i64, e.shard as i64, signed_bits(e.keys), e.crc as i64]);
        },
        SaveView::Delta(d) => {
            lemma_integers_back(
                seq![
                    1i64,
                    d.shard as i64,
                    signed_bits(d.puts),
                    signed_bits(d.tombstones),
                    d.crc as i64,
                    signed_bits(d.base_epoch),
                    signed_bits(d.delta_epoch),
                ],
            );
        },
    }
}

/// Whether a save is a base or goes on from one.
#[derive(Debug, Clone, Copy, PartialEq, Eq, Structural)]
pub enum SaveMode {
    /// A base.
    Base,
    /// A delta.
    Delta {
        /// The generation of the base.
        base_epoch: u64,
        /// The place in the chain.
        delta_epoch: u64,
    },
}

/// The request that lets a shard write its part of a save.
pub open spec fn save_args(
    save_unix_secs: u64,
    shard: usize,
    dir: Seq<char>,
    mode: SaveMode,
    paced: bool,
) -> Seq<Seq<u8>> {
    seq![
        encode_utf8(ICSAVE@),
        decimal_bytes(save_unix_secs as nat),
        decimal_bytes(shard as nat),
        encode_utf8(dir),
        if paced {
            seq![49u8]
        } else {
            seq![48u8]
        },
    ] + match mode {
        SaveMode::Base => Seq::empty(),
        SaveMode::Delta { base_epoch, delta_epoch } => seq![
            decimal_bytes(base_epoch as nat),
            decimal_bytes(delta_epoch as nat),
        ],
    }
}

fn decimal_vec(n: u64) -> (v: Vec<u8>)
    ensures
        v@ == decimal_bytes(n as nat),
{
    let mut v: Vec<u8> = Vec::new();
    push_decimal_bytes(&mut v, n);
    assert(v@ =~= decimal_bytes(n as nat));
    v
}

/// The request that lets a shard write its part of a save.
pub fn icsave_request(
    save_unix_secs: u64,
    shard: usize,
    dir: &str,
    mode: SaveMode,
    paced: bool,
) -> (r: Request)
    ensures
        arguments(r) == save_args(save_unix_secs, shard, dir@, mode, paced),
{
    let mut args: Vec<Vec<u8>> = Vec::new();
    args.push(bytes_of(ICSAVE));
    args.push(decimal_vec(save_unix_secs));
    args.push(decimal_vec(shard as u64));
    args.push(bytes_of(dir));
    let mut flag: Vec<u8> = Vec::new();
    flag.push(
        if paced {
            49
        } else {
            48
        },
    );
    args.push(flag);
    assert(args@[4]@ =~= (if paced {
        seq![49u8]
    } else {
        seq![48u8]
    }));
    if let SaveMode::Delta { base_epoch, delta_epoch } = mode {
        args.push(decimal_vec(base_epoch));
        args.push(decimal_vec(delta_epoch));
    }
    let r = Request { args };
    assert(arguments(r) =~= save_args(save_unix_secs, shard, dir@, mode, paced));
    r
}

/// What a shard is asked to write.
#[derive(Debug)]
pub struct SaveOrder {
    /// The time of the save.
    pub save_unix_secs: u64,
    /// The shard, as its file names it.
    pub shard: u32,
    /// The directory.
    pub dir: String,
    /// Whether the write leaves bandwidth to others.
    pub paced: bool,
    /// Whether it is a base or a delta.
    pub mode: SaveMode,
}

/// The mathematical value of an order to save.
pub struct OrderView {
    /// The time of the save.
    pub save_unix_secs: u64,
    /// The shard, as its file names it.
    pub shard: u32,
    /// The directory.
    pub dir: Seq<char>,
    /// Whether the write leaves bandwidth to others.
    pub paced: bool,
    /// Whether it is a base or a delta.
    pub mode: SaveMode,
}

impl View for SaveOrder {
    type V = OrderView;

    open spec fn view(&self) -> OrderView {
        OrderView {
            save_unix_secs: self.save_unix_secs,
            shard: self.shard,
            dir: self.dir@,
            paced: self.paced,
            mode: self.mode,
        }
    }
}

/// The number that bytes spell.
pub open spec fn number_of(b: Seq<u8>) -> Option<nat> {
    if all_ascii(b) {
        unsigned_of(ascii_chars(b), u64::MAX as nat)
    } else {
        None
    }
}

fn parse_number(b: &[u8]) -> (r: Option<u64>)
    ensures
        match r {
            Some(n) => number_of(b@) == Some(n as nat),
            None => number_of(b@) is None,
        },
{
    let mut chars: Vec<char> = Vec::new();
    for i in 0..b.len()
        invariant
            forall|j: int| 0 <= j < i ==> #[trigger] b@[j] < 128,
            chars@ =~= ascii_chars(b@).take(i as int),
    {
        if b[i] >= 128 {
            return None;
        }
        chars.push(b[i] as char);
    }
    assert(chars@ =~= ascii_chars(b@));
    parse_unsigned(chars.as_slice(), u64::MAX)
}

/// What a request says of the kind of file: two more arguments that hold epochs make
/// it a delta.
pub open spec fn mode_of(args: Seq<Seq<u8>>) -> SaveMode {
    if args.len() < 7 {
        SaveMode::Base
    } else {
        match (number_of(args[5]), number_of(args[6])) {
            (Some(b), Some(d)) => SaveMode::Delta { base_epoch: b as u64, delta_epoch: d as u64 },
            _ => SaveMode::Base,
        }
    }
}

/// What a request asks a shard to write; nothing where it is malformed.
pub open spec fn order_of(args: Seq<Seq<u8>>) -> Option<OrderView> {
    if args.len() < 4 {
        None
    } else {
        match (number_of(args[1]), number_of(args[2])) {
            (Some(secs), Some(shard)) => Some(
                OrderView {
                    save_unix_secs: secs as u64,
                    shard: (shard % 0x1_0000_0000) as u32,
                    dir: bytes_text(args[3]),
                    paced: args.len() > 4 && args[4] == seq![49u8],
                    mode: mode_of(args),
                },
            ),
            _ => None,
        }
    }
}

/// What a request asks this shard to write. Two more arguments that hold epochs make
/// it a delta; it is malformed only where the time, the shard or the directory is.
pub fn save_order(request: &Request) -> (r: Result<SaveOrder, ErrorReply>)
    ensures
        match r {
            Ok(o) => order_of(arguments(*request)) == Some(o@),
            Err(e) => order_of(arguments(*request)) is None && e.message@ == "malformed __ICSAVE"@,
        },
{
    let n: usize = request.args.len();
    if n < 4 {
        return Err(ErrorReply::err("malformed __ICSAVE"));
    }
    let (secs, shard) = match (
        parse_number(request.args[1].as_slice()),
        parse_number(request.args[2].as_slice()),
    ) {
        (Some(a), Some(b)) => (a, b),
        _ => {
            return Err(ErrorReply::err("malformed __ICSAVE"));
        },
    };
    let mode = if n < 7 {
        SaveMode::Base
    } else {
        match (
            parse_number(request.args[5].as_slice()),
            parse_number(request.args[6].as_slice()),
        ) {
            (Some(b), Some(d)) => SaveMode::Delta { base_epoch: b, delta_epoch: d },
            _ => SaveMode::Base,
        }
    };
    let one = [49u8];
    assert(one@ =~= seq![49u8]);
    let paced = n > 4 && same_bytes(request.args[4].as_slice(), &one);
    Ok(
        SaveOrder {
            save_unix_secs: secs,
            shard: (shard % 0x1_0000_0000) as u32,
            dir: text_of(request.args[3].as_slice()),
            paced,
            mode,
        },
    )
}

/// A shard reads out of a request what the home core asked for, the shard within 32
/// bits.
pub proof fn law_save_order_round_trip(
    save_unix_secs: u64,
    shard: usize,
    dir: Seq<char>,
    mode: SaveMode,
    paced: bool,
)
    ensures
        order_of(save_args(save_unix_secs, shard, dir, mode, paced)) == Some(
            OrderView {
                save_unix_secs,
                shard: (shard as nat % 0x1_0000_0000) as u32,
                dir,
                paced,
                mode,
            },
        ),
{
    lemma_text_back(dir);
    let args = save_args(save_unix_secs, shard, dir, mode, paced);
    lemma_number_back(save_unix_secs as nat);
    lemma_number_back(shard as nat);
    assert(args[1] == decimal_bytes(save_unix_secs as nat));
    assert(args[2] == decimal_bytes(shard as nat));
    assert(seq![49u8][0] != seq![48u8][0]);
    match mode {
        SaveMode::Base => {},
        SaveMode::Delta { base_epoch, delta_epoch } => {
            lemma_number_back(base_epoch as nat);
            lemma_number_back(delta_epoch as nat);
            assert(args[5] == decimal_bytes(base_epoch as nat));
            assert(args[6] == decimal_bytes(delta_epoch as nat));
        },
    }
}

proof fn lemma_number_back(n: nat)
    requires
        n <= u64::MAX,
    ensures
        number_of(decimal_bytes(n)) == Some(n),
{
    lemma_decimal_bytes(n);
    lemma_decimal_round_trip(n, u64::MAX as nat);
}

/// How the write of a shard's part ended.
#[derive(Debug)]
pub enum PersistEnd {
    /// The thread that writes could not be started.
    NotSpawned(String),
    /// The part was written.
    Written(SaveReply),
    /// The write failed.
    Failed(String),
    /// The thread ended without a result.
    Lost,
}

/// A shard's answer to how its write ended.
pub open spec fn save_answer(end: PersistEnd) -> ValueModel {
    match end {
        PersistEnd::NotSpawned(e) => ValueModel::Error(
            "save failed: cannot spawn persist thread: "@ + e@,
        ),
        PersistEnd::Written(reply) => encoded_save(reply@),
        PersistEnd::Failed(e) => ValueModel::Error("save failed: "@ + e@),
        PersistEnd::Lost => ValueModel::Error(
            "save failed: persist thread ended without a result"@,
        ),
    }
}

fn joined(head: &str, tail: &str) -> (r: String)
    ensures
        r@ == head@ + tail@,
{
    let mut r: String = copy_str(head);
    r.append(tail);
    r
}

/// A shard's answer to how its write ended.
pub fn answer_save(end: PersistEnd) -> (v: Value)
    ensures
        v.model() == save_answer(end),
{
    match end {
        PersistEnd::NotSpawned(e) => Value::error(
            ErrorReply { message: joined("save failed: cannot spawn persist thread: ", e.as_str()) },
        ),
        PersistEnd::Written(reply) => encode_save_reply(&reply),
        PersistEnd::Failed(e) => Value::error(
            ErrorReply { message: joined("save failed: ", e.as_str()) },
        ),
        PersistEnd::Lost => Value::error(
            ErrorReply::err("save failed: persist thread ended without a result"),
        ),
    }
}

/// The end of a write whose thread panicked; `cause` is the text of the panic, where
/// it has one.
pub fn persist_panicked(cause: Option<&str>) -> (r: PersistEnd)
    ensures
        r matches PersistEnd::Failed(e) && e@ == "persist thread panicked: "@ + (match cause {
            Some(c) => c@,
            None => "non-string panic payload"@,
        }),
{
    PersistEnd::Failed(
        joined(
            "persist thread panicked: ",
            match cause {
                Some(c) => c,
                None => "non-string panic payload",
            },
        ),
    )
}

/// What happens to a shard that is to write its part of a save.
#[derive(Debug)]
pub enum ShardSaveEvent {
    /// It is asked to.
    Asked(Request),
    /// The write has ended.
    Ended(PersistEnd),
}

/// What a shard does about it.
#[derive(Debug)]
pub enum ShardSaveStep {
    /// Answers; nothing was frozen.
    Answer(Value),
    /// Freezes its keys, and writes them from a thread of their own.
    FreezeAndWrite(SaveOrder),
    /// Ends the freeze, then answers.
    ThawAndAnswer(Value),
}

/// What a shard does to write its part of a save. Whatever becomes of the write, the
/// freeze is ended before the shard answers.
pub fn save_shard_local(event: ShardSaveEvent) -> (r: ShardSaveStep)
    ensures
        match event {
            ShardSaveEvent::Asked(request) => match order_of(arguments(request)) {
                Some(o) => r matches ShardSaveStep::FreezeAndWrite(order) && order@ == o,
                None => r matches ShardSaveStep::Answer(v) && v.model() == ValueModel::Error(
                    "malformed __ICSAVE"@,
                ),
            },
            ShardSaveEvent::Ended(end) => r matches ShardSaveStep::ThawAndAnswer(v) && v.model()
                == save_answer(end),
        },
{
    match event {
        ShardSaveEvent::Asked(request) => match save_order(&request) {
            Ok(order) => ShardSaveStep::FreezeAndWrite(order),
            Err(e) => ShardSaveStep::Answer(Value::error(e)),
        },
        ShardSaveEvent::Ended(end) => ShardSaveStep::ThawAndAnswer(answer_save(end)),
    }
}

/// The home shard's reply to how its own write ended. A save moves no counter.
pub fn run_local_save(end: PersistEnd) -> (r: ShardReply)
    ensures
        r@ == (ReplyView { value: save_answer(end), deltas: no_deltas() }),
{
    ShardReply { value: answer_save(end), deltas: CounterDeltas::default() }
}

/// What a committed snapshot consists of.
#[derive(Debug)]
pub struct Manifest {
    /// The generation of its base.
    pub save_id: u64,
    /// When it was saved.
    pub save_unix_secs: u64,
    /// The parts of its base.
    pub entries: Vec<ShardManifestEntry>,
    /// The parts of its deltas, in the order of the chain.
    pub deltas: Vec<DeltaManifestEntry>,
}

/// Parts of a base.
pub open spec fn entry_views(s: Seq<ShardManifestEntry>) -> Seq<EntryView> {
    s.map_values(|e: ShardManifestEntry| e@)
}

/// Parts of deltas.
pub open spec fn delta_views(s: Seq<DeltaManifestEntry>) -> Seq<DeltaView> {
    s.map_values(|d: DeltaManifestEntry| d@)
}

/// The contents of the manifest that a save commits.
#[derive(Debug)]
pub struct Commit {
    /// The generation of its base.
    pub save_id: u64,
    /// The parts of its base.
    pub entries: Vec<ShardManifestEntry>,
    /// The parts of its deltas.
    pub deltas: Vec<DeltaManifestEntry>,
}

/// The mathematical value of what a save commits.
pub struct CommitView {
    /// The generation of its base.
    pub save_id: u64,
    /// The parts of its base.
    pub entries: Seq<EntryView>,
    /// The parts of its deltas.
    pub deltas: Seq<DeltaView>,
}

impl View for Commit {
    type V = CommitView;

    open spec fn view(&self) -> CommitView {
        CommitView {
            save_id: self.save_id,
            entries: entry_views(self.entries@),
            deltas: delta_views(self.deltas@),
        }
    }
}

/// The mathematical value of a manifest.
pub open spec fn manifest_view(m: Manifest) -> CommitView {
    CommitView {
        save_id: m.save_id,
        entries: entry_views(m.entries@),
        deltas: delta_views(m.deltas@),
    }
}

/// The first delta that is on another base.
pub open spec fn first_stray(deltas: Seq<DeltaView>, base_epoch: u64) -> Option<u64>
    decreases deltas.len(),
{
    if deltas.len() == 0 {
        None
    } else {
        match first_stray(deltas.drop_last(), base_epoch) {
            Some(e) => Some(e),
            None => if deltas.last().base_epoch != base_epoch {
                Some(deltas.last().base_epoch)
            } else {
                None
            },
        }
    }
}

/// The outcome of a step: what it gives, or the text of its error.
pub enum Outcome<T> {
    /// It gives something.
    Done(T),
    /// It fails.
    Failed(Seq<char>),
}

/// What a save commits, or why it commits nothing. A base starts a generation of
/// its own. A delta stays in the generation of its base and goes on from the
/// manifest before it; a delta on another base is refused, as a load would drop the
/// chain there.
pub open spec fn commit_of(
    mode: SaveMode,
    next_save_id: u64,
    prior: Option<CommitView>,
    entries: Seq<EntryView>,
    deltas: Seq<DeltaView>,
) -> Outcome<CommitView> {
    match mode {
        SaveMode::Base => if deltas.len() > 0 {
            Outcome::Failed(
                "base save received "@ + decimal(deltas.len()) + " unexpected delta replies"@,
            )
        } else {
            Outcome::Done(CommitView { save_id: next_save_id, entries, deltas: Seq::empty() })
        },
        SaveMode::Delta { base_epoch, .. } => if entries.len() > 0 {
            Outcome::Failed(
                "delta save received "@ + decimal(entries.len()) + " unexpected base replies"@,
            )
        } else {
            match prior {
                None => Outcome::Failed("delta save decided with no prior manifest"@),
                Some(p) => {
                    let all = p.deltas + deltas;
                    match first_stray(all, base_epoch) {
                        Some(e) => Outcome::Failed(
                            "delta base_epoch "@ + decimal(e as nat) + " != base generation "@
                                + decimal(base_epoch as nat)
                                + "; refusing a manifest that would silently truncate the delta chain on load"@,
                        ),
                        None => Outcome::Done(
                            CommitView { save_id: base_epoch, entries: p.entries, deltas: all },
                        ),
                    }
                },
            }
        },
    }
}

/// The mathematical value of a step's outcome.
pub open spec fn commit_outcome(r: Result<Commit, String>) -> Outcome<CommitView> {
    match r {
        Ok(c) => Outcome::Done(c@),
        Err(e) => Outcome::Failed(e@),
    }
}

/// The mathematical value of an optional manifest.
pub open spec fn opt_manifest(m: Option<&Manifest>) -> Option<CommitView> {
    match m {
        Some(x) => Some(manifest_view(*x)),
        None => None,
    }
}

proof fn lemma_stray_stays(deltas: Seq<DeltaView>, base_epoch: u64, k: int)
    requires
        0 <= k <= deltas.len(),
        first_stray(deltas.take(k), base_epoch) is Some,
    ensures
        first_stray(deltas, base_epoch) == first_stray(deltas.take(k), base_epoch),
    decreases deltas.len(),
{
    if k == deltas.len() {
        assert(deltas.take(k) =~= deltas);
    } else {
        assert(deltas.drop_last().take(k) =~= deltas.take(k));
        lemma_stray_stays(deltas.drop_last(), base_epoch, k);
    }
}

proof fn lemma_no_stray(deltas: Seq<DeltaView>, base_epoch: u64)
    ensures
        first_stray(deltas, base_epoch) is None <==> forall|i: int|
            0 <= i < deltas.len() ==> (#[trigger] deltas[i]).base_epoch == base_epoch,
    decreases deltas.len(),
{
    if deltas.len() > 0 {
        let front = deltas.drop_last();
        lemma_no_stray(front, base_epoch);
        assert(deltas.last() == deltas[deltas.len() - 1]);
        if first_stray(deltas, base_epoch) is None {
            assert forall|i: int| 0 <= i < deltas.len() implies (#[trigger] deltas[i]).base_epoch
                == base_epoch by {
                if i < front.len() {
                    assert(front[i] == deltas[i]);
                }
            }
        } else if forall|i: int|
            0 <= i < deltas.len() ==> (#[trigger] deltas[i]).base_epoch == base_epoch {
            assert forall|i: int| 0 <= i < front.len() implies (#[trigger] front[i]).base_epoch
                == base_epoch by {
                assert(front[i] == deltas[i]);
            }
        }
    }
}

fn stray(deltas: &Vec<DeltaManifestEntry>, base_epoch: u64) -> (r: Option<u64>)
    ensures
        r == first_stray(delta_views(deltas@), base_epoch),
{
    let ghost all = delta_views(deltas@);
    for i in 0..deltas.len()
        invariant
            all == delta_views(deltas@),
            first_stray(all.take(i as int), base_epoch) is None,
    {
        assert(all.take(i as int + 1).drop_last() =~= all.take(i as int));
        assert(all.take(i as int + 1).last() == deltas@[i as int]@);
        if deltas[i].base_epoch != base_epoch {
            proof {
                lemma_stray_stays(all, base_epoch, i as int + 1);
            }
            return Some(deltas[i].base_epoch);
        }
    }
    assert(all.take(all.len() as int) =~= all);
    None
}

fn copy_entries(v: &Vec<ShardManifestEntry>) -> (r: Vec<ShardManifestEntry>)
    ensures
        entry_views(r@) == entry_views(v@),
{
    let mut r: Vec<ShardManifestEntry> = Vec::new();
    for i in 0..v.len()
        invariant
            r@.len() == i,
            forall|k: int| 0 <= k < i ==> #[trigger] r@[k]@ == v@[k]@,
    {
        r.push(v[i].copy());
    }
    assert(entry_views(r@) =~= entry_views(v@));
    r
}

fn chain(prior: &Vec<DeltaManifestEntry>, more: Vec<DeltaManifestEntry>) -> (r: Vec<
    DeltaManifestEntry,
>)
    ensures
        delta_views(r@) == delta_views(prior@) + delta_views(more@),
{
    let mut r: Vec<DeltaManifestEntry> = Vec::new();
    for i in 0..prior.len()
        invariant
            r@.len() == i,
            forall|k: int| 0 <= k < i ==> #[trigger] r@[k]@ == prior@[k]@,
    {
        r.push(prior[i].copy());
    }
    assert(delta_views(r@) =~= delta_views(prior@));
    let ghost front = r@;
    let mut more = more;
    let ghost back = more@;
    r.append(&mut more);
    assert(delta_views(r@) =~= delta_views(front) + delta_views(back));
    r
}

/// What a save commits, or why it commits nothing.
pub fn assemble_commit(
    mode: SaveMode,
    next_save_id: u64,
    prior: Option<&Manifest>,
    base_entries: Vec<ShardManifestEntry>,
    delta_entries: Vec<DeltaManifestEntry>,
) -> (r: Result<Commit, String>)
    ensures
        commit_outcome(r) == commit_of(
            mode,
            next_save_id,
            opt_manifest(prior),
            entry_views(base_entries@),
            delta_views(delta_entries@),
        ),
{
    match mode {
        SaveMode::Base => {
            if delta_entries.len() > 0 {
                let mut e: String = "base save received ".to_owned();
                append_decimal(&mut e, delta_entries.len() as u64);
                e.append(" unexpected delta replies");
                return Err(e);
            }
            let deltas: Vec<DeltaManifestEntry> = Vec::new();
            assert(delta_views(deltas@) =~= Seq::<DeltaView>::empty());
            Ok(Commit { save_id: next_save_id, entries: base_entries, deltas })
        },
        SaveMode::Delta { base_epoch, .. } => {
            if base_entries.len() > 0 {
                let mut e: String = "delta save received ".to_owned();
                append_decimal(&mut e, base_entries.len() as u64);
                e.append(" unexpected base replies");
                return Err(e);
            }
            let prior = match prior {
                Some(p) => p,
                None => {
                    return Err("delta save decided with no prior manifest".to_owned());
                },
            };
            let deltas = chain(&prior.deltas, delta_entries);
            if let Some(bad) = stray(&deltas, base_epoch) {
                let mut e: String = "delta base_epoch ".to_owned();
                append_decimal(&mut e, bad);
                e.append(" != base generation ");
                append_decimal(&mut e, base_epoch);
                e.append(
                    "; refusing a manifest that would silently truncate the delta chain on load",
                );
                return Err(e);
            }
            Ok(Commit { save_id: base_epoch, entries: copy_entries(&prior.entries), deltas })
        },
    }
}

/// Every delta of a committed manifest is on the base of that manifest, so a load
/// never drops a part of the chain.
pub proof fn law_committed_chain_is_whole(
    mode: SaveMode,
    next_save_id: u64,
    prior: Option<CommitView>,
    entries: Seq<EntryView>,
    deltas: Seq<DeltaView>,
)
    ensures
        commit_of(mode, next_save_id, prior, entries, deltas) matches Outcome::Done(c) ==> {
            &&& forall|i: int|
                0 <= i < c.deltas.len() ==> (#[trigger] c.deltas[i]).base_epoch == c.save_id
            &&& match mode {
                SaveMode::Base => c.save_id == next_save_id && c.entries == entries,
                SaveMode::Delta { base_epoch, .. } => c.save_id == base_epoch && prior is Some
                    && c.entries == prior->0.entries && c.deltas == prior->0.deltas + deltas,
            }
        },
{
    match mode {
        SaveMode::Base => {},
        SaveMode::Delta { base_epoch, .. } => {
            if prior is Some {
                lemma_no_stray(prior->0.deltas + deltas, base_epoch);
            }
        },
    }
}

/// The parts that the shards wrote, up to a point.
pub struct Parts {
    /// The parts of a base.
    pub entries: Seq<EntryView>,
    /// The parts of a delta.
    pub deltas: Seq<DeltaView>,
}

/// What a shard's answer adds, or why the save fails.
pub open spec fn part_added(parts: Parts, shard: usize, v: ValueModel) -> Outcome<Parts> {
    match decoded_save(v) {
        Some(SaveView::Base(e)) => Outcome::Done(
            Parts { entries: parts.entries.push(e), deltas: parts.deltas },
        ),
        Some(SaveView::Delta(d)) => Outcome::Done(
            Parts { entries: parts.entries, deltas: parts.deltas.push(d) },
        ),
        None => Outcome::Failed(
            "shard "@ + decimal(shard as nat) + " save failed: "@ + (match v {
                ValueModel::Error(m) => m,
                _ => "unexpected reply"@,
            }),
        ),
    }
}

/// The parts that all shards wrote, or the first failure.
pub open spec fn collected(replies: Seq<(usize, ReplyView)>) -> Outcome<Parts>
    decreases replies.len(),
{
    if replies.len() == 0 {
        Outcome::Done(Parts { entries: Seq::empty(), deltas: Seq::empty() })
    } else {
        match collected(replies.drop_last()) {
            Outcome::Done(parts) => part_added(
                parts,
                replies.last().0,
                replies.last().1.value,
            ),
            Outcome::Failed(e) => Outcome::Failed(e),
        }
    }
}

proof fn lemma_collect_fails(replies: Seq<(usize, ReplyView)>, k: int)
    requires
        0 <= k <= replies.len(),
        collected(replies.take(k)) is Failed,
    ensures
        collected(replies) == collected(replies.take(k)),
    decreases replies.len(),
{
    if k == replies.len() {
        assert(replies.take(k) =~= replies);
    } else {
        assert(replies.drop_last().take(k) =~= replies.take(k));
        lemma_collect_fails(replies.drop_last(), k);
    }
}

fn collect_parts(replies: &[(usize, ShardReply)]) -> (r: Result<
    (Vec<ShardManifestEntry>, Vec<DeltaManifestEntry>),
    String,
>)
    ensures
        match r {
            Ok((es, ds)) => collected(replies_view(replies@)) == Outcome::Done(
                Parts { entries: entry_views(es@), deltas: delta_views(ds@) },
            ),
            Err(e) => collected(replies_view(replies@)) == Outcome::<Parts>::Failed(e@),
        },
{
    let ghost view = replies_view(replies@);
    let mut entries: Vec<ShardManifestEntry> = Vec::new();
    let mut deltas: Vec<DeltaManifestEntry> = Vec::new();
    proof {
        assert(entry_views(entries@) =~= Seq::<EntryView>::empty());
        assert(delta_views(deltas@) =~= Seq::<DeltaView>::empty());
    }
    for i in 0..replies.len()
        invariant
            view == replies_view(replies@),
            collected(view.take(i as int)) == Outcome::Done(
                Parts { entries: entry_views(entries@), deltas: delta_views(deltas@) },
            ),
    {
        proof {
            assert(view.take(i as int + 1).drop_last() =~= view.take(i as int));
            assert(view.take(i as int + 1).last() == view[i as int]);
            assert(view[i as int].1 == replies@[i as int].1@);
        }
        match decode_save_reply(&replies[i].1.value) {
            Some(SaveReply::Base(e)) => {
                let ghost before = entries@;
                entries.push(e);
                assert(entry_views(entries@) =~= entry_views(before).push(e@));
            },
            Some(SaveReply::Delta(d)) => {
                let ghost before = deltas@;
                deltas.push(d);
                assert(delta_views(deltas@) =~= delta_views(before).push(d@));
            },
            None => {
                let mut e: String = "shard ".to_owned();
                append_decimal(&mut e, replies[i].0 as u64);
                e.append(" save failed: ");
                match &replies[i].1.value {
                    Value::Error(detail) => {
                        e.append(detail.message.as_str());
                    },
                    _ => {
                        e.append("unexpected reply");
                    },
                }
                proof {
                    lemma_collect_fails(view, i as int + 1);
                }
                return Err(e);
            },
        }
    }
    assert(view.take(view.len() as int) =~= view);
    Ok((entries, deltas))
}

/// A save over all shards.
#[derive(Debug)]
pub struct SaveRun {
    /// When it is taken.
    pub save_unix_secs: u64,
    /// Where it goes.
    pub dir: String,
    /// Whether it goes to the data directory.
    pub durable: bool,
    /// Whether the writes leave bandwidth to others.
    pub paced: bool,
    /// Whether the node saves deltas at all.
    pub snapshot_deltas: bool,
}

/// Whether a save may be a delta: a durable one, on a node that saves deltas, that
/// owes no base.
pub fn deltas_enabled(persist: &PersistState, run: &SaveRun) -> (r: bool)
    ensures
        r == (run.durable && run.snapshot_deltas && !persist.needs_base),
{
    run.durable && run.snapshot_deltas && !persist.needs_base()
}

/// The save of a snapshot into the data directory.
pub fn durable_run(
    persist: &PersistState,
    save_unix_secs: u64,
    paced: bool,
    snapshot_deltas: bool,
) -> (run: SaveRun)
    ensures
        run.save_unix_secs == save_unix_secs,
        run.dir@ == persist.dir@,
        run.durable,
        run.paced == paced,
        run.snapshot_deltas == snapshot_deltas,
{
    SaveRun { save_unix_secs, dir: persist.dir.clone(), durable: true, paced, snapshot_deltas }
}

/// The save of the snapshot of an upgrade: never paced, and durable only where it
/// goes to the data directory.
pub fn do_handoff_save_all(
    persist: &PersistState,
    target: HandoffTarget,
    save_unix_secs: u64,
    snapshot_deltas: bool,
) -> (run: SaveRun)
    ensures
        run.save_unix_secs == save_unix_secs,
        !run.paced,
        run.snapshot_deltas == snapshot_deltas,
        run.durable == (target_dir(target) is None),
        run.dir@ == (match target_dir(target) {
            Some(d) => d,
            None => persist.dir@,
        }),
{
    match target {
        HandoffTarget::Tmpfs(dir) => SaveRun {
            save_unix_secs,
            dir,
            durable: false,
            paced: false,
            snapshot_deltas,
        },
        HandoffTarget::DataDir => durable_run(persist, save_unix_secs, false, snapshot_deltas),
    }
}

/// The requests of a save: one per shard, in order.
pub fn save_requests(run: &SaveRun, mode: SaveMode, n_shards: usize) -> (r: Vec<(usize, Request)>)
    ensures
        r@.len() == n_shards,
        forall|i: int|
            0 <= i < n_shards ==> (#[trigger] r@[i]).0 == i && arguments(r@[i].1) == save_args(
                run.save_unix_secs,
                i as usize,
                run.dir@,
                mode,
                run.paced,
            ),
{
    let mut r: Vec<(usize, Request)> = Vec::new();
    for shard in 0..n_shards
        invariant
            r@.len() == shard,
            forall|i: int|
                0 <= i < shard ==> (#[trigger] r@[i]).0 == i && arguments(r@[i].1) == save_args(
                    run.save_unix_secs,
                    i as usize,
                    run.dir@,
                    mode,
                    run.paced,
                ),
    {
        r.push(
            (
                shard,
                icsave_request(run.save_unix_secs, shard, run.dir.as_str(), mode, run.paced),
            ),
        );
    }
    r
}

/// What a save commits once the shards have answered, or why it commits nothing.
pub open spec fn answered_commit(
    mode: SaveMode,
    next_save_id: u64,
    prior: Option<CommitView>,
    replies: Seq<(usize, ReplyView)>,
) -> Outcome<CommitView> {
    match collected(replies) {
        Outcome::Done(parts) => commit_of(
            mode,
            next_save_id,
            prior,
            parts.entries,
            parts.deltas,
        ),
        Outcome::Failed(e) => Outcome::Failed(e),
    }
}

/// The generation that the next base gets.
pub open spec fn next_generation(save_id: u64) -> u64 {
    if save_id == u64::MAX {
        u64::MAX
    } else {
        (save_id + 1) as u64
    }
}

/// The middle of a save: the shards have answered. On a node that saves deltas
/// their answers mean that they have let go of their list of changes, so a base is
/// owed until this save is committed durably.
pub fn save_all_to_dir(
    persist: &mut PersistState,
    run: &SaveRun,
    mode: SaveMode,
    prior: Option<&Manifest>,
    replies: &[(usize, ShardReply)],
) -> (r: Result<Commit, String>)
    ensures
        *final(persist) == (PersistState {
            needs_base: old(persist).needs_base || run.snapshot_deltas,
            ..*old(persist)
        }),
        commit_outcome(r) == answered_commit(
            mode,
            next_generation(old(persist).save_id),
            opt_manifest(prior),
            replies_view(replies@),
        ),
{
    if run.snapshot_deltas {
        persist.force_needs_base();
    }
    match collect_parts(replies) {
        Ok((entries, deltas)) => assemble_commit(
            mode,
            persist.next_save_id(),
            prior,
            entries,
            deltas,
        ),
        Err(e) => Err(e),
    }
}

/// The state after the manifest of a save was written.
pub open spec fn after_commit(persist: PersistState, run: SaveRun, mode: SaveMode) -> PersistState {
    let saved = PersistStats {
        last_save_unix_secs: run.save_unix_secs,
        dirty: 0,
        last_bgsave_ok: true,
    };
    if run.durable {
        PersistState {
            stats: saved,
            save_id: match mode {
                SaveMode::Base => next_count(persist.save_id),
                SaveMode::Delta { .. } => persist.save_id,
            },
            needs_base: false,
            ..persist
        }
    } else {
        PersistState {
            stats: PersistStats {
                last_save_unix_secs: run.save_unix_secs,
                ..persist.stats
            },
            save_id: next_count(persist.save_id),
            ..persist
        }
    }
}

/// The end of a save: the manifest was written, or it was not.
pub fn finish_save(
    persist: &mut PersistState,
    run: &SaveRun,
    mode: SaveMode,
    written: Result<(), String>,
) -> (r: Result<(), String>)
    ensures
        match written {
            Ok(_) => r is Ok && *final(persist) == after_commit(*old(persist), *run, mode),
            Err(e) => *final(persist) == *old(persist) && r is Err && r->Err_0@
                == "manifest write failed: "@ + e@,
        },
{
    match written {
        Ok(_) => {
            if run.durable {
                match mode {
                    SaveMode::Base => {
                        persist.record_committed(run.save_unix_secs);
                    },
                    SaveMode::Delta { .. } => {
                        persist.record_committed_delta(run.save_unix_secs);
                    },
                }
                persist.clear_needs_base();
            } else {
                persist.record_handoff_committed(run.save_unix_secs);
            }
            Ok(())
        },
        Err(e) => Err(joined("manifest write failed: ", e.as_str())),
    }
}

/// The error of a save whose directory cannot be created.
pub fn create_dir_error(dir: &str, error: &str) -> (r: String)
    ensures
        r@ == "cannot create snapshot dir "@ + dir@ + ": "@ + error@,
{
    let mut r: String = joined("cannot create snapshot dir ", dir);
    r.append(": ");
    r.append(error);
    r
}

/// The outcome of a save, recorded where it failed.
pub fn do_save_all(persist: &mut PersistState, outcome: Result<(), String>) -> (r: Result<
    (),
    String,
>)
    ensures
        r == outcome,
        *final(persist) == (if outcome is Err {
            PersistState {
                stats: PersistStats { last_bgsave_ok: false, ..old(persist).stats },
                ..*old(persist)
            }
        } else {
            *old(persist)
        }),
{
    if outcome.is_err() {
        persist.record_save_failed();
    }
    outcome
}

/// The outcome of a save that an exit gave a time limit; a save that did not end
/// in time failed.
pub fn do_save_all_bounded(
    persist: &mut PersistState,
    ended: Option<Result<(), String>>,
) -> (r: Result<(), String>)
    ensures
        match ended {
            Some(outcome) => r == outcome && *final(persist) == *old(persist),
            None => {
                &&& r is Err
                &&& r->Err_0@ == "save fan-out timed out (a shard did not answer in time)"@
                &&& *final(persist) == (PersistState {
                    stats: PersistStats { last_bgsave_ok: false, ..old(persist).stats },
                    ..*old(persist)
                })
            },
        },
{
    match ended {
        Some(outcome) => outcome,
        None => {
            persist.record_save_failed();
            Err("save fan-out timed out (a shard did not answer in time)".to_owned())
        },
    }
}

/// Whether a base is owed after a save: the state once the shards have answered
/// and, where there was something to commit, the manifest was written or not.
pub open spec fn base_owed(
    persist: PersistState,
    run: SaveRun,
    mode: SaveMode,
    commit: Outcome<CommitView>,
    written: bool,
) -> bool {
    let middle = PersistState {
        needs_base: persist.needs_base || run.snapshot_deltas,
        ..persist
    };
    if commit is Done && written {
        after_commit(middle, run, mode).needs_base
    } else {
        middle.needs_base
    }
}

/// On a node that saves deltas, a base is owed after every save but one that was
/// committed durably: whatever the shards let go of without a durable trace is
/// saved again in full.
pub proof fn law_base_is_owed_until_a_durable_commit(
    persist: PersistState,
    run: SaveRun,
    mode: SaveMode,
    commit: Outcome<CommitView>,
    written: bool,
)
    requires
        run.snapshot_deltas,
    ensures
        base_owed(persist, run, mode, commit, written) == !(commit is Done && written
            && run.durable),
{
}

/// A durable delta leaves the generation of its base as it was.
pub proof fn law_delta_stays_on_its_base(persist: PersistState, run: SaveRun, mode: SaveMode)
    requires
        mode is Delta,
        run.durable,
    ensures
        after_commit(persist, run, mode).save_id == persist.save_id,
{
}

/// A boot loads the fresher of the two snapshots: the one of an upgrade unless a durable
/// one is strictly newer, and where only one is there, that one. What it loads from the
/// staging directory it removes afterwards, and nothing else.
pub proof fn law_boot_loads_the_freshest_snapshot(
    data_dir: Seq<char>,
    base: Option<Seq<char>>,
    handed_over: Option<u64>,
    durable: Option<u64>,
)
    ensures
        base is Some && handed_over is Some && (durable is None || durable->0 <= handed_over->0)
            ==> {
            let r = boot_dirs(data_dir, base, handed_over, durable);
            &&& r.1 == Some(r.0)
            &&& r.0 == (if base->0.len() > 0 && base->0.last() != '/' {
                base->0 + seq!['/'] + HANDOFF_SUBDIR@
            } else {
                base->0 + HANDOFF_SUBDIR@
            })
        },
        base is None || handed_over is None || (durable is Some && durable->0 > handed_over->0)
            ==> {
            let r = boot_dirs(data_dir, base, handed_over, durable);
            &&& r.0 == data_dir
            &&& r.1 is None
        },
{
}

/// The snapshot of an upgrade goes into RAM if and only if there is a place for it, its
/// size is known, and it fits there and leaves a quarter of it, and at least 512 MiB,
/// free. Its size is taken to be the memory in use or the ceiling, whichever is larger.
pub proof fn law_handoff_goes_to_ram_where_it_fits(
    base: Option<Seq<char>>,
    live: u64,
    max: u64,
    free: Option<u64>,
)
    ensures
        handoff_choice(base, live, max, free) is Some <==> {
            &&& base is Some
            &&& free is Some
            &&& live > 0 || max > 0
            &&& live + live / 4 <= free->0
            &&& max + max / 4 <= free->0
            &&& live + 536870912 <= free->0
            &&& max + 536870912 <= free->0
        },
        handoff_choice(base, live, max, free) matches Some(dir) ==> boot_dirs(
            dir,
            base,
            Some(0),
            None,
        ).0 == dir,
{
}

/// A counter goes up by one, and round at its end.
pub proof fn law_counters_go_up_by_one(n: u64)
    ensures
        n < u64::MAX ==> next_count(n) == n + 1 && next_generation(n) == n + 1,
        next_count(u64::MAX) == 0,
        next_generation(u64::MAX) == u64::MAX,
{
}

/// When a save can be committed: a base where no shard sent a delta; a delta where no
/// shard sent a base, there is a manifest to go on from, and every delta of the whole
/// chain is on its base.
pub proof fn law_when_a_save_commits(
    mode: SaveMode,
    next_save_id: u64,
    prior: Option<CommitView>,
    entries: Seq<EntryView>,
    deltas: Seq<DeltaView>,
)
    ensures
        commit_of(mode, next_save_id, prior, entries, deltas) is Done <==> (match mode {
            SaveMode::Base => deltas.len() == 0,
            SaveMode::Delta { base_epoch, .. } => {
                &&& entries.len() == 0
                &&& prior is Some
                &&& forall|i: int|
                    0 <= i < prior->0.deltas.len() ==> (#[trigger] prior->0.deltas[i]).base_epoch
                        == base_epoch
                &&& forall|i: int|
                    0 <= i < deltas.len() ==> (#[trigger] deltas[i]).base_epoch == base_epoch
            },
        }),
        mode is Base ==> (commit_of(mode, next_save_id, prior, entries, deltas) matches
            Outcome::Done(c) ==> c.deltas.len() == 0),
{
    if let SaveMode::Delta { base_epoch, .. } = mode {
        if prior is Some {
            let all = prior->0.deltas + deltas;
            lemma_stray_or_not(all, base_epoch);
            if forall|i: int| 0 <= i < all.len() ==> (#[trigger] all[i]).base_epoch == base_epoch {
                assert forall|i: int| 0 <= i < prior->0.deltas.len() implies (
                #[trigger] prior->0.deltas[i]).base_epoch == base_epoch by {
                    assert(all[i] == prior->0.deltas[i]);
                }
                assert forall|i: int| 0 <= i < deltas.len() implies (
                #[trigger] deltas[i]).base_epoch == base_epoch by {
                    assert(all[prior->0.deltas.len() + i] == deltas[i]);
                }
            } else {
                let i = choose|i: int|
                    0 <= i < all.len() && (#[trigger] all[i]).base_epoch != base_epoch;
                if i < prior->0.deltas.len() {
                    assert(prior->0.deltas[i].base_epoch != base_epoch);
                } else {
                    assert(deltas[i - prior->0.deltas.len()].base_epoch != base_epoch);
                }
            }
        }
    }
}

proof fn lemma_stray_or_not(deltas: Seq<DeltaView>, base_epoch: u64)
    ensures
        first_stray(deltas, base_epoch) is None <==> forall|i: int|
            0 <= i < deltas.len() ==> (#[trigger] deltas[i]).base_epoch == base_epoch,
    decreases deltas.len(),
{
    if deltas.len() > 0 {
        let front = deltas.drop_last();
        lemma_stray_or_not(front, base_epoch);
        if forall|i: int| 0 <= i < deltas.len() ==> (#[trigger] deltas[i]).base_epoch
            == base_epoch {
            assert forall|i: int| 0 <= i < front.len() implies (#[trigger] front[i]).base_epoch
                == base_epoch by {
                assert(front[i] == deltas[i]);
            }
            assert(deltas[deltas.len() - 1].base_epoch == base_epoch);
        } else {
            let i = choose|i: int|
                0 <= i < deltas.len() && (#[trigger] deltas[i]).base_epoch != base_epoch;
            if i < front.len() {
                assert(front[i].base_epoch != base_epoch);
            }
        }
    }
}

/// A save is collected if and only if every shard wrote its part, and then the part of
/// each shard is in it, and as many parts as there are shards.
pub proof fn law_every_shard_has_its_part(replies: Seq<(usize, ReplyView)>)
    ensures
        collected(replies) is Done <==> forall|k: int|
            0 <= k < replies.len() ==> decoded_save((#[trigger] replies[k]).1.value) is Some,
        collected(replies) matches Outcome::Done(parts) ==> {
            &&& parts.entries.len() + parts.deltas.len() == replies.len()
            &&& forall|k: int|
                0 <= k < replies.len() ==> match decoded_save((#[trigger] replies[k]).1.value) {
                    Some(SaveView::Base(e)) => parts.entries.contains(e),
                    Some(SaveView::Delta(d)) => parts.deltas.contains(d),
                    None => false,
                }
        },
    decreases replies.len(),
{
    if replies.len() > 0 {
        let front = replies.drop_last();
        law_every_shard_has_its_part(front);
        assert forall|k: int| 0 <= k < front.len() implies #[trigger] replies[k] == front[k] by {}
        let n = replies.len() - 1;
        if collected(replies) is Done {
            let before = collected(front)->Done_0;
            let parts = collected(replies)->Done_0;
            assert forall|k: int| 0 <= k < replies.len() implies match decoded_save(
                (#[trigger] replies[k]).1.value,
            ) {
                Some(SaveView::Base(e)) => parts.entries.contains(e),
                Some(SaveView::Delta(d)) => parts.deltas.contains(d),
                None => false,
            } by {
                if k < n {
                    assert(decoded_save(front[k].1.value) is Some);
                    match decoded_save(front[k].1.value) {
                        Some(SaveView::Base(e)) => {
                            let j = choose|j: int|
                                0 <= j < before.entries.len() && before.entries[j] == e;
                            assert(parts.entries[j] == e);
                        },
                        Some(SaveView::Delta(d)) => {
                            let j = choose|j: int|
                                0 <= j < before.deltas.len() && before.deltas[j] == d;
                            assert(parts.deltas[j] == d);
                        },
                        None => {},
                    }
                } else {
                    match decoded_save(replies[n].1.value) {
                        Some(SaveView::Base(e)) => {
                            assert(parts.entries.last() == e);
                        },
                        Some(SaveView::Delta(d)) => {
                            assert(parts.deltas.last() == d);
                        },
                        None => {},
                    }
                }
            }
        }
        if forall|k: int|
            0 <= k < replies.len() ==> decoded_save((#[trigger] replies[k]).1.value) is Some {
            assert forall|k: int| 0 <= k < front.len() implies decoded_save(
                (#[trigger] front[k]).1.value,
            ) is Some by {
                assert(decoded_save(replies[k].1.value) is Some);
            }
            assert(decoded_save(replies[n].1.value) is Some);
        }
    }
}

/// A shard whose write failed in any way answers with an error, which is no part of a
/// save; one that wrote answers with what it wrote.
pub proof fn law_a_failed_write_is_no_part(end: PersistEnd)
    ensures
        !(end is Written) ==> save_answer(end) is Error && decoded_save(save_answer(end)) is None,
        end matches PersistEnd::Written(r) ==> (answerable(r@) ==> decoded_save(save_answer(end))
            == Some(r@)),
{
    if let PersistEnd::Written(r) = end {
        if answerable(r@) {
            law_save_reply_round_trip(r@);
        }
    }
}

/// What a committed save records. A durable one is the last save, leaves no change
/// unsaved and went well; a base starts a new generation. The snapshot of an upgrade
/// counts as the last save, and the changes since the last durable save stay counted.
pub proof fn law_what_a_commit_records(persist: PersistState, run: SaveRun, mode: SaveMode)
    ensures
        after_commit(persist, run, mode).stats.last_save_unix_secs == run.save_unix_secs,
        run.durable ==> after_commit(persist, run, mode).stats.dirty == 0 && after_commit(
            persist,
            run,
            mode,
        ).stats.last_bgsave_ok && !after_commit(persist, run, mode).needs_base,
        !run.durable ==> after_commit(persist, run, mode).stats.dirty == persist.stats.dirty
            && after_commit(persist, run, mode).stats.last_bgsave_ok
            == persist.stats.last_bgsave_ok && after_commit(persist, run, mode).needs_base
            == persist.needs_base,
        (mode is Base || !run.durable) && persist.save_id < u64::MAX ==> after_commit(
            persist,
            run,
            mode,
        ).save_id == persist.save_id + 1,
        after_commit(persist, run, mode).saving == persist.saving,
        after_commit(persist, run, mode).dir == persist.dir,
{
}

/// The parts of different shards go to different files, and so do the deltas of one
/// shard.
pub proof fn law_files_differ(a: u32, b: u32, x: u64, y: u64)
    ensures
        a != b ==> shard_file(a) != shard_file(b),
        x != y ==> delta_file(a, x) != delta_file(a, y),
        shard_file(a) != delta_file(b, y),
{
    reveal_strlit("dump-shard-");
    reveal_strlit(".icss");
    reveal_strlit("-delta-");
    reveal_strlit(".icsd");
    lemma_decimal_value(a as nat);
    lemma_decimal_value(b as nat);
    lemma_decimal_value(x as nat);
    lemma_decimal_value(y as nat);
    let head = "dump-shard-"@;
    if shard_file(a) == shard_file(b) {
        assert(decimal(a as nat) =~= shard_file(a).subrange(
            head.len() as int,
            shard_file(a).len() - 5,
        ));
        assert(decimal(b as nat) =~= shard_file(b).subrange(
            head.len() as int,
            shard_file(b).len() - 5,
        ));
    }
    if delta_file(a, x) == delta_file(a, y) {
        let start = head.len() + decimal(a as nat).len() + 7;
        assert(decimal(x as nat) =~= delta_file(a, x).subrange(
            start as int,
            delta_file(a, x).len() - 5,
        ));
        assert(decimal(y as nat) =~= delta_file(a, y).subrange(
            start as int,
            delta_file(a, y).len() - 5,
        ));
    }
    assert(shard_file(a).last() == 's');
    assert(delta_file(b, y).last() == 'd');
}

/// The parts of a save, an order and a manifest are all that they hold.
pub proof fn law_views_of_a_save(
    e: ShardManifestEntry,
    d: DeltaManifestEntry,
    o: SaveOrder,
    m: Manifest,
    c: Commit,
    i: int,
)
    ensures
        e@.shard == e.shard && e@.file == e.file@ && e@.keys == e.keys && e@.crc == e.crc,
        d@.shard == d.shard && d@.file == d.file@ && d@.puts == d.puts && d@.tombstones
            == d.tombstones && d@.crc == d.crc && d@.base_epoch == d.base_epoch && d@.delta_epoch
            == d.delta_epoch,
        SaveReply::Base(e)@ == SaveView::Base(e@),
        SaveReply::Delta(d)@ == SaveView::Delta(d@),
        o@.save_unix_secs == o.save_unix_secs && o@.shard == o.shard && o@.dir == o.dir@ && o@.paced
            == o.paced && o@.mode == o.mode,
        manifest_view(m).save_id == m.save_id,
        manifest_view(m).entries.len() == m.entries@.len(),
        0 <= i < m.entries@.len() ==> manifest_view(m).entries[i] == m.entries@[i]@,
        manifest_view(m).deltas.len() == m.deltas@.len(),
        0 <= i < m.deltas@.len() ==> manifest_view(m).deltas[i] == m.deltas@[i]@,
        c@.save_id == c.save_id,
        c@.entries.len() == c.entries@.len(),
        0 <= i < c.entries@.len() ==> c@.entries[i] == c.entries@[i]@,
        c@.deltas.len() == c.deltas@.len(),
        0 <= i < c.deltas@.len() ==> c@.deltas[i] == c.deltas@[i]@,
{
}

/// A save that all shards answered is committed with the part of each of them: a base
/// with all their parts under the next generation, a delta with theirs behind the chain
/// of before. Where any shard failed nothing is committed.
pub proof fn law_a_commit_holds_every_part(
    mode: SaveMode,
    next_save_id: u64,
    prior: Option<CommitView>,
    replies: Seq<(usize, ReplyView)>,
    k: int,
)
    requires
        0 <= k < replies.len(),
    ensures
        decoded_save(replies[k].1.value) is None ==> answered_commit(
            mode,
            next_save_id,
            prior,
            replies,
        ) is Failed,
        answered_commit(mode, next_save_id, prior, replies) matches Outcome::Done(c) ==> match mode {
            SaveMode::Base => {
                &&& c.save_id == next_save_id
                &&& c.deltas.len() == 0
                &&& c.entries.len() == replies.len()
                &&& decoded_save(replies[k].1.value) matches Some(SaveView::Base(e))
                    && c.entries.contains(e)
            },
            SaveMode::Delta { base_epoch, .. } => {
                &&& c.save_id == base_epoch
                &&& prior is Some
                &&& c.entries == prior->0.entries
                &&& c.deltas.len() == prior->0.deltas.len() + replies.len()
                &&& c.deltas.take(prior->0.deltas.len() as int) == prior->0.deltas
                &&& decoded_save(replies[k].1.value) matches Some(SaveView::Delta(d))
                    && c.deltas.contains(d)
            },
        },
{
    law_every_shard_has_its_part(replies);
    match collected(replies) {
        Outcome::Done(parts) => {
            law_when_a_save_commits(mode, next_save_id, prior, parts.entries, parts.deltas);
            law_committed_chain_is_whole(mode, next_save_id, prior, parts.entries, parts.deltas);
            assert(decoded_save(replies[k].1.value) is Some);
            match (mode, commit_of(mode, next_save_id, prior, parts.entries, parts.deltas)) {
                (SaveMode::Base, Outcome::Done(c)) => {
                    if let Some(SaveView::Delta(d)) = decoded_save(replies[k].1.value) {
                        assert(parts.deltas.contains(d));
                    }
                },
                (SaveMode::Delta { .. }, Outcome::Done(c)) => {
                    let old = prior->0.deltas;
                    assert(c.deltas.take(old.len() as int) =~= old);
                    match decoded_save(replies[k].1.value) {
                        Some(SaveView::Base(e)) => {
                            assert(parts.entries.contains(e));
                        },
                        Some(SaveView::Delta(d)) => {
                            let j = choose|j: int|
                                0 <= j < parts.deltas.len() && parts.deltas[j] == d;
                            assert(c.deltas[old.len() + j] == d);
                        },
                        None => {},
                    }
                },
                _ => {},
            }
        },
        Outcome::Failed(_) => {},
    }
}

/// The answer of a shard to a save lists what it wrote, a base by a zero in front and a
/// delta by a one.
pub proof fn law_layout_of_a_save_reply(e: EntryView, d: DeltaView)
    requires
        e.keys <= i64::MAX,
        d.puts <= i64::MAX,
        d.tombstones <= i64::MAX,
        d.base_epoch <= i64::MAX,
        d.delta_epoch <= i64::MAX,
    ensures
        encoded_save(SaveView::Base(e)) matches ValueModel::Array(Some(items)) && items.len() == 4
            && items[0] == ValueModel::Integer(0) && items[1] == ValueModel::Integer(
            e.shard as i64,
        ) && items[2] == ValueModel::Integer(e.keys as i64) && items[3] == ValueModel::Integer(
            e.crc as i64,
        ),
        encoded_save(SaveView::Delta(d)) matches ValueModel::Array(Some(items)) && items.len() == 7
            && items[0] == ValueModel::Integer(1) && items[1] == ValueModel::Integer(
            d.shard as i64,
        ) && items[2] == ValueModel::Integer(d.puts as i64) && items[3] == ValueModel::Integer(
            d.tombstones as i64,
        ) && items[4] == ValueModel::Integer(d.crc as i64) && items[5] == ValueModel::Integer(
            d.base_epoch as i64,
        ) && items[6] == ValueModel::Integer(d.delta_epoch as i64),
{
}

/// An order to a shard is the verb, the time, the shard, the directory and the pace, and
/// for a delta its two epochs.
pub proof fn law_layout_of_a_save_order(
    secs: u64,
    shard: usize,
    dir: Seq<char>,
    mode: SaveMode,
    paced: bool,
)
    ensures
        ({
            let a = save_args(secs, shard, dir, mode, paced);
            &&& a.len() == (if mode is Delta {
                7int
            } else {
                5int
            })
            &&& a[0] == encode_utf8(ICSAVE@)
            &&& a[1] == decimal_bytes(secs as nat)
            &&& a[2] == decimal_bytes(shard as nat)
            &&& a[3] == encode_utf8(dir)
            &&& a[4] == (if paced {
                decimal_bytes(1)
            } else {
                decimal_bytes(0)
            })
            &&& mode matches SaveMode::Delta { base_epoch, delta_epoch } ==> a[5] == decimal_bytes(
                base_epoch as nat,
            ) && a[6] == decimal_bytes(delta_epoch as nat)
        }),
{
    assert(decimal_bytes(1) =~= seq![49u8]);
    assert(decimal_bytes(0) =~= seq![48u8]);
}

} // verus!
