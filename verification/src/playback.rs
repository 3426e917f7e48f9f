//! The playback driver: owns the image cache, the paused/playing state,
//! the frame clock and the pending navigation request. Each render tick
//! it consumes the pending request exactly once, reconciles elapsed time
//! against the fixed frame rate, and tells the caller whether to drain
//! prefetches, submit new ones, which navigation to resolve, and whether
//! to sleep until the next event or busy-wait through an imminent frame
//! boundary.

use vstd::prelude::*;
use crate::cache::{
    ImageCache, LoadOutcome, PrefetchResult, UploadedImage, prefetch_window, spec_distance,
    spec_prefetch_plan,
};
use crate::directory::find_full;
use crate::error::{ErrorKind, LoadError};
use crate::fs_path::FsPath;
use crate::host::{
    cache_budget_bytes, query_cpu_count, query_total_memory_kib, spec_cache_budget,
    spec_worker_count, worker_count_from,
};

verus! {

/// Nanoseconds in one frame at the fixed playback rate of 25 frames per
/// second: 1e9 / 25.
pub const FRAME_DELTA_NANOS: u64 = 40_000_000;

/// 80% of the frame interval: past this point within the current frame,
/// spinning to the boundary beats sleeping through it.
pub const BUSY_WAIT_THRESHOLD_NANOS: u64 = 32_000_000;

/// A pending navigation intent; exactly one is live at a time, and each
/// tick consumes it.
pub enum LoadRequest {
    /// Nothing requested.
    NoRequest,
    /// One entry forward.
    LoadNext,
    /// One entry backward.
    LoadPrevious,
    /// A specific path.
    LoadSpecific(FsPath),
    /// A signed offset applied with wraparound.
    Jump(i32),
}

/// Whether playback is running; `Paused` is the initial state. (A
/// backward mode is reserved but not implemented.)
#[derive(Clone, Copy, PartialEq, Eq, Structural, Debug)]
pub enum PlaybackState {
    Paused,
    Forward,
}

/// What the caller should do for the rest of a tick, decided by
/// `update_image`.
pub struct TickPlan {
    /// Drain completed background decodes and hand them to
    /// `process_prefetched` first.
    pub drain_prefetched: bool,
    /// Then ask `send_load_requests` for new prefetch work and submit it.
    pub send_requests: bool,
    /// The navigation to resolve: the taken pending request, or a jump
    /// synthesized from the playback clock.
    pub request: LoadRequest,
}

/// How the window title should change after a load.
pub enum TitleAction {
    /// Show this file name (the manager is paused).
    SetToFilename(String),
    /// Show the "no image" sentinel: the load failed.
    SetToNoImage,
    /// Leave the title alone. Title updates are suppressed during
    /// playback: setting a title mid-resize can deadlock the windowing
    /// layer, a documented limitation kept on purpose.
    Keep,
}

/// How many playback frames are due at `elapsed` nanoseconds after
/// playback start, beyond the `advanced` frames already shown:
/// `elapsed / delta - advanced`, clamped at zero.
pub open spec fn spec_frame_step(elapsed: int, delta: int, advanced: int) -> int
    recommends
        delta > 0,
{
    if elapsed / delta >= advanced {
        elapsed / delta - advanced
    } else {
        0
    }
}

/// Computes how many playback frames are due.
pub fn frame_step(elapsed_nanos: u64, frame_delta: u64, advanced: u64) -> (step: u64)
    requires
        frame_delta > 0,
    ensures
        step == spec_frame_step(elapsed_nanos as int, frame_delta as int, advanced as int),
{
    let target: u64 = elapsed_nanos / frame_delta;
    if target >= advanced {
        target - advanced
    } else {
        0
    }
}

/// The playback driver.
pub struct PlaybackManager {
    playback_state: PlaybackState,
    image_cache: ImageCache,
    playback_start_nanos: u64,
    frame_count_since_playback_start: u64,
    load_request: LoadRequest,
    should_sleep: bool,
    image_texture: Option<u64>,
}

impl PlaybackManager {
    /// The paused/playing state.
    pub closed spec fn state(self) -> PlaybackState {
        self.playback_state
    }

    /// The owned image cache.
    pub closed spec fn cache(self) -> ImageCache {
        self.image_cache
    }

    /// The monotonic-clock reading at which playback last started.
    pub closed spec fn start_nanos(self) -> u64 {
        self.playback_start_nanos
    }

    /// Frames already advanced since playback started; only ever grows
    /// until playback restarts.
    pub closed spec fn frame_count(self) -> u64 {
        self.frame_count_since_playback_start
    }

    /// The pending navigation request.
    pub closed spec fn request(self) -> LoadRequest {
        self.load_request
    }

    /// Whether the caller may sleep until the next external event.
    pub closed spec fn sleeping(self) -> bool {
        self.should_sleep
    }

    /// The displayed texture handle, absent when the last load failed.
    pub closed spec fn texture(self) -> Option<u64> {
        self.image_texture
    }

    /// Well-formed: the owned cache is.
    pub open spec fn wf(self) -> bool {
        self.cache().wf()
    }

    /// A paused manager over an empty directory. The cache budget is an
    /// eighth of the host's total memory (or a fixed default when it is
    /// unknown) and the worker count is the host's CPU count clamped to
    /// [2, 4]; both are queried here, once.
    pub fn new() -> (m: PlaybackManager)
        ensures
            m.wf(),
            m.state() == PlaybackState::Paused,
            m.frame_count() == 0,
            m.start_nanos() == 0,
            m.request() is NoRequest,
            m.sleeping(),
            m.texture() is None,
            m.cache().listing().len() == 0,
            m.cache().entries().len() == 0,
            exists|mem: Option<u64>| m.cache().budget() == spec_cache_budget(mem),
            2 <= m.cache().workers() <= 4,
    {
        let mem = query_total_memory_kib();
        let cpus = query_cpu_count();
        let m = Self::new_with_host_info(mem, cpus);
        proof {
            assert(m.cache().budget() == spec_cache_budget(mem));
        }
        m
    }

    /// A paused manager with the budget and worker count computed from
    /// the given host measurements: what `new` builds once it has asked
    /// the host.
    pub fn new_with_host_info(total_kib: Option<u64>, cpus: Option<u32>) -> (m: PlaybackManager)
        ensures
            m.wf(),
            m.state() == PlaybackState::Paused,
            m.frame_count() == 0,
            m.start_nanos() == 0,
            m.request() is NoRequest,
            m.sleeping(),
            m.texture() is None,
            m.cache().listing().len() == 0,
            m.cache().entries().len() == 0,
            m.cache().budget() == spec_cache_budget(total_kib),
            m.cache().workers() == spec_worker_count(cpus),
    {
        PlaybackManager {
            playback_state: PlaybackState::Paused,
            image_cache: ImageCache::new(cache_budget_bytes(total_kib), worker_count_from(cpus)),
            playback_start_nanos: 0,
            frame_count_since_playback_start: 0,
            load_request: LoadRequest::NoRequest,
            should_sleep: true,
            image_texture: None,
        }
    }

    /// The paused/playing state.
    pub fn playback_state(&self) -> (s: PlaybackState)
        ensures
            s == self.state(),
    {
        self.playback_state
    }

    /// Starts playing forward: anchors the clock at `now_nanos` and
    /// resets the frame counter.
    pub fn start_playback_forward(&mut self, now_nanos: u64)
        ensures
            final(self).state() == PlaybackState::Forward,
            final(self).start_nanos() == now_nanos,
            final(self).frame_count() == 0,
            final(self).cache() == old(self).cache(),
            final(self).request() == old(self).request(),
            final(self).sleeping() == old(self).sleeping(),
            final(self).texture() == old(self).texture(),
    {
        self.playback_start_nanos = now_nanos;
        self.frame_count_since_playback_start = 0;
        self.playback_state = PlaybackState::Forward;
    }

    /// Pauses playback, unconditionally.
    pub fn pause_playback(&mut self)
        ensures
            final(self).state() == PlaybackState::Paused,
            final(self).cache() == old(self).cache(),
            final(self).start_nanos() == old(self).start_nanos(),
            final(self).frame_count() == old(self).frame_count(),
            final(self).request() == old(self).request(),
            final(self).sleeping() == old(self).sleeping(),
            final(self).texture() == old(self).texture(),
    {
        self.playback_state = PlaybackState::Paused;
    }

    /// The file name of the current directory entry, if any.
    pub fn current_filename(&self) -> (r: Option<String>)
        requires
            self.wf(),
        ensures
            match r {
                Some(n) => self.cache().listing().len() > 0 && (self.cache().listing()[self.cache().pos()].name matches Some(m)
                    && n == m),
                None => self.cache().listing().len() == 0,
            },
    {
        self.image_cache.current_filename()
    }

    /// The path of the current directory entry, if any.
    pub fn current_file_path(&self) -> (r: Option<FsPath>)
        requires
            self.wf(),
        ensures
            match r {
                Some(p) => self.cache().listing().len() > 0 && p == self.cache().listing()[self.cache().pos()],
                None => self.cache().listing().len() == 0,
            },
    {
        self.image_cache.current_file_path()
    }

    /// Whether the caller may sleep until the next external event.
    pub fn should_sleep(&self) -> (r: bool)
        ensures
            r == self.sleeping(),
    {
        self.should_sleep
    }

    /// Records a navigation request, replacing any pending one.
    pub fn request_load(&mut self, request: LoadRequest)
        ensures
            final(self).request() == request,
            final(self).cache() == old(self).cache(),
            final(self).state() == old(self).state(),
            final(self).start_nanos() == old(self).start_nanos(),
            final(self).frame_count() == old(self).frame_count(),
            final(self).sleeping() == old(self).sleeping(),
            final(self).texture() == old(self).texture(),
    {
        self.load_request = request;
    }

    /// The pending navigation request.
    pub fn load_request(&self) -> (r: &LoadRequest)
        ensures
            *r == self.request(),
    {
        &self.load_request
    }

    /// The displayed texture handle, absent when the last load failed.
    pub fn image_texture(&self) -> (r: &Option<u64>)
        ensures
            *r == self.texture(),
    {
        &self.image_texture
    }

    /// The texture handles of all cached entries, for the caller's GPU
    /// resource bookkeeping.
    pub fn texture_ids(&self) -> (ids: Vec<u64>)
        ensures
            ids@.len() == self.cache().entries().len(),
            forall|i: int| 0 <= i < ids@.len() ==> ids@[i] == self.cache().entries()[i].tex,
    {
        self.image_cache.texture_ids()
    }

    /// The cache's byte budget.
    pub fn cache_budget(&self) -> (b: u64)
        ensures
            b as int == self.cache().budget(),
    {
        self.image_cache.cache_budget()
    }

    /// How many background decode workers the caller should run.
    pub fn num_workers(&self) -> (n: u32)
        ensures
            n == self.cache().workers(),
    {
        self.image_cache.num_workers()
    }

    /// The clock-and-request half of one render tick.
    ///
    /// The pending navigation request is taken and reset to `NoRequest`
    /// before anything else, so exactly one request is consumed per tick
    /// no matter how the rest of the tick goes. When paused, the caller
    /// is told to drain finished prefetches and submit new ones. When
    /// playing with no explicit request, the frame clock decides: if new
    /// frames are due, a jump over them is synthesized and counted;
    /// otherwise the caller drains prefetches and then either busy-waits
    /// through the last fifth of the frame interval (no sleeping, to cut
    /// presentation jitter) or uses the slack to submit prefetch work.
    pub fn update_image(&mut self, now_nanos: u64) -> (plan: TickPlan)
        requires
            old(self).wf(),
            now_nanos >= old(self).start_nanos(),
        ensures
            final(self).wf(),
            final(self).request() is NoRequest,
            final(self).cache() == old(self).cache(),
            final(self).state() == old(self).state(),
            final(self).start_nanos() == old(self).start_nanos(),
            final(self).texture() == old(self).texture(),
            ({
                let elapsed = now_nanos - old(self).start_nanos();
                let step = spec_frame_step(
                    elapsed as int,
                    FRAME_DELTA_NANOS as int,
                    old(self).frame_count() as int,
                );
                if old(self).state() == PlaybackState::Paused {
                    &&& plan.drain_prefetched && plan.send_requests
                    &&& plan.request == old(self).request()
                    &&& final(self).frame_count() == old(self).frame_count()
                    &&& final(self).sleeping()
                } else if !(old(self).request() is NoRequest) {
                    &&& !plan.drain_prefetched && !plan.send_requests
                    &&& plan.request == old(self).request()
                    &&& final(self).frame_count() == old(self).frame_count()
                    &&& final(self).sleeping()
                } else if step > 0 {
                    &&& !plan.drain_prefetched && !plan.send_requests
                    &&& (plan.request matches LoadRequest::Jump(k) && k as int == (if step
                        <= i32::MAX {
                        step
                    } else {
                        i32::MAX as int
                    }))
                    &&& final(self).frame_count() == old(self).frame_count() + step
                    &&& final(self).sleeping()
                } else {
                    &&& plan.drain_prefetched
                    &&& plan.request is NoRequest
                    &&& final(self).frame_count() == old(self).frame_count()
                    &&& ({
                        let since = elapsed as int % (FRAME_DELTA_NANOS as int);
                        if since > BUSY_WAIT_THRESHOLD_NANOS {
                            !final(self).sleeping() && !plan.send_requests
                        } else {
                            final(self).sleeping() && plan.send_requests
                        }
                    })
                }
            }),
    {
        self.should_sleep = true;
        let mut taken = LoadRequest::NoRequest;
        core::mem::swap(&mut self.load_request, &mut taken);
        let mut drain = false;
        let mut send = false;
        let mut request = taken;
        if self.playback_state == PlaybackState::Paused {
            drain = true;
            send = true;
        } else {
            let no_request = match &request {
                LoadRequest::NoRequest => true,
                _ => false,
            };
            if no_request {
                let elapsed = now_nanos - self.playback_start_nanos;
                let step = frame_step(
                    elapsed,
                    FRAME_DELTA_NANOS,
                    self.frame_count_since_playback_start,
                );
                if step > 0 {
                    let k: i32 = if step > (i32::MAX as u64) {
                        i32::MAX
                    } else {
                        step as i32
                    };
                    request = LoadRequest::Jump(k);
                    proof {
                        assert(self.frame_count_since_playback_start + step == elapsed as int
                            / FRAME_DELTA_NANOS as int);
                    }
                    self.frame_count_since_playback_start = self.frame_count_since_playback_start
                        + step;
                } else {
                    drain = true;
                    let since = elapsed % FRAME_DELTA_NANOS;
                    if since > BUSY_WAIT_THRESHOLD_NANOS {
                        self.should_sleep = false;
                    } else {
                        send = true;
                    }
                }
            }
        }
        TickPlan { drain_prefetched: drain, send_requests: send, request }
    }

    /// Resolves a navigation request against the cache; `NoRequest` does
    /// nothing at all. A `LoadSpecific` path without a file-name
    /// component fails with `NameExtraction` before any cache work is
    /// attempted.
    pub fn dispatch_request(&mut self, request: LoadRequest) -> (o: Option<LoadOutcome>)
        requires
            old(self).wf(),
        ensures
            final(self).wf(),
            final(self).state() == old(self).state(),
            final(self).start_nanos() == old(self).start_nanos(),
            final(self).frame_count() == old(self).frame_count(),
            final(self).request() == old(self).request(),
            final(self).sleeping() == old(self).sleeping(),
            final(self).texture() == old(self).texture(),
            match request {
                LoadRequest::NoRequest => o is None && final(self).cache() == old(self).cache(),
                LoadRequest::LoadNext => (o matches Some(out) && old(self).cache().jump_outcome(
                    final(self).cache(),
                    1,
                    out,
                )),
                LoadRequest::LoadPrevious => (o matches Some(out) && old(
                    self,
                ).cache().jump_outcome(final(self).cache(), -1, out)),
                LoadRequest::Jump(k) => (o matches Some(out) && old(self).cache().jump_outcome(
                    final(self).cache(),
                    k as int,
                    out,
                )),
                LoadRequest::LoadSpecific(p) => if p.name is None {
                    &&& (o matches Some(out) && out matches LoadOutcome::Failed(kind) && kind
                        == ErrorKind::NameExtraction)
                    &&& final(self).cache() == old(self).cache()
                } else {
                    (o matches Some(out) && old(self).cache().specific_outcome(
                        final(self).cache(),
                        p,
                        out,
                    ))
                },
            },
    {
        match request {
            LoadRequest::NoRequest => None,
            LoadRequest::LoadNext => Some(self.image_cache.load_next()),
            LoadRequest::LoadPrevious => Some(self.image_cache.load_prev()),
            LoadRequest::Jump(k) => Some(self.image_cache.load_jump(k)),
            LoadRequest::LoadSpecific(p) => {
                let has_name = match p.file_name() {
                    Some(_) => true,
                    None => false,
                };
                if has_name {
                    Some(self.image_cache.load_specific(&p))
                } else {
                    Some(LoadOutcome::Failed(ErrorKind::NameExtraction))
                }
            },
        }
    }

    /// Finishes a synchronous load whose target had to be decoded and
    /// uploaded outside: hands the result to the cache.
    pub fn complete_load(&mut self, path: &FsPath, outcome: Result<UploadedImage, ErrorKind>) -> (r:
        Result<(u64, String), LoadError>)
        requires
            old(self).wf(),
            path.name is Some,
        ensures
            final(self).wf(),
            final(self).state() == old(self).state(),
            final(self).start_nanos() == old(self).start_nanos(),
            final(self).frame_count() == old(self).frame_count(),
            final(self).request() == old(self).request(),
            final(self).sleeping() == old(self).sleeping(),
            final(self).texture() == old(self).texture(),
            final(self).cache().directory() == old(self).cache().directory(),
            final(self).cache().budget() == old(self).cache().budget(),
            final(self).cache().workers() == old(self).cache().workers(),
            match outcome {
                Err(kind) => {
                    &&& (r matches Err(e) && e.kind == kind)
                    &&& final(self).cache().displayed() is None
                },
                Ok(img) => {
                    &&& final(self).cache().displayed() == Some(path.full@)
                    &&& (r matches Ok(pair) && (path.name matches Some(nm) && pair.1 == nm))
                    &&& final(self).cache().is_cached(path.full@)
                    &&& (old(self).cache().is_cached(path.full@) ==> (r matches Ok(pair)
                        && (exists|i: int|
                        0 <= i < old(self).cache().entries().len() && (#[trigger] old(
                            self,
                        ).cache().entries()[i]).path@ == path.full@ && old(
                            self,
                        ).cache().entries()[i].tex == pair.0)))
                    &&& (!old(self).cache().is_cached(path.full@) ==> (r matches Ok(pair)
                        && pair.0 == img.tex))
                    &&& (!old(self).cache().is_cached(path.full@) ==> (forall|j: int|
                        0 <= j < final(self).cache().entries().len() ==> old(
                            self,
                        ).cache().entries().contains(#[trigger] final(self).cache().entries()[j])
                            || final(self).cache().entries()[j].path@ == path.full@))
                    &&& (!old(self).cache().is_cached(path.full@) ==> (forall|i: int, j: int|
                        0 <= i < old(self).cache().entries().len()
                            && 0 <= j < final(self).cache().entries().len()
                            && !final(self).cache().entries().contains(
                            #[trigger] old(self).cache().entries()[i],
                        ) && old(self).cache().entries().contains(
                            #[trigger] final(self).cache().entries()[j],
                        ) ==> spec_distance(
                            old(self).cache().listing(),
                            old(self).cache().pos(),
                            old(self).cache().entries()[i].path@,
                        ) >= spec_distance(
                            old(self).cache().listing(),
                            old(self).cache().pos(),
                            final(self).cache().entries()[j].path@,
                        )))
                },
            },
    {
        self.image_cache.complete_load(path, outcome)
    }

    /// Applies the outcome of this tick's load. Success stores the new
    /// texture and, when paused, retitles the window with the file name;
    /// during playback the title is left alone. Failure clears the
    /// displayed texture and shows the "no image" sentinel. Either way a
    /// load happened, so the caller should re-render rather than sleep.
    pub fn apply_load_result(&mut self, result: Result<(u64, String), LoadError>) -> (t:
        TitleAction)
        requires
            old(self).wf(),
        ensures
            final(self).wf(),
            final(self).cache() == old(self).cache(),
            final(self).state() == old(self).state(),
            final(self).start_nanos() == old(self).start_nanos(),
            final(self).frame_count() == old(self).frame_count(),
            final(self).request() == old(self).request(),
            !final(self).sleeping(),
            match result {
                Ok(pair) => final(self).texture() == Some(pair.0) && (if old(self).state()
                    == PlaybackState::Paused {
                    t == TitleAction::SetToFilename(pair.1)
                } else {
                    t is Keep
                }),
                Err(_) => final(self).texture() is None && t is SetToNoImage,
            },
    {
        self.should_sleep = false;
        match result {
            Ok((tex, name)) => {
                self.image_texture = Some(tex);
                if self.playback_state == PlaybackState::Paused {
                    TitleAction::SetToFilename(name)
                } else {
                    TitleAction::Keep
                }
            },
            Err(_) => {
                self.image_texture = None;
                TitleAction::SetToNoImage
            },
        }
    }

    /// Re-enumerates the directory (the caller passes the enumeration or
    /// its failure); entries for unlisted paths are dropped and the
    /// position is kept when the current file is still listed.
    pub fn update_directory(&mut self, enumeration: Result<Vec<FsPath>, ErrorKind>) -> (r: Result<
        (),
        LoadError,
    >)
        requires
            old(self).wf(),
            enumeration matches Ok(listing) ==> forall|i: int|
                0 <= i < listing@.len() ==> (#[trigger] listing@[i]).name is Some,
        ensures
            final(self).wf(),
            final(self).state() == old(self).state(),
            final(self).start_nanos() == old(self).start_nanos(),
            final(self).frame_count() == old(self).frame_count(),
            final(self).request() == old(self).request(),
            final(self).sleeping() == old(self).sleeping(),
            final(self).texture() == old(self).texture(),
            final(self).cache().budget() == old(self).cache().budget(),
            final(self).cache().workers() == old(self).cache().workers(),
            final(self).cache().pending() == old(self).cache().pending(),
            final(self).cache().displayed() == old(self).cache().displayed(),
            match enumeration {
                Err(kind) => {
                    &&& final(self).cache() == old(self).cache()
                    &&& (r matches Err(e) && e.kind == kind)
                },
                Ok(listing) => {
                    &&& r is Ok
                    &&& final(self).cache().listing() == listing@
                    &&& ({
                        let had = old(self).cache().listing().len() > 0;
                        let prev = old(self).cache().listing()[old(self).cache().pos()].full@;
                        if had && find_full(listing@, prev) is Some {
                            Some(final(self).cache().pos()) == find_full(listing@, prev)
                        } else {
                            final(self).cache().pos() == 0
                        }
                    })
                    &&& (forall|j: int|
                        0 <= j < final(self).cache().entries().len()
                            ==> old(self).cache().entries().contains(#[trigger] final(self).cache().entries()[j])
                            && find_full(listing@, final(self).cache().entries()[j].path@) is Some)
                    &&& (forall|i: int|
                        0 <= i < old(self).cache().entries().len() && find_full(
                            listing@,
                            (#[trigger] old(self).cache().entries()[i]).path@,
                        ) is Some ==> final(self).cache().entries().contains(old(self).cache().entries()[i]))
                    &&& (old(self).cache().total_cost() <= old(self).cache().budget()
                        ==> final(self).cache().total_cost() <= final(self).cache().budget())
                },
            },
    {
        self.image_cache.update_directory(enumeration)
    }

    /// Drains a batch of completed background decodes into the cache;
    /// see `ImageCache::process_prefetched` for the full account.
    pub fn process_prefetched(&mut self, completed: &Vec<PrefetchResult>) -> (r: Result<
        (),
        LoadError,
    >)
        requires
            old(self).wf(),
        ensures
            final(self).wf(),
            final(self).state() == old(self).state(),
            final(self).start_nanos() == old(self).start_nanos(),
            final(self).frame_count() == old(self).frame_count(),
            final(self).request() == old(self).request(),
            final(self).sleeping() == old(self).sleeping(),
            final(self).texture() == old(self).texture(),
            final(self).cache().directory() == old(self).cache().directory(),
            final(self).cache().displayed() == old(self).cache().displayed(),
            final(self).cache().budget() == old(self).cache().budget(),
            final(self).cache().workers() == old(self).cache().workers(),
            old(self).cache().total_cost() <= old(self).cache().budget()
                ==> final(self).cache().total_cost() <= final(self).cache().budget(),
            forall|i: int|
                0 <= i < old(self).cache().entries().len() && old(self).cache().is_displayed(
                    (#[trigger] old(self).cache().entries()[i]).path@,
                ) ==> final(self).cache().entries().contains(old(self).cache().entries()[i]),
            match r {
                Ok(_) => forall|k: int|
                    0 <= k < completed@.len() ==> !((#[trigger] completed@[k]).result is Err),
                Err(e) => exists|k: int|
                    0 <= k < completed@.len() && ((#[trigger] completed@[k]).result matches Err(
                        kind,
                    ) && e.kind == kind),
            },
            old(self).cache().fresh_batch(completed@) ==> (forall|k: int|
                0 <= k < completed@.len() ==> (match (#[trigger] completed@[k]).result {
                    Ok(img) => (crate::directory::find_full(
                        old(self).cache().listing(),
                        completed@[k].path@,
                    ) is None || old(self).cache().displayed_cost() + img.cost
                        > old(self).cache().budget())
                        ==> !final(self).cache().is_cached(completed@[k].path@),
                    Err(_) => !final(self).cache().is_cached(completed@[k].path@),
                })),
            old(self).cache().fresh_batch(completed@) ==> (forall|k: int|
                0 <= k < completed@.len() && ((#[trigger] completed@[k]).result matches Ok(img)
                    && old(self).cache().displayed_cost() + img.cost
                        <= old(self).cache().budget()) && crate::directory::find_full(
                    old(self).cache().listing(),
                    completed@[k].path@,
                ) is Some && (forall|l: int|
                    k < l < completed@.len() ==> !((#[trigger] completed@[l]).result is Ok)
                        || crate::directory::find_full(
                        old(self).cache().listing(),
                        completed@[l].path@,
                    ) is None) ==> final(self).cache().is_cached(completed@[k].path@)),
            old(self).cache().fresh_batch(completed@) ==> (forall|i: int, j: int|
                0 <= i < old(self).cache().entries().len()
                    && 0 <= j < final(self).cache().entries().len()
                    && !final(self).cache().entries().contains(
                    #[trigger] old(self).cache().entries()[i],
                ) && old(self).cache().entries().contains(
                    #[trigger] final(self).cache().entries()[j],
                ) && !old(self).cache().is_displayed(final(self).cache().entries()[j].path@)
                    ==> spec_distance(
                    old(self).cache().listing(),
                    old(self).cache().pos(),
                    old(self).cache().entries()[i].path@,
                ) >= spec_distance(
                    old(self).cache().listing(),
                    old(self).cache().pos(),
                    final(self).cache().entries()[j].path@,
                )),
    {
        self.image_cache.process_prefetched(completed)
    }

    /// Decides which nearby images to prefetch and marks them in flight;
    /// see `ImageCache::send_load_requests` for the full account.
    pub fn send_load_requests(&mut self) -> (reqs: Vec<FsPath>)
        requires
            old(self).wf(),
        ensures
            final(self).wf(),
            final(self).state() == old(self).state(),
            final(self).start_nanos() == old(self).start_nanos(),
            final(self).frame_count() == old(self).frame_count(),
            final(self).request() == old(self).request(),
            final(self).sleeping() == old(self).sleeping(),
            final(self).texture() == old(self).texture(),
            final(self).cache().directory() == old(self).cache().directory(),
            final(self).cache().entries() == old(self).cache().entries(),
            final(self).cache().displayed() == old(self).cache().displayed(),
            forall|i: int|
                0 <= i < reqs@.len() ==> !old(self).cache().is_cached(
                    (#[trigger] reqs@[i]).full@,
                ) && !old(self).cache().is_in_flight(reqs@[i].full@),
            forall|i: int, j: int|
                0 <= i < j < reqs@.len() ==> (#[trigger] reqs@[i]).full@ != (
                #[trigger] reqs@[j]).full@,
            old(self).cache().listing().len() == 0 ==> reqs@.len() == 0,
            old(self).cache().listing().len() > 0 ==> reqs@ == spec_prefetch_plan(
                old(self).cache(),
                prefetch_window(),
                Seq::<FsPath>::empty(),
            ),
    {
        self.image_cache.send_load_requests()
    }
}

} // verus!
