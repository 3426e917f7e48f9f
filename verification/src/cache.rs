//! The image cache: a byte-budgeted set of decoded-and-uploaded entries
//! keyed by file path, owning the directory index, with eviction that
//! removes the entries farthest from the current position first and never
//! removes the entry that is currently displayed.
//!
//! Decoding and GPU upload are outside work: the caller performs them and
//! hands their results in as plain values (a texture handle and a byte
//! cost); every decision about admission, eviction, navigation and
//! prefetching is made here.

use vstd::prelude::*;
use crate::directory::{DirectoryIndex, find_full, lemma_find_full, wrap_index};
use crate::error::{ErrorKind, LoadError};
use crate::fs_path::FsPath;

verus! {

/// One cached image: its path (the key), its GPU texture handle as the
/// renderer names it, and its byte cost against the budget.
pub struct CacheEntry {
    pub path: String,
    pub tex: u64,
    pub cost: u64,
}

/// A decoded image after upload: the texture handle and its byte cost.
#[derive(Clone, Copy)]
pub struct UploadedImage {
    pub tex: u64,
    pub cost: u64,
}

/// One drained result of a background decode: the path it was requested
/// for, and either the uploaded image or what failed.
pub struct PrefetchResult {
    pub path: String,
    pub result: Result<UploadedImage, ErrorKind>,
}

/// How a synchronous navigation resolves against the cache.
pub enum LoadOutcome {
    /// The target is already cached: its texture handle and its file name.
    Loaded(u64, String),
    /// The caller must decode and upload this file, then hand the result
    /// to `complete_load`.
    NeedsDecode(FsPath),
    /// The navigation failed before any decode work.
    Failed(ErrorKind),
}

/// Total byte cost of a sequence of entries.
pub open spec fn sum_costs(s: Seq<CacheEntry>) -> int
    decreases s.len(),
{
    if s.len() == 0 {
        0
    } else {
        s[0].cost + sum_costs(s.drop_first())
    }
}

/// A sum of byte costs is never negative.
pub proof fn lemma_sum_nonneg(s: Seq<CacheEntry>)
    ensures
        sum_costs(s) >= 0,
    decreases s.len(),
{
    if s.len() > 0 {
        lemma_sum_nonneg(s.drop_first());
    }
}

/// Removing one entry removes exactly its cost from the sum.
pub proof fn lemma_sum_remove(s: Seq<CacheEntry>, i: int)
    requires
        0 <= i < s.len(),
    ensures
        sum_costs(s.remove(i)) == sum_costs(s) - s[i].cost,
    decreases s.len(),
{
    if i == 0 {
        assert(s.remove(0) =~= s.drop_first());
    } else {
        lemma_sum_remove(s.drop_first(), i - 1);
        assert(s.remove(i).drop_first() =~= s.drop_first().remove(i - 1));
        assert(s.remove(i)[0] == s[0]);
    }
}

/// Appending one entry adds exactly its cost to the sum.
pub proof fn lemma_sum_push(s: Seq<CacheEntry>, e: CacheEntry)
    ensures
        sum_costs(s.push(e)) == sum_costs(s) + e.cost,
    decreases s.len(),
{
    if s.len() == 0 {
        assert(s.push(e).drop_first() =~= s);
        assert(s.push(e)[0] == e);
    } else {
        lemma_sum_push(s.drop_first(), e);
        assert(s.push(e).drop_first() =~= s.drop_first().push(e));
        assert(s.push(e)[0] == s[0]);
    }
}

/// No two entries share a path.
pub open spec fn paths_unique(s: Seq<CacheEntry>) -> bool {
    forall|i: int, j: int|
        0 <= i < j < s.len() ==> (#[trigger] s[i]).path@ != (#[trigger] s[j]).path@
}

/// No two strings of the sequence are equal as text.
pub open spec fn strings_unique(s: Seq<String>) -> bool {
    forall|i: int, j: int| 0 <= i < j < s.len() ==> (#[trigger] s[i])@ != (#[trigger] s[j])@
}

/// Everything left after removing one entry was already there.
pub proof fn lemma_remove_subset(s: Seq<CacheEntry>, i: int)
    requires
        0 <= i < s.len(),
    ensures
        forall|j: int| 0 <= j < s.remove(i).len() ==> s.contains(#[trigger] s.remove(i)[j]),
{
    assert forall|j: int| 0 <= j < s.remove(i).len() implies s.contains(
        #[trigger] s.remove(i)[j],
    ) by {
        if j < i {
            assert(s.remove(i)[j] == s[j]);
        } else {
            assert(s.remove(i)[j] == s[j + 1]);
        }
    }
}

/// Removing one entry keeps every other entry present.
pub proof fn lemma_remove_still_contains(s: Seq<CacheEntry>, i: int, x: CacheEntry)
    requires
        0 <= i < s.len(),
        s.contains(x),
        x != s[i],
    ensures
        s.remove(i).contains(x),
{
    let k = choose|k: int| 0 <= k < s.len() && s[k] == x;
    if k < i {
        assert(s.remove(i)[k] == x);
    } else {
        assert(s.remove(i)[k - 1] == x);
    }
}

/// Removing an entry cannot introduce a duplicate path.
pub proof fn lemma_remove_unique(s: Seq<CacheEntry>, i: int)
    requires
        0 <= i < s.len(),
        paths_unique(s),
    ensures
        paths_unique(s.remove(i)),
{
    assert forall|a: int, b: int| 0 <= a < b < s.remove(i).len() implies (#[trigger] s.remove(
        i,
    )[a]).path@ != (#[trigger] s.remove(i)[b]).path@ by {
        let a0 = if a < i { a } else { a + 1 };
        let b0 = if b < i { b } else { b + 1 };
        assert(s.remove(i)[a] == s[a0]);
        assert(s.remove(i)[b] == s[b0]);
    }
}

/// How far an entry is from the current position, by directory-index
/// distance; an entry whose path is no longer listed counts as farther
/// than every listed one.
pub open spec fn spec_distance(listing: Seq<FsPath>, pos: int, full: Seq<char>) -> int {
    match find_full(listing, full) {
        Some(i) => if i >= pos {
            i - pos
        } else {
            pos - i
        },
        None => listing.len() as int,
    }
}

/// The window of positions to prefetch around the current one, as
/// signed offsets, nearest first: the submission order under a
/// saturated pool decides which images are ready soonest.
pub open spec fn prefetch_window() -> Seq<int> {
    seq![1int, -1int, 2int, -2int]
}

/// The prefetch decisions as a value: walking the offsets in order, take
/// each entry that is not the current one, whose path is not cached, not
/// in flight, and not already taken.
pub open spec fn spec_prefetch_plan(c: ImageCache, offs: Seq<int>, sofar: Seq<FsPath>) -> Seq<
    FsPath,
>
    decreases offs.len(),
{
    if offs.len() == 0 {
        sofar
    } else {
        let ti = wrap_index(c.pos(), offs[0], c.listing().len() as int);
        let t = c.listing()[ti];
        let fresh = ti != c.pos() && !c.is_cached(t.full@) && !c.is_in_flight(t.full@) && (forall|
            m: int,
        |
            0 <= m < sofar.len() ==> (#[trigger] sofar[m]).full@ != t.full@);
        spec_prefetch_plan(
            c,
            offs.drop_first(),
            if fresh {
                sofar.push(t)
            } else {
                sofar
            },
        )
    }
}

/// The byte-budgeted image cache.
pub struct ImageCache {
    dir: DirectoryIndex,
    entries: Vec<CacheEntry>,
    in_flight: Vec<String>,
    displayed_path: Option<String>,
    total_cost: u64,
    budget: u64,
    worker_count: u32,
}

impl ImageCache {
    /// The directory index the cache navigates.
    pub closed spec fn directory(self) -> DirectoryIndex {
        self.dir
    }

    /// The directory listing.
    pub open spec fn listing(self) -> Seq<FsPath> {
        self.directory().listing()
    }

    /// The current position in the listing.
    pub open spec fn pos(self) -> int {
        self.directory().pos()
    }

    /// The cached entries.
    pub closed spec fn entries(self) -> Seq<CacheEntry> {
        self.entries@
    }

    /// The byte ceiling on the cached entries.
    pub closed spec fn budget(self) -> int {
        self.budget as int
    }

    /// Sum of the cached entries' byte costs.
    pub open spec fn total_cost(self) -> int {
        sum_costs(self.entries())
    }

    /// How many background workers the owner should run.
    pub closed spec fn workers(self) -> u32 {
        self.worker_count
    }

    /// The path of the entry that is currently displayed, if any.
    pub closed spec fn displayed(self) -> Option<Seq<char>> {
        match self.displayed_path {
            Some(s) => Some(s@),
            None => None,
        }
    }

    /// Whether this path names the currently displayed entry.
    pub open spec fn is_displayed(self, full: Seq<char>) -> bool {
        self.displayed() == Some(full)
    }

    /// Whether an entry for this path is cached.
    pub open spec fn is_cached(self, full: Seq<char>) -> bool {
        exists|i: int| 0 <= i < self.entries().len() && (#[trigger] self.entries()[i]).path@ == full
    }

    /// The paths with an in-flight background decode, in submission order.
    pub closed spec fn pending(self) -> Seq<String> {
        self.in_flight@
    }

    /// Whether a decode for this path is in flight.
    pub open spec fn is_in_flight(self, full: Seq<char>) -> bool {
        exists|i: int| 0 <= i < self.pending().len() && (#[trigger] self.pending()[i])@ == full
    }

    /// Byte cost of the displayed entry, or zero when it is not cached.
    pub open spec fn displayed_cost(self) -> int {
        if exists|i: int|
            0 <= i < self.entries().len() && self.is_displayed(
                (#[trigger] self.entries()[i]).path@,
            ) {
            let i = choose|i: int|
                0 <= i < self.entries().len() && self.is_displayed(
                    (#[trigger] self.entries()[i]).path@,
                );
            self.entries()[i].cost as int
        } else {
            0
        }
    }

    /// Well-formed: the directory index is well-formed, cached paths and
    /// in-flight paths are free of duplicates, the recorded total is the
    /// sum of the entries' costs, and the total respects the budget except
    /// when a single displayed entry alone exceeds it.
    pub open spec fn wf(self) -> bool {
        &&& self.wf_core()
        &&& self.budget_ok()
    }

    /// The structural part of well-formedness, which even a transient
    /// state between eviction steps keeps.
    pub open spec fn wf_core(self) -> bool {
        &&& self.directory().wf()
        &&& self.total_recorded() == self.total_cost()
        &&& paths_unique(self.entries())
        &&& strings_unique(self.pending())
    }

    /// The exec-side running total, tied to the entries by `wf`.
    pub closed spec fn total_recorded(self) -> int {
        self.total_cost as int
    }

    /// The budget invariant: within budget, or a single entry that is the
    /// displayed one (a synchronous load must succeed even when the image
    /// alone is larger than the budget).
    pub open spec fn budget_ok(self) -> bool {
        ||| self.total_cost() <= self.budget()
        ||| (self.entries().len() == 1 && self.is_displayed(self.entries()[0].path@))
    }

    /// A fresh cache over no directory, with the given byte budget and
    /// worker count.
    pub fn new(budget: u64, worker_count: u32) -> (c: ImageCache)
        ensures
            c.wf(),
            c.listing().len() == 0,
            c.pos() == 0,
            c.entries().len() == 0,
            c.budget() == budget,
            c.workers() == worker_count,
            c.displayed() is None,
            forall|q: Seq<char>| !c.is_in_flight(q),
    {
        ImageCache {
            dir: DirectoryIndex::new(),
            entries: Vec::new(),
            in_flight: Vec::new(),
            displayed_path: None,
            total_cost: 0,
            budget,
            worker_count,
        }
    }

    /// Linear scan for the cached entry with this full path.
    fn find_cached(&self, full: &String) -> (r: Option<usize>)
        ensures
            match r {
                Some(i) => i < self.entries().len() && self.entries()[i as int].path@ == full@,
                None => !self.is_cached(full@),
            },
    {
        let n = self.entries.len();
        let mut i: usize = 0;
        while i < n
            invariant
                n == self.entries().len(),
                i <= n,
                forall|j: int| 0 <= j < i ==> (#[trigger] self.entries()[j]).path@ != full@,
            decreases n - i,
        {
            if self.entries[i].path.eq(full) {
                return Some(i);
            }
            i += 1;
        }
        None
    }

    /// Directory-index distance of this path from the current position.
    fn entry_distance(&self, full: &String) -> (d: usize)
        requires
            self.directory().wf(),
        ensures
            d == spec_distance(self.listing(), self.pos(), full@),
    {
        proof {
            lemma_find_full(self.listing(), full@);
        }
        match self.dir.index_of_full(full) {
            Some(i) => {
                let cur = self.dir.current_index();
                if i >= cur {
                    i - cur
                } else {
                    cur - i
                }
            },
            None => self.dir.len(),
        }
    }

    /// Whether this path is the displayed one.
    fn is_displayed_now(&self, full: &String) -> (r: bool)
        ensures
            r == self.is_displayed(full@),
    {
        match &self.displayed_path {
            Some(p) => p.eq(full),
            None => false,
        }
    }

    /// The index of a farthest-from-current non-displayed entry, or `None`
    /// when every cached entry is the displayed one.
    fn find_victim(&self) -> (r: Option<usize>)
        requires
            self.directory().wf(),
        ensures
            match r {
                Some(i) => i < self.entries().len() && !self.is_displayed(
                    self.entries()[i as int].path@,
                ) && (forall|j: int|
                    0 <= j < self.entries().len() && !self.is_displayed(
                        (#[trigger] self.entries()[j]).path@,
                    ) ==> spec_distance(self.listing(), self.pos(), self.entries()[i as int].path@)
                        >= spec_distance(self.listing(), self.pos(), self.entries()[j].path@)),
                None => forall|j: int|
                    0 <= j < self.entries().len() ==> self.is_displayed(
                        (#[trigger] self.entries()[j]).path@,
                    ),
            },
    {
        let n = self.entries.len();
        let mut best: Option<usize> = None;
        let mut best_dist: usize = 0;
        let mut i: usize = 0;
        while i < n
            invariant
                self.directory().wf(),
                n == self.entries().len(),
                i <= n,
                match best {
                    Some(b) => b < i && !self.is_displayed(self.entries()[b as int].path@)
                        && best_dist == spec_distance(
                        self.listing(),
                        self.pos(),
                        self.entries()[b as int].path@,
                    ) && (forall|j: int|
                        0 <= j < i && !self.is_displayed((#[trigger] self.entries()[j]).path@)
                            ==> best_dist >= spec_distance(
                            self.listing(),
                            self.pos(),
                            self.entries()[j].path@,
                        )),
                    None => forall|j: int|
                        0 <= j < i ==> self.is_displayed((#[trigger] self.entries()[j]).path@),
                },
            decreases n - i,
        {
            let disp = self.is_displayed_now(&self.entries[i].path);
            if !disp {
                let d = self.entry_distance(&self.entries[i].path);
                match best {
                    Some(_) => {
                        if d > best_dist {
                            best = Some(i);
                            best_dist = d;
                        }
                    },
                    None => {
                        best = Some(i);
                        best_dist = d;
                    },
                }
            }
            i += 1;
        }
        best
    }
}

/// The displayed entry's cost is one summand: never negative, never more
/// than the total, shared by every entry whose path is the displayed one,
/// and zero when no cached entry is displayed.
proof fn lemma_displayed_cost(c: ImageCache)
    requires
        paths_unique(c.entries()),
    ensures
        0 <= c.displayed_cost(),
        c.displayed_cost() <= sum_costs(c.entries()),
        forall|k: int|
            0 <= k < c.entries().len() && c.is_displayed((#[trigger] c.entries()[k]).path@)
                ==> c.displayed_cost() == c.entries()[k].cost,
        (forall|k: int|
            0 <= k < c.entries().len() && c.is_displayed((#[trigger] c.entries()[k]).path@)
                ==> false) ==> c.displayed_cost() == 0,
{
    if exists|i: int|
        0 <= i < c.entries().len() && c.is_displayed((#[trigger] c.entries()[i]).path@) {
        let i = choose|i: int|
            0 <= i < c.entries().len() && c.is_displayed((#[trigger] c.entries()[i]).path@);
        lemma_sum_remove(c.entries(), i);
        lemma_sum_nonneg(c.entries().remove(i));
        assert forall|k: int|
            0 <= k < c.entries().len() && c.is_displayed((#[trigger] c.entries()[k]).path@)
                implies c.displayed_cost() == c.entries()[k].cost by {
            assert(c.entries()[k].path@ == c.entries()[i].path@);
        }
    } else {
        lemma_sum_nonneg(c.entries());
    }
}

/// Two states with the same entries and the same displayed marker have
/// the same protected cost.
proof fn lemma_clear_keeps_displayed_cost(pre: ImageCache, post: ImageCache)
    requires
        paths_unique(pre.entries()),
        post.entries() == pre.entries(),
        post.displayed() == pre.displayed(),
    ensures
        post.displayed_cost() == pre.displayed_cost(),
{
    assert forall|i: int|
        0 <= i < pre.entries().len() && pre.is_displayed(
            (#[trigger] pre.entries()[i]).path@,
        ) implies post.entries().contains(pre.entries()[i]) by {
        assert(post.entries()[i] == pre.entries()[i]);
    }
    assert forall|j: int|
        0 <= j < post.entries().len() && pre.is_displayed(
            (#[trigger] post.entries()[j]).path@,
        ) implies pre.entries().contains(post.entries()[j]) by {
        assert(post.entries()[j] == pre.entries()[j]);
    }
    lemma_displayed_cost_related(pre, post);
}

/// When the displayed marker is unchanged, every displayed entry of the
/// earlier state survives, and the later state gained no displayed entry
/// of its own, the protected cost is unchanged.
proof fn lemma_displayed_cost_related(pre: ImageCache, post: ImageCache)
    requires
        paths_unique(pre.entries()),
        paths_unique(post.entries()),
        post.displayed() == pre.displayed(),
        forall|i: int|
            0 <= i < pre.entries().len() && pre.is_displayed(
                (#[trigger] pre.entries()[i]).path@,
            ) ==> post.entries().contains(pre.entries()[i]),
        forall|j: int|
            0 <= j < post.entries().len() && pre.is_displayed(
                (#[trigger] post.entries()[j]).path@,
            ) ==> pre.entries().contains(post.entries()[j]),
    ensures
        post.displayed_cost() == pre.displayed_cost(),
{
    lemma_displayed_cost(pre);
    lemma_displayed_cost(post);
    if exists|i: int|
        0 <= i < pre.entries().len() && pre.is_displayed((#[trigger] pre.entries()[i]).path@) {
        let i = choose|i: int|
            0 <= i < pre.entries().len() && pre.is_displayed((#[trigger] pre.entries()[i]).path@);
        let e = pre.entries()[i];
        assert(post.entries().contains(e));
        let k = choose|k: int| 0 <= k < post.entries().len() && post.entries()[k] == e;
        assert(post.is_displayed(post.entries()[k].path@));
    } else {
        if exists|j: int|
            0 <= j < post.entries().len() && post.is_displayed(
                (#[trigger] post.entries()[j]).path@,
            ) {
            let j = choose|j: int|
                0 <= j < post.entries().len() && post.is_displayed(
                    (#[trigger] post.entries()[j]).path@,
                );
            assert(pre.is_displayed(post.entries()[j].path@));
            assert(pre.entries().contains(post.entries()[j]));
            let k = choose|k: int|
                0 <= k < pre.entries().len() && pre.entries()[k] == post.entries()[j];
            assert(pre.is_displayed(pre.entries()[k].path@));
            assert(false);
        }
    }
}

impl ImageCache {
    /// Evicts entries, farthest from the current position first and never
    /// the one that is displayed, until `extra` more bytes would fit under
    /// the budget; reports whether they now do. Whether they can is decided
    /// by the budget and the displayed entry's cost alone.
    fn make_room(&mut self, extra: u64) -> (fits: bool)
        requires
            old(self).wf_core(),
        ensures
            final(self).wf(),
            old(self).total_cost() + extra <= old(self).budget() ==> final(self).entries()
                == old(self).entries(),
            final(self).directory() == old(self).directory(),
            final(self).pending() == old(self).pending(),
            final(self).displayed() == old(self).displayed(),
            final(self).budget() == old(self).budget(),
            final(self).workers() == old(self).workers(),
            final(self).total_cost() <= old(self).total_cost(),
            forall|j: int|
                0 <= j < final(self).entries().len() ==> old(self).entries().contains(
                    #[trigger] final(self).entries()[j],
                ),
            forall|i: int|
                0 <= i < old(self).entries().len() && old(self).is_displayed(
                    (#[trigger] old(self).entries()[i]).path@,
                ) ==> final(self).entries().contains(old(self).entries()[i]),
            forall|i: int, j: int|
                0 <= i < old(self).entries().len() && 0 <= j < final(self).entries().len()
                    && !final(self).entries().contains(#[trigger] old(self).entries()[i])
                    && !old(self).is_displayed((#[trigger] final(self).entries()[j]).path@)
                    ==> spec_distance(
                    old(self).listing(),
                    old(self).pos(),
                    old(self).entries()[i].path@,
                ) >= spec_distance(
                    old(self).listing(),
                    old(self).pos(),
                    final(self).entries()[j].path@,
                ),
            fits == (final(self).total_cost() + extra <= old(self).budget()),
            fits == (old(self).displayed_cost() + extra <= old(self).budget()),
            !fits ==> forall|j: int|
                0 <= j < final(self).entries().len() ==> old(self).is_displayed(
                    (#[trigger] final(self).entries()[j]).path@,
                ),
    {
        proof {
            lemma_displayed_cost(*old(self));
        }
        loop
            invariant
                self.directory() == old(self).directory(),
                self.pending() == old(self).pending(),
                self.displayed() == old(self).displayed(),
                self.budget() == old(self).budget(),
                self.workers() == old(self).workers(),
                self.directory().wf(),
                self.total_recorded() == self.total_cost(),
                paths_unique(self.entries()),
                strings_unique(self.pending()),
                self.total_cost() <= old(self).total_cost(),
                old(self).total_cost() + extra <= old(self).budget() ==> self.entries()
                    == old(self).entries(),
                forall|j: int|
                    0 <= j < self.entries().len() ==> old(self).entries().contains(
                        #[trigger] self.entries()[j],
                    ),
                forall|i: int|
                    0 <= i < old(self).entries().len() && old(self).is_displayed(
                        (#[trigger] old(self).entries()[i]).path@,
                    ) ==> self.entries().contains(old(self).entries()[i]),
                forall|i: int, j: int|
                    0 <= i < old(self).entries().len() && 0 <= j < self.entries().len()
                        && !self.entries().contains(#[trigger] old(self).entries()[i])
                        && !old(self).is_displayed((#[trigger] self.entries()[j]).path@)
                        ==> spec_distance(
                        old(self).listing(),
                        old(self).pos(),
                        old(self).entries()[i].path@,
                    ) >= spec_distance(
                        old(self).listing(),
                        old(self).pos(),
                        self.entries()[j].path@,
                    ),
            decreases self.entries@.len(),
        {
            if extra <= self.budget && self.total_cost <= self.budget - extra {
                proof {
                    lemma_displayed_cost(*self);
                    if exists|i: int|
                        0 <= i < old(self).entries().len() && old(self).is_displayed(
                            (#[trigger] old(self).entries()[i]).path@,
                        ) {
                        let i = choose|i: int|
                            0 <= i < old(self).entries().len() && old(self).is_displayed(
                                (#[trigger] old(self).entries()[i]).path@,
                            );
                        let e = old(self).entries()[i];
                        assert(self.entries().contains(e));
                        let k = choose|k: int|
                            0 <= k < self.entries().len() && self.entries()[k] == e;
                        assert(self.is_displayed(self.entries()[k].path@));
                        assert(self.displayed_cost() == e.cost);
                    }
                }
                return true;
            }
            match self.find_victim() {
                None => {
                    proof {
                        lemma_displayed_cost(*self);
                        if self.entries@.len() >= 2 {
                            assert(self.entries()[0].path@ == self.entries()[1].path@);
                        }
                        if self.entries@.len() == 1 {
                            lemma_sum_remove(self.entries(), 0);
                            assert(sum_costs(self.entries().remove(0)) == 0);
                            let e = self.entries()[0];
                            assert(old(self).entries().contains(e));
                            let i = choose|i: int|
                                0 <= i < old(self).entries().len() && old(self).entries()[i] == e;
                            assert(old(self).is_displayed(
                                (old(self).entries()[i]).path@,
                            ));
                            assert(old(self).displayed_cost() == e.cost);
                        }
                        if self.entries@.len() == 0 {
                            assert forall|k: int|
                                0 <= k < old(self).entries().len() && old(self).is_displayed(
                                    (#[trigger] old(self).entries()[k]).path@,
                                ) implies false by {
                                assert(self.entries().contains(old(self).entries()[k]));
                            }
                            assert(old(self).displayed_cost() == 0);
                        }
                    }
                    return false;
                },
                Some(vi) => {
                    let ghost before = self.entries@;
                    proof {
                        lemma_sum_remove(before, vi as int);
                        lemma_sum_nonneg(before.remove(vi as int));
                        lemma_remove_subset(before, vi as int);
                        lemma_remove_unique(before, vi as int);
                    }
                    let e = self.entries.remove(vi);
                    self.total_cost = self.total_cost - e.cost;
                    proof {
                        assert forall|i: int|
                            0 <= i < old(self).entries().len() && old(self).is_displayed(
                                (#[trigger] old(self).entries()[i]).path@,
                            ) implies self.entries().contains(old(self).entries()[i]) by {
                            let x = old(self).entries()[i];
                            assert(before.contains(x));
                            assert(x != before[vi as int]);
                            lemma_remove_still_contains(before, vi as int, x);
                        }
                        assert forall|i: int, j: int|
                            0 <= i < old(self).entries().len() && 0 <= j < self.entries().len()
                                && !self.entries().contains(#[trigger] old(self).entries()[i])
                                && !old(self).is_displayed(
                                (#[trigger] self.entries()[j]).path@,
                            ) implies spec_distance(
                            old(self).listing(),
                            old(self).pos(),
                            old(self).entries()[i].path@,
                        ) >= spec_distance(
                            old(self).listing(),
                            old(self).pos(),
                            self.entries()[j].path@,
                        ) by {
                            let x = old(self).entries()[i];
                            assert(before.contains(self.entries()[j]));
                            if before.contains(x) {
                                if x != before[vi as int] {
                                    lemma_remove_still_contains(before, vi as int, x);
                                    assert(false);
                                } else {
                                    assert(spec_distance(
                                        old(self).listing(),
                                        old(self).pos(),
                                        x.path@,
                                    ) >= spec_distance(
                                        old(self).listing(),
                                        old(self).pos(),
                                        self.entries()[j].path@,
                                    ));
                                }
                            }
                        }
                    }
                },
            }
        }
    }

    /// The displayed entry's byte cost, or zero when it is not cached.
    fn displayed_cost_now(&self) -> (d: u64)
        requires
            paths_unique(self.entries()),
        ensures
            d == self.displayed_cost(),
    {
        proof {
            lemma_displayed_cost(*self);
        }
        let n = self.entries.len();
        let mut i: usize = 0;
        while i < n
            invariant
                paths_unique(self.entries()),
                n == self.entries().len(),
                i <= n,
                forall|j: int|
                    0 <= j < i ==> !self.is_displayed((#[trigger] self.entries()[j]).path@),
            decreases n - i,
        {
            if self.is_displayed_now(&self.entries[i].path) {
                proof {
                    lemma_displayed_cost(*self);
                }
                return self.entries[i].cost;
            }
            i += 1;
        }
        0
    }

    /// Clears the in-flight mark for this path, if it is set.
    fn clear_in_flight(&mut self, full: &String)
        requires
            old(self).wf(),
        ensures
            final(self).wf(),
            final(self).directory() == old(self).directory(),
            final(self).entries() == old(self).entries(),
            final(self).displayed() == old(self).displayed(),
            final(self).budget() == old(self).budget(),
            final(self).workers() == old(self).workers(),
            final(self).total_recorded() == old(self).total_recorded(),
            final(self).displayed_cost() == old(self).displayed_cost(),
            forall|q: Seq<char>|
                final(self).is_in_flight(q) == (old(self).is_in_flight(q) && q != full@),
    {
        let n = self.in_flight.len();
        let mut i: usize = 0;
        while i < n
            invariant
                old(self).wf(),
                *self == *old(self),
                n == self.pending().len(),
                i <= n,
                forall|j: int| 0 <= j < i ==> (#[trigger] self.pending()[j])@ != full@,
            decreases n - i,
        {
            if self.in_flight[i].eq(full) {
                let ghost before = self.in_flight@;
                self.in_flight.remove(i);
                proof {
                    assert forall|q: Seq<char>| final(self).is_in_flight(q) == (
                    old(self).is_in_flight(q) && q != full@) by {
                        if self.is_in_flight(q) {
                            let k = choose|k: int|
                                0 <= k < self.pending().len() && (#[trigger] self.pending()[k])@
                                    == q;
                            if k < i {
                                assert(before[k]@ == q);
                            } else {
                                assert(before[k + 1]@ == q);
                            }
                            assert(old(self).is_in_flight(q));
                        }
                        if old(self).is_in_flight(q) && q != full@ {
                            let k = choose|k: int|
                                0 <= k < before.len() && (#[trigger] before[k])@ == q;
                            if k < i {
                                assert(self.pending()[k]@ == q);
                            } else {
                                assert(k != i);
                                assert(self.pending()[k - 1]@ == q);
                            }
                        }
                    }
                    assert forall|a: int, b: int|
                        0 <= a < b < self.pending().len() implies (#[trigger] self.pending()[a])@
                        != (#[trigger] self.pending()[b])@ by {
                        let a0 = if a < i { a } else { a + 1 };
                        let b0 = if b < i { b } else { b + 1 };
                        assert(self.pending()[a] == before[a0]);
                        assert(self.pending()[b] == before[b0]);
                    }
                    lemma_clear_keeps_displayed_cost(*old(self), *self);
                }
                return ;
            }
            i += 1;
        }
        proof {
            lemma_clear_keeps_displayed_cost(*old(self), *self);
        }
    }

    /// Folds one drained background-decode result into the cache: its
    /// in-flight mark is cleared; a failure is reported but changes no
    /// entry; a stale result (path no longer listed) or a duplicate (path
    /// already cached) is discarded silently; otherwise the image is
    /// admitted exactly when it can fit under the budget once every entry
    /// but the displayed one is evicted, evicting farthest-first.
    fn absorb_prefetched(&mut self, item: &PrefetchResult) -> (err: Option<ErrorKind>)
        requires
            old(self).wf(),
        ensures
            final(self).wf(),
            final(self).directory() == old(self).directory(),
            final(self).displayed() == old(self).displayed(),
            final(self).budget() == old(self).budget(),
            final(self).workers() == old(self).workers(),
            forall|q: Seq<char>|
                final(self).is_in_flight(q) == (old(self).is_in_flight(q) && q != item.path@),
            err == (match item.result {
                Ok(_) => None::<ErrorKind>,
                Err(k) => Some(k),
            }),
            forall|i: int|
                0 <= i < old(self).entries().len() && old(self).is_displayed(
                    (#[trigger] old(self).entries()[i]).path@,
                ) ==> final(self).entries().contains(old(self).entries()[i]),
            forall|j: int|
                0 <= j < final(self).entries().len() ==> old(self).entries().contains(
                    #[trigger] final(self).entries()[j],
                ) || (item.result matches Ok(img) && final(self).entries()[j].path@
                    == item.path@ && final(self).entries()[j].tex == img.tex
                    && final(self).entries()[j].cost == img.cost),
            old(self).total_cost() <= old(self).budget() ==> final(self).total_cost()
                <= final(self).budget(),
            (match old(self).displayed() {
                Some(dp) => item.path@ != dp,
                None => true,
            }) ==> final(self).displayed_cost() == old(self).displayed_cost(),
            forall|i: int, j: int|
                0 <= i < old(self).entries().len() && 0 <= j < final(self).entries().len()
                    && !final(self).entries().contains(#[trigger] old(self).entries()[i])
                    && old(self).entries().contains(#[trigger] final(self).entries()[j])
                    && !old(self).is_displayed(final(self).entries()[j].path@)
                    ==> spec_distance(
                    old(self).listing(),
                    old(self).pos(),
                    old(self).entries()[i].path@,
                ) >= spec_distance(
                    old(self).listing(),
                    old(self).pos(),
                    final(self).entries()[j].path@,
                ),
            match item.result {
                Err(_) => final(self).entries() == old(self).entries(),
                Ok(img) => {
                    if old(self).is_cached(item.path@) || find_full(
                        old(self).listing(),
                        item.path@,
                    ) is None {
                        final(self).entries() == old(self).entries()
                    } else if old(self).displayed_cost() + img.cost <= old(self).budget() {
                        final(self).is_cached(item.path@) && final(self).total_cost()
                            <= final(self).budget()
                    } else {
                        final(self).entries() == old(self).entries()
                    }
                },
            },
    {
        let err: Option<ErrorKind> = match &item.result {
            Ok(_) => None,
            Err(k) => Some(*k),
        };
        if let Ok(img) = &item.result {
            let cached = self.find_cached(&item.path);
            let listed = self.dir.index_of_full(&item.path);
            if cached.is_none() && listed.is_some() {
                let dcost = self.displayed_cost_now();
                if img.cost <= self.budget && dcost <= self.budget - img.cost {
                    let ghost pre = *self;
                    let fits = self.make_room(img.cost);
                    proof {
                        assert(fits);
                        assert forall|j: int|
                            0 <= j < self.entries().len() implies (#[trigger] self.entries()[j]).path@
                            != item.path@ by {
                            assert(pre.entries().contains(self.entries()[j]));
                            let k = choose|k: int|
                                0 <= k < pre.entries().len() && pre.entries()[k] == self.entries()[j];
                            if pre.entries()[k].path@ == item.path@ {
                                assert(pre.is_cached(item.path@));
                            }
                        }
                        lemma_sum_push(
                            self.entries@,
                            (CacheEntry { path: item.path, tex: img.tex, cost: img.cost }),
                        );
                    }
                    let ghost mid = *self;
                    self.entries.push(
                        CacheEntry { path: item.path.clone(), tex: img.tex, cost: img.cost },
                    );
                    self.total_cost = self.total_cost + img.cost;
                    proof {
                        assert forall|a: int, b: int|
                            0 <= a < b < self.entries().len() implies (#[trigger] self.entries()[a]).path@
                            != (#[trigger] self.entries()[b]).path@ by {
                            if b == self.entries().len() - 1 {
                                assert(self.entries()[a] == mid.entries()[a]);
                            } else {
                                assert(self.entries()[a] == mid.entries()[a]);
                                assert(self.entries()[b] == mid.entries()[b]);
                            }
                        }
                        assert forall|i: int|
                            0 <= i < old(self).entries().len() && old(self).is_displayed(
                                (#[trigger] old(self).entries()[i]).path@,
                            ) implies self.entries().contains(old(self).entries()[i]) by {
                            assert(mid.entries().contains(old(self).entries()[i]));
                            let k = choose|k: int|
                                0 <= k < mid.entries().len() && mid.entries()[k] == old(
                                    self,
                                ).entries()[i];
                            assert(self.entries()[k] == old(self).entries()[i]);
                        }
                        assert forall|j: int|
                            0 <= j < self.entries().len() implies old(self).entries().contains(
                                #[trigger] self.entries()[j],
                            ) || (self.entries()[j].path@ == item.path@ && self.entries()[j].tex
                                == img.tex && self.entries()[j].cost == img.cost) by {
                            if j < self.entries().len() - 1 {
                                assert(self.entries()[j] == mid.entries()[j]);
                            }
                        }
                        assert(self.is_cached(item.path@)) by {
                            assert(self.entries()[self.entries().len() - 1].path@ == item.path@);
                        }
                        if (match old(self).displayed() {
                            Some(dp) => item.path@ != dp,
                            None => true,
                        }) {
                            assert forall|j: int|
                                0 <= j < self.entries().len() && old(self).is_displayed(
                                    (#[trigger] self.entries()[j]).path@,
                                ) implies old(self).entries().contains(self.entries()[j]) by {
                                if j < self.entries().len() - 1 {
                                    assert(self.entries()[j] == mid.entries()[j]);
                                    assert(pre.entries().contains(self.entries()[j]));
                                    let k = choose|k: int|
                                        0 <= k < pre.entries().len() && pre.entries()[k]
                                            == self.entries()[j];
                                } else {
                                    assert(self.entries()[j].path@ == item.path@);
                                }
                            }
                            lemma_displayed_cost_related(*old(self), *self);
                            assert(self.displayed_cost() == old(self).displayed_cost());
                        }
                        assert forall|i: int, j: int|
                            0 <= i < old(self).entries().len() && 0 <= j < self.entries().len()
                                && !self.entries().contains(#[trigger] old(self).entries()[i])
                                && old(self).entries().contains(#[trigger] self.entries()[j])
                                && !old(self).is_displayed(self.entries()[j].path@) implies spec_distance(
                            old(self).listing(),
                            old(self).pos(),
                            old(self).entries()[i].path@,
                        ) >= spec_distance(
                            old(self).listing(),
                            old(self).pos(),
                            self.entries()[j].path@,
                        ) by {
                            if mid.entries().contains(old(self).entries()[i]) {
                                let k = choose|k: int|
                                    0 <= k < mid.entries().len() && mid.entries()[k] == old(
                                        self,
                                    ).entries()[i];
                                assert(self.entries()[k] == old(self).entries()[i]);
                                assert(false);
                            }
                            if j == self.entries().len() - 1 {
                                let k = choose|k: int|
                                    0 <= k < old(self).entries().len() && old(self).entries()[k]
                                        == self.entries()[j];
                                assert(old(self).entries()[k].path@ == item.path@);
                                assert(old(self).is_cached(item.path@));
                                assert(false);
                            }
                            assert(self.entries()[j] == mid.entries()[j]);
                        }
                    }
                }
            }
        }
        proof {
            if self.entries@ == old(self).entries@ {
                assert forall|i: int|
                    0 <= i < old(self).entries().len() implies self.entries().contains(
                    #[trigger] old(self).entries()[i],
                ) by {
                    assert(self.entries()[i] == old(self).entries()[i]);
                }
                lemma_clear_keeps_displayed_cost(*old(self), *self);
                assert(self.displayed_cost() == old(self).displayed_cost());
            }
        }
        let ghost preclear = *self;
        self.clear_in_flight(&item.path);
        proof {
            assert(preclear.pending() == old(self).pending());
            assert forall|q: Seq<char>|
                preclear.is_in_flight(q) == old(self).is_in_flight(q) by {
                if preclear.is_in_flight(q) {
                    let k = choose|k: int|
                        0 <= k < preclear.pending().len() && (#[trigger] preclear.pending()[k])@
                            == q;
                    assert(old(self).pending()[k]@ == q);
                }
                if old(self).is_in_flight(q) {
                    let k = choose|k: int|
                        0 <= k < old(self).pending().len() && (#[trigger] old(
                            self,
                        ).pending()[k])@ == q;
                    assert(preclear.pending()[k]@ == q);
                }
            }
        }
        err
    }

    /// A batch of genuinely new material, as the prefetch protocol
    /// produces it: no result is for an already-cached path, no two
    /// results share a path, and the displayed entry (if any) is itself
    /// cached, so the cost it protects cannot change during the drain.
    pub open spec fn fresh_batch(self, completed: Seq<PrefetchResult>) -> bool {
        &&& (forall|i: int|
            0 <= i < completed.len() ==> !self.is_cached((#[trigger] completed[i]).path@))
        &&& (forall|i: int, j: int|
            0 <= i < j < completed.len() ==> (#[trigger] completed[i]).path@ != (
            #[trigger] completed[j]).path@)
        &&& (match self.displayed() {
            Some(dp) => self.is_cached(dp),
            None => true,
        })
    }

    /// Drains a batch of completed background decodes into the cache.
    ///
    /// Every drained path loses its in-flight mark. Failures are isolated:
    /// they abort nothing, and the first failed result's kind is reported
    /// at the end. Stale and duplicate results are discarded silently.
    /// Admitted entries are charged against the budget, evicting the
    /// farthest-from-current entries first and never the displayed one, so
    /// a cache within its budget is still within it afterwards.
    pub fn process_prefetched(&mut self, completed: &Vec<PrefetchResult>) -> (r: Result<
        (),
        LoadError,
    >)
        requires
            old(self).wf(),
        ensures
            final(self).wf(),
            final(self).directory() == old(self).directory(),
            final(self).displayed() == old(self).displayed(),
            final(self).budget() == old(self).budget(),
            final(self).workers() == old(self).workers(),
            old(self).total_cost() <= old(self).budget() ==> final(self).total_cost()
                <= final(self).budget(),
            forall|i: int|
                0 <= i < old(self).entries().len() && old(self).is_displayed(
                    (#[trigger] old(self).entries()[i]).path@,
                ) ==> final(self).entries().contains(old(self).entries()[i]),
            forall|q: Seq<char>|
                final(self).is_in_flight(q) == (old(self).is_in_flight(q) && !(exists|k: int|
                    0 <= k < completed@.len() && (#[trigger] completed@[k]).path@ == q)),
            forall|j: int|
                0 <= j < final(self).entries().len() ==> old(self).entries().contains(
                    #[trigger] final(self).entries()[j],
                ) || (exists|k: int|
                    0 <= k < completed@.len() && ((#[trigger] completed@[k]).result matches Ok(img)
                        && final(self).entries()[j].path@ == completed@[k].path@
                        && final(self).entries()[j].tex == img.tex && final(self).entries()[j].cost
                        == img.cost)),
            match r {
                Ok(_) => forall|k: int|
                    0 <= k < completed@.len() ==> !((#[trigger] completed@[k]).result is Err),
                Err(e) => e.causes@.len() == 0 && (exists|k: int|
                    0 <= k < completed@.len() && ((#[trigger] completed@[k]).result matches Err(
                        kind,
                    ) && e.kind == kind && (forall|l: int|
                        0 <= l < k ==> !((#[trigger] completed@[l]).result is Err)))),
            },
            (completed@.len() == 1 && !old(self).is_cached(completed@[0].path@) && find_full(
                old(self).listing(),
                completed@[0].path@,
            ) is Some) ==> (match completed@[0].result {
                Ok(img) => final(self).is_cached(completed@[0].path@) == (old(
                    self,
                ).displayed_cost() + img.cost <= old(self).budget()),
                Err(_) => true,
            }),
            old(self).fresh_batch(completed@) ==> (forall|k: int|
                0 <= k < completed@.len() ==> (match (#[trigger] completed@[k]).result {
                    Ok(img) => (find_full(old(self).listing(), completed@[k].path@) is None
                        || old(self).displayed_cost() + img.cost > old(self).budget())
                        ==> !final(self).is_cached(completed@[k].path@),
                    Err(_) => !final(self).is_cached(completed@[k].path@),
                })),
            old(self).fresh_batch(completed@) ==> (forall|k: int|
                0 <= k < completed@.len() && ((#[trigger] completed@[k]).result matches Ok(img)
                    && old(self).displayed_cost() + img.cost <= old(self).budget()) && find_full(
                    old(self).listing(),
                    completed@[k].path@,
                ) is Some && (forall|l: int|
                    k < l < completed@.len() ==> !((#[trigger] completed@[l]).result is Ok)
                        || find_full(old(self).listing(), completed@[l].path@) is None)
                    ==> final(self).is_cached(completed@[k].path@)),
            old(self).fresh_batch(completed@) ==> (forall|i: int, j: int|
                0 <= i < old(self).entries().len() && 0 <= j < final(self).entries().len()
                    && !final(self).entries().contains(#[trigger] old(self).entries()[i])
                    && old(self).entries().contains(#[trigger] final(self).entries()[j])
                    && !old(self).is_displayed(final(self).entries()[j].path@)
                    ==> spec_distance(
                    old(self).listing(),
                    old(self).pos(),
                    old(self).entries()[i].path@,
                ) >= spec_distance(
                    old(self).listing(),
                    old(self).pos(),
                    final(self).entries()[j].path@,
                )),
    {
        let n = completed.len();
        let mut first_err: Option<ErrorKind> = None;
        let mut i: usize = 0;
        while i < n
            invariant
                old(self).wf(),
                n == completed@.len(),
                i <= n,
                self.wf(),
                self.directory() == old(self).directory(),
                self.displayed() == old(self).displayed(),
                self.budget() == old(self).budget(),
                self.workers() == old(self).workers(),
                old(self).total_cost() <= old(self).budget() ==> self.total_cost()
                    <= self.budget(),
                forall|k: int|
                    0 <= k < old(self).entries().len() && old(self).is_displayed(
                        (#[trigger] old(self).entries()[k]).path@,
                    ) ==> self.entries().contains(old(self).entries()[k]),
                forall|q: Seq<char>|
                    self.is_in_flight(q) == (old(self).is_in_flight(q) && !(exists|k: int|
                        0 <= k < i && (#[trigger] completed@[k]).path@ == q)),
                forall|j: int|
                    0 <= j < self.entries().len() ==> old(self).entries().contains(
                        #[trigger] self.entries()[j],
                    ) || (exists|k: int|
                        0 <= k < i && ((#[trigger] completed@[k]).result matches Ok(img)
                            && self.entries()[j].path@ == completed@[k].path@
                            && self.entries()[j].tex == img.tex && self.entries()[j].cost
                            == img.cost)),
                match first_err {
                    None => forall|k: int|
                        0 <= k < i ==> !((#[trigger] completed@[k]).result is Err),
                    Some(kind) => exists|k: int|
                        0 <= k < i && ((#[trigger] completed@[k]).result matches Err(kk)
                            && kind == kk && (forall|l: int|
                            0 <= l < k ==> !((#[trigger] completed@[l]).result is Err))),
                },
                (n == 1 && i == 1 && !old(self).is_cached(completed@[0].path@) && find_full(
                    old(self).listing(),
                    completed@[0].path@,
                ) is Some) ==> (match completed@[0].result {
                    Ok(img) => self.is_cached(completed@[0].path@) == (old(
                        self,
                    ).displayed_cost() + img.cost <= old(self).budget()),
                    Err(_) => true,
                }),
                old(self).fresh_batch(completed@) ==> self.displayed_cost() == old(
                    self,
                ).displayed_cost(),
                old(self).fresh_batch(completed@) ==> (forall|m: int|
                    0 <= m < completed@.len() && (i <= m || (match (#[trigger] completed@[m]).result {
                        Ok(img) => find_full(old(self).listing(), completed@[m].path@) is None
                            || old(self).displayed_cost() + img.cost > old(self).budget(),
                        Err(_) => true,
                    })) ==> !self.is_cached(completed@[m].path@)),
                old(self).fresh_batch(completed@) ==> (forall|m: int|
                    0 <= m < i && ((#[trigger] completed@[m]).result matches Ok(img)
                        && old(self).displayed_cost() + img.cost <= old(self).budget())
                        && find_full(old(self).listing(), completed@[m].path@) is Some && (
                    forall|l: int|
                        m < l < completed@.len() ==> !((#[trigger] completed@[l]).result is Ok)
                            || find_full(old(self).listing(), completed@[l].path@) is None)
                        ==> self.is_cached(completed@[m].path@)),
                old(self).fresh_batch(completed@) ==> (forall|a: int, b: int|
                    0 <= a < old(self).entries().len() && 0 <= b < self.entries().len()
                        && !self.entries().contains(#[trigger] old(self).entries()[a])
                        && old(self).entries().contains(#[trigger] self.entries()[b])
                        && !old(self).is_displayed(self.entries()[b].path@) ==> spec_distance(
                        old(self).listing(),
                        old(self).pos(),
                        old(self).entries()[a].path@,
                    ) >= spec_distance(
                        old(self).listing(),
                        old(self).pos(),
                        self.entries()[b].path@,
                    )),
            decreases n - i,
        {
            let ghost pre = *self;
            let e = self.absorb_prefetched(&completed[i]);
            proof {
                assert forall|k: int|
                    0 <= k < old(self).entries().len() && old(self).is_displayed(
                        (#[trigger] old(self).entries()[k]).path@,
                    ) implies self.entries().contains(old(self).entries()[k]) by {
                    assert(pre.entries().contains(old(self).entries()[k]));
                    let m = choose|m: int|
                        0 <= m < pre.entries().len() && pre.entries()[m] == old(self).entries()[k];
                    assert(pre.is_displayed(pre.entries()[m].path@));
                }
                assert forall|j: int|
                    0 <= j < self.entries().len() implies old(self).entries().contains(
                        #[trigger] self.entries()[j],
                    ) || (exists|k: int|
                        0 <= k < i + 1 && ((#[trigger] completed@[k]).result matches Ok(img)
                            && self.entries()[j].path@ == completed@[k].path@
                            && self.entries()[j].tex == img.tex && self.entries()[j].cost
                            == img.cost)) by {
                    if pre.entries().contains(self.entries()[j]) {
                        let m = choose|m: int|
                            0 <= m < pre.entries().len() && pre.entries()[m] == self.entries()[j];
                        assert(pre.entries()[m] == self.entries()[j]);
                    } else {
                        assert(completed@[i as int].result matches Ok(img)
                            && self.entries()[j].path@ == completed@[i as int].path@
                            && self.entries()[j].tex == img.tex && self.entries()[j].cost
                            == img.cost);
                    }
                }
                if old(self).fresh_batch(completed@) {
                    let item = completed@[i as int];
                    assert(self.displayed_cost() == pre.displayed_cost()) by {
                        match pre.displayed() {
                            Some(dp) => {
                                if item.path@ == dp {
                                    assert(old(self).is_cached(dp));
                                    assert(!old(self).is_cached(item.path@));
                                    assert(false);
                                }
                            },
                            None => {},
                        }
                    }
                    assert forall|m: int|
                        0 <= m < completed@.len() && (i + 1 <= m || (match (
                        #[trigger] completed@[m]).result {
                            Ok(img) => find_full(old(self).listing(), completed@[m].path@) is None
                                || old(self).displayed_cost() + img.cost > old(self).budget(),
                            Err(_) => true,
                        })) implies !self.is_cached(completed@[m].path@) by {
                        assert(!pre.is_cached(completed@[m].path@));
                        if self.is_cached(completed@[m].path@) {
                            let k = choose|k: int|
                                0 <= k < self.entries().len() && (#[trigger] self.entries()[k]).path@
                                    == completed@[m].path@;
                            if pre.entries().contains(self.entries()[k]) {
                                let kk = choose|kk: int|
                                    0 <= kk < pre.entries().len() && pre.entries()[kk]
                                        == self.entries()[k];
                                assert(pre.is_cached(completed@[m].path@));
                            } else {
                                assert(completed@[m].path@ == item.path@);
                            }
                            assert(false);
                        }
                    }
                    assert forall|m: int|
                        0 <= m < i + 1 && ((#[trigger] completed@[m]).result matches Ok(img)
                            && old(self).displayed_cost() + img.cost <= old(self).budget())
                            && find_full(old(self).listing(), completed@[m].path@) is Some && (
                        forall|l: int|
                            m < l < completed@.len() ==> !((#[trigger] completed@[l]).result is Ok)
                                || find_full(old(self).listing(), completed@[l].path@) is None)
                        implies self.is_cached(completed@[m].path@) by {
                        if m == i as int {
                            assert(!pre.is_cached(item.path@));
                        } else {
                            assert(pre.is_cached(completed@[m].path@));
                            assert(!((#[trigger] completed@[i as int]).result is Ok) || find_full(
                                old(self).listing(),
                                completed@[i as int].path@,
                            ) is None);
                            assert(self.entries() == pre.entries());
                            let k = choose|k: int|
                                0 <= k < pre.entries().len() && (#[trigger] pre.entries()[k]).path@
                                    == completed@[m].path@;
                            assert(self.entries()[k].path@ == completed@[m].path@);
                        }
                    }
                    assert forall|a: int, b: int|
                        0 <= a < old(self).entries().len() && 0 <= b < self.entries().len()
                            && !self.entries().contains(#[trigger] old(self).entries()[a])
                            && old(self).entries().contains(#[trigger] self.entries()[b])
                            && !old(self).is_displayed(self.entries()[b].path@) implies spec_distance(
                        old(self).listing(),
                        old(self).pos(),
                        old(self).entries()[a].path@,
                    ) >= spec_distance(
                        old(self).listing(),
                        old(self).pos(),
                        self.entries()[b].path@,
                    ) by {
                        let item = completed@[i as int];
                        assert(pre.entries().contains(self.entries()[b])) by {
                            if !pre.entries().contains(self.entries()[b]) {
                                assert(self.entries()[b].path@ == item.path@);
                                let k = choose|k: int|
                                    0 <= k < old(self).entries().len() && (#[trigger] old(
                                        self,
                                    ).entries()[k]) == self.entries()[b];
                                assert(old(self).is_cached(item.path@));
                                assert(false);
                            }
                        }
                        let bp = choose|bp: int|
                            0 <= bp < pre.entries().len() && pre.entries()[bp] == self.entries()[b];
                        if pre.entries().contains(old(self).entries()[a]) {
                            let ap = choose|ap: int|
                                0 <= ap < pre.entries().len() && pre.entries()[ap] == old(
                                    self,
                                ).entries()[a];
                            assert(!self.entries().contains(pre.entries()[ap]));
                            assert(spec_distance(
                                pre.listing(),
                                pre.pos(),
                                pre.entries()[ap].path@,
                            ) >= spec_distance(pre.listing(), pre.pos(), self.entries()[b].path@));
                        } else {
                            assert(spec_distance(
                                old(self).listing(),
                                old(self).pos(),
                                old(self).entries()[a].path@,
                            ) >= spec_distance(
                                old(self).listing(),
                                old(self).pos(),
                                pre.entries()[bp].path@,
                            ));
                        }
                    }
                }
            }
            if first_err.is_none() {
                first_err = e;
            }
            i += 1;
        }
        match first_err {
            None => Ok(()),
            Some(kind) => Err(LoadError::new(kind)),
        }
    }

    /// Common clauses of the navigation operations: what resolving the
    /// entry at the new position returns and how the displayed entry moves.
    pub open spec fn resolved(self, post: ImageCache, o: LoadOutcome) -> bool {
        let target = post.listing()[post.pos()];
        &&& post.entries() == self.entries()
        &&& post.pending() == self.pending()
        &&& if self.is_cached(target.full@) {
            &&& post.displayed() == Some(target.full@)
            &&& (o matches LoadOutcome::Loaded(tex, name) && (exists|i: int|
                0 <= i < self.entries().len() && (#[trigger] self.entries()[i]).path@
                    == target.full@ && self.entries()[i].tex == tex) && (target.name matches Some(
                nm,
            ) && name == nm))
        } else {
            &&& post.displayed() == self.displayed()
            &&& (o matches LoadOutcome::NeedsDecode(p) && p == target)
        }
    }

    /// What a wraparound jump by `k` leaves behind: the moved position and
    /// the resolution of the entry there; in an empty directory, a
    /// `NotFound` failure and no change at all.
    pub open spec fn jump_outcome(self, post: ImageCache, k: int, o: LoadOutcome) -> bool {
        if self.listing().len() == 0 {
            &&& (o matches LoadOutcome::Failed(kind) && kind == ErrorKind::NotFound)
            &&& post == self
        } else {
            &&& post.pos() == wrap_index(self.pos(), k, self.listing().len() as int)
            &&& post.listing() == self.listing()
            &&& post.budget() == self.budget()
            &&& post.workers() == self.workers()
            &&& self.resolved(post, o)
        }
    }

    /// What `load_specific` leaves behind: a listed path moves the
    /// position to its first occurrence and resolves there; an unlisted
    /// one fails with `NotFound` and changes nothing.
    pub open spec fn specific_outcome(self, post: ImageCache, path: FsPath, o: LoadOutcome) -> bool {
        match find_full(self.listing(), path.full@) {
            None => {
                &&& (o matches LoadOutcome::Failed(kind) && kind == ErrorKind::NotFound)
                &&& post == self
            },
            Some(i) => {
                &&& post.pos() == i
                &&& post.listing() == self.listing()
                &&& post.budget() == self.budget()
                &&& post.workers() == self.workers()
                &&& self.resolved(post, o)
            },
        }
    }

    /// Resolves the entry at the current position: a cached entry becomes
    /// the displayed one and is returned; anything else is handed back to
    /// the caller to decode.
    fn resolve_current(&mut self) -> (o: LoadOutcome)
        requires
            old(self).wf(),
            old(self).listing().len() > 0,
        ensures
            final(self).wf(),
            final(self).directory() == old(self).directory(),
            final(self).budget() == old(self).budget(),
            final(self).workers() == old(self).workers(),
            old(self).resolved(*final(self), o),
    {
        let cur = self.dir.current_index();
        let target = self.dir.entry_at(cur);
        let full = target.full.clone();
        let name = match &target.name {
            Some(n) => n.clone(),
            None => {
                proof {
                    assert(false);
                }
                String::new()
            },
        };
        match self.find_cached(&full) {
            Some(i) => {
                let tex = self.entries[i].tex;
                self.displayed_path = Some(full);
                proof {
                    if !(self.total_cost() <= self.budget()) {
                        assert(self.entries()[0].path@ == old(self).listing()[old(
                            self,
                        ).pos()].full@);
                    }
                }
                LoadOutcome::Loaded(tex, name)
            },
            None => {
                LoadOutcome::NeedsDecode(FsPath { full, name: Some(name) })
            },
        }
    }

    /// Moves by `k` with wraparound and resolves the entry there; in an
    /// empty directory the navigation fails with `NotFound` and nothing
    /// changes.
    pub fn load_jump(&mut self, k: i32) -> (o: LoadOutcome)
        requires
            old(self).wf(),
        ensures
            final(self).wf(),
            final(self).listing() == old(self).listing(),
            final(self).budget() == old(self).budget(),
            final(self).workers() == old(self).workers(),
            if old(self).listing().len() == 0 {
                &&& o matches LoadOutcome::Failed(k) && k == ErrorKind::NotFound
                &&& *final(self) == *old(self)
            } else {
                &&& final(self).pos() == wrap_index(
                    old(self).pos(),
                    k as int,
                    old(self).listing().len() as int,
                )
                &&& old(self).resolved(*final(self), o)
            },
    {
        if self.dir.len() == 0 {
            return LoadOutcome::Failed(ErrorKind::NotFound);
        }
        self.dir.jump(k);
        self.resolve_current()
    }

    /// Moves one entry forward (with wraparound) and resolves it.
    pub fn load_next(&mut self) -> (o: LoadOutcome)
        requires
            old(self).wf(),
        ensures
            final(self).wf(),
            final(self).listing() == old(self).listing(),
            final(self).budget() == old(self).budget(),
            final(self).workers() == old(self).workers(),
            if old(self).listing().len() == 0 {
                &&& o matches LoadOutcome::Failed(k) && k == ErrorKind::NotFound
                &&& *final(self) == *old(self)
            } else {
                &&& final(self).pos() == wrap_index(
                    old(self).pos(),
                    1,
                    old(self).listing().len() as int,
                )
                &&& old(self).resolved(*final(self), o)
            },
    {
        self.load_jump(1)
    }

    /// Moves one entry backward (with wraparound) and resolves it.
    pub fn load_prev(&mut self) -> (o: LoadOutcome)
        requires
            old(self).wf(),
        ensures
            final(self).wf(),
            final(self).listing() == old(self).listing(),
            final(self).budget() == old(self).budget(),
            final(self).workers() == old(self).workers(),
            if old(self).listing().len() == 0 {
                &&& o matches LoadOutcome::Failed(k) && k == ErrorKind::NotFound
                &&& *final(self) == *old(self)
            } else {
                &&& final(self).pos() == wrap_index(
                    old(self).pos(),
                    -1,
                    old(self).listing().len() as int,
                )
                &&& old(self).resolved(*final(self), o)
            },
    {
        self.load_jump(-1)
    }

    /// Moves to the listed entry with this full path and resolves it;
    /// a path that is not listed fails with `NotFound` and changes nothing.
    pub fn load_specific(&mut self, path: &FsPath) -> (o: LoadOutcome)
        requires
            old(self).wf(),
        ensures
            final(self).wf(),
            final(self).listing() == old(self).listing(),
            final(self).budget() == old(self).budget(),
            final(self).workers() == old(self).workers(),
            match find_full(old(self).listing(), path.full@) {
                None => {
                    &&& o matches LoadOutcome::Failed(k) && k == ErrorKind::NotFound
                    &&& *final(self) == *old(self)
                },
                Some(i) => {
                    &&& final(self).pos() == i
                    &&& old(self).resolved(*final(self), o)
                },
            },
    {
        match self.dir.index_of_full(&path.full) {
            None => LoadOutcome::Failed(ErrorKind::NotFound),
            Some(i) => {
                proof {
                    lemma_find_full(self.listing(), path.full@);
                }
                self.dir.set_position(i);
                self.resolve_current()
            },
        }
    }

    /// Finishes a synchronous load whose target had to be decoded: on
    /// success the image is admitted (evicting farthest-first as needed;
    /// an image larger than the whole budget is still admitted, alone) and
    /// becomes the displayed entry; on failure nothing is displayed.
    pub fn complete_load(&mut self, path: &FsPath, outcome: Result<UploadedImage, ErrorKind>) -> (r:
        Result<(u64, String), LoadError>)
        requires
            old(self).wf(),
            path.name is Some,
        ensures
            final(self).wf(),
            final(self).directory() == old(self).directory(),
            final(self).pending() == old(self).pending(),
            final(self).budget() == old(self).budget(),
            final(self).workers() == old(self).workers(),
            match outcome {
                Err(kind) => {
                    &&& r matches Err(e) && e.kind == kind && e.causes@.len() == 0
                    &&& final(self).displayed() is None
                    &&& (old(self).total_cost() <= old(self).budget() ==> final(self).entries()
                        == old(self).entries())
                    &&& final(self).total_cost() <= final(self).budget()
                    &&& forall|j: int|
                        0 <= j < final(self).entries().len() ==> old(self).entries().contains(
                            #[trigger] final(self).entries()[j],
                        )
                },
                Ok(img) => {
                    &&& final(self).displayed() == Some(path.full@)
                    &&& (r matches Ok(pair) && (path.name matches Some(nm) && pair.1 == nm))
                    &&& final(self).is_cached(path.full@)
                    &&& if old(self).is_cached(path.full@) {
                        &&& final(self).entries() == old(self).entries()
                        &&& (r matches Ok(pair) && (exists|i: int|
                            0 <= i < old(self).entries().len() && (#[trigger] old(
                                self,
                            ).entries()[i]).path@ == path.full@ && old(self).entries()[i].tex
                                == pair.0))
                    } else {
                        &&& (r matches Ok(pair) && pair.0 == img.tex)
                        &&& final(self).entries().contains(
                            (CacheEntry { path: path.full, tex: img.tex, cost: img.cost }),
                        )
                        &&& (forall|j: int|
                            0 <= j < final(self).entries().len()
                                ==> old(self).entries().contains(#[trigger] final(self).entries()[j])
                                || final(self).entries()[j].path@ == path.full@)
                        &&& (img.cost <= old(self).budget() ==> final(self).total_cost()
                            <= final(self).budget())
                        &&& (forall|i: int, j: int|
                            0 <= i < old(self).entries().len() && 0 <= j < final(self).entries().len()
                                && !final(self).entries().contains(#[trigger] old(self).entries()[i])
                                && old(self).entries().contains(#[trigger] final(self).entries()[j])
                                ==> spec_distance(
                                old(self).listing(),
                                old(self).pos(),
                                old(self).entries()[i].path@,
                            ) >= spec_distance(
                                old(self).listing(),
                                old(self).pos(),
                                final(self).entries()[j].path@,
                            ))
                    }
                },
            },
    {
        match outcome {
            Err(kind) => {
                self.displayed_path = None;
                let fits = self.make_room(0);
                proof {
                    if !fits {
                        if self.entries@.len() >= 1 {
                            assert(self.is_displayed(self.entries()[0].path@));
                            assert(false);
                        }
                        assert(sum_costs(self.entries@) == 0);
                    }
                }
                Err(LoadError::new(kind))
            },
            Ok(img) => {
                let name = match path.file_name() {
                    Some(n) => n.clone(),
                    None => {
                        proof {
                            assert(false);
                        }
                        String::new()
                    },
                };
                match self.find_cached(&path.full) {
                    Some(i) => {
                        let tex = self.entries[i].tex;
                        self.displayed_path = Some(path.full.clone());
                        proof {
                            if !(self.total_cost() <= self.budget()) {
                                assert(self.entries()[0].path@ == path.full@);
                            }
                        }
                        Ok((tex, name))
                    },
                    None => {
                        self.displayed_path = Some(path.full.clone());
                        let ghost pre = *self;
                        let fits = self.make_room(img.cost);
                        proof {
                            if !fits {
                                if self.entries@.len() > 0 {
                                    assert(pre.is_displayed(self.entries()[0].path@));
                                    assert(pre.entries().contains(self.entries()[0]));
                                    let m = choose|m: int|
                                        0 <= m < pre.entries().len() && pre.entries()[m]
                                            == self.entries()[0];
                                    assert(old(self).is_cached(path.full@));
                                    assert(false);
                                }
                                assert(sum_costs(self.entries@) == 0);
                            }
                            assert forall|j: int|
                                0 <= j < self.entries().len() implies (#[trigger] self.entries()[j]).path@
                                != path.full@ by {
                                assert(pre.entries().contains(self.entries()[j]));
                                let m = choose|m: int|
                                    0 <= m < pre.entries().len() && pre.entries()[m]
                                        == self.entries()[j];
                                if pre.entries()[m].path@ == path.full@ {
                                    assert(old(self).is_cached(path.full@));
                                }
                            }
                            lemma_sum_push(
                                self.entries@,
                                (CacheEntry { path: path.full, tex: img.tex, cost: img.cost }),
                            );
                        }
                        let ghost mid = *self;
                        self.entries.push(
                            CacheEntry { path: path.full.clone(), tex: img.tex, cost: img.cost },
                        );
                        self.total_cost = self.total_cost + img.cost;
                        proof {
                            assert forall|a: int, b: int|
                                0 <= a < b < self.entries().len() implies (#[trigger] self.entries()[a]).path@
                                != (#[trigger] self.entries()[b]).path@ by {
                                if b < self.entries().len() - 1 {
                                    assert(self.entries()[a] == mid.entries()[a]);
                                    assert(self.entries()[b] == mid.entries()[b]);
                                } else {
                                    assert(self.entries()[a] == mid.entries()[a]);
                                }
                            }
                            assert(self.entries()[self.entries().len() - 1] == (CacheEntry {
                                path: path.full,
                                tex: img.tex,
                                cost: img.cost,
                            }));
                            assert forall|j: int|
                                0 <= j < self.entries().len() implies old(
                                self,
                            ).entries().contains(#[trigger] self.entries()[j])
                                || self.entries()[j].path@ == path.full@ by {
                                if j < self.entries().len() - 1 {
                                    assert(self.entries()[j] == mid.entries()[j]);
                                    assert(pre.entries().contains(self.entries()[j]));
                                }
                            }
                            if !(self.total_cost() <= self.budget()) {
                                assert(self.entries@.len() == 1);
                            }
                            assert forall|a: int, b: int|
                                0 <= a < old(self).entries().len() && 0 <= b < self.entries().len()
                                    && !self.entries().contains(#[trigger] old(self).entries()[a])
                                    && old(self).entries().contains(#[trigger] self.entries()[b])
                                    implies spec_distance(
                                old(self).listing(),
                                old(self).pos(),
                                old(self).entries()[a].path@,
                            ) >= spec_distance(
                                old(self).listing(),
                                old(self).pos(),
                                self.entries()[b].path@,
                            ) by {
                                if mid.entries().contains(old(self).entries()[a]) {
                                    let k = choose|k: int|
                                        0 <= k < mid.entries().len() && mid.entries()[k] == old(
                                            self,
                                        ).entries()[a];
                                    assert(self.entries()[k] == old(self).entries()[a]);
                                    assert(false);
                                }
                                if b == self.entries().len() - 1 {
                                    let k = choose|k: int|
                                        0 <= k < old(self).entries().len() && old(
                                            self,
                                        ).entries()[k] == self.entries()[b];
                                    assert(old(self).entries()[k].path@ == path.full@);
                                    assert(old(self).is_cached(path.full@));
                                    assert(false);
                                }
                                assert(self.entries()[b] == mid.entries()[b]);
                                assert(!pre.is_displayed(mid.entries()[b].path@)) by {
                                    if mid.entries()[b].path@ == path.full@ {
                                        let k = choose|k: int|
                                            0 <= k < old(self).entries().len() && old(
                                                self,
                                            ).entries()[k] == self.entries()[b];
                                        assert(old(self).is_cached(path.full@));
                                    }
                                }
                            }
                        }
                        Ok((img.tex, name))
                    },
                }
            },
        }
    }

    /// Whether this path currently has an in-flight decode job.
    fn is_in_flight_now(&self, full: &String) -> (r: bool)
        ensures
            r == self.is_in_flight(full@),
    {
        let n = self.in_flight.len();
        let mut i: usize = 0;
        while i < n
            invariant
                n == self.pending().len(),
                i <= n,
                forall|j: int| 0 <= j < i ==> (#[trigger] self.pending()[j])@ != full@,
            decreases n - i,
        {
            if self.in_flight[i].eq(full) {
                return true;
            }
            i += 1;
        }
        false
    }

    /// Requests a background decode for the entry `off` away from the
    /// current position, unless that is the current entry itself or its
    /// path is already cached or in flight.
    fn maybe_request(&mut self, off: i32, reqs: &mut Vec<FsPath>)
        requires
            old(self).wf(),
            old(self).listing().len() > 0,
        ensures
            final(self).wf(),
            final(self).directory() == old(self).directory(),
            final(self).entries() == old(self).entries(),
            final(self).displayed() == old(self).displayed(),
            final(self).budget() == old(self).budget(),
            final(self).workers() == old(self).workers(),
            final(self).total_recorded() == old(self).total_recorded(),
            old(reqs)@.len() <= final(reqs)@.len(),
            final(reqs)@.len() <= old(reqs)@.len() + 1,
            forall|i: int| 0 <= i < old(reqs)@.len() ==> final(reqs)@[i] == old(reqs)@[i],
            forall|q: Seq<char>| final(self).is_cached(q) == old(self).is_cached(q),
            forall|q: Seq<char>|
                final(self).is_in_flight(q) == (old(self).is_in_flight(q) || (exists|i: int|
                    old(reqs)@.len() <= i < final(reqs)@.len()
                        && (#[trigger] final(reqs)@[i]).full@ == q)),
            forall|i: int|
                old(reqs)@.len() <= i < final(reqs)@.len() ==> {
                    let p = #[trigger] final(reqs)@[i];
                    &&& !old(self).is_cached(p.full@)
                    &&& !old(self).is_in_flight(p.full@)
                    &&& wrap_index(old(self).pos(), off as int, old(self).listing().len() as int)
                        != old(self).pos()
                    &&& p == old(self).listing()[wrap_index(
                        old(self).pos(),
                        off as int,
                        old(self).listing().len() as int,
                    )]
                },
            ({
                let ti = wrap_index(old(self).pos(), off as int, old(self).listing().len() as int);
                let t = old(self).listing()[ti];
                (ti != old(self).pos() && !old(self).is_cached(t.full@) && !old(
                    self,
                ).is_in_flight(t.full@)) ==> (exists|i: int|
                    0 <= i < final(reqs)@.len() && (#[trigger] final(reqs)@[i]).full@ == t.full@)
            }),
    {
        let ti = self.dir.peek_index(off);
        let cur = self.dir.current_index();
        if ti == cur {
            return ;
        }
        let t = self.dir.entry_at(ti);
        let full = t.full.clone();
        let name = match &t.name {
            Some(n) => n.clone(),
            None => {
                proof {
                    assert(false);
                }
                String::new()
            },
        };
        if self.find_cached(&full).is_some() {
            return ;
        }
        if self.is_in_flight_now(&full) {
            return ;
        }
        let ghost before = self.in_flight@;
        self.in_flight.push(full.clone());
        reqs.push(FsPath { full, name: Some(name) });
        proof {
            assert(reqs@ == old(reqs)@.push(old(self).listing()[ti as int]));
            assert(reqs@[reqs@.len() - 1] == old(self).listing()[ti as int]);
            assert forall|a: int, b: int|
                0 <= a < b < self.pending().len() implies (#[trigger] self.pending()[a])@ != (
            #[trigger] self.pending()[b])@ by {
                if b < self.pending().len() - 1 {
                    assert(self.pending()[a] == before[a]);
                    assert(self.pending()[b] == before[b]);
                } else {
                    assert(self.pending()[a] == before[a]);
                }
            }
            assert forall|q: Seq<char>|
                self.is_in_flight(q) == (old(self).is_in_flight(q) || (exists|i: int|
                    old(reqs)@.len() <= i < reqs@.len() && (#[trigger] reqs@[i]).full@ == q)) by {
                if self.is_in_flight(q) {
                    let k = choose|k: int|
                        0 <= k < self.pending().len() && (#[trigger] self.pending()[k])@ == q;
                    if k < self.pending().len() - 1 {
                        assert(before[k]@ == q);
                        assert(old(self).is_in_flight(q));
                    } else {
                        assert(reqs@[reqs@.len() - 1].full@ == q);
                    }
                }
                if old(self).is_in_flight(q) {
                    let k = choose|k: int|
                        0 <= k < before.len() && (#[trigger] before[k])@ == q;
                    assert(self.pending()[k]@ == q);
                }
                if exists|i: int|
                    old(reqs)@.len() <= i < reqs@.len() && (#[trigger] reqs@[i]).full@ == q {
                    assert(self.pending()[self.pending().len() - 1]@ == q);
                }
            }
            assert forall|q: Seq<char>| self.is_cached(q) == old(self).is_cached(q) by {
                if self.is_cached(q) {
                    let k = choose|k: int|
                        0 <= k < self.entries().len() && (#[trigger] self.entries()[k]).path@
                            == q;
                    assert(old(self).entries()[k].path@ == q);
                }
                if old(self).is_cached(q) {
                    let k = choose|k: int|
                        0 <= k < old(self).entries().len() && (#[trigger] old(
                            self,
                        ).entries()[k]).path@ == q;
                    assert(self.entries()[k].path@ == q);
                }
            }
        }
    }

    /// Decides which nearby images to prefetch: the entries at offsets
    /// +1, -1, +2 and -2 from the current position, nearest first,
    /// skipping the current entry and every path already cached or in
    /// flight. The returned paths are marked in flight; the owner submits
    /// them to its background workers in this order.
    pub fn send_load_requests(&mut self) -> (reqs: Vec<FsPath>)
        requires
            old(self).wf(),
        ensures
            final(self).wf(),
            final(self).directory() == old(self).directory(),
            final(self).entries() == old(self).entries(),
            final(self).displayed() == old(self).displayed(),
            final(self).budget() == old(self).budget(),
            final(self).workers() == old(self).workers(),
            old(self).listing().len() == 0 ==> reqs@.len() == 0 && final(self).pending() == old(
                self,
            ).pending(),
            old(self).listing().len() > 0 ==> reqs@ == spec_prefetch_plan(
                *old(self),
                prefetch_window(),
                Seq::<FsPath>::empty(),
            ),
            forall|i: int|
                0 <= i < reqs@.len() ==> {
                    let p = #[trigger] reqs@[i];
                    &&& !old(self).is_cached(p.full@)
                    &&& !old(self).is_in_flight(p.full@)
                    &&& (exists|off: int|
                        (off == 1 || off == -1 || off == 2 || off == -2) && #[trigger] wrap_index(
                            old(self).pos(),
                            off,
                            old(self).listing().len() as int,
                        ) != old(self).pos() && p == old(self).listing()[wrap_index(
                            old(self).pos(),
                            off,
                            old(self).listing().len() as int,
                        )])
                },
            forall|i: int, j: int|
                0 <= i < j < reqs@.len() ==> (#[trigger] reqs@[i]).full@ != (
                #[trigger] reqs@[j]).full@,
            forall|q: Seq<char>|
                final(self).is_in_flight(q) == (old(self).is_in_flight(q) || (exists|i: int|
                    0 <= i < reqs@.len() && (#[trigger] reqs@[i]).full@ == q)),
            forall|off: int|
                ((off == 1 || off == -1 || off == 2 || off == -2) && old(self).listing().len()
                    > 0) ==> {
                    let ti = #[trigger] wrap_index(
                        old(self).pos(),
                        off,
                        old(self).listing().len() as int,
                    );
                    let t = old(self).listing()[ti];
                    (ti != old(self).pos() && !old(self).is_cached(t.full@) && !old(
                        self,
                    ).is_in_flight(t.full@)) ==> (exists|i: int|
                        0 <= i < reqs@.len() && (#[trigger] reqs@[i]).full@ == t.full@)
                },
    {
        let mut reqs: Vec<FsPath> = Vec::new();
        if self.dir.len() == 0 {
            return reqs;
        }
        let ghost s0 = *self;
        self.maybe_request(1, &mut reqs);
        let ghost s1 = *self;
        let ghost r1 = reqs@;
        self.maybe_request(-1, &mut reqs);
        let ghost s2 = *self;
        let ghost r2 = reqs@;
        self.maybe_request(2, &mut reqs);
        let ghost s3 = *self;
        let ghost r3 = reqs@;
        self.maybe_request(-2, &mut reqs);
        proof {
            let r4 = reqs@;
            let w = prefetch_window();
            let w1 = w.drop_first();
            let w2 = w1.drop_first();
            let w3 = w2.drop_first();
            let w4 = w3.drop_first();
            assert(w4.len() == 0);
            let e = Seq::<FsPath>::empty();
            let d = s0.listing().len() as int;
            let t1 = s0.listing()[wrap_index(s0.pos(), 1, d)];
            let t2 = s0.listing()[wrap_index(s0.pos(), -1, d)];
            let t3 = s0.listing()[wrap_index(s0.pos(), 2, d)];
            let t4 = s0.listing()[wrap_index(s0.pos(), -2, d)];
            assert(s1.is_cached(t2.full@) == s0.is_cached(t2.full@));
            assert(s2.is_cached(t3.full@) == s0.is_cached(t3.full@));
            assert(s3.is_cached(t4.full@) == s0.is_cached(t4.full@));
            assert(s1.is_in_flight(t2.full@) == (s0.is_in_flight(t2.full@) || (exists|m: int|
                0 <= m < r1.len() && (#[trigger] r1[m]).full@ == t2.full@)));
            assert(s2.is_in_flight(t3.full@) == (s0.is_in_flight(t3.full@) || (exists|m: int|
                0 <= m < r2.len() && (#[trigger] r2[m]).full@ == t3.full@))) by {
                if s2.is_in_flight(t3.full@) && !s0.is_in_flight(t3.full@)
                    && !(exists|m: int|
                    r1.len() <= m < r2.len() && (#[trigger] r2[m]).full@ == t3.full@) {
                    assert(s1.is_in_flight(t3.full@));
                    let m = choose|m: int| 0 <= m < r1.len() && (#[trigger] r1[m]).full@ == t3.full@;
                    assert(r2[m].full@ == t3.full@);
                }
                if exists|m: int| 0 <= m < r2.len() && (#[trigger] r2[m]).full@ == t3.full@ {
                    let m = choose|m: int|
                        0 <= m < r2.len() && (#[trigger] r2[m]).full@ == t3.full@;
                    if m < r1.len() {
                        assert(r1[m].full@ == t3.full@);
                        assert(s1.is_in_flight(t3.full@));
                    }
                }
            }
            assert(s3.is_in_flight(t4.full@) == (s0.is_in_flight(t4.full@) || (exists|m: int|
                0 <= m < r3.len() && (#[trigger] r3[m]).full@ == t4.full@))) by {
                if s3.is_in_flight(t4.full@) && !s0.is_in_flight(t4.full@)
                    && !(exists|m: int|
                    r2.len() <= m < r3.len() && (#[trigger] r3[m]).full@ == t4.full@) {
                    assert(s2.is_in_flight(t4.full@));
                    if !(exists|m: int|
                        r1.len() <= m < r2.len() && (#[trigger] r2[m]).full@ == t4.full@) {
                        assert(s1.is_in_flight(t4.full@));
                        let m = choose|m: int|
                            0 <= m < r1.len() && (#[trigger] r1[m]).full@ == t4.full@;
                        assert(r3[m].full@ == t4.full@);
                    } else {
                        let m = choose|m: int|
                            r1.len() <= m < r2.len() && (#[trigger] r2[m]).full@ == t4.full@;
                        assert(r3[m].full@ == t4.full@);
                    }
                }
                if exists|m: int| 0 <= m < r3.len() && (#[trigger] r3[m]).full@ == t4.full@ {
                    let m = choose|m: int|
                        0 <= m < r3.len() && (#[trigger] r3[m]).full@ == t4.full@;
                    if m < r1.len() {
                        assert(r1[m].full@ == t4.full@);
                        assert(s1.is_in_flight(t4.full@));
                        assert(s2.is_in_flight(t4.full@));
                    } else if m < r2.len() {
                        assert(r2[m].full@ == t4.full@);
                        assert(s2.is_in_flight(t4.full@));
                    }
                }
            }
            assert(w.len() == 4 && w[0] == 1 && w[1] == -1 && w[2] == 2 && w[3] == -2);
            assert(w.drop_first() =~= w1);
            assert(w1.len() == 3 && w1[0] == -1 && w1[1] == 2 && w1[2] == -2);
            assert(w2.len() == 2 && w2[0] == 2 && w2[1] == -2);
            assert(w3.len() == 1 && w3[0] == -2);
            assert(spec_prefetch_plan(s0, w, e) == spec_prefetch_plan(s0, w1, r1)) by {
                let fresh = wrap_index(s0.pos(), 1, d) != s0.pos() && !s0.is_cached(t1.full@)
                    && !s0.is_in_flight(t1.full@);
                if fresh {
                    assert(r1 =~= e.push(t1));
                } else {
                    if r1.len() > 0 {
                        assert(r1[0] == t1);
                        assert(false);
                    }
                    assert(r1 =~= e);
                }
            }
            assert(spec_prefetch_plan(s0, w1, r1) == spec_prefetch_plan(s0, w2, r2)) by {
                let c2 = wrap_index(s0.pos(), -1, d) != s0.pos() && !s1.is_cached(t2.full@)
                    && !s1.is_in_flight(t2.full@);
                let fresh = wrap_index(s0.pos(), -1, d) != s0.pos() && !s0.is_cached(t2.full@)
                    && !s0.is_in_flight(t2.full@) && (forall|m: int|
                    0 <= m < r1.len() ==> (#[trigger] r1[m]).full@ != t2.full@);
                assert(c2 == fresh);
                if c2 {
                    assert(r2 =~= r1.push(t2));
                } else {
                    if r2.len() > r1.len() {
                        assert(r2[r1.len() as int] == t2);
                        assert(false);
                    }
                    assert(r2 =~= r1);
                }
            }
            assert(spec_prefetch_plan(s0, w2, r2) == spec_prefetch_plan(s0, w3, r3)) by {
                let c3 = wrap_index(s0.pos(), 2, d) != s0.pos() && !s2.is_cached(t3.full@)
                    && !s2.is_in_flight(t3.full@);
                let fresh = wrap_index(s0.pos(), 2, d) != s0.pos() && !s0.is_cached(t3.full@)
                    && !s0.is_in_flight(t3.full@) && (forall|m: int|
                    0 <= m < r2.len() ==> (#[trigger] r2[m]).full@ != t3.full@);
                assert(c3 == fresh);
                if c3 {
                    assert(r3 =~= r2.push(t3));
                } else {
                    if r3.len() > r2.len() {
                        assert(r3[r2.len() as int] == t3);
                        assert(false);
                    }
                    assert(r3 =~= r2);
                }
            }
            assert(spec_prefetch_plan(s0, w3, r3) == spec_prefetch_plan(s0, w4, r4)) by {
                let c4 = wrap_index(s0.pos(), -2, d) != s0.pos() && !s3.is_cached(t4.full@)
                    && !s3.is_in_flight(t4.full@);
                let fresh = wrap_index(s0.pos(), -2, d) != s0.pos() && !s0.is_cached(t4.full@)
                    && !s0.is_in_flight(t4.full@) && (forall|m: int|
                    0 <= m < r3.len() ==> (#[trigger] r3[m]).full@ != t4.full@);
                assert(c4 == fresh);
                if c4 {
                    assert(r4 =~= r3.push(t4));
                } else {
                    if r4.len() > r3.len() {
                        assert(r4[r3.len() as int] == t4);
                        assert(false);
                    }
                    assert(r4 =~= r3);
                }
            }
            assert(spec_prefetch_plan(s0, w4, r4) == r4);
            assert(forall|i: int|
                0 <= i < r1.len() ==> s1.is_in_flight((#[trigger] r1[i]).full@));
            assert(forall|i: int, j: int|
                0 <= i < j < r1.len() ==> (#[trigger] r1[i]).full@ != (#[trigger] r1[j]).full@);
            assert(forall|i: int|
                0 <= i < r2.len() ==> s2.is_in_flight((#[trigger] r2[i]).full@));
            assert(forall|i: int, j: int|
                0 <= i < j < r2.len() ==> (#[trigger] r2[i]).full@ != (#[trigger] r2[j]).full@);
            assert(forall|i: int|
                0 <= i < r3.len() ==> s3.is_in_flight((#[trigger] r3[i]).full@));
            assert(forall|i: int, j: int|
                0 <= i < j < r3.len() ==> (#[trigger] r3[i]).full@ != (#[trigger] r3[j]).full@);
            assert(forall|i: int|
                0 <= i < r4.len() ==> self.is_in_flight((#[trigger] r4[i]).full@));
            assert(forall|i: int, j: int|
                0 <= i < j < r4.len() ==> (#[trigger] r4[i]).full@ != (#[trigger] r4[j]).full@);
        }
        reqs
    }

    /// Replaces the directory listing with a fresh enumeration, or
    /// surfaces the enumeration failure as an error. On success the
    /// position is kept when the current file is still listed, entries
    /// whose paths are no longer listed are dropped, and in-flight marks
    /// stay: a stale result is discarded when it is drained.
    pub fn update_directory(&mut self, enumeration: Result<Vec<FsPath>, ErrorKind>) -> (r: Result<
        (),
        LoadError,
    >)
        requires
            old(self).wf(),
            enumeration matches Ok(listing) ==> forall|i: int|
                0 <= i < listing@.len() ==> (#[trigger] listing@[i]).name is Some,
        ensures
            final(self).wf(),
            final(self).pending() == old(self).pending(),
            final(self).displayed() == old(self).displayed(),
            final(self).budget() == old(self).budget(),
            final(self).workers() == old(self).workers(),
            match enumeration {
                Err(kind) => {
                    &&& *final(self) == *old(self)
                    &&& (r matches Err(e) && e.kind == kind && e.causes@.len() == 0)
                },
                Ok(listing) => {
                    &&& r is Ok
                    &&& final(self).listing() == listing@
                    &&& ({
                        let had = old(self).listing().len() > 0;
                        let prev = old(self).listing()[old(self).pos()].full@;
                        if had && find_full(listing@, prev) is Some {
                            Some(final(self).pos()) == find_full(listing@, prev)
                        } else {
                            final(self).pos() == 0
                        }
                    })
                    &&& (forall|j: int|
                        0 <= j < final(self).entries().len()
                            ==> old(self).entries().contains(#[trigger] final(self).entries()[j])
                            && find_full(listing@, final(self).entries()[j].path@) is Some)
                    &&& (forall|i: int|
                        0 <= i < old(self).entries().len() && find_full(
                            listing@,
                            (#[trigger] old(self).entries()[i]).path@,
                        ) is Some ==> final(self).entries().contains(old(self).entries()[i]))
                    &&& old(self).total_cost() <= old(self).budget() ==> final(self).total_cost()
                        <= final(self).budget()
                },
            },
    {
        match enumeration {
            Err(kind) => Err(LoadError::new(kind)),
            Ok(listing) => {
                self.dir.set_listing(listing);
                let ghost dirafter = self.dir;
                let mut i: usize = 0;
                while i < self.entries.len()
                    invariant
                        self.directory() == dirafter,
                        self.directory().wf(),
                        self.pending() == old(self).pending(),
                        self.displayed() == old(self).displayed(),
                        self.budget() == old(self).budget(),
                        self.workers() == old(self).workers(),
                        self.total_recorded() == self.total_cost(),
                        paths_unique(self.entries()),
                        strings_unique(self.pending()),
                        self.total_cost() <= old(self).total_cost(),
                        i <= self.entries@.len(),
                        forall|j: int|
                            0 <= j < i ==> find_full(
                                self.listing(),
                                (#[trigger] self.entries()[j]).path@,
                            ) is Some,
                        forall|j: int|
                            0 <= j < self.entries().len() ==> old(self).entries().contains(
                                #[trigger] self.entries()[j],
                            ),
                        forall|k: int|
                            0 <= k < old(self).entries().len() && find_full(
                                self.listing(),
                                (#[trigger] old(self).entries()[k]).path@,
                            ) is Some ==> self.entries().contains(old(self).entries()[k]),
                    decreases self.entries@.len() - i,
                {
                    if self.dir.index_of_full(&self.entries[i].path).is_some() {
                        i += 1;
                    } else {
                        let ghost before = self.entries@;
                        proof {
                            lemma_sum_remove(before, i as int);
                            lemma_sum_nonneg(before.remove(i as int));
                            lemma_remove_subset(before, i as int);
                            lemma_remove_unique(before, i as int);
                        }
                        let e = self.entries.remove(i);
                        self.total_cost = self.total_cost - e.cost;
                        proof {
                            assert forall|j: int|
                                0 <= j < self.entries().len() implies old(
                                self,
                            ).entries().contains(#[trigger] self.entries()[j]) by {
                                assert(before.contains(self.entries()[j]));
                            }
                            assert forall|k: int|
                                0 <= k < old(self).entries().len() && find_full(
                                    self.listing(),
                                    (#[trigger] old(self).entries()[k]).path@,
                                ) is Some implies self.entries().contains(
                                old(self).entries()[k],
                            ) by {
                                let x = old(self).entries()[k];
                                assert(before.contains(x));
                                assert(x.path@ != before[i as int].path@);
                                lemma_remove_still_contains(before, i as int, x);
                            }
                            assert forall|j: int|
                                0 <= j < i implies find_full(
                                self.listing(),
                                (#[trigger] self.entries()[j]).path@,
                            ) is Some by {
                                assert(self.entries()[j] == before[j]);
                            }
                        }
                    }
                }
                proof {
                    if !(self.total_cost() <= self.budget()) {
                        assert(old(self).entries().len() == 1);
                        lemma_sum_nonneg(self.entries@);
                        if self.entries@.len() == 0 {
                            assert(sum_costs(self.entries@) == 0);
                            assert(false);
                        }
                        if self.entries@.len() >= 2 {
                            assert(old(self).entries().contains(self.entries()[0]));
                            assert(old(self).entries().contains(self.entries()[1]));
                            assert(self.entries()[0] == old(self).entries()[0]);
                            assert(self.entries()[1] == old(self).entries()[0]);
                            assert(false);
                        }
                        assert(old(self).entries().contains(self.entries()[0]));
                        assert(self.entries()[0] == old(self).entries()[0]);
                        assert(old(self).is_displayed(old(self).entries()[0].path@));
                    }
                }
                Ok(())
            },
        }
    }

    /// The configured byte budget.
    pub fn cache_budget(&self) -> (b: u64)
        ensures
            b as int == self.budget(),
    {
        self.budget
    }

    /// How many background decode workers the owner should run.
    pub fn num_workers(&self) -> (n: u32)
        ensures
            n == self.workers(),
    {
        self.worker_count
    }

    /// Total byte cost of the cached entries.
    pub fn cached_bytes(&self) -> (t: u64)
        requires
            self.wf(),
        ensures
            t as int == self.total_cost(),
    {
        self.total_cost
    }

    /// How many entries are cached.
    pub fn entry_count(&self) -> (n: usize)
        ensures
            n == self.entries().len(),
    {
        self.entries.len()
    }

    /// How many files the directory listing holds.
    pub fn listing_len(&self) -> (n: usize)
        ensures
            n == self.listing().len(),
    {
        self.dir.len()
    }

    /// The current position in the listing.
    pub fn position(&self) -> (i: usize)
        ensures
            i == self.pos(),
    {
        self.dir.current_index()
    }

    /// Whether an entry for this full path is cached.
    pub fn contains_path(&self, full: &String) -> (r: bool)
        ensures
            r == self.is_cached(full@),
    {
        self.find_cached(full).is_some()
    }

    /// The texture handles of all cached entries, for the owner's GPU
    /// resource bookkeeping: a handle missing here (and not displayed)
    /// may be released.
    pub fn texture_ids(&self) -> (ids: Vec<u64>)
        ensures
            ids@.len() == self.entries().len(),
            forall|i: int| 0 <= i < ids@.len() ==> ids@[i] == self.entries()[i].tex,
    {
        let mut ids: Vec<u64> = Vec::new();
        let n = self.entries.len();
        let mut i: usize = 0;
        while i < n
            invariant
                n == self.entries().len(),
                i <= n,
                ids@.len() == i,
                forall|j: int| 0 <= j < i ==> ids@[j] == self.entries()[j].tex,
            decreases n - i,
        {
            ids.push(self.entries[i].tex);
            i += 1;
        }
        ids
    }

    /// The file name of the current entry, or `None` in an empty
    /// directory.
    pub fn current_filename(&self) -> (r: Option<String>)
        requires
            self.wf(),
        ensures
            match r {
                Some(n) => self.listing().len() > 0 && (self.listing()[self.pos()].name matches Some(m)
                    && n == m),
                None => self.listing().len() == 0,
            },
    {
        match self.dir.current() {
            Some(p) => match &p.name {
                Some(n) => Some(n.clone()),
                None => {
                    proof {
                        assert(false);
                    }
                    None
                },
            },
            None => None,
        }
    }

    /// The path of the current entry, or `None` in an empty directory.
    pub fn current_file_path(&self) -> (r: Option<FsPath>)
        requires
            self.wf(),
        ensures
            match r {
                Some(p) => self.listing().len() > 0 && p == self.listing()[self.pos()],
                None => self.listing().len() == 0,
            },
    {
        match self.dir.current() {
            Some(p) => Some(p.clone()),
            None => None,
        }
    }
}

} // verus!
