//! The directory index: the enumerated files of the current directory and
//! the current position, with forward/backward/absolute/jump navigation
//! that wraps around at the directory bounds.

use vstd::prelude::*;
use vstd::arithmetic::div_mod::{
    lemma_fundamental_div_mod, lemma_mod_multiples_vanish, lemma_small_mod,
    lemma_mod_add_multiples_vanish,
};
use crate::fs_path::FsPath;

verus! {

/// Position `p` moved by offset `k` with wraparound in a listing of `d`
/// entries: the mathematical `(p + k) mod d`, in `[0, d)` when `d >= 1`.
pub open spec fn wrap_index(p: int, k: int, d: int) -> int {
    (p + k) % d
}

/// The index of the first entry of `s` whose full path is `full`, if any.
pub open spec fn find_full(s: Seq<FsPath>, full: Seq<char>) -> Option<int>
    decreases s.len(),
{
    if s.len() == 0 {
        None
    } else if s[0].full@ == full {
        Some(0int)
    } else {
        match find_full(s.drop_first(), full) {
            Some(i) => Some(i + 1),
            None => None,
        }
    }
}

/// What `find_full` answers: a found index is in range, names the match,
/// and nothing before it matches; `None` means nothing matches at all.
pub proof fn lemma_find_full(s: Seq<FsPath>, full: Seq<char>)
    ensures
        match find_full(s, full) {
            Some(i) => 0 <= i < s.len() && s[i].full@ == full && (forall|j: int|
                0 <= j < i ==> s[j].full@ != full),
            None => forall|j: int| 0 <= j < s.len() ==> s[j].full@ != full,
        },
    decreases s.len(),
{
    if s.len() > 0 && s[0].full@ != full {
        lemma_find_full(s.drop_first(), full);
        assert forall|j: int| 1 <= j < s.len() implies s[j] == s.drop_first()[j - 1] by {}
    }
}


/// Linear search for the first entry of `listing` with the given full path.
fn find_in(listing: &Vec<FsPath>, full: &String) -> (r: Option<usize>)
    ensures
        match r {
            Some(i) => find_full(listing@, full@) == Some(i as int),
            None => find_full(listing@, full@) is None,
        },
{
    proof {
        lemma_find_full(listing@, full@);
    }
    let n = listing.len();
    let mut i: usize = 0;
    while i < n
        invariant
            n == listing@.len(),
            0 <= i <= n,
            forall|j: int| 0 <= j < i ==> listing@[j].full@ != full@,
            match find_full(listing@, full@) {
                Some(k) => 0 <= k < n && listing@[k].full@ == full@ && (forall|j: int|
                    0 <= j < k ==> listing@[j].full@ != full@),
                None => forall|j: int| 0 <= j < n ==> listing@[j].full@ != full@,
            },
        decreases n - i,
    {
        if listing[i].full.eq(full) {
            return Some(i);
        }
        i += 1;
    }
    None
}

/// Files of one directory in enumeration order, with the current position.
pub struct DirectoryIndex {
    entries: Vec<FsPath>,
    cur: usize,
}

impl DirectoryIndex {
    /// The listing in enumeration order.
    pub closed spec fn listing(self) -> Seq<FsPath> {
        self.entries@
    }

    /// The current position; meaningful only for a non-empty listing.
    pub closed spec fn pos(self) -> int {
        self.cur as int
    }

    /// Well-formed: the position is in bounds (0 for an empty listing), and
    /// every listed entry has a file-name component, as enumerated directory
    /// entries do.
    pub open spec fn wf(self) -> bool {
        &&& (if self.listing().len() == 0 {
            self.pos() == 0
        } else {
            0 <= self.pos() < self.listing().len()
        })
        &&& (forall|i: int| 0 <= i < self.listing().len() ==> (#[trigger] self.listing()[i]).name is Some)
    }

    /// An index over no directory at all: empty listing.
    pub fn new() -> (d: DirectoryIndex)
        ensures
            d.wf(),
            d.listing().len() == 0,
            d.pos() == 0,
    {
        DirectoryIndex { entries: Vec::new(), cur: 0 }
    }

    /// How many files are listed.
    pub fn len(&self) -> (n: usize)
        ensures
            n == self.listing().len(),
    {
        self.entries.len()
    }

    /// The current position as an index into the listing.
    pub fn current_index(&self) -> (i: usize)
        ensures
            i == self.pos(),
    {
        self.cur
    }

    /// The entry at the current position, or `None` for an empty listing.
    pub fn current(&self) -> (r: Option<&FsPath>)
        requires
            self.wf(),
        ensures
            match r {
                Some(p) => self.listing().len() > 0 && *p == self.listing()[self.pos()],
                None => self.listing().len() == 0,
            },
    {
        if self.entries.len() == 0 {
            None
        } else {
            Some(&self.entries[self.cur])
        }
    }

    /// The entry at a given index.
    pub fn entry_at(&self, i: usize) -> (p: &FsPath)
        requires
            i < self.listing().len(),
        ensures
            *p == self.listing()[i as int],
    {
        &self.entries[i]
    }

    /// The index of the first listed entry with this full path, if any.
    pub fn index_of_full(&self, full: &String) -> (r: Option<usize>)
        ensures
            match r {
                Some(i) => find_full(self.listing(), full@) == Some(i as int),
                None => find_full(self.listing(), full@) is None,
            },
    {
        find_in(&self.entries, full)
    }

    /// Moves to the given index.
    pub fn set_position(&mut self, i: usize)
        requires
            old(self).wf(),
            i < old(self).listing().len(),
        ensures
            final(self).wf(),
            final(self).listing() == old(self).listing(),
            final(self).pos() == i,
    {
        self.cur = i;
    }

    /// Replaces the listing with a fresh enumeration of the directory.
    /// The position is preserved when the previously current file is still
    /// listed (at its first occurrence), and reset to the first entry (or
    /// to the empty state) otherwise.
    pub fn set_listing(&mut self, listing: Vec<FsPath>)
        requires
            old(self).wf(),
            forall|i: int| 0 <= i < listing@.len() ==> (#[trigger] listing@[i]).name is Some,
        ensures
            final(self).wf(),
            final(self).listing() == listing@,
            ({
                let had = old(self).listing().len() > 0;
                let prev = old(self).listing()[old(self).pos()].full@;
                if had && find_full(listing@, prev) is Some {
                    Some(final(self).pos()) == find_full(listing@, prev)
                } else {
                    final(self).pos() == 0
                }
            }),
    {
        let keep: Option<usize> = if self.entries.len() > 0 {
            find_in(&listing, &self.entries[self.cur].full)
        } else {
            None
        };
        self.entries = listing;
        self.cur = match keep {
            Some(i) => i,
            None => 0,
        };
        proof {
            lemma_find_full(self.entries@, old(self).listing()[old(self).pos()].full@);
        }
    }

    /// The index `k` entries away from the current position, with
    /// wraparound; the position itself does not move.
    pub fn peek_index(&self, k: i32) -> (r: usize)
        requires
            self.wf(),
            self.listing().len() > 0,
        ensures
            r < self.listing().len(),
            r == wrap_index(self.pos(), k as int, self.listing().len() as int),
    {
        wrap_position(self.cur, k, self.entries.len())
    }

    /// Moves the position by `k` entries, wrapping at the directory bounds;
    /// in an empty directory this is a no-op.
    pub fn jump(&mut self, k: i32)
        requires
            old(self).wf(),
        ensures
            final(self).wf(),
            final(self).listing() == old(self).listing(),
            if old(self).listing().len() == 0 {
                final(self).pos() == old(self).pos()
            } else {
                final(self).pos() == wrap_index(old(self).pos(), k as int, old(self).listing().len() as int)
            },
    {
        let d = self.entries.len();
        if d == 0 {
            return ;
        }
        self.cur = wrap_position(self.cur, k, d);
    }
}

/// `(cur + k) mod d`, computed without overflow for any `i32` offset.
fn wrap_position(cur: usize, k: i32, d: usize) -> (r: usize)
    requires
        1 <= d,
        cur < d,
    ensures
        r < d,
        r == wrap_index(cur as int, k as int, d as int),
{
    let ghost ci = cur as int;
    let ghost di = d as int;
    if k >= 0 {
        let kk: usize = (k as usize) % d;
        proof {
            lemma_fundamental_div_mod(k as int, di);
            lemma_mod_multiples_vanish((k as int) / di, ci + kk, di);
            assert(di * ((k as int) / di) + (ci + kk) == ci + k as int);
            assert((ci + k as int) % di == (ci + kk) % di);
            if ci + kk < di {
                lemma_small_mod((cur + kk) as nat, d as nat);
            } else {
                lemma_mod_add_multiples_vanish(ci + kk - di, di);
                lemma_small_mod((cur + kk - d) as nat, d as nat);
                assert((ci + kk) % di == ci + kk - di);
            }
        }
        if kk < d - cur {
            cur + kk
        } else {
            cur - (d - kk)
        }
    } else {
        let negk: usize = (-(k as i64)) as usize;
        let kk: usize = negk % d;
        proof {
            assert(negk as int == -(k as int));
            lemma_fundamental_div_mod(negk as int, di);
            lemma_mod_multiples_vanish(-((negk as int) / di), ci - kk, di);
            assert(di * (-((negk as int) / di)) == -(di * ((negk as int) / di))) by (nonlinear_arith);
            assert(di * (-((negk as int) / di)) + (ci - kk) == ci + k as int) by {
                assert(negk as int == di * ((negk as int) / di) + (negk as int) % di);
                assert(di * (-((negk as int) / di)) == -(di * ((negk as int) / di)));
            }
            assert((ci + k as int) % di == (ci - kk) % di);
            if kk <= cur {
                lemma_small_mod((cur - kk) as nat, d as nat);
            } else {
                lemma_mod_add_multiples_vanish(ci - kk, di);
                lemma_small_mod((cur + d - kk) as nat, d as nat);
                assert((ci - kk) % di == ci + di - kk);
            }
        }
        if kk <= cur {
            cur - kk
        } else {
            d - (kk - cur)
        }
    }
}

} // verus!
