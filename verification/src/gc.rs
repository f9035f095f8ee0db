//! Making room: which files of a cache that has outgrown its cap are removed.
//!
//! The oldest go first, down to a floor somewhat below the cap, and what is
//! guarded stays. The files themselves are removed elsewhere; a [`Sweep`] says
//! which one is next, and hears whether it went.

use vstd::prelude::*;
use crate::order::{orders, sort_by, sorted};
use crate::paths::{path_before, path_le};

verus! {

/// A file of a cache: when it was last written, how large it is, where it is,
/// and whether it must stay.
#[derive(Debug, Clone, PartialEq)]
pub struct Entry {
    pub modified: i128,
    pub size: u64,
    pub path: String,
    pub guarded: bool,
}

/// Whether `a` goes before `b`: the older, then the smaller, then by path.
pub open spec fn older(a: Entry, b: Entry) -> bool {
    if a.modified != b.modified {
        a.modified < b.modified
    } else if a.size != b.size {
        a.size < b.size
    } else {
        path_le(a.path@, b.path@)
    }
}

/// [`older`] as a relation value.
pub open spec fn by_age() -> spec_fn(Entry, Entry) -> bool {
    |a: Entry, b: Entry| older(a, b)
}

fn is_older(a: &Entry, b: &Entry) -> (r: bool)
    ensures
        r == older(*a, *b),
{
    if a.modified != b.modified {
        a.modified < b.modified
    } else if a.size != b.size {
        a.size < b.size
    } else {
        path_before(a.path.as_str(), b.path.as_str())
    }
}

/// How many bytes `files` hold.
pub open spec fn total_of(files: Seq<Entry>) -> nat
    decreases files.len(),
{
    if files.len() == 0 {
        0
    } else {
        total_of(files.drop_last()) + files.last().size as nat
    }
}

/// How many bytes `files` hold.
pub fn total_bytes(files: &Vec<Entry>) -> (r: u64)
    requires
        total_of(files@) <= u64::MAX,
    ensures
        r == total_of(files@),
{
    let mut t: u64 = 0;
    let mut i: usize = 0;
    assert(files@.take(files@.len() as int) =~= files@);
    while i < files.len()
        invariant
            i <= files@.len(),
            total_of(files@) <= u64::MAX,
            t == total_of(files@.take(i as int)),
        decreases files@.len() - i,
    {
        proof {
            assert(files@.take(i + 1).drop_last() =~= files@.take(i as int));
            lemma_total_grows(files@, i + 1);
        }
        t = t + files[i].size;
        i += 1;
    }
    assert(files@.take(i as int) =~= files@);
    t
}

proof fn lemma_total_grows(files: Seq<Entry>, i: int)
    requires
        0 <= i <= files.len(),
    ensures
        total_of(files.take(i)) <= total_of(files),
    decreases files.len() - i,
{
    if i < files.len() {
        lemma_total_grows(files, i + 1);
        assert(files.take(i + 1).drop_last() =~= files.take(i));
    } else {
        assert(files.take(i) =~= files);
    }
}

/// A sweep through a cache.
pub struct Sweep {
    /// The files, in the order in which they are considered.
    pub files: Vec<Entry>,
    /// The first that has not been considered.
    pub next: usize,
    /// What the cache holds, in bytes.
    pub total: u64,
    /// What it is brought down to.
    pub floor: u64,
}

/// The first file from `i` on that may go, or the end.
pub open spec fn first_loose(files: Seq<Entry>, i: int) -> int
    decreases files.len() - i,
{
    if 0 <= i < files.len() && files[i].guarded {
        first_loose(files, i + 1)
    } else {
        i
    }
}

impl Sweep {
    /// Whether a sweep's place lies within its files.
    pub open spec fn wf(self) -> bool {
        self.next <= self.files@.len()
    }

    /// Start a sweep through `files`. A cache within its cap is left alone.
    pub fn start(files: Vec<Entry>, cap: u64, floor: u64) -> (r: Self)
        requires
            total_of(files@) <= u64::MAX,
        ensures
            r.wf(),
            r.files@ == sorted(files@, by_age()),
            r.total == total_of(files@),
            r.floor == floor,
            r.next == if total_of(files@) <= cap {
                r.files@.len()
            } else {
                0
            },
    {
        let total = total_bytes(&files);
        let files = sort_by(files, is_older, Ghost(by_age()));
        let next: usize = if total <= cap {
            files.len()
        } else {
            0
        };
        Sweep { files, next, total, floor }
    }

    /// The next file to remove: the first one not considered yet that is not
    /// guarded, while the cache is above the floor.
    pub fn victim(&mut self) -> (r: Option<usize>)
        requires
            old(self).wf(),
        ensures
            final(self).wf(),
            final(self).files@ == old(self).files@,
            final(self).total == old(self).total,
            final(self).floor == old(self).floor,
            ({
                let k = first_loose(old(self).files@, old(self).next as int);
                match r {
                    Some(i) => {
                        &&& old(self).total > old(self).floor
                        &&& i == k < old(self).files@.len()
                        &&& final(self).next == i + 1
                    },
                    None => {
                        &&& old(self).total <= old(self).floor || k >= old(self).files@.len()
                        &&& final(self).next == old(self).files@.len()
                    },
                }
            }),
    {
        if self.total <= self.floor {
            self.next = self.files.len();
            return None;
        }
        let mut i: usize = self.next;
        while i < self.files.len() && self.files[i].guarded
            invariant
                self.next <= i <= self.files@.len(),
                first_loose(self.files@, self.next as int) == first_loose(
                    self.files@,
                    i as int,
                ),
            decreases self.files@.len() - i,
        {
            i += 1;
        }
        if i < self.files.len() {
            self.next = i + 1;
            Some(i)
        } else {
            self.next = i;
            None
        }
    }

    /// File `i` was to be removed: where it went, the cache is that much smaller.
    pub fn removed(&mut self, i: usize, gone: bool)
        requires
            old(self).wf(),
            i < old(self).files@.len(),
        ensures
            final(self).wf(),
            final(self).files@ == old(self).files@,
            final(self).next == old(self).next,
            final(self).floor == old(self).floor,
            final(self).total == if !gone {
                old(self).total as int
            } else if old(self).total >= old(self).files@[i as int].size {
                old(self).total - old(self).files@[i as int].size
            } else {
                0
            },
    {
        if gone {
            let size = self.files[i].size;
            self.total = if self.total >= size {
                self.total - size
            } else {
                0
            };
        }
    }
}

/// The order of a sweep is an order.
pub proof fn law_age_orders()
    ensures
        orders(by_age()),
{
    assert forall|a: Entry, b: Entry| #[trigger] by_age()(a, b) || by_age()(b, a) by {
        crate::paths::law_paths_are_ordered(a.path@, b.path@, a.path@);
    }
    assert forall|a: Entry, b: Entry, c: Entry| #[trigger] by_age()(a, b) && #[trigger] by_age()(
        b,
        c,
    ) implies by_age()(a, c) by {
        crate::paths::law_paths_are_ordered(a.path@, b.path@, c.path@);
    }
}

proof fn lemma_first_loose(files: Seq<Entry>, i: int)
    requires
        0 <= i <= files.len(),
    ensures
        i <= first_loose(files, i) <= files.len(),
        forall|k: int| i <= k < first_loose(files, i) ==> (#[trigger] files[k]).guarded,
        first_loose(files, i) < files.len() ==> !files[first_loose(files, i)].guarded,
    decreases files.len() - i,
{
    if i < files.len() && files[i].guarded {
        lemma_first_loose(files, i + 1);
    }
}

/// A sweep goes from the oldest file on; what it picks is never guarded; and
/// whatever it passes over on the way is.
pub proof fn law_sweep_spares_the_guarded(files: Seq<Entry>, from: int)
    requires
        0 <= from <= files.len(),
    ensures
        ({
            let order = sorted(files, by_age());
            let k = first_loose(order, from);
            &&& order.to_multiset() == files.to_multiset()
            &&& forall|i: int, j: int|
                0 <= i <= j < order.len() ==> older(#[trigger] order[i], #[trigger] order[j])
            &&& k < order.len() ==> !order[k].guarded
            &&& forall|i: int| from <= i < k ==> (#[trigger] order[i]).guarded
        }),
{
    law_age_orders();
    crate::order::law_sorted(files, by_age());
    let order = sorted(files, by_age());
    lemma_first_loose(order, from);
    assert forall|i: int, j: int| 0 <= i <= j < order.len() implies older(
        #[trigger] order[i],
        #[trigger] order[j],
    ) by {
        assert(by_age()(order[i], order[j]));
    }
}

} // verus!
