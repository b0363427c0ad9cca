use vstd::prelude::*;

verus! {

/// A frontier entry: priority `f = g + h`, estimate `h`, insertion number `seq`,
/// and the search node it stands for.
#[derive(Clone, Copy, Debug)]
pub struct FrontierEntry {
    pub f: u128,
    pub h: u64,
    pub seq: usize,
    pub node: usize,
}

/// `a` comes out of the frontier before `b`: smaller `f`, then smaller `h`, then
/// inserted earlier.
pub open spec fn key_lt(a: FrontierEntry, b: FrontierEntry) -> bool {
    a.f < b.f || (a.f == b.f && a.h < b.h) || (a.f == b.f && a.h == b.h && a.seq < b.seq)
}

/// Compares two entries by priority.
pub fn entry_lt(a: &FrontierEntry, b: &FrontierEntry) -> (r: bool)
    ensures
        r == key_lt(*a, *b),
{
    a.f < b.f || (a.f == b.f && a.h < b.h) || (a.f == b.f && a.h == b.h && a.seq < b.seq)
}

/// Min-priority collection of entries with a fixed tie-break, so that runs are
/// reproducible. Entries are kept in decreasing priority order, the next one to
/// leave at the end.
pub struct Frontier {
    entries: Vec<FrontierEntry>,
    next_seq: usize,
}

impl View for Frontier {
    type V = Seq<FrontierEntry>;

    closed spec fn view(&self) -> Seq<FrontierEntry> {
        self.entries@
    }
}

impl Frontier {
    /// Insertion number the next pushed entry receives.
    pub closed spec fn spec_next_seq(&self) -> nat {
        self.next_seq as nat
    }

    /// Entries in strictly decreasing order, each numbered below `next_seq`.
    pub open spec fn wf(&self) -> bool {
        &&& forall|i: int, j: int|
            0 <= i < j < self@.len() ==> key_lt(#[trigger] self@[j], #[trigger] self@[i])
        &&& forall|i: int| 0 <= i < self@.len() ==> (#[trigger] self@[i]).seq < self.spec_next_seq()
    }

    /// An empty frontier.
    pub fn new() -> (r: Frontier)
        ensures
            r.wf(),
            r@.len() == 0,
            r.spec_next_seq() == 0,
    {
        Frontier { entries: Vec::new(), next_seq: 0 }
    }

    /// Number of entries waiting.
    pub fn len(&self) -> (r: usize)
        ensures
            r == self@.len(),
    {
        self.entries.len()
    }

    /// Whether no entry waits.
    pub fn is_empty(&self) -> (r: bool)
        ensures
            r == (self@.len() == 0),
    {
        self.entries.len() == 0
    }

    /// Adds an entry for `node`, numbered after every earlier one.
    pub fn push(&mut self, f: u128, h: u64, node: usize)
        requires
            old(self).wf(),
            old(self).spec_next_seq() < usize::MAX,
        ensures
            final(self).wf(),
            final(self).spec_next_seq() == old(self).spec_next_seq() + 1,
            exists|i: int|
                0 <= i <= old(self)@.len() && final(self)@ == #[trigger] old(self)@.insert(
                    i,
                    (FrontierEntry { f, h, seq: old(self).spec_next_seq() as usize, node }),
                ),
    {
        let e = FrontierEntry { f, h, seq: self.next_seq, node };
        let mut i: usize = self.entries.len();
        while i > 0 && entry_lt(&self.entries[i - 1], &e)
            invariant
                self.wf(),
                e.seq == self.spec_next_seq(),
                i <= self@.len(),
                forall|k: int| i <= k < self@.len() ==> key_lt(#[trigger] self@[k], e),
            decreases i,
        {
            i = i - 1;
        }
        proof {
            if i > 0 {
                assert(key_lt(e, self@[i - 1]));
                assert forall|k: int| 0 <= k < i implies key_lt(e, #[trigger] self@[k]) by {
                    if k < i - 1 {
                        assert(key_lt(self@[i - 1], self@[k]));
                    }
                }
            }
        }
        let ghost before = self@;
        self.entries.insert(i, e);
        self.next_seq = self.next_seq + 1;
        assert forall|a: int, b: int| 0 <= a < b < self@.len() implies key_lt(
            #[trigger] self@[b],
            #[trigger] self@[a],
        ) by {
            if b < i {
            } else if b == i {
            } else if a < i {
                assert(self@[b] == before[b - 1]);
                assert(key_lt(before[b - 1], e));
            } else if a == i {
                assert(self@[b] == before[b - 1]);
            } else {
                assert(self@[b] == before[b - 1]);
                assert(self@[a] == before[a - 1]);
            }
        }
    }

    /// Removes and returns the entry that comes first, if any.
    pub fn pop(&mut self) -> (r: Option<FrontierEntry>)
        requires
            old(self).wf(),
        ensures
            final(self).wf(),
            final(self).spec_next_seq() == old(self).spec_next_seq(),
            old(self)@.len() == 0 ==> r is None && final(self)@ == old(self)@,
            old(self)@.len() > 0 ==> {
                &&& r == Some(old(self)@.last())
                &&& final(self)@ == old(self)@.drop_last()
                &&& forall|k: int|
                    0 <= k < old(self)@.len() - 1 ==> key_lt(old(self)@.last(), #[trigger] old(self)@[k])
            },
    {
        let r = self.entries.pop();
        proof {
            if old(self)@.len() > 0 {
                assert(self@ =~= old(self)@.drop_last());
            }
        }
        r
    }
}

} // verus!
