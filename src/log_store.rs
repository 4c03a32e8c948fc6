//! The Raft log: entries in index order, the vote, the committed watermark
//! and the purge watermark.
use vstd::prelude::*;
use crate::types::{entries_view, Entry, EntryView, LogId, LogState, Vote};

verus! {

broadcast use vstd::seq_lib::group_filter_ensures;

/// One end of a range of log indices.
#[derive(Clone, Copy, Debug, PartialEq, Eq, Structural)]
pub enum LogBound {
    Included(u64),
    Excluded(u64),
    Unbounded,
}

/// A range of log indices, as `start..end` with either end open or closed.
#[derive(Clone, Copy, Debug, PartialEq, Eq, Structural)]
pub struct LogRange {
    pub start: LogBound,
    pub end: LogBound,
}

/// The least index in the range.
pub open spec fn range_lo(r: LogRange) -> int {
    match r.start {
        LogBound::Included(x) => x as int,
        LogBound::Excluded(x) => x + 1,
        LogBound::Unbounded => 0,
    }
}

/// One past the greatest index in the range.
pub open spec fn range_hi(r: LogRange) -> int {
    match r.end {
        LogBound::Included(x) => x + 1,
        LogBound::Excluded(x) => x as int,
        LogBound::Unbounded => u64::MAX + 1,
    }
}

/// The entries of `s` whose index lies in `lo..hi`, in their order in `s`.
pub open spec fn entries_between(s: Seq<EntryView>, lo: int, hi: int) -> Seq<EntryView> {
    s.filter(|e: EntryView| lo <= e.log_id.index && e.log_id.index < hi)
}

/// Entry `i` has index `first + i`: the log has no holes.
pub open spec fn contiguous(s: Seq<EntryView>) -> bool {
    forall|i: int| 0 <= i < s.len() ==> #[trigger] s[i].log_id.index == s[0].log_id.index + i
}

pub struct LogView {
    pub logs: Seq<EntryView>,
    pub last_purged: Option<LogId>,
    pub vote: Option<Vote>,
    pub committed: Option<LogId>,
}

/// The index the next appended entry must follow: the last entry's, or
/// the purge watermark's once every entry is gone.
pub open spec fn tail_index(v: LogView) -> Option<u64> {
    if v.logs.len() > 0 {
        Some(v.logs.last().log_id.index)
    } else {
        match v.last_purged {
            Some(p) => Some(p.index),
            None => None,
        }
    }
}

/// `es` has no holes and continues the log right after its tail.
pub open spec fn appendable(v: LogView, es: Seq<EntryView>) -> bool {
    &&& contiguous(es)
    &&& es.len() > 0 ==> match tail_index(v) {
        Some(t) => es[0].log_id.index == t + 1,
        None => true,
    }
}

/// The log state that `get_log_state` reports for `v`.
pub open spec fn log_state_of(v: LogView) -> LogState {
    LogState {
        last_purged_log_id: v.last_purged,
        last_log_id: later_of(
            if v.logs.len() > 0 {
                Some(v.logs.last().log_id)
            } else {
                None
            },
            v.last_purged,
        ),
    }
}

/// The greater of two optional log ids in `(term, index)` order, where
/// `None` comes first; `a` on a tie.
pub open spec fn later_of(a: Option<LogId>, b: Option<LogId>) -> Option<LogId> {
    match (a, b) {
        (None, _) => b,
        (Some(_), None) => a,
        (Some(x), Some(y)) => if x.term < y.term || (x.term == y.term && x.index < y.index) {
            b
        } else {
            a
        },
    }
}

/// The log after `append(es)`.
pub open spec fn appended(v: LogView, es: Seq<EntryView>) -> LogView {
    LogView { logs: v.logs + es, ..v }
}

/// The log after `truncate(l)`: entries from `l.index` on are gone.
pub open spec fn truncated(v: LogView, l: LogId) -> LogView {
    LogView { logs: entries_between(v.logs, 0, l.index as int), ..v }
}

/// The log after `purge(l)`: entries up to `l.index` are gone and `l` is
/// the purge watermark.
pub open spec fn purged(v: LogView, l: LogId) -> LogView {
    LogView {
        logs: entries_between(v.logs, l.index + 1, u64::MAX + 1),
        last_purged: Some(l),
        ..v
    }
}

/// The log after `save_vote(x)`.
pub open spec fn vote_saved(v: LogView, x: Vote) -> LogView {
    LogView { vote: Some(x), ..v }
}

pub open spec fn log_wf(v: LogView) -> bool {
    &&& contiguous(v.logs)
    &&& v.last_purged is Some ==> forall|i: int|
        0 <= i < v.logs.len() ==> #[trigger] v.logs[i].log_id.index > v.last_purged->Some_0.index
}

proof fn lemma_between_of_push(s: Seq<EntryView>, lo: int, hi: int)
    requires
        s.len() > 0,
    ensures
        entries_between(s, lo, hi) == if lo <= s.last().log_id.index < hi {
            entries_between(s.drop_last(), lo, hi).push(s.last())
        } else {
            entries_between(s.drop_last(), lo, hi)
        },
{
    reveal(Seq::filter);
}

/// Restricting twice is restricting once to the intersection.
proof fn lemma_between_between(s: Seq<EntryView>, a: int, b: int, c: int, d: int)
    ensures
        entries_between(entries_between(s, a, b), c, d) == entries_between(
            s,
            if a < c { c } else { a },
            if b < d { b } else { d },
        ),
    decreases s.len(),
{
    let lo = if a < c { c } else { a };
    let hi = if b < d { b } else { d };
    if s.len() == 0 {
        reveal(Seq::filter);
        assert(entries_between(s, a, b) =~= s);
    } else {
        let t = s.drop_last();
        lemma_between_between(t, a, b, c, d);
        lemma_between_of_push(s, a, b);
        lemma_between_of_push(s, lo, hi);
        let inner = entries_between(s, a, b);
        if a <= s.last().log_id.index < b {
            lemma_between_of_push(inner, c, d);
            assert(inner.drop_last() =~= entries_between(t, a, b));
        }
    }
}

proof fn lemma_between_empty(s: Seq<EntryView>, lo: int, hi: int)
    requires
        forall|i: int| 0 <= i < s.len() ==> !(lo <= #[trigger] s[i].log_id.index < hi),
    ensures
        entries_between(s, lo, hi) == Seq::<EntryView>::empty(),
{
    let r = entries_between(s, lo, hi);
    if r.len() > 0 {
        s.lemma_filter_contains_rev(|e: EntryView| lo <= e.log_id.index && e.log_id.index < hi, r[0]);
        assert(r.contains(r[0]));
    }
    assert(r =~= Seq::<EntryView>::empty());
}

pub open spec fn clamp(x: int, n: int) -> int {
    if x < 0 {
        0
    } else if x > n {
        n
    } else {
        x
    }
}

pub open spec fn first_index(s: Seq<EntryView>) -> int {
    if s.len() == 0 {
        0
    } else {
        s[0].log_id.index as int
    }
}

/// Where the window `lo..hi` starts in a log without holes.
pub open spec fn win_lo(s: Seq<EntryView>, lo: int) -> int {
    clamp(lo - first_index(s), s.len() as int)
}

/// Where the window `lo..hi` ends in a log without holes.
pub open spec fn win_hi(s: Seq<EntryView>, lo: int, hi: int) -> int {
    let a = win_lo(s, lo);
    let b = clamp(hi - first_index(s), s.len() as int);
    if b < a {
        a
    } else {
        b
    }
}

/// In a log without holes the entries of a window form one slice.
proof fn lemma_window(s: Seq<EntryView>, lo: int, hi: int)
    requires
        contiguous(s),
    ensures
        entries_between(s, lo, hi) == s.subrange(win_lo(s, lo), win_hi(s, lo, hi)),
    decreases s.len(),
{
    if s.len() == 0 {
        reveal(Seq::filter);
        assert(s.subrange(0, 0) =~= s);
    } else {
        let t = s.drop_last();
        assert(contiguous(t)) by {
            assert forall|i: int| 0 <= i < t.len() implies #[trigger] t[i].log_id.index
                == t[0].log_id.index + i by {
                assert(t[i] == s[i] && t[0] == s[0]);
                assert(s[i].log_id.index == s[0].log_id.index + i);
            }
        }
        lemma_window(t, lo, hi);
        lemma_between_of_push(s, lo, hi);
        let n = s.len() - 1;
        assert(s[n].log_id.index == s[0].log_id.index + n);
        if t.len() > 0 {
            assert(t[0] == s[0]);
        }
        let a = win_lo(s, lo);
        let b = win_hi(s, lo, hi);
        let a1 = win_lo(t, lo);
        let b1 = win_hi(t, lo, hi);
        if lo <= s.last().log_id.index < hi {
            assert(a == a1 && b == s.len() && b1 == n);
            assert(t.subrange(a1, b1).push(s.last()) =~= s.subrange(a, b));
        } else {
            if a == b {
                assert(a1 == b1);
                assert(t.subrange(a1, b1) =~= s.subrange(a, b));
            } else {
                assert(a == a1 && b == b1 && b <= n);
                assert(t.subrange(a1, b1) =~= s.subrange(a, b));
            }
        }
    }
}

proof fn lemma_window_contiguous(s: Seq<EntryView>, lo: int, hi: int)
    requires
        contiguous(s),
    ensures
        contiguous(entries_between(s, lo, hi)),
{
    lemma_window(s, lo, hi);
    let r = s.subrange(win_lo(s, lo), win_hi(s, lo, hi));
    assert forall|i: int| 0 <= i < r.len() implies #[trigger] r[i].log_id.index == r[0].log_id.index
        + i by {
        let a = win_lo(s, lo);
        assert(r[i] == s[a + i] && r[0] == s[a]);
        assert(s[a + i].log_id.index == s[0].log_id.index + a + i);
        assert(s[a].log_id.index == s[0].log_id.index + a);
    }
}

proof fn lemma_between_keeps(s: Seq<EntryView>, lo: int, hi: int, bound: int)
    ensures
        forall|i: int|
            0 <= i < entries_between(s, lo, hi).len() ==> lo <= #[trigger] entries_between(
                s,
                lo,
                hi,
            )[i].log_id.index < hi,
        (forall|i: int| 0 <= i < s.len() ==> #[trigger] s[i].log_id.index > bound) ==> forall|
            i: int,
        |
            0 <= i < entries_between(s, lo, hi).len() ==> #[trigger] entries_between(
                s,
                lo,
                hi,
            )[i].log_id.index > bound,
{
    let r = entries_between(s, lo, hi);
    assert forall|i: int| 0 <= i < r.len() implies lo <= #[trigger] r[i].log_id.index < hi && ((
    forall|j: int| 0 <= j < s.len() ==> #[trigger] s[j].log_id.index > bound) ==> r[i].log_id.index
        > bound) by {
        s.lemma_filter_contains_rev(|e: EntryView| lo <= e.log_id.index && e.log_id.index < hi, r[i]);
        assert(r.contains(r[i]));
    }
}

pub struct LogStore {
    logs: Vec<Entry>,
    last_purged: Option<LogId>,
    vote: Option<Vote>,
    committed: Option<LogId>,
}

impl View for LogStore {
    type V = LogView;

    closed spec fn view(&self) -> LogView {
        LogView {
            logs: entries_view(self.logs@),
            last_purged: self.last_purged,
            vote: self.vote,
            committed: self.committed,
        }
    }
}

impl LogStore {
    pub open spec fn wf(&self) -> bool {
        log_wf(self@)
    }

    /// An empty log with no vote and no watermarks.
    pub fn new() -> (r: LogStore)
        ensures
            r.wf(),
            r@.logs.len() == 0,
            r@.last_purged is None,
            r@.vote is None,
            r@.committed is None,
    {
        LogStore { logs: Vec::new(), last_purged: None, vote: None, committed: None }
    }

    /// The log store rebuilt on restart from what was persisted: the entries
    /// in index order, the purge watermark, the vote and the committed
    /// watermark. `None` where the entries have a hole or do not lie after
    /// the purge watermark.
    pub fn restore(
        logs: Vec<Entry>,
        last_purged: Option<LogId>,
        vote: Option<Vote>,
        committed: Option<LogId>,
    ) -> (r: Option<LogStore>)
        ensures
            r is Some <==> log_wf(
                LogView { logs: entries_view(logs@), last_purged, vote, committed },
            ),
            r is Some ==> r->Some_0.wf() && r->Some_0@ == (LogView {
                logs: entries_view(logs@),
                last_purged,
                vote,
                committed,
            }),
    {
        let ghost v = LogView { logs: entries_view(logs@), last_purged, vote, committed };
        let mut i: usize = 0;
        while i < logs.len()
            invariant
                i <= logs@.len(),
                v.logs == entries_view(logs@),
                v.last_purged == last_purged,
                forall|k: int|
                    0 <= k < i ==> #[trigger] logs@[k].log_id.index == logs@[0].log_id.index + k,
                last_purged is Some ==> forall|k: int|
                    0 <= k < i ==> #[trigger] logs@[k].log_id.index > last_purged->Some_0.index,
            decreases logs@.len() - i,
        {
            let idx = logs[i].log_id.index;
            if i > 0 {
                let prev = logs[i - 1].log_id.index;
                if prev == u64::MAX || idx != prev + 1 {
                    proof {
                        assert(v.logs[i as int].log_id.index != v.logs[0].log_id.index + i);
                    }
                    return None;
                }
            }
            match last_purged {
                Some(p) => {
                    if idx <= p.index {
                        proof {
                            assert(v.logs[i as int].log_id.index == idx);
                        }
                        return None;
                    }
                },
                None => {},
            }
            i = i + 1;
        }
        proof {
            assert forall|k: int| 0 <= k < v.logs.len() implies #[trigger] v.logs[k].log_id.index
                == v.logs[0].log_id.index + k by {
                assert(logs@[k].log_id.index == logs@[0].log_id.index + k);
            }
            if last_purged is Some {
                assert forall|k: int| 0 <= k < v.logs.len() implies #[trigger] v.logs[k].log_id.index
                    > last_purged->Some_0.index by {
                    assert(logs@[k].log_id.index > last_purged->Some_0.index);
                }
            }
        }
        Some(LogStore { logs, last_purged, vote, committed })
    }

    /// The entries whose index lies in `range`, in ascending order. Only the
    /// window of the log that the range covers is read.
    pub fn try_get_log_entries(&self, range: LogRange) -> (r: Vec<Entry>)
        requires
            self.wf(),
        ensures
            entries_view(r@) == entries_between(self@.logs, range_lo(range), range_hi(range)),
    {
        let ghost s = self@.logs;
        let ghost lo = range_lo(range);
        let ghost hi = range_hi(range);
        proof {
            lemma_window(s, lo, hi);
        }
        let n = self.logs.len();
        if n == 0 {
            proof {
                assert(s.subrange(0, 0) =~= s);
            }
            return Vec::new();
        }
        let first = self.logs[0].log_id.index;
        let nn = n as u64;
        proof {
            assert(s[n - 1].log_id.index == first + (n - 1));
        }
        // Position of the first entry at or above the lower bound.
        let l: Option<u64> = match range.start {
            LogBound::Included(x) => Some(x),
            LogBound::Excluded(x) => if x == u64::MAX {
                None
            } else {
                Some(x + 1)
            },
            LogBound::Unbounded => Some(0),
        };
        assert(match l {
            Some(v) => v == lo,
            None => lo == u64::MAX + 1,
        });
        let start: usize = match l {
            None => n,
            Some(v) => if v <= first {
                0
            } else if v - first >= nn {
                n
            } else {
                (v - first) as usize
            },
        };
        // Position just past the last entry below the upper bound.
        let h: Option<u64> = match range.end {
            LogBound::Included(x) => if x == u64::MAX {
                None
            } else {
                Some(x + 1)
            },
            LogBound::Excluded(x) => Some(x),
            LogBound::Unbounded => None,
        };
        assert(match h {
            Some(v) => v == hi,
            None => hi == u64::MAX + 1,
        });
        let mut end: usize = match h {
            None => n,
            Some(x) => if x <= first {
                0
            } else if x - first >= nn {
                n
            } else {
                (x - first) as usize
            },
        };
        if end < start {
            end = start;
        }
        assert(s.len() == n);
        assert(first_index(s) == first as int);
        assert(start == win_lo(s, lo));
        assert(end == win_hi(s, lo, hi));
        let mut out: Vec<Entry> = Vec::new();
        let mut i: usize = start;
        while i < end
            invariant
                start <= i <= end <= n,
                n == self.logs@.len(),
                entries_view(out@) == entries_view(self.logs@).subrange(start as int, i as int),
            decreases end - i,
        {
            let ghost before = out@;
            let d = self.logs[i].duplicate();
            out.push(d);
            proof {
                assert(entries_view(self.logs@)[i as int] == self.logs@[i as int]@);
                assert(entries_view(out@) =~= entries_view(before).push(d@));
                assert(entries_view(out@) =~= entries_view(self.logs@).subrange(
                    start as int,
                    i + 1,
                ));
            }
            i = i + 1;
        }
        out
    }

    /// The entries whose index lies in `lo..hi`, taken out of `self.logs`.
    fn keep_between(&mut self, lo: u64, hi: Option<u64>)
        requires
            old(self).wf(),
        ensures
            final(self)@.logs == entries_between(
                old(self)@.logs,
                lo as int,
                match hi {
                    Some(h) => h as int,
                    None => u64::MAX + 1,
                },
            ),
            final(self)@.last_purged == old(self)@.last_purged,
            final(self)@.vote == old(self)@.vote,
            final(self)@.committed == old(self)@.committed,
            contiguous(final(self)@.logs),
    {
        let ghost h: int = match hi {
            Some(h) => h as int,
            None => u64::MAX + 1,
        };
        let mut out: Vec<Entry> = Vec::new();
        let mut i: usize = 0;
        while i < self.logs.len()
            invariant
                i <= self.logs@.len(),
                entries_view(out@) == entries_between(entries_view(self.logs@.take(i as int)), lo as int, h),
                h == match hi {
                    Some(x) => x as int,
                    None => u64::MAX + 1,
                },
            decreases self.logs@.len() - i,
        {
            let e = &self.logs[i];
            let idx = e.log_id.index;
            let inside = lo <= idx && match hi {
                Some(x) => idx < x,
                None => true,
            };
            let ghost before = out@;
            if inside {
                let d = e.duplicate();
                out.push(d);
                proof {
                    assert(entries_view(out@) =~= entries_view(before).push(e@));
                }
            }
            proof {
                let s = entries_view(self.logs@.take(i + 1));
                assert(s.drop_last() =~= entries_view(self.logs@.take(i as int)));
                assert(s.last() == self.logs@[i as int]@);
                assert(inside == (lo <= idx && idx < h));
                lemma_between_of_push(s, lo as int, h);
                assert(entries_view(out@) =~= entries_between(s, lo as int, h));
            }
            i = i + 1;
        }
        proof {
            assert(self.logs@.take(self.logs@.len() as int) =~= self.logs@);
            lemma_window_contiguous(entries_view(self.logs@), lo as int, h);
        }
        self.logs = out;
    }

    /// Removes every entry with index at least `log_id.index`.
    pub fn truncate(&mut self, log_id: LogId)
        requires
            old(self).wf(),
        ensures
            final(self).wf(),
            final(self)@ == truncated(old(self)@, log_id),
    {
        let ghost before = self@;
        self.keep_between(0, Some(log_id.index));
        proof {
            if before.last_purged is Some {
                lemma_between_keeps(before.logs, 0, log_id.index as int, before.last_purged->Some_0.index as int);
            }
        }
    }

    /// Removes every entry with index at most `log_id.index` and records
    /// `log_id` as the purge watermark.
    pub fn purge(&mut self, log_id: LogId)
        requires
            old(self).wf(),
        ensures
            final(self).wf(),
            final(self)@ == purged(old(self)@, log_id),
    {
        let ghost before = self@;
        if log_id.index == u64::MAX {
            self.logs = Vec::new();
            proof {
                lemma_between_empty(before.logs, log_id.index + 1, u64::MAX + 1);
                assert(self@.logs =~= Seq::<EntryView>::empty());
            }
        } else {
            self.keep_between(log_id.index + 1, None);
            proof {
                lemma_between_keeps(before.logs, log_id.index + 1, u64::MAX + 1, log_id.index as int);
            }
        }
        self.last_purged = Some(log_id);
        proof {
            assert(log_wf(self@));
        }
    }

    /// Whether `entries` have no holes and continue the log right after its
    /// tail, as `append` requires.
    pub fn can_append(&self, entries: &Vec<Entry>) -> (r: bool)
        ensures
            r == appendable(self@, entries_view(entries@)),
    {
        let ghost es = entries_view(entries@);
        let n = entries.len();
        if n == 0 {
            return true;
        }
        let first = entries[0].log_id.index;
        let mut i: usize = 1;
        while i < n
            invariant
                1 <= i <= n,
                n == entries@.len(),
                es == entries_view(entries@),
                first == es[0].log_id.index,
                forall|k: int| 0 <= k < i ==> #[trigger] es[k].log_id.index == first + k,
            decreases n - i,
        {
            let prev = entries[i - 1].log_id.index;
            let idx = entries[i].log_id.index;
            if prev == u64::MAX || idx != prev + 1 {
                proof {
                    assert(es[i - 1].log_id.index == first + (i - 1));
                    assert(es[i as int].log_id.index != es[0].log_id.index + i);
                }
                return false;
            }
            proof {
                assert(es[i - 1].log_id.index == first + (i - 1));
                assert(es[i as int].log_id.index == idx);
                assert(es[i - 1].log_id.index == prev);
            }
            i = i + 1;
        }
        let tail = if self.logs.len() > 0 {
            Some(self.logs[self.logs.len() - 1].log_id.index)
        } else {
            match self.last_purged {
                Some(p) => Some(p.index),
                None => None,
            }
        };
        match tail {
            Some(t) => t < u64::MAX && first == t + 1,
            None => true,
        }
    }

    /// Adds `entries` after the tail of the log.
    pub fn append(&mut self, entries: Vec<Entry>)
        requires
            old(self).wf(),
            appendable(old(self)@, entries_view(entries@)),
        ensures
            final(self).wf(),
            final(self)@ == appended(old(self)@, entries_view(entries@)),
    {
        let ghost before = self@;
        let ghost es = entries_view(entries@);
        let mut entries = entries;
        self.logs.append(&mut entries);
        proof {
            let s = self@.logs;
            assert(s =~= before.logs + es);
            let n = before.logs.len();
            if n > 0 && es.len() > 0 {
                assert(before.logs[n - 1].log_id.index == before.logs[0].log_id.index + (n - 1));
            }
            assert forall|i: int| 0 <= i < s.len() implies #[trigger] s[i].log_id.index
                == s[0].log_id.index + i by {
                if i < n {
                    assert(s[i] == before.logs[i]);
                    assert(before.logs[i].log_id.index == before.logs[0].log_id.index + i);
                } else {
                    assert(s[i] == es[i - n]);
                    assert(es[i - n].log_id.index == es[0].log_id.index + (i - n));
                }
                if n > 0 {
                    assert(s[0] == before.logs[0]);
                } else {
                    assert(s[0] == es[0]);
                }
            }
            if before.last_purged is Some {
                assert forall|i: int| 0 <= i < s.len() implies #[trigger] s[i].log_id.index
                    > before.last_purged->Some_0.index by {
                    if i < n {
                        assert(s[i] == before.logs[i]);
                    } else {
                        assert(s[i] == es[i - n]);
                        assert(es[i - n].log_id.index == es[0].log_id.index + (i - n));
                        if n > 0 {
                            assert(before.logs[n - 1].log_id.index > before.last_purged->Some_0.index);
                        }
                    }
                }
            }
        }
    }

    /// The purge watermark and the last log id: the later of the last
    /// entry's id and the purge watermark.
    pub fn get_log_state(&self) -> (r: LogState)
        ensures
            r == log_state_of(self@),
    {
        let n = self.logs.len();
        let last = if n > 0 {
            Some(self.logs[n - 1].log_id)
        } else {
            None
        };
        let last_log_id = match (last, self.last_purged) {
            (None, p) => p,
            (Some(x), None) => Some(x),
            (Some(x), Some(y)) => if x.term < y.term || (x.term == y.term && x.index < y.index) {
                Some(y)
            } else {
                Some(x)
            },
        };
        LogState { last_purged_log_id: self.last_purged, last_log_id }
    }

    /// Records `vote`, replacing the one held before.
    pub fn save_vote(&mut self, vote: &Vote)
        ensures
            final(self)@ == vote_saved(old(self)@, *vote),
            final(self).wf() == old(self).wf(),
    {
        self.vote = Some(*vote);
    }

    /// The vote saved last, if any.
    pub fn read_vote(&self) -> (r: Option<Vote>)
        ensures
            r == self@.vote,
    {
        self.vote
    }

    /// Records the committed watermark.
    pub fn save_committed(&mut self, committed: Option<LogId>)
        ensures
            final(self)@ == (LogView { committed: committed, ..old(self)@ }),
            final(self).wf() == old(self).wf(),
    {
        self.committed = committed;
    }

    /// The committed watermark saved last.
    pub fn read_committed(&self) -> (r: Option<LogId>)
        ensures
            r == self@.committed,
    {
        self.committed
    }

    /// A reader over the same log.
    pub fn get_log_reader(&self) -> (r: LogStore)
        ensures
            r@ == self@,
            r.wf() == self.wf(),
    {
        let mut logs: Vec<Entry> = Vec::new();
        let mut i: usize = 0;
        while i < self.logs.len()
            invariant
                i <= self.logs@.len(),
                entries_view(logs@) == entries_view(self.logs@.take(i as int)),
            decreases self.logs@.len() - i,
        {
            let ghost before = logs@;
            let d = self.logs[i].duplicate();
            logs.push(d);
            proof {
                assert(entries_view(logs@) =~= entries_view(before).push(self.logs@[i as int]@));
                assert(self.logs@.take(i + 1) =~= self.logs@.take(i as int).push(self.logs@[i as int]));
                assert(entries_view(logs@) =~= entries_view(self.logs@.take(i + 1)));
            }
            i = i + 1;
        }
        proof {
            assert(self.logs@.take(self.logs@.len() as int) =~= self.logs@);
        }
        LogStore { logs, last_purged: self.last_purged, vote: self.vote, committed: self.committed }
    }
}

proof fn lemma_between_concat(a: Seq<EntryView>, b: Seq<EntryView>, lo: int, hi: int)
    ensures
        entries_between(a + b, lo, hi) == entries_between(a, lo, hi) + entries_between(b, lo, hi),
    decreases b.len(),
{
    if b.len() == 0 {
        assert(a + b =~= a);
        reveal(Seq::filter);
        assert(entries_between(b, lo, hi) =~= Seq::<EntryView>::empty());
        assert(entries_between(a, lo, hi) + entries_between(b, lo, hi) =~= entries_between(a, lo, hi));
    } else {
        let c = a + b;
        lemma_between_concat(a, b.drop_last(), lo, hi);
        assert(c.drop_last() =~= a + b.drop_last());
        assert(c.last() == b.last());
        lemma_between_of_push(c, lo, hi);
        lemma_between_of_push(b, lo, hi);
        assert(entries_between(c, lo, hi) =~= entries_between(a, lo, hi) + entries_between(b, lo, hi));
    }
}

/// Entries appended to a well-formed log are read back unchanged: a range
/// within their indices yields exactly the matching slice of them.
pub proof fn law_append_read_back(v: LogView, es: Seq<EntryView>, lo: int, hi: int)
    requires
        log_wf(v),
        appendable(v, es),
        es.len() > 0,
        es[0].log_id.index <= lo <= hi <= es[0].log_id.index + es.len(),
    ensures
        entries_between(appended(v, es).logs, lo, hi) == es.subrange(
            lo - es[0].log_id.index,
            hi - es[0].log_id.index,
        ),
{
    lemma_between_concat(v.logs, es, lo, hi);
    let n = v.logs.len();
    assert forall|i: int| 0 <= i < n implies !(lo <= #[trigger] v.logs[i].log_id.index < hi) by {
        assert(v.logs[i].log_id.index == v.logs[0].log_id.index + i);
        assert(v.logs[n - 1].log_id.index == v.logs[0].log_id.index + (n - 1));
    }
    lemma_between_empty(v.logs, lo, hi);
    lemma_window(es, lo, hi);
    assert(Seq::<EntryView>::empty() + entries_between(es, lo, hi) =~= entries_between(es, lo, hi));
}

/// After `purge(l)` the purge watermark is `l` and no entry up to
/// `l.index` is left.
pub proof fn law_purge(v: LogView, l: LogId)
    ensures
        log_state_of(purged(v, l)).last_purged_log_id == Some(l),
        entries_between(purged(v, l).logs, 0, l.index + 1) == Seq::<EntryView>::empty(),
{
    lemma_between_between(v.logs, l.index + 1, u64::MAX + 1, 0, l.index + 1);
    lemma_between_empty(v.logs, l.index + 1, l.index + 1);
}

/// After `truncate(l)` nothing is left from `l.index` on, and what lies
/// before `l.index` is as it was.
pub proof fn law_truncate(v: LogView, l: LogId)
    ensures
        entries_between(truncated(v, l).logs, l.index as int, u64::MAX + 1) == Seq::<
            EntryView,
        >::empty(),
        entries_between(truncated(v, l).logs, 0, l.index as int) == entries_between(
            v.logs,
            0,
            l.index as int,
        ),
{
    lemma_between_between(v.logs, 0, l.index as int, l.index as int, u64::MAX + 1);
    lemma_between_empty(v.logs, l.index as int, l.index as int);
    lemma_between_between(v.logs, 0, l.index as int, 0, l.index as int);
}

/// The state after saving each vote of `votes` in turn.
pub open spec fn votes_saved(v: LogView, votes: Seq<Vote>) -> LogView
    decreases votes.len(),
{
    if votes.len() == 0 {
        v
    } else {
        vote_saved(votes_saved(v, votes.drop_last()), votes.last())
    }
}

/// After a run of `save_vote` calls the vote read back is the last one
/// saved, and saving keeps the log well formed, so a store restored from
/// what was saved reads the same vote.
pub proof fn law_last_vote_wins(v: LogView, votes: Seq<Vote>)
    requires
        votes.len() > 0,
    ensures
        votes_saved(v, votes).vote == Some(votes.last()),
        votes_saved(v, votes).logs == v.logs,
        votes_saved(v, votes).last_purged == v.last_purged,
        log_wf(votes_saved(v, votes)) == log_wf(v),
    decreases votes.len(),
{
    if votes.len() > 1 {
        law_last_vote_wins(v, votes.drop_last());
    } else {
        assert(votes_saved(v, votes.drop_last()) == v);
    }
}

} // verus!
