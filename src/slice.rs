//! Grouping a decoded event sequence into windows by time or by count.
use crate::event::Event;
use vstd::prelude::*;

verus! {

/// How to cut the event sequence into slices.
#[derive(Debug, Clone, Copy, PartialEq, Eq, Structural)]
pub enum SliceBy {
    /// Windows of this many microseconds.
    Time(u64),
    /// Windows of this many events.
    Count(usize),
    /// Windows of at most this many microseconds and at most this many events.
    Both(u64, usize),
}

impl SliceBy {
    /// The slicing is usable: a count is at least one.
    pub open spec fn valid(self) -> bool {
        match self {
            SliceBy::Time(_) => true,
            SliceBy::Count(c) => c >= 1,
            SliceBy::Both(_, c) => c >= 1,
        }
    }
}

/// The index of the first event from `i` on that has a timestamp, or `s.len()`.
pub open spec fn next_timed(s: Seq<Event>, i: int) -> int
    decreases s.len() - i,
{
    if i < 0 || i >= s.len() {
        s.len() as int
    } else if s[i].spec_timestamp() is Some {
        i
    } else {
        next_timed(s, i + 1)
    }
}

/// The timed events from `i` on, untimed ones skipped, while their timestamp
/// stays below `end` and, when `limit` is given, at most `limit` of them; and
/// the index after the last event consumed. The first timed event at or past
/// `end` is consumed and left out; once the limit is reached nothing more is
/// consumed.
pub open spec fn time_tail(s: Seq<Event>, i: int, end: int, limit: Option<nat>) -> (
    Seq<Event>,
    int,
)
    decreases s.len() - i, 0int,
{
    if limit == Some(0nat) {
        (seq![], i)
    } else if i < 0 || i >= s.len() {
        (seq![], s.len() as int)
    } else if s[i].spec_timestamp() is None {
        time_tail(s, i + 1, end, limit)
    } else if s[i].spec_timestamp()->0 < end {
        let (rest, next) = time_tail(
            s,
            i + 1,
            end,
            match limit {
                Some(n) => Some((n - 1) as nat),
                None => None,
            },
        );
        (seq![s[i]] + rest, next)
    } else {
        (seq![], i + 1)
    }
}

/// The slice that starts at the timed event `f`, and the index after it.
pub open spec fn slice_at(s: Seq<Event>, f: int, by: SliceBy) -> (Seq<Event>, int) {
    let t = s[f].spec_timestamp()->0;
    match by {
        SliceBy::Count(c) => {
            let next = if f + c <= s.len() {
                f + c
            } else {
                s.len() as int
            };
            (s.subrange(f, next), next)
        },
        SliceBy::Time(m) => {
            let (rest, next) = time_tail(s, f + 1, t + m, None);
            (seq![s[f]] + rest, next)
        },
        SliceBy::Both(m, c) => {
            let (rest, next) = time_tail(s, f + 1, t + m, Some((c - 1) as nat));
            (seq![s[f]] + rest, next)
        },
    }
}

/// The slices of `s` from index `i` on. Each slice starts at the next event
/// that has a timestamp (untimed events before it are skipped) and takes,
/// by count, the events that follow it up to the count, whatever they are;
/// by time, the timed events below the first timestamp plus the window.
pub open spec fn slices_from(s: Seq<Event>, i: int, by: SliceBy) -> Seq<Seq<Event>>
    recommends
        by.valid(),
    decreases s.len() - i,
{
    let f = next_timed(s, i);
    if i < 0 || f >= s.len() || !by.valid() {
        seq![]
    } else {
        let (slice, next) = slice_at(s, f, by);
        if next <= i || next > s.len() {
            seq![]
        } else {
            seq![slice] + slices_from(s, next, by)
        }
    }
}

pub open spec fn nested_view(v: Seq<Vec<Event>>) -> Seq<Seq<Event>> {
    Seq::new(v.len(), |i: int| v[i]@)
}

proof fn lemma_time_tail_bounds(s: Seq<Event>, i: int, end: int, limit: Option<nat>)
    requires
        0 <= i <= s.len(),
    ensures
        i <= time_tail(s, i, end, limit).1 <= s.len(),
    decreases s.len() - i, 0int,
{
    if limit == Some(0nat) || i >= s.len() {
    } else if s[i].spec_timestamp() is None {
        lemma_time_tail_bounds(s, i + 1, end, limit);
    } else if s[i].spec_timestamp()->0 < end {
        lemma_time_tail_bounds(
            s,
            i + 1,
            end,
            match limit {
                Some(n) => Some((n - 1) as nat),
                None => None,
            },
        );
    }
}

/// Collects the tail of a time window from `start` on; see `time_tail`.
fn collect_time_tail(
    events: &Vec<Event>,
    start: usize,
    end: Option<u64>,
    limit: Option<usize>,
    slice: &mut Vec<Event>,
) -> (next: usize)
    requires
        start <= events@.len(),
    ensures
        ({
            let e = match end {
                Some(x) => x as int,
                None => u64::MAX + 1,
            };
            let l = match limit {
                Some(n) => Some(n as nat),
                None => None,
            };
            &&& final(slice)@ == old(slice)@ + time_tail(events@, start as int, e, l).0
            &&& next == time_tail(events@, start as int, e, l).1
        }),
{
    let ghost e = match end {
        Some(x) => x as int,
        None => u64::MAX + 1,
    };
    let ghost l0 = match limit {
        Some(n) => Some(n as nat),
        None => None,
    };
    let ghost s0 = slice@;
    let mut i: usize = start;
    let mut left: Option<usize> = limit;
    loop
        invariant
            start <= i <= events@.len(),
            s0 == old(slice)@,
            l0 == match limit {
                Some(n) => Some(n as nat),
                None => None,
            },
            e == match end {
                Some(x) => x as int,
                None => u64::MAX + 1,
            },
            ({
                let l = match left {
                    Some(n) => Some(n as nat),
                    None => None,
                };
                let whole = time_tail(events@, start as int, e, l0);
                let part = time_tail(events@, i as int, e, l);
                &&& whole.1 == part.1
                &&& s0 + whole.0 == slice@ + part.0
            }),
        decreases events@.len() - i,
    {
        let l = Ghost(
            match left {
                Some(n) => Some(n as nat),
                None => None,
            },
        );
        let exhausted = match left {
            Some(n) => n == 0,
            None => false,
        };
        if exhausted {
            proof {
                assert(slice@ + Seq::<Event>::empty() =~= slice@);
            }
            return i;
        }
        if i >= events.len() {
            proof {
                assert(slice@ + Seq::<Event>::empty() =~= slice@);
            }
            return i;
        }
        match events[i].timestamp() {
            None => {
                i = i + 1;
            },
            Some(t) => {
                let below = match end {
                    Some(x) => t < x,
                    None => true,
                };
                if below {
                    let ghost before = slice@;
                    slice.push(events[i]);
                    left = match left {
                        Some(n) => Some(n - 1),
                        None => None,
                    };
                    proof {
                        let l2 = match left {
                            Some(n) => Some(n as nat),
                            None => None,
                        };
                        let part = time_tail(events@, i + 1, e, l2);
                        assert(time_tail(events@, i as int, e, l@) == (
                            seq![events@[i as int]] + part.0,
                            part.1,
                        ));
                        assert(before + (seq![events@[i as int]] + part.0) =~= slice@ + part.0);
                    }
                    i = i + 1;
                } else {
                    proof {
                        assert(slice@ + Seq::<Event>::empty() =~= slice@);
                    }
                    return i + 1;
                }
            },
        }
    }
}

proof fn lemma_next_timed_at(s: Seq<Event>, i: int, f: int)
    requires
        0 <= i <= f <= s.len(),
        forall|k: int| i <= k < f ==> (#[trigger] s[k]).spec_timestamp() is None,
        f == s.len() || s[f].spec_timestamp() is Some,
    ensures
        next_timed(s, i) == f,
    decreases f - i,
{
    if i < f {
        lemma_next_timed_at(s, i + 1, f);
    }
}

/// A window end past every `u64` timestamp acts the same wherever it lies.
proof fn lemma_time_tail_far_end(s: Seq<Event>, i: int, e1: int, e2: int, limit: Option<nat>)
    requires
        e1 > u64::MAX,
        e2 > u64::MAX,
    ensures
        time_tail(s, i, e1, limit) == time_tail(s, i, e2, limit),
    decreases s.len() - i, 0int,
{
    if limit == Some(0nat) || i < 0 || i >= s.len() {
    } else if s[i].spec_timestamp() is None {
        lemma_time_tail_far_end(s, i + 1, e1, e2, limit);
    } else {
        lemma_time_tail_far_end(
            s,
            i + 1,
            e1,
            e2,
            match limit {
                Some(n) => Some((n - 1) as nat),
                None => None,
            },
        );
    }
}

/// Cuts `events` into slices. Each slice starts at the next event that has a
/// timestamp, events without one before it being skipped. By count `c`, it
/// holds that event and the `c - 1` events after it, whatever they are. By
/// time `m`, it holds that event and the following timed events whose
/// timestamp is below the first one's plus `m`, skipping untimed events; the
/// first timed event past the window closes the slice and is dropped. By both,
/// it also stops after `c` events, without consuming more.
pub fn slice_events(events: &Vec<Event>, slice_by: SliceBy) -> (r: Vec<Vec<Event>>)
    requires
        slice_by.valid(),
    ensures
        nested_view(r@) == slices_from(events@, 0, slice_by),
{
    let ghost s = events@;
    let n = events.len();
    let mut out: Vec<Vec<Event>> = Vec::new();
    let mut i: usize = 0;
    loop
        invariant
            i <= n == s.len(),
            s == events@,
            slice_by.valid(),
            slices_from(s, 0, slice_by) == nested_view(out@) + slices_from(s, i as int, slice_by),
        decreases n - i,
    {
        let mut f: usize = i;
        while f < n && events[f].timestamp().is_none()
            invariant
                i <= f <= n == s.len(),
                s == events@,
                forall|k: int| i <= k < f ==> (#[trigger] s[k]).spec_timestamp() is None,
            decreases n - f,
        {
            f = f + 1;
        }
        proof {
            lemma_next_timed_at(s, i as int, f as int);
        }
        if f >= n {
            proof {
                assert(nested_view(out@) + Seq::<Seq<Event>>::empty() =~= nested_view(out@));
            }
            return out;
        }
        let t: u64 = match events[f].timestamp() {
            Some(t) => t,
            None => 0,
        };
        let mut slice: Vec<Event> = Vec::new();
        let next: usize;
        match slice_by {
            SliceBy::Count(c) => {
                let stop: usize = if c <= n - f {
                    f + c
                } else {
                    n
                };
                let mut k: usize = f;
                while k < stop
                    invariant
                        f <= k <= stop <= n == s.len(),
                        s == events@,
                        slice@ =~= s.subrange(f as int, k as int),
                    decreases stop - k,
                {
                    slice.push(events[k]);
                    k = k + 1;
                }
                next = stop;
            },
            SliceBy::Time(m) => {
                slice.push(events[f]);
                next = collect_time_tail(events, f + 1, t.checked_add(m), None, &mut slice);
                proof {
                    if t + m > u64::MAX {
                        lemma_time_tail_far_end(s, f + 1, u64::MAX + 1, t + m, None);
                    }
                    lemma_time_tail_bounds(s, f + 1, t + m, None);
                }
            },
            SliceBy::Both(m, c) => {
                slice.push(events[f]);
                next = collect_time_tail(events, f + 1, t.checked_add(m), Some(c - 1), &mut slice);
                proof {
                    if t + m > u64::MAX {
                        lemma_time_tail_far_end(
                            s,
                            f + 1,
                            u64::MAX + 1,
                            t + m,
                            Some((c - 1) as nat),
                        );
                    }
                    lemma_time_tail_bounds(s, f + 1, t + m, Some((c - 1) as nat));
                }
            },
        }
        proof {
            let (sl, nx) = slice_at(s, f as int, slice_by);
            assert(sl == slice@);
            assert(nx == next);
            assert(slices_from(s, i as int, slice_by) == seq![slice@] + slices_from(
                s,
                next as int,
                slice_by,
            ));
        }
        let ghost prev = nested_view(out@);
        out.push(slice);
        proof {
            assert(nested_view(out@) =~= prev.push(slice@));
            assert(prev + (seq![slice@] + slices_from(s, next as int, slice_by)) =~= prev.push(
                slice@,
            ) + slices_from(s, next as int, slice_by));
        }
        i = next;
    }
}

} // verus!
