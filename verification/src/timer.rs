//! A per-query node timer: records, for each named node, when its work
//! started and ended relative to the start of the query. Time sources and
//! shared ownership are the caller's concern; the timer itself is plain
//! bookkeeping over tick counts.

use vstd::prelude::*;

verus! {

broadcast use vstd::seq_lib::group_to_multiset_ensures, vstd::string::to_string_from_display_ensures_for_str;

/// A timing report row: one node's span, relative to the query's start.
#[derive(Debug)]
pub struct TimerEntry {
    pub node: String,
    pub start: u64,
    pub end: u64,
}

/// A timer with nothing recorded cannot produce a report.
#[derive(Clone, Copy, PartialEq, Eq, Structural, Debug)]
pub enum TimerError {
    NoData,
}

/// A report row reduced to plain values, for stating permutations.
pub open spec fn entry_view(e: TimerEntry) -> (Seq<char>, u64, u64) {
    (e.node@, e.start, e.end)
}

/// The rows a timer's recordings stand for, in recording order.
pub open spec fn recorded_rows(nodes: Seq<String>, ticks: Seq<(u64, u64)>) -> Seq<
    (Seq<char>, u64, u64),
> {
    Seq::new(nodes.len(), |i: int| (nodes[i]@, ticks[i].0, ticks[i].1))
}

/// Rows ordered by start tick.
pub open spec fn rows_sorted(s: Seq<TimerEntry>) -> bool {
    forall|i: int, j: int| 0 <= i < j < s.len() ==> s[i].start <= s[j].start
}

/// Collects, per named node, a start and an end tick relative to the
/// query's start.
pub struct NodeTimer {
    pub query_start: u64,
    pub nodes: Vec<String>,
    pub ticks: Vec<(u64, u64)>,
}

impl NodeTimer {
    /// A fresh timer for a query that started at the given tick.
    pub fn new(query_start: u64) -> (r: NodeTimer)
        ensures
            r.query_start == query_start,
            r.nodes@.len() == 0,
            r.ticks@.len() == 0,
    {
        NodeTimer { query_start, nodes: Vec::new(), ticks: Vec::new() }
    }

    /// Record a node's span given absolute ticks: both are taken relative
    /// to the query's start, saturating at zero for instants before it.
    pub fn store(&mut self, start: u64, end: u64, name: String)
        ensures
            final(self).query_start == old(self).query_start,
            final(self).nodes@ == old(self).nodes@.push(name),
            final(self).ticks@ == old(self).ticks@.push(
                (
                    (if start >= old(self).query_start {
                        (start - old(self).query_start) as u64
                    } else {
                        0u64
                    }),
                    (if end >= old(self).query_start {
                        (end - old(self).query_start) as u64
                    } else {
                        0u64
                    }),
                ),
            ),
    {
        let qs = self.query_start;
        self.store_duration(start.saturating_sub(qs), end.saturating_sub(qs), name)
    }

    /// Record a node's span given ticks already relative to the query's
    /// start.
    pub fn store_duration(&mut self, start: u64, end: u64, name: String)
        ensures
            final(self).query_start == old(self).query_start,
            final(self).nodes@ == old(self).nodes@.push(name),
            final(self).ticks@ == old(self).ticks@.push((start, end)),
    {
        self.nodes.push(name);
        self.ticks.push((start, end))
    }

    /// Produce the timing report: every recorded row, plus one final row
    /// covering the optimization phase (from tick zero to the first
    /// recorded start), sorted by start tick.
    pub fn finish(self) -> (r: Result<Vec<TimerEntry>, TimerError>)
        requires
            self.nodes@.len() == self.ticks@.len(),
        ensures
            r is Err <==> self.ticks@.len() == 0,
            r matches Ok(rows) ==> {
                &&& rows_sorted(rows@)
                &&& rows@.map_values(|e: TimerEntry| entry_view(e)).to_multiset()
                    == recorded_rows(self.nodes@, self.ticks@).push(
                    ("optimization"@, 0u64, self.ticks@[0].0),
                ).to_multiset()
            },
    {
        let NodeTimer { query_start: _, mut nodes, mut ticks } = self;
        if ticks.len() == 0 {
            return Err(TimerError::NoData);
        }
        let ghost all = recorded_rows(nodes@, ticks@).push(("optimization"@, 0u64, ticks@[0].0));
        // first value is end of optimization
        let first_start = ticks[0].0;
        nodes.push("optimization".to_string());
        ticks.push((0, first_start));
        proof {
            assert(recorded_rows(nodes@, ticks@) =~= all);
        }
        let mut pending: Vec<TimerEntry> = Vec::new();
        let ghost src_nodes = nodes@;
        let ghost src_ticks = ticks@;
        while nodes.len() > 0
            invariant
                nodes@.len() == ticks@.len(),
                pending@.len() + nodes@.len() == src_nodes.len(),
                src_nodes.len() == src_ticks.len(),
                nodes@ == src_nodes.subrange(pending@.len() as int, src_nodes.len() as int),
                ticks@ == src_ticks.subrange(pending@.len() as int, src_ticks.len() as int),
                forall|i: int|
                    0 <= i < pending@.len() ==> entry_view(#[trigger] pending@[i])
                        == recorded_rows(src_nodes, src_ticks)[i],
            decreases nodes@.len(),
        {
            let ghost k = pending@.len() as int;
            let node = nodes.remove(0);
            let (start, end) = ticks.remove(0);
            proof {
                assert(node == src_nodes[k]);
                assert((start, end) == src_ticks[k]);
                assert(nodes@ =~= src_nodes.subrange(k + 1, src_nodes.len() as int));
                assert(ticks@ =~= src_ticks.subrange(k + 1, src_ticks.len() as int));
            }
            pending.push(TimerEntry { node, start, end });
        }
        proof {
            assert(pending@.map_values(|e: TimerEntry| entry_view(e)) =~= all);
        }
        let mut rows: Vec<TimerEntry> = Vec::new();
        while pending.len() > 0
            invariant
                rows_sorted(rows@),
                forall|i: int, j: int|
                    0 <= i < rows@.len() && 0 <= j < pending@.len() ==> (
                    #[trigger] rows@[i]).start <= (#[trigger] pending@[j]).start,
                rows@.map_values(|e: TimerEntry| entry_view(e)).to_multiset().add(
                    pending@.map_values(|e: TimerEntry| entry_view(e)).to_multiset(),
                ) == all.to_multiset(),
            decreases pending@.len(),
        {
            let mut mi: usize = 0;
            let mut k: usize = 1;
            while k < pending.len()
                invariant
                    mi < k <= pending@.len(),
                    pending@.len() > 0,
                    forall|j: int|
                        0 <= j < k ==> pending@[mi as int].start <= (#[trigger] pending@[j]).start,
                decreases pending@.len() - k,
            {
                if pending[k].start < pending[mi].start {
                    mi = k;
                }
                k = k + 1;
            }
            let ghost rows0 = rows@;
            let ghost pending0 = pending@;
            let e = pending.remove(mi);
            rows.push(e);
            proof {
                let view_fn = |en: TimerEntry| entry_view(en);
                assert(pending@.map_values(view_fn) =~= pending0.map_values(view_fn).remove(
                    mi as int,
                ));
                assert(rows@.map_values(view_fn) =~= rows0.map_values(view_fn).push(
                    entry_view(e),
                ));
                assert(pending0.map_values(view_fn)[mi as int] == entry_view(e));
                assert(rows@.map_values(view_fn).to_multiset().add(
                    pending@.map_values(view_fn).to_multiset(),
                ) =~= all.to_multiset());
            }
        }
        proof {
            assert(rows@.map_values(|e: TimerEntry| entry_view(e)).to_multiset() =~= rows@
                .map_values(|e: TimerEntry| entry_view(e)).to_multiset().add(
                pending@.map_values(|e: TimerEntry| entry_view(e)).to_multiset(),
            ));
        }
        Ok(rows)
    }
}

} // verus!
