//! The navigation and search state that the terminal front end works on: the entries
//! received, the projection of them on screen (all of them, or those of chosen sources),
//! the selection, the viewport and the running search.
use crate::buffer::{lemma_buffer_as_source, lemma_buffer_len, Buffer};
use crate::log_entry::{LogEntry, Source};
use crate::search_state::{
    extends, is_hit, lemma_extends_trans, lemma_vec_len, lemma_found_positions, lemma_inv_grows, settled_index, SearchSlice, SearchSourceBuffer, SearchState,
};
use crate::text::{decimal, decimal_text, lower_of};
use vstd::string::StringExecFns;
use crossbeam_channel::Receiver;
use std::collections::HashSet;
use vstd::prelude::*;

verus! {

broadcast use vstd::std_specs::hash::group_hash_axioms;

/// The entry's source is among the selected ones.
pub open spec fn is_selected(sel: Set<u64>, e: LogEntry) -> bool {
    sel.contains(e.source.hash)
}

/// `idx` lists, in increasing order, exactly the positions of `es` below `scanned` whose
/// entry comes from a selected source.
pub open spec fn exact_filter(sel: Set<u64>, es: Seq<LogEntry>, idx: Seq<usize>, scanned: int) -> bool {
    &&& forall|i: int, j: int| 0 <= i < j < idx.len() ==> idx[i] < idx[j]
    &&& forall|i: int|
        0 <= i < idx.len() ==> (#[trigger] idx[i]) < scanned && is_selected(sel, es[idx[i] as int])
    &&& forall|p: int|
        0 <= p < scanned && is_selected(sel, es[p]) ==> exists|j: int|
            0 <= j < idx.len() && idx[j] as int == p
}

/// The window `[start, end)` of a projection of `len` entries drawn from `start` with
/// `count` rows: it ends `count` rows after `start`, or at the last entry, and holds
/// `count` rows when there are that many.
pub open spec fn draw_window(len: usize, start: usize, count: usize) -> (usize, usize) {
    let s = if start <= len {
        start
    } else {
        len
    };
    let e = if count <= len - s {
        (s + count) as usize
    } else {
        len
    };
    (
        if e >= count {
            (e - count) as usize
        } else {
            0usize
        },
        e,
    )
}

fn window(len: usize, start: usize, count: usize) -> (r: (usize, usize))
    ensures
        r == draw_window(len, start, count),
{
    let s = if start <= len {
        start
    } else {
        len
    };
    let e = if count <= len - s {
        s + count
    } else {
        len
    };
    (e.saturating_sub(count), e)
}

proof fn lemma_filter_extend(sel: Set<u64>, es0: Seq<LogEntry>, es1: Seq<LogEntry>, idx: Seq<usize>, scanned: int)
    requires
        exact_filter(sel, es0, idx, scanned),
        extends(es0, es1),
        scanned <= es0.len(),
    ensures
        exact_filter(sel, es1, idx, scanned),
{
    assert forall|k: int| 0 <= k < es0.len() implies es1[k] == es0[k] by {
        assert(es1.subrange(0, es0.len() as int)[k] == es1[k]);
    }
    assert forall|i: int| 0 <= i < idx.len() implies (#[trigger] idx[i]) < scanned && is_selected(
        sel,
        es1[idx[i] as int],
    ) by {
        assert(idx[i] < scanned);
    }
    assert forall|p: int| 0 <= p < scanned && is_selected(sel, es1[p]) implies exists|j: int|
        0 <= j < idx.len() && idx[j] as int == p by {
        assert(is_selected(sel, es0[p]));
    }
}

proof fn lemma_filter_step(sel: Set<u64>, es: Seq<LogEntry>, idx: Seq<usize>, scanned: int)
    requires
        exact_filter(sel, es, idx, scanned),
        0 <= scanned < es.len(),
        scanned <= usize::MAX,
    ensures
        !is_selected(sel, es[scanned]) ==> exact_filter(sel, es, idx, scanned + 1),
        is_selected(sel, es[scanned]) ==> exact_filter(
            sel,
            es,
            idx.push(scanned as usize),
            scanned + 1,
        ),
{
    let ns = idx.push(scanned as usize);
    if is_selected(sel, es[scanned]) {
        assert forall|i: int, j: int| 0 <= i < j < ns.len() implies ns[i] < ns[j] by {
            if j == idx.len() {
                assert(idx[i] < scanned);
            }
        }
        assert forall|i: int| 0 <= i < ns.len() implies (#[trigger] ns[i]) < scanned + 1
            && is_selected(sel, es[ns[i] as int]) by {
            if i < idx.len() {
                assert(idx[i] < scanned);
            }
        }
        assert forall|p: int| 0 <= p < scanned + 1 && is_selected(sel, es[p]) implies exists|j: int|
            0 <= j < ns.len() && ns[j] as int == p by {
            if p < scanned {
                let j = choose|j: int| 0 <= j < idx.len() && idx[j] as int == p;
                assert(ns[j] as int == p);
            } else {
                assert(ns[idx.len() as int] as int == p);
            }
        }
    }
}

/// All received entries, in arrival order.
struct PlainSource {
    buffer: Buffer,
    range_start: usize,
    range_end: usize,
}

impl PlainSource {
    spec fn inv(&self) -> bool {
        &&& self.buffer.wf()
        &&& self.range_start <= self.range_end <= self.buffer@.len()
    }

    fn new(buffer: Buffer) -> (r: PlainSource)
        requires
            buffer.wf(),
        ensures
            r.inv(),
            r.buffer == buffer,
            r.range_start == 0,
            r.range_end == 0,
    {
        PlainSource { buffer, range_start: 0, range_end: 0 }
    }

    fn prepare_logs_to_draw(&mut self, start: usize, count: usize)
        requires
            old(self).inv(),
        ensures
            final(self).inv(),
            final(self).buffer == old(self).buffer,
            (final(self).range_start, final(self).range_end) == draw_window(
                old(self).buffer@.len() as usize,
                start,
                count,
            ),
    {
        proof {
            lemma_buffer_len(&self.buffer);
        }
        let (s, e) = window(self.buffer.len(), start, count);
        self.range_start = s;
        self.range_end = e;
    }

    fn entry(&self, index: usize) -> (r: Option<&LogEntry>)
        ensures
            r == (if index < self.buffer@.len() {
                Some(&self.buffer@[index as int])
            } else {
                None
            }),
    {
        let entries = self.buffer.inner();
        if index < entries.len() {
            Some(&entries[index])
        } else {
            None
        }
    }

    fn buffer_len(&self) -> (r: usize)
        requires
            self.inv(),
        ensures
            r == self.buffer@.len(),
    {
        self.buffer.len()
    }
}

/// The received entries whose source is among the selected ones, found lazily.
struct FilteredSource {
    selected_sources: HashSet<u64>,
    indices: Vec<usize>,
    buffer: Buffer,
    range_start: usize,
    range_end: usize,
    /// How many buffer positions have been classified.
    scanned: usize,
    is_end_reached: bool,
}

impl FilteredSource {
    spec fn inv(&self) -> bool {
        &&& self.buffer.wf()
        &&& self.scanned <= self.buffer@.len()
        &&& exact_filter(self.selected_sources@, self.buffer@, self.indices@, self.scanned as int)
        &&& self.is_end_reached ==> self.buffer.ended() && self.scanned == self.buffer@.len()
        &&& self.range_start <= self.range_end <= self.indices@.len()
    }

    spec fn shown(&self) -> Seq<LogEntry> {
        Seq::new(self.indices@.len(), |i: int| self.buffer@[self.indices@[i] as int])
    }

    fn new(buffer: Buffer, selected_sources: HashSet<u64>) -> (r: FilteredSource)
        requires
            buffer.wf(),
        ensures
            r.inv(),
            r.buffer == buffer,
            r.selected_sources@ == selected_sources@,
            r.indices@.len() == 0,
            !r.is_end_reached,
    {
        FilteredSource {
            selected_sources,
            indices: Vec::new(),
            buffer,
            range_start: 0,
            range_end: 0,
            scanned: 0,
            is_end_reached: false,
        }
    }

    /// Sets the window to `count` entries from `start`, first collecting enough matching
    /// entries for it when the channel may still bring some.
    fn prepare_logs_to_draw(&mut self, start: usize, count: usize)
        requires
            old(self).inv(),
        ensures
            final(self).inv(),
            final(self).selected_sources@ == old(self).selected_sources@,
            extends(old(self).buffer@, final(self).buffer@),
            extends(old(self).indices@, final(self).indices@),
            old(self).is_end_reached ==> final(self).is_end_reached && final(self).indices@
                == old(self).indices@ && final(self).buffer@ == old(self).buffer@,
            ({
                let s = if start <= old(self).indices@.len() {
                    start
                } else {
                    old(self).indices@.len() as usize
                };
                &&& (final(self).range_start, final(self).range_end) == draw_window(
                    final(self).indices@.len() as usize,
                    s,
                    count,
                )
                &&& final(self).indices@.len() >= s + count || final(self).is_end_reached
                &&& final(self).indices@.len() <= old(self).indices@.len() || final(self).indices@.len()
                    <= s + count
                &&& (old(self).is_end_reached || s + count < old(self).indices@.len())
                    ==> final(self).indices@ == old(self).indices@ && final(self).buffer@ == old(
                    self,
                ).buffer@
            }),
    {
        let ghost idx0 = self.indices@;
        let ghost es0 = self.buffer@;
        proof {
            assert(idx0.subrange(0, idx0.len() as int) =~= idx0);
            assert(es0.subrange(0, es0.len() as int) =~= es0);
        }
        let len = self.indices.len();
        let s = if start <= len {
            start
        } else {
            len
        };
        if self.is_end_reached || count < len - s {
            let (a, b) = window(len, s, count);
            self.range_start = a;
            self.range_end = b;
            return;
        }
        let mut more = true;
        while more && self.indices.len() - s < count
            invariant
                self.inv(),
                s <= self.indices@.len(),
                self.selected_sources@ == old(self).selected_sources@,
                extends(es0, self.buffer@),
                extends(idx0, self.indices@),
                self.indices@.len() <= s + count,
                !more ==> self.is_end_reached,
                old(self).is_end_reached ==> self.is_end_reached,
            decreases usize::MAX - self.indices@.len(), if more {
                1int
            } else {
                0int
            },
        {
            let ghost es1 = self.buffer@;
            let ghost idx1 = self.indices@;
            more = self.pull().is_some();
            proof {
                lemma_vec_len(&self.indices);
                assert(self.indices@.subrange(0, idx1.len() as int) =~= idx1);
            }
            proof {
                lemma_extends_trans(es0, es1, self.buffer@);
                lemma_extends_trans(idx0, idx1, self.indices@);
            }
        }
        let (a, b) = window(self.indices.len(), s, count);
        self.range_start = a;
        self.range_end = b;
    }

    fn entry(&self, index: usize) -> (r: Option<&LogEntry>)
        requires
            self.inv(),
        ensures
            r == (if index < self.shown().len() {
                Some(&self.shown()[index as int])
            } else {
                None
            }),
    {
        let entries = self.buffer.inner();
        if index < self.indices.len() {
            Some(&entries[self.indices[index]])
        } else {
            None
        }
    }

    fn buffer_len(&self) -> (r: usize)
        ensures
            r == self.shown().len(),
    {
        self.indices.len()
    }
}

/// Positions below `n` that lie in the older buffer `es0` still name the same entries.
proof fn lemma_shown_kept(es1: Seq<LogEntry>, es0: Seq<LogEntry>, idx: Seq<usize>, n: int)
    requires
        extends(es0, es1),
        0 <= n <= idx.len(),
        forall|k: int| 0 <= k < n ==> idx[k] < es0.len(),
    ensures
        forall|k: int| 0 <= k < n ==> es1[idx[k] as int] == es0[idx[k] as int],
{
    assert forall|k: int| 0 <= k < n implies es1[idx[k] as int] == es0[idx[k] as int] by {
        assert(idx[k] < es0.len());
        assert(es1.subrange(0, es0.len() as int)[idx[k] as int] == es1[idx[k] as int]);
    }
}

impl FilteredSource {
    /// Finds the next buffer position whose source is selected, receiving more entries
    /// when the buffer has none left to classify, and records it.
    fn pull(&mut self) -> (r: Option<usize>)
        requires
            old(self).inv(),
        ensures
            final(self).inv(),
            final(self).selected_sources@ == old(self).selected_sources@,
            extends(old(self).buffer@, final(self).buffer@),
            final(self).range_start == old(self).range_start,
            final(self).range_end == old(self).range_end,
            old(self).is_end_reached ==> r is None && final(self).buffer@ == old(self).buffer@,
            match r {
                Some(p) => {
                    &&& final(self).indices@ == old(self).indices@.push(p)
                    &&& p < final(self).buffer@.len()
                    &&& !final(self).is_end_reached
                },
                None => {
                    &&& final(self).indices@ == old(self).indices@
                    &&& final(self).is_end_reached
                },
            },
    {
        let ghost sel = self.selected_sources@;
        let ghost es0 = self.buffer@;
        let ghost idx0 = self.indices@;
        proof {
            lemma_buffer_len(&self.buffer);
            assert(es0.subrange(0, es0.len() as int) =~= es0);
            assert(extends(es0, es0));
        }
        let n = self.buffer.len();
        while self.scanned < n
            invariant
                self.inv(),
                n == self.buffer@.len(),
                n <= usize::MAX,
                self.buffer@ == es0,
                es0 == old(self).buffer@,
                sel == old(self).selected_sources@,
                idx0 == old(self).indices@,
                self.indices@ == idx0,
                self.selected_sources@ == sel,
                self.is_end_reached == old(self).is_end_reached,
                self.range_start == old(self).range_start,
                self.range_end == old(self).range_end,
            decreases n - self.scanned,
        {
            let i = self.scanned;
            let hash = self.buffer.inner()[i].source.hash;
            proof {
                lemma_filter_step(sel, es0, idx0, i as int);
            }
            self.scanned = i + 1;
            if self.selected_sources.contains(&hash) {
                self.indices.push(i);
                assert(self.buffer@.subrange(0, es0.len() as int) =~= es0);
                return Some(i);
            }
        }
        if self.buffer.is_end_reached() {
            self.is_end_reached = true;
            return None;
        }
        loop
            invariant
                self.inv(),
                self.scanned == self.buffer@.len(),
                extends(es0, self.buffer@),
                es0 == old(self).buffer@,
                sel == old(self).selected_sources@,
                idx0 == old(self).indices@,
                self.indices@ == idx0,
                self.selected_sources@ == sel,
                !self.is_end_reached,
                !old(self).is_end_reached,
                self.range_start == old(self).range_start,
                self.range_end == old(self).range_end,
            decreases usize::MAX - self.buffer@.len(),
        {
            let ghost es1 = self.buffer@;
            let len = self.buffer.len();
            let ghost mut taken: LogEntry = arbitrary();
            let next = match self.buffer.take_next() {
                Some(e) => {
                    proof {
                        taken = *e;
                    }
                    Some(e.source.hash)
                },
                None => None,
            };
            match next {
                Some(hash) => {
                    proof {
                        assert(self.buffer@ == es1.push(taken));
                        assert(self.buffer@.subrange(0, es1.len() as int) =~= es1);
                        lemma_extends_trans(es0, es1, self.buffer@);
                        lemma_filter_extend(sel, es1, self.buffer@, idx0, len as int);
                        lemma_filter_step(sel, self.buffer@, idx0, len as int);
                    }
                    self.scanned = len + 1;
                    if self.selected_sources.contains(&hash) {
                        self.indices.push(len);
                        return Some(len);
                    }
                },
                None => {
                    self.is_end_reached = true;
                    return None;
                },
            }
        }
    }
}

impl SearchSourceBuffer for FilteredSource {
    closed spec fn searched(&self) -> Seq<LogEntry> {
        self.shown()
    }

    closed spec fn received(&self) -> Seq<LogEntry> {
        self.buffer@
    }

    closed spec fn exhausted(&self) -> bool {
        self.is_end_reached
    }

    closed spec fn selection(&self) -> Set<u64> {
        self.selected_sources@
    }

    closed spec fn source_inv(&self) -> bool {
        self.inv()
    }

    fn is_end_reached(&self) -> (r: bool) {
        self.is_end_reached
    }

    fn len(&self) -> (r: usize) {
        self.indices.len()
    }

    fn take_next(&mut self) -> (r: Option<&LogEntry>) {
        let ghost shown0 = self.shown();
        let ghost es0 = self.buffer@;
        let pulled = self.pull();
        proof {
            lemma_vec_len(&self.indices);
        }
        match pulled {
            Some(p) => {
                proof {
                    lemma_shown_kept(self.buffer@, es0, self.indices@, (self.indices@.len() - 1) as int);
                    assert(self.shown() =~= shown0.push(self.buffer@[p as int]));
                }
                Some(&self.buffer.inner()[p])
            },
            None => {
                proof {
                    lemma_shown_kept(self.buffer@, es0, self.indices@, self.indices@.len() as int);
                    assert(self.shown() =~= shown0);
                }
                None
            },
        }
    }

    fn slice(&self) -> (r: SearchSlice<'_>) {
        proof {
            lemma_vec_len(&self.indices);
        }
        let r = SearchSlice::Filtered(self.buffer.inner(), self.indices.as_slice());
        assert(r.entries() =~= self.shown());
        r
    }
}

proof fn lemma_filtered_shown_extends(f0: FilteredSource, f1: FilteredSource)
    requires
        f0.inv(),
        extends(f0.buffer@, f1.buffer@),
        extends(f0.indices@, f1.indices@),
    ensures
        extends(f0.shown(), f1.shown()),
{
    let n = f0.indices@.len() as int;
    assert forall|k: int| 0 <= k < n implies f1.indices@[k] == f0.indices@[k] by {
        assert(f1.indices@.subrange(0, n)[k] == f1.indices@[k]);
    }
    lemma_shown_kept(f1.buffer@, f0.buffer@, f0.indices@, n);
    assert(f1.shown().subrange(0, n) =~= f0.shown());
}

/// The row shown as selected, and how many rows there are.
#[derive(Debug, PartialEq, Eq, Structural)]
pub struct PaginationState {
    pub current: usize,
    pub total: Option<usize>,
}

impl PaginationState {
    /// `(<current> of <total>)`, with `?` for an unknown total.
    pub fn display(&self) -> (r: String)
        ensures
            r@ == seq!['('] + decimal_text(self.current as nat) + seq![' ', 'o', 'f', ' ']
                + match self.total {
                Some(t) => decimal_text(t as nat),
                None => seq!['?'],
            } + seq![')'],
    {
        proof {
            reveal_strlit("(");
            reveal_strlit(" of ");
            reveal_strlit("?");
            reveal_strlit(")");
        }
        let mut out = "(".to_owned();
        out.append(decimal(self.current).as_str());
        out.append(" of ");
        match self.total {
            Some(t) => out.append(decimal(t).as_str()),
            None => out.append("?"),
        }
        out.append(")");
        assert(out@ =~= seq!['('] + decimal_text(self.current as nat) + seq![' ', 'o', 'f', ' ']
            + match self.total {
            Some(t) => decimal_text(t as nat),
            None => seq!['?'],
        } + seq![')']);
        out
    }
}

/// Where a search stands: nothing found yet, or the match selected among those found
/// (with their count once the entries have run out).
#[derive(Debug, PartialEq, Eq, Structural)]
pub enum SearchPaginationState {
    NoMatchesFound,
    MatchesIteration(PaginationState),
}

enum EntrySource {
    Plain(PlainSource),
    Filtered(FilteredSource),
}

/// How many rows `load_logs` asks for: twice the height past the first visible row, or
/// as many as a `usize` counts.
pub open spec fn load_target(first_row: usize, height: usize) -> int {
    if first_row + 2 * height <= usize::MAX {
        first_row + 2 * height
    } else {
        usize::MAX as int
    }
}

/// Some source in `sources` has this hash.
pub open spec fn has_source(sources: Seq<Source>, hash: u64) -> bool {
    exists|j: int| 0 <= j < sources.len() && sources[j].hash == hash
}

/// Adds `source` to `sources` unless one with its hash is there already.
fn record_source(sources: &mut Vec<Source>, source: &Source)
    requires
        forall|i: int, j: int|
            0 <= i < j < old(sources)@.len() ==> old(sources)@[i].hash != old(sources)@[j].hash,
    ensures
        forall|i: int, j: int|
            0 <= i < j < final(sources)@.len() ==> final(sources)@[i].hash != final(sources)@[j].hash,
        extends(old(sources)@, final(sources)@),
        has_source(final(sources)@, source.hash),
{
    let ghost before = sources@;
    let mut i: usize = 0;
    while i < sources.len()
        invariant
            sources@ == before,
            before == old(sources)@,
            forall|a: int, b: int| 0 <= a < b < before.len() ==> before[a].hash != before[b].hash,
            i <= sources@.len(),
            forall|k: int| 0 <= k < i ==> sources@[k].hash != source.hash,
        decreases sources.len() - i,
    {
        if sources[i].hash == source.hash {
            assert(sources@.subrange(0, before.len() as int) =~= before);
            return;
        }
        i = i + 1;
    }
    sources.push(source.clone());
    assert(sources@.subrange(0, before.len() as int) =~= before);
    assert(sources@[before.len() as int].hash == source.hash);
}

/// The state the terminal front end draws and navigates: the projection on screen, the
/// selected row, the first visible row, the height last drawn, the sources seen, and the
/// running search.
///
/// A search walks the projection that is on screen when it starts, so under a source
/// filter it only finds entries of the selected sources.
pub struct DataSource {
    pub offset: usize,
    pub selected_index: usize,
    source: EntrySource,
    last_count: usize,
    all_sources: Vec<Source>,
    search_state: Option<SearchState>,
}

impl DataSource {
    /// Every entry received so far, in arrival order.
    pub closed spec fn entries(&self) -> Seq<LogEntry> {
        match self.source {
            EntrySource::Plain(p) => p.buffer@,
            EntrySource::Filtered(f) => f.buffer@,
        }
    }

    /// The entries of the projection on screen: all of them, or those of the selected
    /// sources found so far.
    pub closed spec fn shown(&self) -> Seq<LogEntry> {
        match self.source {
            EntrySource::Plain(p) => p.buffer@,
            EntrySource::Filtered(f) => f.shown(),
        }
    }

    pub closed spec fn is_plain(&self) -> bool {
        self.source is Plain
    }

    /// The hashes of the selected sources, under a filter.
    pub closed spec fn filter(&self) -> Set<u64> {
        match self.source {
            EntrySource::Plain(_) => Set::empty(),
            EntrySource::Filtered(f) => f.selected_sources@,
        }
    }

    /// The projection will not grow any more.
    pub closed spec fn exhausted(&self) -> bool {
        match self.source {
            EntrySource::Plain(p) => p.buffer.ended(),
            EntrySource::Filtered(f) => f.is_end_reached,
        }
    }

    /// The sources seen so far, one per hash.
    pub closed spec fn sources(&self) -> Seq<Source> {
        self.all_sources@
    }

    pub closed spec fn selected(&self) -> usize {
        self.selected_index
    }

    pub closed spec fn first_row(&self) -> usize {
        self.offset
    }

    pub closed spec fn count(&self) -> usize {
        self.last_count
    }

    /// The rows `[start, end)` of the projection to draw.
    pub closed spec fn window(&self) -> (usize, usize) {
        match self.source {
            EntrySource::Plain(p) => (p.range_start, p.range_end),
            EntrySource::Filtered(f) => (f.range_start, f.range_end),
        }
    }

    pub closed spec fn search(&self) -> Option<SearchState> {
        self.search_state
    }

    pub closed spec fn inv(&self) -> bool {
        &&& match self.source {
            EntrySource::Plain(p) => p.inv(),
            EntrySource::Filtered(f) => f.inv(),
        }
        &&& self.search_state matches Some(s) ==> s.inv_over(self.shown()) && (s.ended()
            ==> self.exhausted())
        &&& forall|i: int, j: int|
            0 <= i < j < self.all_sources@.len() ==> self.all_sources@[i].hash
                != self.all_sources@[j].hash
    }

    pub fn new(receiver: Receiver<LogEntry>) -> (r: DataSource)
        ensures
            r.inv(),
            r.entries() == Seq::<LogEntry>::empty(),
            r.is_plain(),
            !r.exhausted(),
            r.sources() == Seq::<Source>::empty(),
            r.search() is None,
            r.selected() == 0,
            r.first_row() == 0,
            r.count() == 0,
    {
        DataSource {
            offset: 0,
            selected_index: 0,
            last_count: 0,
            all_sources: Vec::new(),
            source: EntrySource::Plain(PlainSource::new(Buffer::new(receiver))),
            search_state: None,
        }
    }

    fn buffer_len(&self) -> (r: usize)
        requires
            self.inv(),
        ensures
            r == self.shown().len(),
    {
        match &self.source {
            EntrySource::Plain(p) => p.buffer_len(),
            EntrySource::Filtered(f) => f.buffer_len(),
        }
    }

    /// Receives entries through the projection until it holds twice `height` rows past
    /// the first visible one, or the channel is drained, noting every new source.
    pub fn load_logs(&mut self, height: usize)
        requires
            old(self).inv(),
        ensures
            final(self).inv(),
            extends(old(self).entries(), final(self).entries()),
            extends(old(self).shown(), final(self).shown()),
            final(self).shown().len() >= load_target(old(self).first_row(), height)
                || final(self).exhausted(),
            final(self).shown().len() <= old(self).shown().len() || final(self).shown().len()
                <= load_target(old(self).first_row(), height),
            extends(old(self).sources(), final(self).sources()),
            forall|i: int|
                old(self).shown().len() <= i < final(self).shown().len() ==> has_source(
                    final(self).sources(),
                    (#[trigger] final(self).shown()[i]).source.hash,
                ),
            final(self).is_plain() == old(self).is_plain(),
            final(self).filter() == old(self).filter(),
            final(self).search() == old(self).search(),
            final(self).selected() == old(self).selected(),
            final(self).first_row() == old(self).first_row(),
            final(self).count() == old(self).count(),
            final(self).window() == old(self).window(),
    {
        let ghost start = *self;
        let target = self.offset.saturating_add(height).saturating_add(height);
        let mut request = target.saturating_sub(self.buffer_len());
        proof {
            assert(start.entries().subrange(0, start.entries().len() as int) =~= start.entries());
            assert(start.shown().subrange(0, start.shown().len() as int) =~= start.shown());
            assert(start.sources().subrange(0, start.sources().len() as int) =~= start.sources());
        }
        while request > 0
            invariant
                self.inv(),
                extends(start.entries(), self.entries()),
                extends(start.shown(), self.shown()),
                extends(start.sources(), self.sources()),
                request == 0 ==> self.shown().len() >= target || self.exhausted(),
                request > 0 ==> self.shown().len() + request == target,
                self.shown().len() <= start.shown().len() || self.shown().len() <= target,
                target == load_target(start.first_row(), height),
                forall|i: int|
                    start.shown().len() <= i < self.shown().len() ==> has_source(
                        self.sources(),
                        (#[trigger] self.shown()[i]).source.hash,
                    ),
                self.is_plain() == start.is_plain(),
                self.filter() == start.filter(),
                self.search() == start.search(),
                self.selected() == start.selected(),
                self.first_row() == start.first_row(),
                self.count() == start.count(),
                self.window() == start.window(),
            decreases request,
        {
            let ghost before = *self;
            let ghost mut new_entry: LogEntry = arbitrary();
            let pulled: Option<Source> = match &mut self.source {
                EntrySource::Plain(p) => {
                    proof {
                        lemma_buffer_len(&p.buffer);
                    }
                    match p.buffer.take_next() {
                        Some(e) => {
                            proof {
                                new_entry = *e;
                            }
                            Some(e.source.clone())
                        },
                        None => None,
                    }
                },
                EntrySource::Filtered(f) => match f.pull() {
                    Some(i) => {
                        proof {
                            new_entry = f.buffer@[i as int];
                        }
                        Some(f.buffer.inner()[i].source.clone())
                    },
                    None => None,
                },
            };
            let ghost after = *self;
            proof {
                match (before.source, after.source) {
                    (EntrySource::Filtered(f0), EntrySource::Filtered(f1)) => {
                        assert(f1.indices@.subrange(0, f0.indices@.len() as int) =~= f0.indices@);
                        lemma_filtered_shown_extends(f0, f1);
                    },
                    _ => {},
                }
                lemma_extends_trans(start.entries(), before.entries(), self.entries());
                lemma_extends_trans(start.shown(), before.shown(), self.shown());
                if let Some(s) = after.search_state {
                    lemma_inv_grows(&s, before.shown(), self.shown());
                }
                assert forall|i: int| 0 <= i < before.shown().len() implies self.shown()[i]
                    == before.shown()[i] by {
                    assert(self.shown().subrange(0, before.shown().len() as int)[i] == self.shown()[i]);
                }
            }
            match pulled {
                Some(source) => {
                    let ghost sources_before = self.all_sources@;
                    proof {
                        assert(self.shown().len() == before.shown().len() + 1);
                        assert(self.shown()[before.shown().len() as int] == new_entry);
                        assert(source.hash == new_entry.source.hash);
                    }
                    record_source(&mut self.all_sources, &source);
                    proof {
                        lemma_extends_trans(start.sources(), sources_before, self.all_sources@);
                        assert forall|i: int|
                            start.shown().len() <= i < self.shown().len() implies has_source(
                            self.sources(),
                            (#[trigger] self.shown()[i]).source.hash,
                        ) by {
                            if i < before.shown().len() {
                                let j = choose|j: int|
                                    0 <= j < sources_before.len() && sources_before[j].hash
                                        == before.shown()[i].source.hash;
                                assert(self.shown().subrange(0, before.shown().len() as int)[i]
                                    == self.shown()[i]);
                                assert(self.all_sources@.subrange(0, sources_before.len() as int)[j]
                                    == self.all_sources@[j]);
                            }
                        }
                    }
                    request = request - 1;
                },
                None => {
                    proof {
                        assert forall|i: int|
                            start.shown().len() <= i < self.shown().len() implies has_source(
                            self.sources(),
                            (#[trigger] self.shown()[i]).source.hash,
                        ) by {
                            assert(self.shown()[i] == before.shown()[i]);
                        }
                    }
                    request = 0;
                },
            }
        }
    }

    /// Nothing but the viewport and the selection differs between the two.
    pub open spec fn same_content(&self, other: &DataSource) -> bool {
        &&& self.entries() == other.entries()
        &&& self.shown() == other.shown()
        &&& self.is_plain() == other.is_plain()
        &&& self.filter() == other.filter()
        &&& self.exhausted() == other.exhausted()
        &&& self.sources() == other.sources()
        &&& self.search() == other.search()
    }

    /// The projection may have grown; all else but the viewport and the selection is kept.
    pub open spec fn grown_from(&self, other: &DataSource) -> bool {
        &&& extends(other.entries(), self.entries())
        &&& extends(other.shown(), self.shown())
        &&& self.is_plain() == other.is_plain()
        &&& self.filter() == other.filter()
        &&& (other.exhausted() ==> self.exhausted() && self.shown() == other.shown())
        &&& self.sources() == other.sources()
        &&& self.search() == other.search()
    }

    /// The window drawn from `start` with `count` rows, and for the filtered projection
    /// enough entries collected for it when more can come.
    pub open spec fn window_from(&self, start: usize, before_len: usize, count: usize) -> bool {
        if self.is_plain() {
            self.window() == draw_window(self.shown().len() as usize, start, count)
        } else {
            let s = if start <= before_len {
                start
            } else {
                before_len
            };
            &&& self.window() == draw_window(self.shown().len() as usize, s, count)
            &&& self.shown().len() >= s + count || self.exhausted()
            &&& self.shown().len() <= before_len || self.shown().len() <= s + count
        }
    }

    /// Entries are received only when the window asks for them: never under the plain
    /// projection, and under a filter only when it has not ended and does not already
    /// hold the rows from `start`.
    pub open spec fn pulled_for_window(&self, before: &DataSource, start: usize, count: usize) -> bool {
        if before.is_plain() {
            self.entries() == before.entries()
        } else {
            let s = if start <= before.shown().len() {
                start
            } else {
                before.shown().len() as usize
            };
            (before.exhausted() || s + count < before.shown().len()) ==> self.entries()
                == before.entries() && self.shown() == before.shown()
        }
    }

    proof fn lemma_grown(old_ds: DataSource, new_ds: DataSource)
        requires
            old_ds.inv(),
            match (old_ds.source, new_ds.source) {
                (EntrySource::Plain(plain0), EntrySource::Plain(plain1)) => {
                    &&& plain1.inv()
                    &&& extends(plain0.buffer@, plain1.buffer@)
                    &&& plain0.buffer.ended() ==> plain1.buffer.ended() && plain1.buffer@ == plain0.buffer@
                },
                (EntrySource::Filtered(f0), EntrySource::Filtered(f1)) => {
                    &&& f1.inv()
                    &&& extends(f0.buffer@, f1.buffer@)
                    &&& extends(f0.indices@, f1.indices@)
                    &&& f1.selected_sources@ == f0.selected_sources@
                    &&& f0.is_end_reached ==> f1.is_end_reached && f1.indices@ == f0.indices@
                        && f1.buffer@ == f0.buffer@
                },
                _ => false,
            },
            new_ds.all_sources == old_ds.all_sources,
            new_ds.search_state == old_ds.search_state,
        ensures
            new_ds.inv(),
            new_ds.grown_from(&old_ds),
    {
        match (old_ds.source, new_ds.source) {
            (EntrySource::Filtered(f0), EntrySource::Filtered(f1)) => {
                lemma_filtered_shown_extends(f0, f1);
            },
            _ => {},
        }
        if let Some(s) = old_ds.search_state {
            lemma_inv_grows(&s, old_ds.shown(), new_ds.shown());
        }
    }

    /// Remembers the height drawn, scrolls so that the selected row is visible, and sets
    /// the window to draw from the first visible row.
    pub fn prepare_for_draw(&mut self, count: usize)
        requires
            old(self).inv(),
        ensures
            final(self).inv(),
            final(self).grown_from(old(self)),
            final(self).count() == count,
            final(self).selected() == old(self).selected(),
            final(self).first_row() == viewport_start(old(self).first_row(), old(self).selected(), count),
            count > 0 ==> final(self).first_row() <= final(self).selected() < final(self).first_row()
                + count,
            final(self).window_from(final(self).first_row(), old(self).shown().len() as usize, count),
            final(self).pulled_for_window(old(self), final(self).first_row(), count),
    {
        proof {
            self.lemma_shown_len();
        }
        self.last_count = count;
        if self.selected_index < self.offset {
            self.offset = self.selected_index;
        } else if self.selected_index - self.offset >= count {
            self.offset = (self.selected_index - count).saturating_add(1);
        }
        let ghost before = *self;
        let offset = self.offset;
        match &mut self.source {
            EntrySource::Plain(p) => p.prepare_logs_to_draw(offset, count),
            EntrySource::Filtered(f) => f.prepare_logs_to_draw(offset, count),
        }
        proof {
            let after = *self;
            if let (EntrySource::Plain(plain0), EntrySource::Plain(plain1)) = (before.source, after.source) {
                assert(plain0.buffer@.subrange(0, plain0.buffer@.len() as int) =~= plain0.buffer@);
            }
            DataSource::lemma_grown(before, after);
        }
    }

    proof fn lemma_shown_len(&self)
        requires
            self.inv(),
        ensures
            self.shown().len() <= usize::MAX,
            self.entries().len() <= usize::MAX,
    {
        match self.source {
            EntrySource::Plain(p) => {
                lemma_buffer_len(&p.buffer);
            },
            EntrySource::Filtered(f) => {
                lemma_buffer_len(&f.buffer);
                broadcast use vstd::std_specs::vec::group_vec_axioms;

                assert(f.indices@.len() == f.indices.len());
            },
        }
    }

    /// Selects the next row, staying on the last one.
    pub fn select_next(&mut self)
        requires
            old(self).inv(),
        ensures
            final(self).inv(),
            final(self).same_content(old(self)),
            final(self).window() == old(self).window(),
            final(self).count() == old(self).count(),
            final(self).first_row() == old(self).first_row(),
            final(self).selected() == if old(self).shown().len() == 0 {
                0
            } else if old(self).selected() + 1 < old(self).shown().len() {
                old(self).selected() + 1
            } else {
                old(self).shown().len() - 1
            },
    {
        let len = self.buffer_len();
        let last = len.saturating_sub(1);
        let next = self.selected_index.saturating_add(1);
        self.selected_index = if next < last {
            next
        } else {
            last
        };
    }

    /// Selects the previous row, staying on the first one.
    pub fn select_previous(&mut self)
        requires
            old(self).inv(),
        ensures
            final(self).inv(),
            final(self).same_content(old(self)),
            final(self).window() == old(self).window(),
            final(self).count() == old(self).count(),
            final(self).first_row() == old(self).first_row(),
            final(self).selected() == if old(self).selected() > 0 {
                old(self).selected() - 1
            } else {
                0
            },
    {
        self.selected_index = self.selected_index.saturating_sub(1);
    }

    /// Moves the viewport one height down, not past the last full page, and selects its
    /// first row.
    pub fn go_to_next_page(&mut self)
        requires
            old(self).inv(),
        ensures
            final(self).inv(),
            final(self).grown_from(old(self)),
            final(self).count() == old(self).count(),
            final(self).window_from(
                (if old(self).first_row() + old(self).count() <= usize::MAX {
                    old(self).first_row() + old(self).count()
                } else {
                    usize::MAX as int
                }) as usize,
                old(self).shown().len() as usize,
                old(self).count(),
            ),
            final(self).pulled_for_window(
                old(self),
                (if old(self).first_row() + old(self).count() <= usize::MAX {
                    old(self).first_row() + old(self).count()
                } else {
                    usize::MAX as int
                }) as usize,
                old(self).count(),
            ),
            old(self).is_plain() ==> final(self).shown() == old(self).shown()
                && final(self).first_row() == draw_window(
                old(self).shown().len() as usize,
                (if old(self).first_row() + old(self).count() <= usize::MAX {
                    old(self).first_row() + old(self).count()
                } else {
                    usize::MAX as int
                }) as usize,
                old(self).count(),
            ).0,
            final(self).first_row() == final(self).window().0,
            final(self).selected() == final(self).first_row(),
    {
        proof {
            self.lemma_shown_len();
        }
        let count = self.last_count;
        let start = self.offset.saturating_add(count);
        let ghost before = *self;
        let first = match &mut self.source {
            EntrySource::Plain(p) => {
                p.prepare_logs_to_draw(start, count);
                p.range_start
            },
            EntrySource::Filtered(f) => {
                f.prepare_logs_to_draw(start, count);
                f.range_start
            },
        };
        proof {
            let after = *self;
            if let (EntrySource::Plain(plain0), EntrySource::Plain(plain1)) = (before.source, after.source) {
                assert(plain0.buffer@.subrange(0, plain0.buffer@.len() as int) =~= plain0.buffer@);
            }
            DataSource::lemma_grown(before, after);
        }
        self.offset = first;
        self.selected_index = first;
    }

    /// Moves the viewport one height up, not before the first row, and selects its first
    /// row.
    pub fn go_to_prev_page(&mut self)
        requires
            old(self).inv(),
        ensures
            final(self).inv(),
            final(self).same_content(old(self)),
            final(self).window() == old(self).window(),
            final(self).count() == old(self).count(),
            final(self).first_row() == if old(self).first_row() >= old(self).count() {
                old(self).first_row() - old(self).count()
            } else {
                0
            },
            final(self).selected() == final(self).first_row(),
    {
        if self.offset >= self.last_count {
            self.offset = self.offset - self.last_count;
        } else {
            self.offset = 0;
        }
        self.selected_index = self.offset;
    }

    /// Shows all entries when `sources` is empty or holds every source seen so far, and
    /// else only the entries of the sources in `sources` (keeping the entries already
    /// found when the filter is the same). The viewport and the selection
    /// go back to the first row and any search ends.
    pub fn set_selected_sources(&mut self, sources: HashSet<u64>)
        requires
            old(self).inv(),
        ensures
            final(self).inv(),
            shows_everything(old(self).sources(), sources@) ==> final(self).is_plain(),
            !shows_everything(old(self).sources(), sources@) ==> !final(self).is_plain()
                && final(self).filter() == sources@,
            !shows_everything(old(self).sources(), sources@) && !old(self).is_plain() && old(
                self,
            ).filter() == sources@ ==> extends(old(self).shown(), final(self).shown()),
            extends(old(self).entries(), final(self).entries()),
            final(self).sources() == old(self).sources(),
            final(self).search() is None,
            final(self).selected() == 0,
            final(self).first_row() == viewport_start(0, 0, old(self).count()),
            final(self).count() == old(self).count(),
            final(self).window_from(
                final(self).first_row(),
                if !shows_everything(old(self).sources(), sources@) && !old(self).is_plain() && old(
                    self,
                ).filter() == sources@ {
                    old(self).shown().len() as usize
                } else {
                    0
                },
                old(self).count(),
            ),
            final(self).is_plain() ==> final(self).entries() == old(self).entries(),
    {
        self.offset = 0;
        self.selected_index = 0;
        self.search_state = None;
        let show_all = sources.is_empty() || covers(&self.all_sources, &sources);
        let keep = match &self.source {
            EntrySource::Filtered(f) => !show_all && same_set(&f.selected_sources, &sources),
            EntrySource::Plain(_) => false,
        };
        if !keep {
            let mut taken = EntrySource::Plain(PlainSource::new(Buffer::detached()));
            std::mem::swap(&mut self.source, &mut taken);
            let buffer = match taken {
                EntrySource::Plain(p) => p.buffer,
                EntrySource::Filtered(f) => f.buffer,
            };
            self.source = if show_all {
                EntrySource::Plain(PlainSource::new(buffer))
            } else {
                EntrySource::Filtered(FilteredSource::new(buffer, sources))
            };
        }
        let ghost before = *self;
        proof {
            assert(before.entries().subrange(0, before.entries().len() as int) =~= before.entries());
            assert(before.shown().subrange(0, before.shown().len() as int) =~= before.shown());
        }
        let count = self.last_count;
        self.prepare_for_draw(count);
        proof {
            lemma_extends_trans(old(self).entries(), before.entries(), self.entries());
            if keep {
                lemma_extends_trans(old(self).shown(), before.shown(), self.shown());
            }
        }
    }

    /// Starts a search for `query` (in lower case) over the projection on screen and
    /// selects the index it settles on.
    pub fn start_search(&mut self, query: String)
        requires
            old(self).inv(),
        ensures
            final(self).inv(),
            extends(old(self).entries(), final(self).entries()),
            extends(old(self).shown(), final(self).shown()),
            final(self).is_plain() == old(self).is_plain(),
            final(self).filter() == old(self).filter(),
            final(self).sources() == old(self).sources(),
            final(self).first_row() == old(self).first_row(),
            final(self).count() == old(self).count(),
            final(self).search() matches Some(s) && {
                &&& s.query() == lower_of(query@)
                &&& final(self).selected() == settled_index(s.found(), old(self).selected())
                &&& forall|i: int| 0 <= i < s.found().len() - 1 ==> s.found()[i] < old(self).selected()
                &&& (s.found().len() == 0 || s.found().last() < old(self).selected()) ==> s.ended()
                &&& s.found().len() > 0 && s.found().last() >= old(self).selected() ==> !s.ended()
                &&& s.found().len() > 0 ==> s.cursor() == Some((s.found().len() - 1) as usize)
                &&& s.found().len() == 0 ==> s.cursor() is None
            },
    {
        let mut search = SearchState::new(query);
        let selected = self.selected_index;
        let ghost before = *self;
        let next = match &mut self.source {
            EntrySource::Plain(p) => {
                proof {
                    lemma_buffer_as_source(&p.buffer);
                }
                let r = search.start(selected, &mut p.buffer);
                proof {
                    lemma_buffer_as_source(&p.buffer);
                }
                r
            },
            EntrySource::Filtered(f) => search.start(selected, f),
        };
        proof {
            let after = *self;
            if let (EntrySource::Plain(plain0), EntrySource::Plain(plain1)) = (before.source, after.source) {
                lemma_buffer_as_source(&plain0.buffer);
            }
        }
        self.selected_index = next;
        self.search_state = Some(search);
    }

    /// Ends the search.
    pub fn stop_search(&mut self)
        requires
            old(self).inv(),
        ensures
            final(self).inv(),
            final(self).search() is None,
            final(self).entries() == old(self).entries(),
            final(self).shown() == old(self).shown(),
            final(self).is_plain() == old(self).is_plain(),
            final(self).filter() == old(self).filter(),
            final(self).selected() == old(self).selected(),
            final(self).first_row() == old(self).first_row(),
    {
        self.search_state = None;
    }

    /// Selects the next hit of the search, when there is one; does nothing without a
    /// search.
    pub fn go_to_next_search_result(&mut self)
        requires
            old(self).inv(),
        ensures
            final(self).inv(),
            extends(old(self).entries(), final(self).entries()),
            extends(old(self).shown(), final(self).shown()),
            final(self).is_plain() == old(self).is_plain(),
            final(self).filter() == old(self).filter(),
            final(self).first_row() == old(self).first_row(),
            match old(self).search() {
                None => final(self).search() is None && final(self).selected() == old(self).selected(),
                Some(s0) => final(self).search() matches Some(s1) && {
                    &&& s1.query() == s0.query()
                    &&& s0.next_known() ==> {
                        &&& s1.found() == s0.found()
                        &&& final(self).entries() == old(self).entries()
                        &&& final(self).shown() == old(self).shown()
                    }
                    &&& s0.ended() ==> final(self).entries() == old(self).entries()
                        && final(self).shown() == old(self).shown()
                    &&& if s1.cursor() != s0.cursor() {
                        &&& s1.cursor() == Some(
                            match s0.cursor() {
                                Some(c) => (c + 1) as usize,
                                None => 0usize,
                            },
                        )
                        &&& s1.ended() == s0.ended()
                        &&& s1.found().len() <= s0.found().len() + 1
                        &&& s1.found().subrange(0, s0.found().len() as int) == s0.found()
                        &&& final(self).selected() == s1.cursor_position()
                        &&& s1.cursor_position() > s0.cursor_position()
                        &&& is_hit(final(self).shown(), s0.query(), s1.cursor_position())
                        &&& forall|k: int|
                            s0.cursor_position() < k < s1.cursor_position() ==> !is_hit(
                                final(self).shown(),
                                s0.query(),
                                k,
                            )
                    } else {
                        &&& final(self).selected() == old(self).selected()
                        &&& s1.ended()
                        &&& s1.found() == s0.found()
                        &&& forall|k: int|
                            s0.cursor_position() < k ==> !is_hit(final(self).shown(), s0.query(), k)
                    }
                },
            },
    {
        let ghost before = *self;
        let mut state: Option<SearchState> = None;
        std::mem::swap(&mut self.search_state, &mut state);
        if let Some(mut search) = state {
            let ghost s0 = search;
            proof {
                s0.lemma_cursor_in_found(self.shown());
            }
            let r = match &mut self.source {
                EntrySource::Plain(p) => {
                    proof {
                        lemma_buffer_as_source(&p.buffer);
                    }
                    let r = search.go_to_next_search_result(&mut p.buffer);
                    proof {
                        lemma_buffer_as_source(&p.buffer);
                    }
                    r
                },
                EntrySource::Filtered(f) => search.go_to_next_search_result(f),
            };
            proof {
                s0.lemma_cursor_position();
                search.lemma_cursor_position();
            }
            if let Some(i) = r {
                self.selected_index = i;
            }
            self.search_state = Some(search);
        }
        proof {
            let after = *self;
            if let (EntrySource::Plain(plain0), EntrySource::Plain(plain1)) = (before.source, after.source) {
                lemma_buffer_as_source(&plain0.buffer);
                assert(plain0.buffer@.subrange(0, plain0.buffer@.len() as int) =~= plain0.buffer@);
            }
            if let (EntrySource::Filtered(f0), EntrySource::Filtered(f1)) = (before.source, after.source) {
                assert(f0.buffer@.subrange(0, f0.buffer@.len() as int) =~= f0.buffer@);
                assert(f0.shown().subrange(0, f0.shown().len() as int) =~= f0.shown());
            }
        }
    }

    /// Selects the previous hit of the search (staying on the first); does nothing
    /// without a search.
    pub fn go_to_prev_search_result(&mut self)
        requires
            old(self).inv(),
        ensures
            final(self).inv(),
            final(self).entries() == old(self).entries(),
            final(self).shown() == old(self).shown(),
            final(self).is_plain() == old(self).is_plain(),
            final(self).first_row() == old(self).first_row(),
            match old(self).search() {
                None => final(self).search() is None && final(self).selected() == old(self).selected(),
                Some(s0) => final(self).search() matches Some(s1) && {
                    &&& s1.found() == s0.found()
                    &&& s1.query() == s0.query()
                    &&& match s0.cursor() {
                        None => final(self).selected() == old(self).selected(),
                        Some(c) => {
                            &&& s1.cursor() == Some(if c > 0 { (c - 1) as usize } else { 0usize })
                            &&& final(self).selected() == s1.cursor_position()
                        },
                    }
                },
            },
    {
        let mut state: Option<SearchState> = None;
        std::mem::swap(&mut self.search_state, &mut state);
        if let Some(mut search) = state {
            let ghost s0 = search;
            proof {
                s0.lemma_cursor_in_found(self.shown());
            }
            let r = search.go_to_prev_search_result();
            proof {
                search.lemma_cursor_position();
            }
            if let Some(i) = r {
                self.selected_index = i;
            }
            self.search_state = Some(search);
        }
    }

    /// The selected entry of the projection, if there is one.
    pub fn active_message(&self) -> (r: Option<&LogEntry>)
        requires
            self.inv(),
        ensures
            r == (if self.selected() < self.shown().len() {
                Some(&self.shown()[self.selected() as int])
            } else {
                None
            }),
    {
        match &self.source {
            EntrySource::Plain(p) => p.entry(self.selected_index),
            EntrySource::Filtered(f) => f.entry(self.selected_index),
        }
    }

    /// Where the search stands: no hit found yet (or no search), or the hit selected
    /// among those found, with their count once all are known.
    pub fn search_pagination_state(&self) -> (r: SearchPaginationState)
        requires
            self.inv(),
        ensures
            r == match self.search() {
                None => SearchPaginationState::NoMatchesFound,
                Some(s) => match s.cursor() {
                    None => SearchPaginationState::NoMatchesFound,
                    Some(c) => SearchPaginationState::MatchesIteration(
                        PaginationState {
                            current: (c + 1) as usize,
                            total: if s.ended() {
                                Some(s.found().len() as usize)
                            } else {
                                None
                            },
                        },
                    ),
                },
            },
    {
        match &self.search_state {
            None => SearchPaginationState::NoMatchesFound,
            Some(s) => match s.cursor_index() {
                None => SearchPaginationState::NoMatchesFound,
                Some(c) => {
                    let n = s.matches_len();
                    proof {
                        s.lemma_cursor_in_found(self.shown());
                    }
                    SearchPaginationState::MatchesIteration(
                        PaginationState {
                            current: c + 1,
                            total: if s.end_reached() {
                                Some(n)
                            } else {
                                None
                            },
                        },
                    )
                },
            },
        }
    }

    /// Calls `f` with each row of the window to draw, numbered from zero.
    pub fn iterate_entries_to_draw<F>(&self, f: F)
        where
            F: Fn((usize, &LogEntry)),
        requires
            self.inv(),
            forall|row: usize, e: &LogEntry| #[trigger] f.requires(((row, e),)),
    {
        match &self.source {
            EntrySource::Plain(p) => {
                let entries = p.buffer.inner();
                let mut i = p.range_start;
                while i < p.range_end
                    invariant
                        p.inv(),
                        entries@ == p.buffer@,
                        p.range_start <= i,
                        forall|row: usize, e: &LogEntry| #[trigger] f.requires(((row, e),)),
                    decreases p.range_end - i,
                {
                    f((i - p.range_start, &entries[i]));
                    i = i + 1;
                }
            },
            EntrySource::Filtered(fs) => {
                let entries = fs.buffer.inner();
                let mut i = fs.range_start;
                while i < fs.range_end
                    invariant
                        fs.inv(),
                        entries@ == fs.buffer@,
                        fs.range_start <= i,
                        forall|row: usize, e: &LogEntry| #[trigger] f.requires(((row, e),)),
                    decreases fs.range_end - i,
                {
                    f((i - fs.range_start, &entries[fs.indices[i]]));
                    i = i + 1;
                }
            },
        }
    }

    /// Calls `f` with each source seen and whether it is selected; without a filter all
    /// are.
    pub fn iterate_sources<F>(&self, f: F)
        where
            F: FnMut((&Source, bool)),
        requires
            self.inv(),
            forall|s: &Source, selected: bool| #[trigger] f.requires(((s, selected),)),
    {
        let mut f = f;
        let mut i: usize = 0;
        while i < self.all_sources.len()
            invariant
                self.inv(),
                forall|s: &Source, selected: bool| #[trigger] f.requires(((s, selected),)),
            decreases self.all_sources.len() - i,
        {
            let source = &self.all_sources[i];
            let selected = match &self.source {
                EntrySource::Plain(_) => true,
                EntrySource::Filtered(fs) => fs.selected_sources.contains(&source.hash),
            };
            f((source, selected));
            i = i + 1;
        }
    }

    /// The selected row, counted from one, and the number of rows of the projection.
    pub fn pagination_state(&self) -> (r: PaginationState)
        requires
            self.inv(),
        ensures
            r.current == if self.selected() < usize::MAX {
                self.selected() + 1
            } else {
                usize::MAX as int
            },
            r.total == Some(self.shown().len() as usize),
    {
        proof {
            self.lemma_shown_len();
        }
        PaginationState {
            current: self.selected_index.saturating_add(1),
            total: Some(self.buffer_len()),
        }
    }
}

impl DataSource {
    /// The positions of the received entries that the projection shows, in order.
    pub closed spec fn positions(&self) -> Seq<usize> {
        match self.source {
            EntrySource::Plain(p) => Seq::new(p.buffer@.len(), |i: int| i as usize),
            EntrySource::Filtered(f) => f.indices@,
        }
    }

    /// Under a source filter, the positions shown strictly increase, each names a received
    /// entry of a selected source, and the projection is the entries at those positions.
    pub proof fn lemma_filtered_positions(&self)
        requires
            self.inv(),
            !self.is_plain(),
        ensures
            forall|i: int, j: int|
                0 <= i < j < self.positions().len() ==> self.positions()[i] < self.positions()[j],
            forall|i: int|
                0 <= i < self.positions().len() ==> (#[trigger] self.positions()[i]) < self.entries().len()
                    && self.filter().contains(self.entries()[self.positions()[i] as int].source.hash),
            self.shown().len() == self.positions().len(),
            forall|i: int|
                0 <= i < self.shown().len() ==> #[trigger] self.shown()[i] == self.entries()[self.positions()[i] as int],
    {
        if let EntrySource::Filtered(f) = self.source {
            assert forall|i: int| 0 <= i < f.indices@.len() implies (#[trigger] f.indices@[i]) < f.buffer@.len()
                && f.selected_sources@.contains(f.buffer@[f.indices@[i] as int].source.hash) by {
                assert(f.indices@[i] < f.scanned);
            }
        }
    }

    /// The positions found by the running search strictly increase, and each names an
    /// entry of the projection whose text contains the query.
    pub proof fn lemma_search_positions(&self)
        requires
            self.inv(),
            self.search() is Some,
        ensures
            ({
                let s = self.search()->0;
                &&& forall|i: int, j: int| 0 <= i < j < s.found().len() ==> s.found()[i] < s.found()[j]
                &&& forall|i: int|
                    0 <= i < s.found().len() ==> (#[trigger] s.found()[i]) < self.shown().len()
                        && self.shown()[s.found()[i] as int].matches(s.query())
            }),
    {
        let s = self.search()->0;
        lemma_found_positions(&s, self.shown());
    }
}

/// Every source seen is among the selected ones, or none is selected.
pub open spec fn shows_everything(seen: Seq<Source>, selected: Set<u64>) -> bool {
    selected.is_empty() || forall|i: int| 0 <= i < seen.len() ==> selected.contains(#[trigger] seen[i].hash)
}

/// Relies on `HashSet`'s `PartialEq`: two sets are equal exactly when they hold the same
/// values.
#[verifier::external_body]
fn same_set(a: &HashSet<u64>, b: &HashSet<u64>) -> (r: bool)
    ensures
        r == (a@ == b@),
{
    a == b
}

/// Whether every source of `seen` has its hash in `selected`.
fn covers(seen: &Vec<Source>, selected: &HashSet<u64>) -> (r: bool)
    ensures
        r == forall|i: int| 0 <= i < seen@.len() ==> selected@.contains(#[trigger] seen@[i].hash),
{
    let mut i: usize = 0;
    while i < seen.len()
        invariant
            i <= seen@.len(),
            forall|k: int| 0 <= k < i ==> selected@.contains(#[trigger] seen@[k].hash),
        decreases seen.len() - i,
    {
        if !selected.contains(&seen[i].hash) {
            return false;
        }
        i = i + 1;
    }
    true
}

/// The first visible row once `selected` is scrolled into a viewport of `count` rows
/// that began at `offset`.
pub open spec fn viewport_start(offset: usize, selected: usize, count: usize) -> usize {
    if selected < offset {
        selected
    } else if selected - offset >= count {
        if selected - count + 1 <= usize::MAX {
            (selected - count + 1) as usize
        } else {
            usize::MAX
        }
    } else {
        offset
    }
}

} // verus!
