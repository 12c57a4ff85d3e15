//! Incremental substring search over a growing sequence of entries.
use crate::log_entry::LogEntry;
use crate::text::{contains, contains_text, lower_of, lowercase};
use vstd::prelude::*;

verus! {

/// `a` is `b` with possibly more entries added at the end.
pub open spec fn extends<T>(b: Seq<T>, a: Seq<T>) -> bool {
    b.len() <= a.len() && a.subrange(0, b.len() as int) == b
}

/// The entries a search reads: all of them, or those at the given positions.
pub enum SearchSlice<'v> {
    Plain(&'v [LogEntry]),
    Filtered(&'v [LogEntry], &'v [usize]),
}

impl<'v> SearchSlice<'v> {
    pub open spec fn valid(&self) -> bool {
        match self {
            SearchSlice::Plain(_) => true,
            SearchSlice::Filtered(s, idx) => forall|i: int|
                0 <= i < idx@.len() ==> (#[trigger] idx@[i]) < s@.len(),
        }
    }

    pub open spec fn entries(&self) -> Seq<LogEntry> {
        match self {
            SearchSlice::Plain(s) => s@,
            SearchSlice::Filtered(s, idx) => Seq::new(idx@.len(), |i: int| s@[idx@[i] as int]),
        }
    }
}

/// What a search needs from the entries it walks: how many there are, a way to ask for
/// one more, and whether more can come.
pub trait SearchSourceBuffer {
    /// The entries the search walks, in order.
    spec fn searched(&self) -> Seq<LogEntry>;

    /// Every entry received from the channel, in arrival order.
    spec fn received(&self) -> Seq<LogEntry>;

    /// No entry will be added any more.
    spec fn exhausted(&self) -> bool;

    /// The hashes of the sources the searched entries are chosen by; empty when all are.
    spec fn selection(&self) -> Set<u64>;

    spec fn source_inv(&self) -> bool;

    fn is_end_reached(&self) -> (r: bool)
        requires
            self.source_inv(),
        ensures
            r == self.exhausted(),
    ;

    fn len(&self) -> (r: usize)
        requires
            self.source_inv(),
        ensures
            r == self.searched().len(),
    ;

    /// Adds the next entry to the searched ones and returns it, waiting for it if needed;
    /// `None` once no entry can come any more.
    fn take_next(&mut self) -> (r: Option<&LogEntry>)
        requires
            old(self).source_inv(),
        ensures
            final(self).source_inv(),
            final(self).selection() == old(self).selection(),
            final(self).searched().len() <= usize::MAX,
            extends(old(self).received(), final(self).received()),
            old(self).exhausted() ==> r is None,
            match r {
                Some(e) => {
                    &&& final(self).searched() == old(self).searched().push(*e)
                    &&& !final(self).exhausted()
                },
                None => {
                    &&& final(self).searched() == old(self).searched()
                    &&& final(self).exhausted()
                    &&& old(self).exhausted() ==> final(self).received() == old(self).received()
                },
            },
    ;

    fn slice(&self) -> (r: SearchSlice<'_>)
        requires
            self.source_inv(),
        ensures
            self.searched().len() <= usize::MAX,
            r.valid(),
            r.entries() == self.searched(),
    ;
}

/// Position `p` of `es` holds an entry whose text contains `q`.
pub open spec fn is_hit(es: Seq<LogEntry>, q: Seq<char>, p: int) -> bool {
    0 <= p < es.len() && es[p].matches(q)
}

/// The index that a search started at `selected` settles on, given the matches it found:
/// the first match at or after `selected` or the one before it, whichever is nearer (the
/// earlier on a tie); the last match when all lie before `selected`; `selected` itself
/// when there is none.
pub open spec fn settled_index(ms: Seq<usize>, selected: usize) -> usize {
    if ms.len() == 0 {
        selected
    } else {
        let m = ms.last();
        if m <= selected {
            m
        } else {
            let prev = if ms.len() >= 2 {
                ms[ms.len() - 2]
            } else {
                m
            };
            if (if prev <= selected { selected - prev } else { prev - selected }) <= m - selected {
                prev
            } else {
                m
            }
        }
    }
}

/// The first position at or after `start` whose entry contains `query`.
fn find_next_index(query: &str, slice: &SearchSlice, start: usize) -> (r: Option<usize>)
    requires
        slice.valid(),
    ensures
        match r {
            Some(p) => {
                &&& start <= p
                &&& is_hit(slice.entries(), query@, p as int)
                &&& forall|k: int| start <= k < p ==> !is_hit(slice.entries(), query@, k)
            },
            None => forall|k: int| start <= k ==> !is_hit(slice.entries(), query@, k),
        },
{
    let n: usize = match slice {
        SearchSlice::Plain(s) => s.len(),
        SearchSlice::Filtered(_, idx) => idx.len(),
    };
    let mut i = start;
    while i < n
        invariant
            slice.valid(),
            n == slice.entries().len(),
            start <= i,
            forall|k: int| start <= k < i ==> !is_hit(slice.entries(), query@, k),
        decreases n - i,
    {
        let e: &LogEntry = match slice {
            SearchSlice::Plain(s) => &s[i],
            SearchSlice::Filtered(s, idx) => &s[idx[i]],
        };
        if contains(e.lower_case_message.as_str(), query) {
            return Some(i);
        }
        i = i + 1;
    }
    None
}

/// The part of `es` already searched, given the positions found and whether the
/// entries have run out.
pub open spec fn scanned_part(ms: Seq<usize>, ended: bool, es: Seq<LogEntry>) -> int {
    if ended {
        es.len() as int
    } else if ms.len() == 0 {
        0
    } else {
        ms.last() + 1
    }
}

/// `ms` lists, in increasing order, exactly the hits of `q` in `es` below the searched
/// part, and `cursor`, when there is one, points into `ms`.
pub open spec fn exact_search(
    q: Seq<char>,
    ms: Seq<usize>,
    cursor: Option<usize>,
    ended: bool,
    es: Seq<LogEntry>,
) -> bool {
    &&& forall|i: int, j: int| 0 <= i < j < ms.len() ==> ms[i] < ms[j]
    &&& forall|i: int| 0 <= i < ms.len() ==> is_hit(es, q, #[trigger] ms[i] as int)
    &&& forall|p: int|
        0 <= p < scanned_part(ms, ended, es) && is_hit(es, q, p) ==> exists|j: int|
            0 <= j < ms.len() && ms[j] as int == p
    &&& (cursor is None <==> ms.len() == 0)
    &&& (cursor matches Some(c) ==> c < ms.len())
}

/// A running search: the query, the positions found so far, a cursor among them, and
/// whether the entries have run out.
pub struct SearchState {
    query: String,
    match_indices: Vec<usize>,
    pub current_match_index: Option<usize>,
    pub is_end_reached: bool,
}

impl SearchState {
    /// The query, in lower case.
    pub closed spec fn query(&self) -> Seq<char> {
        self.query@
    }

    /// The positions found so far, in the order found.
    pub closed spec fn found(&self) -> Seq<usize> {
        self.match_indices@
    }

    pub closed spec fn cursor(&self) -> Option<usize> {
        self.current_match_index
    }

    /// No more entries will come, and every hit has been found.
    pub closed spec fn ended(&self) -> bool {
        self.is_end_reached
    }

    /// Every hit below this position of `es` has been found.
    pub closed spec fn scanned(&self, es: Seq<LogEntry>) -> int {
        scanned_part(self.match_indices@, self.is_end_reached, es)
    }

    /// The positions found are, in increasing order, exactly the hits of `es` below
    /// `scanned`, and the cursor, when there is one, points among them.
    pub closed spec fn inv_over(&self, es: Seq<LogEntry>) -> bool {
        exact_search(
            self.query@,
            self.match_indices@,
            self.current_match_index,
            self.is_end_reached,
            es,
        )
    }

    pub fn new(query: String) -> (r: SearchState)
        ensures
            r.query() == lower_of(query@),
            r.found() == Seq::<usize>::empty(),
            r.cursor() is None,
            !r.ended(),
            forall|es: Seq<LogEntry>| #[trigger] r.inv_over(es),
    {
        SearchState {
            query: lowercase(query.as_str()),
            match_indices: Vec::new(),
            current_match_index: None,
            is_end_reached: false,
        }
    }

    /// The cursor, when there is one, points among the positions found.
    pub proof fn lemma_cursor_in_found(&self, es: Seq<LogEntry>)
        requires
            self.inv_over(es),
        ensures
            self.cursor() matches Some(c) ==> c < self.found().len(),
            self.cursor() is None <==> self.found().len() == 0,
            self.next_known() <==> (self.cursor() matches Some(c) && c + 1 < self.found().len()),
            self.found().len() <= usize::MAX,
    {
        broadcast use vstd::std_specs::vec::group_vec_axioms;

        assert(self.match_indices@.len() == self.match_indices.len());
    }

    /// The position under the cursor is the found position the cursor points to.
    pub proof fn lemma_cursor_position(&self)
        ensures
            self.cursor() matches Some(c) ==> self.cursor_position() == self.found()[c as int],
            self.cursor() is None ==> self.cursor_position() == -1,
    {
    }

    pub fn cursor_index(&self) -> (r: Option<usize>)
        ensures
            r == self.cursor(),
    {
        self.current_match_index
    }

    pub fn end_reached(&self) -> (r: bool)
        ensures
            r == self.ended(),
    {
        self.is_end_reached
    }

    pub fn matches_len(&self) -> (r: usize)
        ensures
            r == self.found().len(),
    {
        self.match_indices.len()
    }

    /// The position after the one under the cursor has been found already.
    pub closed spec fn next_known(&self) -> bool {
        self.current_match_index matches Some(c) && c + 1 < self.match_indices@.len()
    }

    /// The position under the cursor, or -1 when there is none.
    pub closed spec fn cursor_position(&self) -> int {
        match self.current_match_index {
            Some(c) => self.match_indices@[c as int] as int,
            None => -1,
        }
    }

    /// Moves to the next hit after the one under the cursor: the next one already found,
    /// or else the next one in the entries, pulling more of them as needed.
    pub fn go_to_next_search_result<B: SearchSourceBuffer>(&mut self, buffer: &mut B) -> (r: Option<
        usize,
    >)
        requires
            old(self).inv_over(old(buffer).searched()),
            old(buffer).source_inv(),
            old(self).ended() ==> old(buffer).exhausted(),
        ensures
            final(buffer).source_inv(),
            final(buffer).selection() == old(buffer).selection(),
            extends(old(buffer).searched(), final(buffer).searched()),
            extends(old(buffer).received(), final(buffer).received()),
            old(buffer).exhausted() ==> final(buffer).received() == old(buffer).received()
                && final(buffer).exhausted(),
            final(self).inv_over(final(buffer).searched()),
            final(self).query() == old(self).query(),
            final(self).ended() ==> final(buffer).exhausted(),
            match r {
                Some(p) => {
                    &&& p > old(self).cursor_position()
                    &&& is_hit(final(buffer).searched(), old(self).query(), p as int)
                    &&& forall|k: int|
                        old(self).cursor_position() < k < p ==> !is_hit(
                            final(buffer).searched(),
                            old(self).query(),
                            k,
                        )
                    &&& final(self).cursor_position() == p
                    &&& old(self).found().len() <= final(self).found().len() <= old(self).found().len() + 1
                    &&& final(self).found().subrange(0, old(self).found().len() as int) == old(self).found()
                    &&& final(self).ended() == old(self).ended()
                    &&& final(self).cursor() == Some(
                        match old(self).cursor() {
                            Some(c) => (c + 1) as usize,
                            None => 0usize,
                        },
                    )
                },
                None => {
                    &&& forall|k: int|
                        old(self).cursor_position() < k ==> !is_hit(
                            final(buffer).searched(),
                            old(self).query(),
                            k,
                        )
                    &&& final(self).found() == old(self).found()
                    &&& final(self).cursor() == old(self).cursor()
                    &&& final(self).ended()
                },
            },
            old(self).next_known() ==> {
                &&& r == Some(old(self).found()[old(self).cursor()->0 + 1])
                &&& final(self).found() == old(self).found()
                &&& final(self).ended() == old(self).ended()
                &&& *final(buffer) == *old(buffer)
            },
            old(self).ended() && !old(self).next_known() ==> {
                &&& r is None
                &&& final(self).found() == old(self).found()
                &&& final(self).cursor() == old(self).cursor()
                &&& *final(buffer) == *old(buffer)
            },
    {
        let ghost ms0 = self.match_indices@;
        let ghost es0 = buffer.searched();
        let n = self.match_indices.len();
        if let Some(c) = self.current_match_index {
            if c + 1 < n {
                self.current_match_index = Some(c + 1);
                proof {
                    lemma_extends_refl(es0);
                    lemma_extends_refl(buffer.received());
                    lemma_no_hit_between(self.query@, ms0, Some(c), self.is_end_reached, es0, c as int);
                    assert(is_hit(es0, self.query@, ms0[c + 1] as int));
                    assert(ms0.subrange(0, ms0.len() as int) =~= ms0);
                }
                return Some(self.match_indices[c + 1]);
            }
        }
        let r = self.find_next(buffer);
        proof {
            let ms1 = self.match_indices@;
            let es1 = buffer.searched();
            match r {
                Some(p) => {
                    assert(ms1.subrange(0, ms0.len() as int) =~= ms0);
                    assert(is_hit(es1, self.query@, ms1[ms0.len() as int] as int));
                    lemma_no_hit_between(
                        self.query@,
                        ms1,
                        self.current_match_index,
                        self.is_end_reached,
                        es1,
                        ms0.len() - 1,
                    );
                },
                None => {
                    lemma_no_hit_after_last(self.query@, ms1, self.current_match_index, es1);
                },
            }
        }
        r
    }

    /// Runs a fresh search from `selected_index`: finds hits until one lies at or after it,
    /// or the entries run out, and returns the index to select (see `settled_index`).
    pub fn start<B: SearchSourceBuffer>(&mut self, selected_index: usize, buffer: &mut B) -> (r:
        usize)
        requires
            old(self).inv_over(old(buffer).searched()),
            old(buffer).source_inv(),
            old(self).found().len() == 0,
            !old(self).ended(),
        ensures
            final(buffer).source_inv(),
            final(buffer).selection() == old(buffer).selection(),
            extends(old(buffer).searched(), final(buffer).searched()),
            extends(old(buffer).received(), final(buffer).received()),
            old(buffer).exhausted() ==> final(buffer).received() == old(buffer).received()
                && final(buffer).exhausted(),
            final(self).inv_over(final(buffer).searched()),
            final(self).query() == old(self).query(),
            final(self).ended() ==> final(buffer).exhausted(),
            r == settled_index(final(self).found(), selected_index),
            forall|i: int|
                0 <= i < final(self).found().len() - 1 ==> final(self).found()[i] < selected_index,
            final(self).found().len() == 0 || final(self).found().last() < selected_index
                ==> final(self).ended(),
            final(self).found().len() > 0 ==> final(self).cursor() == Some(
                (final(self).found().len() - 1) as usize,
            ),
            final(self).found().len() == 0 ==> final(self).cursor() is None,
            final(self).found().len() > 0 && final(self).found().last() >= selected_index
                ==> !final(self).ended(),
    {
        let ghost es0 = buffer.searched();
        proof {
            lemma_extends_refl(es0);
            lemma_extends_refl(buffer.received());
        }
        loop
            invariant
                buffer.source_inv(),
                buffer.selection() == old(buffer).selection(),
                extends(old(buffer).searched(), buffer.searched()),
                extends(old(buffer).received(), buffer.received()),
                old(buffer).exhausted() ==> buffer.received() == old(buffer).received()
                    && buffer.exhausted(),
                self.inv_over(buffer.searched()),
                self.query() == old(self).query(),
                !self.ended(),
                forall|i: int| 0 <= i < self.found().len() ==> self.found()[i] < selected_index,
                self.found().len() > 0 ==> self.cursor() == Some((self.found().len() - 1) as usize),
                self.found().len() == 0 ==> self.cursor() is None,
            decreases usize::MAX - self.found().len(),
        {
            let ghost searched_before = buffer.searched();
            let ghost received_before = buffer.received();
            let ghost found_before = self.match_indices@;
            let ghost cursor_before = self.current_match_index;
            let n_before = self.match_indices.len();
            let step = self.go_to_next_search_result(buffer);
            proof {
                lemma_vec_len(&self.match_indices);
                lemma_extends_trans(old(buffer).searched(), searched_before, buffer.searched());
                lemma_extends_trans(old(buffer).received(), received_before, buffer.received());
            }
            match step {
                None => {
                    return match self.current_match_index {
                        Some(c) => self.match_indices[c],
                        None => selected_index,
                    };
                },
                Some(p) => {
                    proof {
                        if n_before > 0 {
                            assert(cursor_before == Some((n_before - 1) as usize));
                        } else {
                            assert(cursor_before is None);
                        }
                        assert(self.current_match_index == Some(n_before));
                        assert(self.match_indices@.len() == found_before.len() + 1);
                        assert(self.match_indices@[found_before.len() as int] == p);
                        assert(self.match_indices@ =~= found_before.push(p));
                    }
                    if p >= selected_index {
                        let c = self.match_indices.len() - 1;
                        let prev = if c > 0 {
                            self.match_indices[c - 1]
                        } else {
                            p
                        };
                        let prev_distance = if prev <= selected_index {
                            selected_index - prev
                        } else {
                            prev - selected_index
                        };
                        if p == selected_index {
                            return p;
                        } else if prev_distance <= p - selected_index {
                            return prev;
                        } else {
                            return p;
                        }
                    }
                },
            }
        }
    }

    /// Steps the cursor back by one found position; it stays on the first one.
    pub fn go_to_prev_search_result(&mut self) -> (r: Option<usize>)
        ensures
            final(self).found() == old(self).found(),
            final(self).query() == old(self).query(),
            final(self).ended() == old(self).ended(),
            forall|es: Seq<LogEntry>| #[trigger]
                old(self).inv_over(es) ==> final(self).inv_over(es),
            match old(self).cursor() {
                None => r is None && final(self).cursor() is None,
                Some(c) => {
                    let back = if c > 0 {
                        (c - 1) as usize
                    } else {
                        0usize
                    };
                    back < old(self).found().len() ==> {
                        &&& final(self).cursor() == Some(back)
                        &&& r == Some(old(self).found()[back as int])
                    }
                },
            },
    {
        match self.current_match_index {
            None => None,
            Some(c) => {
                let back = if c > 0 {
                    c - 1
                } else {
                    0
                };
                if back < self.match_indices.len() {
                    self.current_match_index = Some(back);
                    Some(self.match_indices[back])
                } else {
                    None
                }
            },
        }
    }

    /// Finds the next hit after the last one found, in the entries at hand first and
    /// then in those still to come.
    fn find_next<B: SearchSourceBuffer>(&mut self, buffer: &mut B) -> (r: Option<usize>)
        requires
            old(self).inv_over(old(buffer).searched()),
            old(buffer).source_inv(),
            old(self).ended() ==> old(buffer).exhausted(),
            old(self).cursor() matches Some(c) ==> c + 1 == old(self).found().len(),
        ensures
            final(buffer).source_inv(),
            final(buffer).selection() == old(buffer).selection(),
            extends(old(buffer).searched(), final(buffer).searched()),
            extends(old(buffer).received(), final(buffer).received()),
            old(buffer).exhausted() ==> final(buffer).received() == old(buffer).received()
                && final(buffer).exhausted(),
            final(self).inv_over(final(buffer).searched()),
            final(self).query() == old(self).query(),
            final(self).ended() ==> final(buffer).exhausted(),
            match r {
                Some(p) => {
                    &&& final(self).found() == old(self).found().push(p)
                    &&& final(self).cursor() == Some(old(self).found().len() as usize)
                    &&& !final(self).ended()
                    &&& !old(self).ended()
                },
                None => {
                    &&& final(self).found() == old(self).found()
                    &&& final(self).cursor() == old(self).cursor()
                    &&& final(self).ended()
                },
            },
            old(self).ended() ==> r is None && *final(buffer) == *old(buffer),
    {
        let ghost es0 = buffer.searched();
        let ghost q = self.query@;
        proof {
            lemma_extends_refl(es0);
            lemma_extends_refl(buffer.received());
        }
        if self.is_end_reached {
            return None;
        }
        let slice = buffer.slice();
        let start: usize = match self.current_match_index {
            Some(c) => self.match_indices[c] + 1,
            None => 0,
        };
        assert(start == self.scanned(es0));
        let cached = find_next_index(self.query.as_str(), &slice, start);
        if let Some(p) = cached {
            proof {
                lemma_found_step(q, self.match_indices@, self.current_match_index, es0, es0, p);
            }
            self.current_match_index = Some(self.match_indices.len());
            self.match_indices.push(p);
            assert(es0.subrange(0, es0.len() as int) =~= es0);
            return Some(p);
        }
        assert(es0.subrange(0, es0.len() as int) =~= es0);
        loop
            invariant
                buffer.source_inv(),
                buffer.selection() == old(buffer).selection(),
                extends(es0, buffer.searched()),
                es0 == old(buffer).searched(),
                extends(old(buffer).received(), buffer.received()),
                old(buffer).exhausted() ==> buffer.received() == old(buffer).received()
                    && buffer.exhausted(),
                self.inv_over(es0),
                !self.is_end_reached,
                !old(self).is_end_reached,
                self.query@ == q,
                q == old(self).query(),
                self.match_indices@ == old(self).match_indices@,
                self.current_match_index == old(self).current_match_index,
                start == self.scanned(es0),
                forall|k: int| start <= k ==> !is_hit(buffer.searched(), q, k),
            decreases usize::MAX - buffer.searched().len(),
        {
            let ghost before = buffer.searched();
            let ghost received_before = buffer.received();
            let ghost mut taken: LogEntry = arbitrary();
            let hit = match buffer.take_next() {
                Some(e) => {
                    proof {
                        taken = *e;
                    }
                    contains(e.lower_case_message.as_str(), self.query.as_str())
                },
                None => {
                    proof {
                        assert(buffer.searched() == before);
                        assert(extends(old(buffer).searched(), buffer.searched()));
                        lemma_found_end(q, self.match_indices@, self.current_match_index, es0, buffer.searched());
                    }
                    self.is_end_reached = true;
                    proof {
                        lemma_extends_trans(old(buffer).received(), received_before, buffer.received());
                    }
                    return None;
                },
            };
            proof {
                assert(buffer.searched() == before.push(taken));
                assert(hit == taken.matches(q));
                assert(buffer.searched().subrange(0, before.len() as int) =~= before);
                lemma_extends_trans(es0, before, buffer.searched());
                lemma_extends_trans(old(buffer).received(), received_before, buffer.received());
                assert forall|k: int| start <= k implies !is_hit(before, q, k) by {}
                if !hit {
                    assert forall|k: int| start <= k implies !is_hit(buffer.searched(), q, k) by {
                        if k < before.len() {
                            assert(buffer.searched()[k] == before[k]);
                            assert(!is_hit(before, q, k));
                        } else if k == before.len() {
                            assert(buffer.searched()[k] == taken);
                        }
                    }
                }
            }
            if hit {
                let p = buffer.len() - 1;
                proof {
                    assert forall|k: int| start <= k < p implies !is_hit(buffer.searched(), q, k) by {
                        assert(buffer.searched()[k] == before[k]);
                        assert(!is_hit(before, q, k));
                    }
                    lemma_found_step(q, self.match_indices@, self.current_match_index, es0, buffer.searched(), p);
                }
                self.current_match_index = Some(self.match_indices.len());
                self.match_indices.push(p);
                return Some(p);
            }
        }
    }
}

/// A vector holds at most `usize::MAX` elements.
pub proof fn lemma_vec_len<T>(v: &Vec<T>)
    ensures
        v@.len() <= usize::MAX,
{
    broadcast use vstd::std_specs::vec::group_vec_axioms;

    assert(v@.len() == v.len());
}

/// A sequence extends itself.
pub proof fn lemma_extends_refl<T>(a: Seq<T>)
    ensures
        extends(a, a),
{
    assert(a.subrange(0, a.len() as int) =~= a);
}

/// Growing twice at the end is growing at the end.
pub proof fn lemma_extends_trans<T>(a: Seq<T>, b: Seq<T>, c: Seq<T>)
    requires
        extends(a, b),
        extends(b, c),
    ensures
        extends(a, c),
{
    assert(c.subrange(0, a.len() as int) =~= b.subrange(0, a.len() as int));
}

/// A search stays exact when entries are added at the end, as long as it had not
/// already seen the end of them.
pub proof fn lemma_inv_grows(s: &SearchState, es0: Seq<LogEntry>, es1: Seq<LogEntry>)
    requires
        s.inv_over(es0),
        extends(es0, es1),
        s.ended() ==> es1 == es0,
    ensures
        s.inv_over(es1),
{
    let q = s.query@;
    let ms = s.match_indices@;
    assert forall|k: int| 0 <= k < es0.len() implies es1[k] == es0[k] by {
        assert(es1.subrange(0, es0.len() as int)[k] == es1[k]);
    }
    assert forall|i: int| 0 <= i < ms.len() implies is_hit(es1, q, #[trigger] ms[i] as int) by {
        assert(is_hit(es0, q, ms[i] as int));
    }
    assert forall|p: int|
        0 <= p < scanned_part(ms, s.is_end_reached, es1) && is_hit(es1, q, p) implies exists|j: int|
        0 <= j < ms.len() && ms[j] as int == p by {
        assert(is_hit(es0, q, p));
    }
}

/// Entries are only ever added at the end: once a position of a snapshot is filled, every
/// later snapshot holds the same entry there.
pub proof fn lemma_positions_final<T>(earlier: Seq<T>, later: Seq<T>, i: int)
    requires
        extends(earlier, later),
        0 <= i < earlier.len(),
    ensures
        later[i] == earlier[i],
{
    assert(later.subrange(0, earlier.len() as int)[i] == later[i]);
}

/// The positions a search has found strictly increase, and the entry at each one
/// contains the query (in lower case).
pub proof fn lemma_found_positions(s: &SearchState, es: Seq<LogEntry>)
    requires
        s.inv_over(es),
    ensures
        forall|i: int, j: int| 0 <= i < j < s.found().len() ==> s.found()[i] < s.found()[j],
        forall|i: int|
            0 <= i < s.found().len() ==> (#[trigger] s.found()[i]) < es.len() && contains_text(
                es[s.found()[i] as int].lower_case_message@,
                s.query(),
            ),
{
    assert forall|i: int| 0 <= i < s.found().len() implies (#[trigger] s.found()[i]) < es.len()
        && contains_text(es[s.found()[i] as int].lower_case_message@, s.query()) by {
        assert(is_hit(es, s.query@, s.match_indices@[i] as int));
    }
}

/// No hit lies strictly between the found positions `i` and `i + 1` (or before the first
/// one, for `i == -1`).
proof fn lemma_no_hit_between(
    q: Seq<char>,
    ms: Seq<usize>,
    cursor: Option<usize>,
    ended: bool,
    es: Seq<LogEntry>,
    i: int,
)
    requires
        exact_search(q, ms, cursor, ended, es),
        -1 <= i,
        i + 1 < ms.len(),
    ensures
        forall|k: int|
            (i == -1 || ms[i] < k) && k < ms[i + 1] ==> !is_hit(es, q, k),
{
    assert forall|k: int| (i == -1 || ms[i] < k) && k < ms[i + 1] implies !is_hit(es, q, k) by {
        if is_hit(es, q, k) && 0 <= k {
            assert(is_hit(es, q, ms[i + 1] as int));
            assert(k < scanned_part(ms, ended, es)) by {
                if !ended {
                    if i + 1 < ms.len() - 1 {
                        assert(ms[i + 1] < ms[ms.len() - 1]);
                    }
                }
            }
            let j = choose|j: int| 0 <= j < ms.len() && ms[j] as int == k;
            if j <= i {
                if j < i {
                    assert(ms[j] < ms[i]);
                }
            } else if j > i + 1 {
                assert(ms[i + 1] < ms[j]);
            }
        }
    }
}

/// Once the entries have run out, no hit lies after the last position found.
proof fn lemma_no_hit_after_last(
    q: Seq<char>,
    ms: Seq<usize>,
    cursor: Option<usize>,
    es: Seq<LogEntry>,
)
    requires
        exact_search(q, ms, cursor, true, es),
        cursor matches Some(c) ==> c + 1 == ms.len(),
    ensures
        forall|k: int|
            (match cursor {
                Some(c) => ms[c as int] as int,
                None => -1,
            }) < k ==> !is_hit(es, q, k),
{
    assert forall|k: int|
        (match cursor {
            Some(c) => ms[c as int] as int,
            None => -1,
        }) < k implies !is_hit(es, q, k) by {
        if is_hit(es, q, k) {
            assert(k < scanned_part(ms, true, es));
            let j = choose|j: int| 0 <= j < ms.len() && ms[j] as int == k;
            if j < ms.len() - 1 {
                assert(ms[j] < ms[ms.len() - 1]);
            }
        }
    }
}

/// Recording the hit `p`, the first at or after the searched part, keeps the state
/// exact over the longer sequence `es1`.
proof fn lemma_found_step(
    q: Seq<char>,
    ms: Seq<usize>,
    cursor: Option<usize>,
    es0: Seq<LogEntry>,
    es1: Seq<LogEntry>,
    p: usize,
)
    requires
        exact_search(q, ms, cursor, false, es0),
        extends(es0, es1),
        scanned_part(ms, false, es0) <= p,
        is_hit(es1, q, p as int),
        forall|k: int| scanned_part(ms, false, es0) <= k < p ==> !is_hit(es1, q, k),
    ensures
        exact_search(q, ms.push(p), Some(ms.len() as usize), false, es1),
{
    let ns = ms.push(p);
    assert forall|k: int| 0 <= k < es0.len() implies es1[k] == es0[k] by {
        assert(es1.subrange(0, es0.len() as int)[k] == es1[k]);
    }
    assert forall|i: int, j: int| 0 <= i < j < ns.len() implies ns[i] < ns[j] by {
        if j == ms.len() {
            assert(ms[i] < scanned_part(ms, false, es0));
        }
    }
    assert forall|i: int| 0 <= i < ns.len() implies is_hit(es1, q, #[trigger] ns[i] as int) by {
        if i < ms.len() {
            assert(is_hit(es0, q, ms[i] as int));
        }
    }
    assert forall|k: int|
        0 <= k < scanned_part(ns, false, es1) && is_hit(es1, q, k) implies exists|j: int|
        0 <= j < ns.len() && ns[j] as int == k by {
        if k < scanned_part(ms, false, es0) {
            assert(is_hit(es0, q, k));
            let j = choose|j: int| 0 <= j < ms.len() && ms[j] as int == k;
            assert(ns[j] == k as usize);
        } else {
            assert(k == p);
            assert(ns[ms.len() as int] == p);
        }
    }
}

/// The entries ran out with no hit past the searched part: every hit has been found.
proof fn lemma_found_end(
    q: Seq<char>,
    ms: Seq<usize>,
    cursor: Option<usize>,
    es0: Seq<LogEntry>,
    es1: Seq<LogEntry>,
)
    requires
        exact_search(q, ms, cursor, false, es0),
        extends(es0, es1),
        forall|k: int| scanned_part(ms, false, es0) <= k ==> !is_hit(es1, q, k),
    ensures
        exact_search(q, ms, cursor, true, es1),
{
    assert forall|k: int| 0 <= k < es0.len() implies es1[k] == es0[k] by {
        assert(es1.subrange(0, es0.len() as int)[k] == es1[k]);
    }
    assert forall|i: int| 0 <= i < ms.len() implies is_hit(es1, q, #[trigger] ms[i] as int) by {
        assert(is_hit(es0, q, ms[i] as int));
    }
    assert forall|k: int|
        0 <= k < scanned_part(ms, true, es1) && is_hit(es1, q, k) implies exists|j: int|
        0 <= j < ms.len() && ms[j] as int == k by {
        assert(k < scanned_part(ms, false, es0));
        assert(is_hit(es0, q, k));
    }
}

} // verus!
