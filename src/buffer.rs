//! The entries received so far, and the channel they arrive on.
use crate::log_entry::LogEntry;
use crate::search_state::{extends, lemma_vec_len, SearchSlice, SearchSourceBuffer};
use crossbeam_channel::Receiver;
use vstd::prelude::*;

verus! {

#[verifier::external_type_specification]
#[verifier::external_body]
#[verifier::reject_recursive_types(T)]
pub struct ExReceiver<T>(Receiver<T>);

/// Relies on crossbeam_channel's `Receiver::recv`: it blocks until a message arrives
/// (`Some`) or the channel is empty and disconnected (`None`). What arrives is up to the
/// sending side, so nothing is stated of it.
#[verifier::external_body]
fn receive(receiver: &Receiver<LogEntry>) -> (r: Option<LogEntry>) {
    receiver.recv().ok()
}

/// Entries in arrival order, and the receiving end of the channel they come from.
///
/// Entries are only ever added at the end: a position, once filled, keeps its entry.
pub struct Buffer {
    buffer: Vec<LogEntry>,
    receiver: Option<Receiver<LogEntry>>,
    disconnected: bool,
}

impl View for Buffer {
    type V = Seq<LogEntry>;

    closed spec fn view(&self) -> Seq<LogEntry> {
        self.buffer@
    }
}

impl Buffer {
    /// A receive has found the channel closed and drained: no entry will arrive any more.
    pub closed spec fn ended(&self) -> bool {
        self.disconnected
    }

    pub closed spec fn wf(&self) -> bool {
        self.receiver is None ==> self.disconnected
    }

    pub fn new(receiver: Receiver<LogEntry>) -> (r: Buffer)
        ensures
            r.wf(),
            r@ == Seq::<LogEntry>::empty(),
            !r.ended(),
    {
        Buffer { buffer: Vec::new(), receiver: Some(receiver), disconnected: false }
    }

    /// A buffer with no channel: it holds nothing and receives nothing.
    pub fn detached() -> (r: Buffer)
        ensures
            r.wf(),
            r@ == Seq::<LogEntry>::empty(),
            r.ended(),
    {
        Buffer { buffer: Vec::new(), receiver: None, disconnected: true }
    }

    pub fn inner(&self) -> (r: &[LogEntry])
        ensures
            r@ == self@,
    {
        self.buffer.as_slice()
    }
}

/// Seen as a search source, a buffer searches and receives its own entries, and is
/// exhausted exactly when it has ended.
pub proof fn lemma_buffer_as_source(b: &Buffer)
    ensures
        b.searched() == b@,
        b.received() == b@,
        b.exhausted() == b.ended(),
        b.source_inv() == b.wf(),
        b.selection() == Set::<u64>::empty(),
{
}

/// A buffer holds at most `usize::MAX` entries.
pub proof fn lemma_buffer_len(b: &Buffer)
    ensures
        b@.len() <= usize::MAX,
{
    broadcast use vstd::std_specs::vec::group_vec_axioms;

    assert(b.buffer@.len() == b.buffer.len());
}

impl Default for Buffer {
    fn default() -> (r: Buffer)
        ensures
            r.wf(),
            r@ == Seq::<LogEntry>::empty(),
            r.ended(),
    {
        Buffer::detached()
    }
}

impl Buffer {
    /// True once a receive has found the channel closed and drained. A channel that has
    /// closed since the last receive still reads as open here; the next `take_next` then
    /// returns `None` at once, without waiting, and from then on this is true.
    pub fn is_end_reached(&self) -> (r: bool)
        ensures
            r == self.ended(),
    {
        self.disconnected
    }

    pub fn len(&self) -> (r: usize)
        ensures
            r == self@.len(),
    {
        self.buffer.len()
    }

    /// Receives the next entry, waiting for it, and keeps it at the end; `None` once the
    /// channel is closed and drained.
    pub fn take_next(&mut self) -> (r: Option<&LogEntry>)
        requires
            old(self).wf(),
        ensures
            final(self).wf(),
            final(self)@.len() <= usize::MAX,
            extends(old(self)@, final(self)@),
            old(self).ended() ==> r is None,
            match r {
                Some(e) => {
                    &&& final(self)@ == old(self)@.push(*e)
                    &&& !final(self).ended()
                },
                None => {
                    &&& final(self)@ == old(self)@
                    &&& final(self).ended()
                },
            },
    {
        let ghost before = self.buffer@;
        proof {
            lemma_vec_len(&self.buffer);
        }
        if self.disconnected {
            assert(self.buffer@.subrange(0, before.len() as int) =~= before);
            return None;
        }
        let received = match &self.receiver {
            Some(receiver) => receive(receiver),
            None => None,
        };
        match received {
            Some(entry) => {
                self.buffer.push(entry);
                let n = self.buffer.len();
                assert(self.buffer@.subrange(0, before.len() as int) =~= before);
                Some(&self.buffer[n - 1])
            },
            None => {
                self.disconnected = true;
                assert(self.buffer@.subrange(0, before.len() as int) =~= before);
                None
            },
        }
    }

    pub fn slice(&self) -> (r: SearchSlice<'_>)
        ensures
            self@.len() <= usize::MAX,
            r.valid(),
            r.entries() == self@,
    {
        proof {
            lemma_vec_len(&self.buffer);
        }
        SearchSlice::Plain(self.buffer.as_slice())
    }
}

impl SearchSourceBuffer for Buffer {
    closed spec fn searched(&self) -> Seq<LogEntry> {
        self.buffer@
    }

    closed spec fn received(&self) -> Seq<LogEntry> {
        self.buffer@
    }

    closed spec fn exhausted(&self) -> bool {
        self.disconnected
    }

    closed spec fn selection(&self) -> Set<u64> {
        Set::empty()
    }

    closed spec fn source_inv(&self) -> bool {
        self.wf()
    }

    fn is_end_reached(&self) -> (r: bool) {
        Buffer::is_end_reached(self)
    }

    fn len(&self) -> (r: usize) {
        Buffer::len(self)
    }

    fn take_next(&mut self) -> (r: Option<&LogEntry>) {
        Buffer::take_next(self)
    }

    fn slice(&self) -> (r: SearchSlice<'_>) {
        Buffer::slice(self)
    }
}

} // verus!
