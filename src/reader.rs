//! Puts the lines of a log file together into entries.
use crate::log_entry::{raw_fields, LogEntry};
use vstd::prelude::*;

verus! {

/// Holds back the latest entry until the next one starts or the input ends, so that the
/// lines that continue it (in the raw format) can still be added to its message.
pub struct EntryAssembler {
    pending: Option<LogEntry>,
}

impl EntryAssembler {
    /// The entry still open to continuation lines.
    pub closed spec fn pending(&self) -> Option<LogEntry> {
        self.pending
    }

    pub closed spec fn wf(&self) -> bool {
        self.pending matches Some(e) ==> e.wf()
    }

    pub fn new() -> (r: EntryAssembler)
        ensures
            r.wf(),
            r.pending() is None,
    {
        EntryAssembler { pending: None }
    }

    /// Takes one line of a raw log: a header line starts a new entry and hands back the
    /// finished one; any other line continues the open entry, or is dropped when there is
    /// none.
    pub fn push_raw_line(&mut self, line: &str) -> (r: Option<LogEntry>)
        requires
            old(self).wf(),
        ensures
            final(self).wf(),
            match raw_fields(line@) {
                Some((m, t, src)) => {
                    &&& r == old(self).pending()
                    &&& final(self).pending() matches Some(e) && e.message@ == m && e.date == t
                        && e.source.name@ == src
                },
                None => {
                    &&& r is None
                    &&& match old(self).pending() {
                        None => final(self).pending() is None,
                        Some(p) => final(self).pending() matches Some(q) && q.message@
                            == p.message@ + seq!['\n'] + line@ && q.same_origin(&p),
                    }
                },
            },
    {
        match LogEntry::from_raw(line) {
            Some(entry) => {
                let finished = self.pending.take();
                self.pending = Some(entry);
                finished
            },
            None => {
                match &mut self.pending {
                    Some(p) => p.append(line),
                    None => {},
                }
                None
            },
        }
    }

    /// Takes an entry read from a JSON line: it starts a new entry and hands back the
    /// finished one.
    pub fn push_entry(&mut self, entry: LogEntry) -> (r: Option<LogEntry>)
        requires
            old(self).wf(),
            entry.wf(),
        ensures
            final(self).wf(),
            r == old(self).pending(),
            final(self).pending() == Some(entry),
    {
        let finished = self.pending.take();
        self.pending = Some(entry);
        finished
    }

    /// Ends the input: hands back the open entry, if any.
    pub fn finish(&mut self) -> (r: Option<LogEntry>)
        requires
            old(self).wf(),
        ensures
            final(self).wf(),
            r == old(self).pending(),
            final(self).pending() is None,
    {
        self.pending.take()
    }
}

} // verus!
