//! Parsed log records and the sources they come from.
use crate::text::{
    contains_text, count_newlines, find_char, first_index_of, first_line, is_space, is_space_char,
    lemma_first_index_bound, lemma_first_index_unique, lemma_newline_count_concat,
    line_total, lower_of, lowercase, newline_count, text_of_range, to_chars,
};
use crate::time::{
    clock_pattern, clock_text, format_clock, format_full, full_date_text, full_pattern,
    naive_stamp_of, offset_stamp_of, parse_naive, parse_with_offset, Timestamp,
};
use std::collections::hash_map::DefaultHasher;
use std::hash::Hasher;
use vstd::prelude::*;
use vstd::std_specs::hash::DefaultHasherAdditionalSpecFns;
use vstd::string::StringExecFns;

verus! {

/// The hash that identifies a source of the given name.
pub open spec fn source_hash(name: Seq<char>) -> u64 {
    DefaultHasher::spec_finish(seq![vstd::utf8::encode_utf8(name)])
}

/// A named origin of log entries. Two sources are the same when their hashes are.
#[derive(Debug)]
pub struct Source {
    pub name: String,
    pub hash: u64,
}

impl Source {
    pub open spec fn wf(&self) -> bool {
        self.hash == source_hash(self.name@)
    }

    pub fn new(name: String) -> (r: Source)
        ensures
            r.name@ == name@,
            r.hash == source_hash(name@),
            r.wf(),
    {
        let mut hasher = DefaultHasher::new();
        hasher.write(name.as_str().as_bytes());
        let hash = hasher.finish();
        Source { name, hash }
    }
}

impl Clone for Source {
    fn clone(&self) -> (r: Source)
        ensures
            r == *self,
    {
        Source { name: self.name.clone(), hash: self.hash }
    }
}

impl PartialEq for Source {
    fn eq(&self, other: &Source) -> (r: bool) {
        self.hash == other.hash
    }
}

impl vstd::std_specs::cmp::PartialEqSpecImpl for Source {
    open spec fn obeys_eq_spec() -> bool {
        true
    }

    open spec fn eq_spec(&self, other: &Source) -> bool {
        self.hash == other.hash
    }
}

impl Eq for Source {

}

/// Position of the first white-space character of `s`, or `s.len()` when there is none.
pub open spec fn first_space_index(s: Seq<char>) -> nat
    decreases s.len(),
{
    if s.len() == 0 {
        0
    } else if is_space_char(s[0]) {
        0
    } else {
        1 + first_space_index(s.drop_first())
    }
}

proof fn lemma_first_space_unique(s: Seq<char>, k: int)
    requires
        0 <= k <= s.len(),
        k < s.len() ==> is_space_char(s[k]),
        forall|i: int| 0 <= i < k ==> !is_space_char(s[i]),
    ensures
        first_space_index(s) == k,
    decreases s.len(),
{
    if s.len() > 0 && !is_space_char(s[0]) {
        assert forall|i: int| 0 <= i < k - 1 implies !is_space_char(s.drop_first()[i]) by {
            assert(!is_space_char(s[i + 1]));
        }
        lemma_first_space_unique(s.drop_first(), k - 1);
    }
}

/// A raw header line cut at its first two white-space characters: the date token, the
/// bracketed source token, and the rest of the line.
pub open spec fn raw_header(s: Seq<char>) -> Option<(Seq<char>, Seq<char>, Seq<char>)> {
    let i = first_space_index(s);
    if i >= s.len() {
        None
    } else {
        let rest = s.subrange(i + 1int, s.len() as int);
        let j = first_space_index(rest);
        if j >= rest.len() {
            None
        } else {
            Some((s.subrange(0, i as int), rest.subrange(0, j as int), rest.subrange(j + 1int, rest.len() as int)))
        }
    }
}

/// chrono's pattern for the date of a raw header, once its trailing `Z` is cut.
pub open spec fn raw_date_pattern() -> Seq<char> {
    seq!['%', 'Y', '-', '%', 'm', '-', '%', 'd', 'T', '%', 'H', ':', '%', 'M', ':', '%', 'S', '%', '.', '3', 'f']
}

/// chrono's pattern for the date of a JSON record.
pub open spec fn json_date_pattern() -> Seq<char> {
    seq!['%', 'e', ' ', '%', 'b', ' ', '%', 'Y', ' ', '%', 'H', ':', '%', 'M', ':', '%', 'S', '%', '.', '3', 'f', ' ', '%', 'z']
}

/// The source name inside a source token of at least three characters: the token
/// without its opening bracket and its closing `]`, or, when one more character follows
/// the bracket (`[name]:`), without that one too.
pub open spec fn source_name_of(src: Seq<char>) -> Seq<char> {
    if src.last() == ']' {
        src.subrange(1, src.len() - 1)
    } else {
        src.subrange(1, src.len() - 2)
    }
}

/// The message, time and source name that a raw header line gives, if it is one: the
/// date token loses its last character (the `Z`) before it is parsed, and the source
/// token gives its name as `source_name_of` says.
pub open spec fn raw_fields(s: Seq<char>) -> Option<(Seq<char>, Timestamp, Seq<char>)> {
    match raw_header(s) {
        None => None,
        Some((d, src, m)) => {
            if d.len() == 0 || src.len() < 3 {
                None
            } else {
                match naive_stamp_of(d.drop_last(), raw_date_pattern()) {
                    None => None,
                    Some(t) => Some((m, t, source_name_of(src))),
                }
            }
        }
    }
}

/// One parsed log record.
#[derive(Clone, Debug)]
pub struct LogEntry {
    pub message: String,
    pub date: Timestamp,
    pub date_time: String,
    pub source: Source,
    pub one_line_message: String,
    pub lower_case_message: String,
    pub lines_count: usize,
    pub date_full: Option<String>,
}

impl LogEntry {
    /// The derived fields agree with the message, the time and the source name.
    pub open spec fn wf(&self) -> bool {
        &&& self.date.valid()
        &&& self.date_time@ == clock_text(self.date)
        &&& self.source.wf()
        &&& self.one_line_message@ == first_line(self.message@)
        &&& self.lower_case_message@ == lower_of(self.message@)
        &&& self.lines_count == line_total(self.message@)
        &&& self.date_full matches Some(f) ==> f@ == full_date_text(self.date)
    }

    /// Whether the entry's text contains `query` (already in lower case).
    pub open spec fn matches(&self, query: Seq<char>) -> bool {
        contains_text(self.lower_case_message@, query)
    }

    /// An entry with its derived fields computed from the message and the time.
    pub fn new(message: String, date: Timestamp, source: String) -> (r: LogEntry)
        requires
            date.valid(),
        ensures
            r.wf(),
            r.message@ == message@,
            r.date == date,
            r.source.name@ == source@,
            r.date_full is None,
    {
        let chars = to_chars(message.as_str());
        let k = find_char(chars.as_slice(), '\n');
        proof {
            lemma_first_index_bound(chars@, '\n');
        }
        let end = if k > 0 && chars[k - 1] == '\r' {
            k - 1
        } else {
            k
        };
        let one_line_message = text_of_range(&chars, 0, end);
        proof {
            let p = chars@.subrange(0, k as int);
            if k > 0 {
                assert(p.last() == chars@[k - 1]);
                assert(p.drop_last() =~= chars@.subrange(0, k - 1));
            }
        }
        let lines_count = count_newlines(chars.as_slice()).saturating_add(1);
        let lower_case_message = lowercase(message.as_str());
        let pattern = "%T%.3f";
        proof {
            reveal_strlit("%T%.3f");
            assert(pattern@ =~= clock_pattern());
        }
        let date_time = format_clock(&date, pattern);
        LogEntry {
            message,
            date,
            date_time,
            source: Source::new(source),
            one_line_message,
            lower_case_message,
            lines_count,
            date_full: None,
        }
    }

    /// Splits a raw header line at its first two white-space characters.
    pub fn split_raw_header(line: &str) -> (r: Option<(String, String, String)>)
        ensures
            match r {
                None => raw_header(line@) is None,
                Some((d, src, m)) => raw_header(line@) == Some((d@, src@, m@)),
            },
    {
        let chars = to_chars(line);
        let len = chars.len();
        let mut i: usize = 0;
        while i < len && !is_space(chars[i])
            invariant
                len == chars@.len(),
                i <= len,
                forall|k: int| 0 <= k < i ==> !is_space_char(chars@[k]),
            decreases len - i,
        {
            i = i + 1;
        }
        proof {
            lemma_first_space_unique(chars@, i as int);
        }
        if i >= len {
            return None;
        }
        let mut j: usize = i + 1;
        while j < len && !is_space(chars[j])
            invariant
                len == chars@.len(),
                i < len,
                i + 1 <= j <= len,
                forall|k: int| i + 1 <= k < j ==> !is_space_char(chars@[k]),
            decreases len - j,
        {
            j = j + 1;
        }
        let ghost rest = chars@.subrange(i + 1int, len as int);
        proof {
            assert forall|k: int| 0 <= k < j - (i + 1) implies !is_space_char(rest[k]) by {
                assert(rest[k] == chars@[k + i + 1]);
            }
            if j < len {
                assert(rest[j - (i + 1)] == chars@[j as int]);
            }
            lemma_first_space_unique(rest, j - (i + 1));
        }
        if j >= len {
            return None;
        }
        proof {
            assert(rest.subrange(0, j - (i + 1)) =~= chars@.subrange(i + 1int, j as int));
            assert(rest.subrange(j - i, rest.len() as int) =~= chars@.subrange(j + 1int, len as int));
        }
        Some((text_of_range(&chars, 0, i), text_of_range(&chars, i + 1, j), text_of_range(&chars, j + 1, len)))
    }

    /// Parses a raw header line: `<date>Z [<source>] <message>` (a character after the
    /// closing bracket, as in `[<source>]:`, is allowed).
    pub fn from_raw(log: &str) -> (r: Option<LogEntry>)
        ensures
            match r {
                None => raw_fields(log@) is None,
                Some(e) => {
                    &&& e.wf()
                    &&& e.date_full is None
                    &&& raw_fields(log@) == Some((e.message@, e.date, e.source.name@))
                },
            },
    {
        let (date, source, message) = match LogEntry::split_raw_header(log) {
            Some(parts) => parts,
            None => return None,
        };
        let date_chars = to_chars(date.as_str());
        let source_chars = to_chars(source.as_str());
        if date_chars.len() == 0 || source_chars.len() < 3 {
            return None;
        }
        let date_text = text_of_range(&date_chars, 0, date_chars.len() - 1);
        let pattern = "%Y-%m-%dT%H:%M:%S%.3f";
        proof {
            reveal_strlit("%Y-%m-%dT%H:%M:%S%.3f");
            assert(pattern@ =~= raw_date_pattern());
            assert(date_text@ =~= date@.drop_last());
        }
        let stamp = match parse_naive(date_text.as_str(), pattern) {
            Some(t) => t,
            None => return None,
        };
        let last = source_chars.len() - 1;
        let end = if source_chars[last] == ']' {
            last
        } else {
            last - 1
        };
        let name = text_of_range(&source_chars, 1, end);
        Some(LogEntry::new(message, stamp, name))
    }

    /// Builds an entry from the three fields of a JSON record; `None` when the date does
    /// not read as `<day> <month name> <year> <HH:MM:SS.mmm> <offset>`.
    pub fn from_fields(message: String, date: &str, source: String) -> (r: Option<LogEntry>)
        ensures
            match r {
                None => offset_stamp_of(date@, json_date_pattern()) is None,
                Some(e) => {
                    &&& e.wf()
                    &&& e.date_full is None
                    &&& offset_stamp_of(date@, json_date_pattern()) == Some(e.date)
                    &&& e.message@ == message@
                    &&& e.source.name@ == source@
                },
            },
    {
        let pattern = "%e %b %Y %H:%M:%S%.3f %z";
        proof {
            reveal_strlit("%e %b %Y %H:%M:%S%.3f %z");
            assert(pattern@ =~= json_date_pattern());
        }
        match parse_with_offset(date, pattern) {
            Some(stamp) => Some(LogEntry::new(message, stamp, source)),
            None => None,
        }
    }

    /// All fields but the message-derived ones and the cached full date agree.
    pub open spec fn same_origin(&self, other: &LogEntry) -> bool {
        &&& self.date == other.date
        &&& self.date_time == other.date_time
        &&& self.source == other.source
    }

    /// Adds a continuation line to the message, after a `'\n'`.
    pub fn append(&mut self, line: &str)
        requires
            old(self).wf(),
        ensures
            final(self).wf(),
            final(self).message@ == old(self).message@ + seq!['\n'] + line@,
            final(self).same_origin(old(self)),
            final(self).date_full == old(self).date_full,
            final(self).one_line_message == old(self).one_line_message,
    {
        let ghost before = self.message@;
        let separator = "\n";
        proof {
            reveal_strlit("\n");
        }
        self.message.append(separator);
        self.message.append(line);
        let line_chars = to_chars(line);
        let n = count_newlines(line_chars.as_slice());
        self.lines_count = self.lines_count.saturating_add(1).saturating_add(n);
        self.lower_case_message = lowercase(self.message.as_str());
        proof {
            assert(self.message@ =~= before + (seq!['\n'] + line@));
            lemma_newline_count_concat(before, seq!['\n'] + line@);
            lemma_newline_count_concat(seq!['\n'], line@);
            assert(seq!['\n'].drop_last() =~= Seq::<char>::empty());
            assert(newline_count(seq!['\n']) == 1) by {
                reveal_with_fuel(newline_count, 2);
            }
            lemma_first_line_extend(before, seq!['\n'] + line@);
        }
    }

    /// The full local date and time as text, computed on first use and kept.
    pub fn date_full(&mut self) -> (r: String)
        requires
            old(self).wf(),
        ensures
            final(self).wf(),
            r@ == full_date_text(old(self).date),
            final(self).date_full matches Some(f) && f@ == r@,
            final(self).message == old(self).message,
            final(self).same_origin(old(self)),
            final(self).one_line_message == old(self).one_line_message,
            final(self).lower_case_message == old(self).lower_case_message,
            final(self).lines_count == old(self).lines_count,
    {
        if let Some(f) = &self.date_full {
            return f.clone();
        }
        let pattern = "%c";
        proof {
            reveal_strlit("%c");
            assert(pattern@ =~= full_pattern());
        }
        let f = format_full(&self.date, pattern);
        self.date_full = Some(f.clone());
        f
    }
}

proof fn lemma_first_line_extend(a: Seq<char>, b: Seq<char>)
    requires
        b.len() > 0,
        b[0] == '\n',
    ensures
        first_line(a + b) == first_line(a),
{
    let k = first_index_of(a, '\n');
    lemma_first_index_bound(a, '\n');
    assert forall|i: int| 0 <= i < k implies (a + b)[i] != '\n' by {
        assert((a + b)[i] == a[i]);
    }
    if k < a.len() {
        assert((a + b)[k as int] == a[k as int]);
    } else {
        assert((a + b)[k as int] == b[0]);
    }
    lemma_first_index_unique(a + b, '\n', k as int);
    assert((a + b).subrange(0, k as int) =~= a.subrange(0, k as int));
}

/// The derived fields of an entry depend on its message and its time alone: two
/// well-formed entries that agree on those agree on the time of day, the first line, the
/// line count and the lower-case text.
pub proof fn lemma_derived_fields_determined(a: LogEntry, b: LogEntry)
    requires
        a.wf(),
        b.wf(),
        a.message@ == b.message@,
        a.date == b.date,
    ensures
        a.date_time@ == b.date_time@,
        a.one_line_message@ == b.one_line_message@,
        a.lines_count == b.lines_count,
        a.lower_case_message@ == b.lower_case_message@,
{
}

/// Reading the same raw header line twice gives the same entry: equal message, time,
/// source and derived fields.
pub proof fn lemma_raw_parse_deterministic(line: Seq<char>, a: LogEntry, b: LogEntry)
    requires
        a.wf(),
        b.wf(),
        raw_fields(line) == Some((a.message@, a.date, a.source.name@)),
        raw_fields(line) == Some((b.message@, b.date, b.source.name@)),
    ensures
        a.message@ == b.message@,
        a.date == b.date,
        a.source.name@ == b.source.name@,
        a.source.hash == b.source.hash,
        a.date_time@ == b.date_time@,
        a.one_line_message@ == b.one_line_message@,
        a.lines_count == b.lines_count,
        a.lower_case_message@ == b.lower_case_message@,
{
    lemma_derived_fields_determined(a, b);
}

} // verus!
