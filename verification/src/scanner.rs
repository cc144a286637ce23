//! The line scanner: consumes a sequential stream of lines, drives the
//! matcher, manages the context buffer and the after-context countdown, and
//! produces the ordered output entries with gap markers.

use vstd::prelude::*;

verus! {

use crate::context::{ContextBuffer, push_evict};
use crate::matcher::{line_matches, match_span};
use crate::output::{AnnotatedLine, EntryModel, LineModel, OutputEntry, entries_model,
    lemma_entries_model_push};

/// Configuration of one file's scan, immutable for its duration.
#[derive(Clone, Copy)]
pub struct ScanConfig {
    /// How many non-matching lines before a match are shown as context.
    pub context_before: usize,
    /// How many non-matching lines after a match are shown as context.
    pub context_after: usize,
    /// Whether the query must match without case folding.
    pub case_sensitive: bool,
    /// Whether each line is trimmed before matching and reporting.
    pub trim_lines: bool,
}

/// What `str::trim` returns for a given sequence of characters.
pub uninterp spec fn trimmed_of(s: Seq<char>) -> Seq<char>;

/// Relies on `str::trim`: its result depends on the characters of its
/// argument alone.
#[verifier::external_body]
fn trim_text(s: &str) -> (r: String)
    ensures
        r@ == trimmed_of(s@),
{
    s.trim().to_owned()
}

/// The text a line is matched against and reported with: the raw text, or its
/// trimmed form when the configuration asks for trimming.
pub open spec fn effective_text(cfg: ScanConfig, raw: Seq<char>) -> Seq<char> {
    if cfg.trim_lines {
        trimmed_of(raw)
    } else {
        raw
    }
}

/// The scanner's abstract state: the buffered "before" context, the
/// after-context countdown, the number of the last emitted line, the 1-based
/// number of the next input line, the output so far, and the match count.
#[verifier::ext_equal]
pub struct ScanState {
    pub buffer: Seq<LineModel>,
    pub after: int,
    pub last: Option<int>,
    pub next: int,
    pub out: Seq<EntryModel>,
    pub count: int,
}

/// A gap marker is owed before emitting line `n` iff some line was already
/// emitted and `n` is not the successor of its number.
pub open spec fn needs_gap(last: Option<int>, n: int) -> bool {
    match last {
        Some(m) => n != m + 1,
        None => false,
    }
}

/// Emitting one line: a gap marker first when one is owed, then the line;
/// the emitted line's number becomes the last emitted one.
pub open spec fn emit_one(out: Seq<EntryModel>, last: Option<int>, l: LineModel) -> (
    Seq<EntryModel>,
    Option<int>,
) {
    let grown = if needs_gap(last, l.number) {
        out.push(EntryModel::Gap)
    } else {
        out
    };
    (grown.push(EntryModel::Line(l)), Some(l.number))
}

/// Emitting a sequence of lines in order.
pub open spec fn emit_all(out: Seq<EntryModel>, last: Option<int>, ls: Seq<LineModel>) -> (
    Seq<EntryModel>,
    Option<int>,
)
    decreases ls.len(),
{
    if ls.len() == 0 {
        (out, last)
    } else {
        let stepped = emit_one(out, last, ls[0]);
        emit_all(stepped.0, stepped.1, ls.drop_first())
    }
}

/// Emitting one more line after a sequence emits the sequence, then it.
pub proof fn lemma_emit_all_snoc(out: Seq<EntryModel>, last: Option<int>, ls: Seq<LineModel>, l: LineModel)
    ensures
        emit_all(out, last, ls.push(l)) == emit_one(
            emit_all(out, last, ls).0,
            emit_all(out, last, ls).1,
            l,
        ),
    decreases ls.len(),
{
    if ls.len() == 0 {
        assert(ls.push(l)[0] == l);
        assert(ls.push(l).drop_first() =~= Seq::<LineModel>::empty());
        let stepped = emit_one(out, last, l);
        assert(emit_all(stepped.0, stepped.1, Seq::<LineModel>::empty()) == (
            stepped.0,
            stepped.1,
        ));
        assert(emit_all(out, last, ls) == (out, last));
    } else {
        assert(ls.push(l)[0] == ls[0]);
        assert(ls.push(l).drop_first() =~= ls.drop_first().push(l));
        let stepped = emit_one(out, last, ls[0]);
        lemma_emit_all_snoc(stepped.0, stepped.1, ls.drop_first(), l);
    }
}

/// The scanner's initial state: empty buffer, no after-context owed, nothing
/// emitted, next line number 1.
pub open spec fn init_state() -> ScanState {
    ScanState {
        buffer: Seq::<LineModel>::empty(),
        after: 0,
        last: None,
        next: 1,
        out: Seq::<EntryModel>::empty(),
        count: 0,
    }
}

/// One step of the scanner on the raw text of the next input line. On a
/// match, the whole context buffer is flushed oldest-first, the match line is
/// emitted with its span, and the after-context countdown restarts. On a
/// non-match, the line is emitted as context while the countdown runs,
/// buffered while "before" context is configured, and discarded otherwise.
pub open spec fn scan_step(cfg: ScanConfig, query: Seq<char>, st: ScanState, raw: Seq<char>) -> ScanState {
    let text = effective_text(cfg, raw);
    let n = st.next;
    if line_matches(text, query, cfg.case_sensitive) {
        let flushed = emit_all(st.out, st.last, st.buffer);
        let ml = LineModel { number: n, text, span: match_span(text, query, cfg.case_sensitive) };
        let emitted = emit_one(flushed.0, flushed.1, ml);
        ScanState {
            buffer: Seq::<LineModel>::empty(),
            after: cfg.context_after as int,
            last: emitted.1,
            next: n + 1,
            out: emitted.0,
            count: st.count + 1,
        }
    } else if st.after > 0 {
        let cl = LineModel { number: n, text, span: None };
        let emitted = emit_one(st.out, st.last, cl);
        ScanState {
            buffer: st.buffer,
            after: st.after - 1,
            last: emitted.1,
            next: n + 1,
            out: emitted.0,
            count: st.count,
        }
    } else if cfg.context_before > 0 {
        let cl = LineModel { number: n, text, span: None };
        ScanState {
            buffer: push_evict(st.buffer, cl, cfg.context_before as int),
            after: st.after,
            last: st.last,
            next: n + 1,
            out: st.out,
            count: st.count,
        }
    } else {
        ScanState {
            buffer: st.buffer,
            after: st.after,
            last: st.last,
            next: n + 1,
            out: st.out,
            count: st.count,
        }
    }
}

/// The scanner's state after consuming `lines` starting from `st`.
pub open spec fn scan_from(cfg: ScanConfig, query: Seq<char>, st: ScanState, lines: Seq<Seq<char>>) -> ScanState
    decreases lines.len(),
{
    if lines.len() == 0 {
        st
    } else {
        scan_from(cfg, query, scan_step(cfg, query, st, lines[0]), lines.drop_first())
    }
}

/// The scanner's state after consuming `lines` from the initial state.
pub open spec fn scan(cfg: ScanConfig, query: Seq<char>, lines: Seq<Seq<char>>) -> ScanState {
    scan_from(cfg, query, init_state(), lines)
}

/// Consuming one more line after a sequence steps the state once more.
pub proof fn lemma_scan_from_snoc(cfg: ScanConfig, query: Seq<char>, st: ScanState, lines: Seq<Seq<char>>, raw: Seq<char>)
    ensures
        scan_from(cfg, query, st, lines.push(raw)) == scan_step(
            cfg,
            query,
            scan_from(cfg, query, st, lines),
            raw,
        ),
    decreases lines.len(),
{
    if lines.len() == 0 {
        assert(lines.push(raw)[0] == raw);
        assert(lines.push(raw).drop_first() =~= Seq::<Seq<char>>::empty());
        assert(scan_from(
            cfg,
            query,
            scan_step(cfg, query, st, raw),
            Seq::<Seq<char>>::empty(),
        ) == scan_step(cfg, query, st, raw));
        assert(scan_from(cfg, query, st, lines) == st);
    } else {
        assert(lines.push(raw)[0] == lines[0]);
        assert(lines.push(raw).drop_first() =~= lines.drop_first().push(raw));
        lemma_scan_from_snoc(cfg, query, scan_step(cfg, query, st, lines[0]), lines.drop_first(), raw);
    }
}

/// Consuming one more line steps the scan state once.
pub proof fn lemma_scan_snoc(cfg: ScanConfig, query: Seq<char>, lines: Seq<Seq<char>>, raw: Seq<char>)
    ensures
        scan(cfg, query, lines.push(raw)) == scan_step(cfg, query, scan(cfg, query, lines), raw),
{
    lemma_scan_from_snoc(cfg, query, init_state(), lines, raw);
}

/// Sanity of a reachable scanner state: counters are in range, buffered lines
/// are context lines numbered before the next input line, and the last
/// emitted line number, when there is one, also lies before it.
pub open spec fn state_ok(st: ScanState) -> bool {
    &&& 1 <= st.next
    &&& 0 <= st.after
    &&& 0 <= st.count < st.next
    &&& (match st.last {
        Some(m) => 1 <= m < st.next,
        None => true,
    })
    &&& (forall|k: int|
        0 <= k < st.buffer.len() ==> 1 <= (#[trigger] st.buffer[k]).number < st.next
            && st.buffer[k].span is None)
}

/// After emitting a sequence of lines, the last emitted number is that of
/// its final line, or unchanged when the sequence is empty.
pub proof fn lemma_emit_all_last(out: Seq<EntryModel>, last: Option<int>, ls: Seq<LineModel>)
    ensures
        emit_all(out, last, ls).1 == if ls.len() == 0 {
            last
        } else {
            Some(ls.last().number)
        },
    decreases ls.len(),
{
    if ls.len() > 0 {
        let stepped = emit_one(out, last, ls[0]);
        lemma_emit_all_last(stepped.0, stepped.1, ls.drop_first());
        if ls.len() > 1 {
            assert(ls.drop_first().last() == ls.last());
        }
    }
}

/// One scan step keeps a state sane and advances the next line number.
pub proof fn lemma_step_ok(cfg: ScanConfig, query: Seq<char>, st: ScanState, raw: Seq<char>)
    requires
        state_ok(st),
    ensures
        state_ok(scan_step(cfg, query, st, raw)),
        scan_step(cfg, query, st, raw).next == st.next + 1,
{
    let text = effective_text(cfg, raw);
    if line_matches(text, query, cfg.case_sensitive) {
        lemma_emit_all_last(st.out, st.last, st.buffer);
    }
}

/// Every state reached from a sane state is sane, and the next line number
/// advances by one per consumed line.
pub proof fn lemma_scan_from_ok(cfg: ScanConfig, query: Seq<char>, st: ScanState, lines: Seq<Seq<char>>)
    requires
        state_ok(st),
    ensures
        state_ok(scan_from(cfg, query, st, lines)),
        scan_from(cfg, query, st, lines).next == st.next + lines.len(),
    decreases lines.len(),
{
    if lines.len() > 0 {
        lemma_step_ok(cfg, query, st, lines[0]);
        lemma_scan_from_ok(cfg, query, scan_step(cfg, query, st, lines[0]), lines.drop_first());
    }
}

/// The state after scanning any line sequence is sane, and its next line
/// number is the number of consumed lines plus one.
pub proof fn lemma_scan_ok(cfg: ScanConfig, query: Seq<char>, lines: Seq<Seq<char>>)
    ensures
        state_ok(scan(cfg, query, lines)),
        scan(cfg, query, lines).next == lines.len() + 1,
{
    lemma_scan_from_ok(cfg, query, init_state(), lines);
}

/// The mathematical value of an optional last-emitted line number.
pub open spec fn last_model(l: Option<usize>) -> Option<int> {
    match l {
        Some(m) => Some(m as int),
        None => None,
    }
}

/// The mathematical value of a sequence of strings.
pub open spec fn strings_model(s: Seq<String>) -> Seq<Seq<char>> {
    s.map_values(|x: String| x@)
}

/// The ordered output of one file's scan and its match count; an empty entry
/// list means the file had no match.
pub struct ScanResult {
    pub entries: Vec<OutputEntry>,
    pub match_count: usize,
}

/// The line scanner's concrete state for one file.
pub struct Scanner {
    query: String,
    cfg: ScanConfig,
    buffer: ContextBuffer,
    after_remaining: usize,
    last_emitted: Option<usize>,
    consumed: usize,
    entries: Vec<OutputEntry>,
    matches_found: usize,
    seen: Ghost<Seq<Seq<char>>>,
}

impl Scanner {
    /// The raw lines consumed so far.
    pub closed spec fn consumed_lines(&self) -> Seq<Seq<char>> {
        self.seen@
    }

    /// The configuration this scanner was created with.
    pub closed spec fn config(&self) -> ScanConfig {
        self.cfg
    }

    /// The query this scanner searches for.
    pub closed spec fn query_chars(&self) -> Seq<char> {
        self.query@
    }

    /// The scanner's concrete state agrees with the abstract scan of the
    /// lines consumed so far.
    pub closed spec fn wf(&self) -> bool {
        let st = scan(self.cfg, self.query@, self.seen@);
        &&& self.buffer@ == st.buffer
        &&& self.buffer.cap() == self.cfg.context_before as int
        &&& self.after_remaining as int == st.after
        &&& last_model(self.last_emitted) == st.last
        &&& self.consumed as int == self.seen@.len()
        &&& self.consumed + 1 == st.next
        &&& entries_model(self.entries@) == st.out
        &&& self.matches_found as int == st.count
    }

    /// A fresh scanner: empty buffer, no after-context owed, nothing emitted.
    pub fn new(query: String, cfg: ScanConfig) -> (r: Scanner)
        ensures
            r.wf(),
            r.consumed_lines() == Seq::<Seq<char>>::empty(),
            r.config() == cfg,
            r.query_chars() == query@,
    {
        let r = Scanner {
            query,
            cfg,
            buffer: ContextBuffer::new(cfg.context_before),
            after_remaining: 0,
            last_emitted: None,
            consumed: 0,
            entries: Vec::new(),
            matches_found: 0,
            seen: Ghost(Seq::<Seq<char>>::empty()),
        };
        proof {
            assert(entries_model(r.entries@) =~= Seq::<EntryModel>::empty());
        }
        r
    }

    /// Appends `line` to the output, preceded by a gap marker when one is
    /// owed, and records its number as the last emitted one.
    fn emit(&mut self, line: AnnotatedLine)
        requires
            line.line_number >= 1,
        ensures
            entries_model(final(self).entries@) == emit_one(
                entries_model(old(self).entries@),
                last_model(old(self).last_emitted),
                line@,
            ).0,
            last_model(final(self).last_emitted) == emit_one(
                entries_model(old(self).entries@),
                last_model(old(self).last_emitted),
                line@,
            ).1,
            final(self).query == old(self).query,
            final(self).cfg == old(self).cfg,
            final(self).buffer == old(self).buffer,
            final(self).after_remaining == old(self).after_remaining,
            final(self).consumed == old(self).consumed,
            final(self).matches_found == old(self).matches_found,
            final(self).seen == old(self).seen,
    {
        let owed = match self.last_emitted {
            Some(m) => line.line_number - 1 != m,
            None => false,
        };
        if owed {
            proof {
                lemma_entries_model_push(self.entries@, OutputEntry::Gap);
            }
            self.entries.push(OutputEntry::Gap);
        }
        proof {
            lemma_entries_model_push(self.entries@, OutputEntry::Line(line));
        }
        self.last_emitted = Some(line.line_number);
        self.entries.push(OutputEntry::Line(line));
    }

    /// Consumes the next input line, updating the output, the context buffer,
    /// and the counters exactly as one abstract scan step does.
    pub fn push_line(&mut self, raw: String)
        requires
            old(self).wf(),
            old(self).consumed_lines().len() < usize::MAX,
        ensures
            final(self).wf(),
            final(self).consumed_lines() == old(self).consumed_lines().push(raw@),
            final(self).config() == old(self).config(),
            final(self).query_chars() == old(self).query_chars(),
    {
        let ghost pre = self.seen@;
        let ghost rawv = raw@;
        let ghost st0 = scan(self.cfg, self.query@, pre);
        proof {
            lemma_scan_ok(self.cfg, self.query@, pre);
            lemma_scan_from_snoc(self.cfg, self.query@, init_state(), pre, rawv);
        }
        let n = self.consumed + 1;
        let text: String = if self.cfg.trim_lines {
            trim_text(raw.as_str())
        } else {
            raw
        };
        let found = crate::matcher::find(text.as_str(), self.query.as_str(), self.cfg.case_sensitive);
        match found {
            Some(span) => {
                let ghost snap = *self;
                let ghost total: int = st0.buffer.len() as int;
                let ghost mut done: int = 0;
                while self.buffer.len() > 0
                    invariant
                        0 <= done <= total,
                        total == st0.buffer.len(),
                        self.buffer@ == st0.buffer.skip(done),
                        self.buffer.cap() == snap.buffer.cap(),
                        entries_model(self.entries@) == emit_all(
                            st0.out,
                            st0.last,
                            st0.buffer.take(done),
                        ).0,
                        last_model(self.last_emitted) == emit_all(
                            st0.out,
                            st0.last,
                            st0.buffer.take(done),
                        ).1,
                        entries_model(snap.entries@) == st0.out,
                        last_model(snap.last_emitted) == st0.last,
                        state_ok(st0),
                        self.query == snap.query,
                        self.cfg == snap.cfg,
                        self.after_remaining == snap.after_remaining,
                        self.consumed == snap.consumed,
                        self.matches_found == snap.matches_found,
                        self.seen == snap.seen,
                    decreases total - done,
                {
                    let a = self.buffer.pop_front().unwrap();
                    proof {
                        assert(a@ == st0.buffer[done]);
                        assert(1 <= a@.number);
                        lemma_emit_all_snoc(st0.out, st0.last, st0.buffer.take(done), a@);
                        assert(st0.buffer.take(done).push(a@) =~= st0.buffer.take(done + 1));
                    }
                    self.emit(a);
                    proof {
                        assert(self.buffer@ =~= st0.buffer.skip(done + 1));
                        done = done + 1;
                    }
                }
                proof {
                    assert(done == total);
                    assert(st0.buffer.take(total) =~= st0.buffer);
                }
                let line = AnnotatedLine { line_number: n, text, match_span: Some(span) };
                self.emit(line);
                self.after_remaining = self.cfg.context_after;
                self.matches_found = self.matches_found + 1;
            },
            None => {
                if self.after_remaining > 0 {
                    let line = AnnotatedLine { line_number: n, text, match_span: None };
                    self.emit(line);
                    self.after_remaining = self.after_remaining - 1;
                } else if self.cfg.context_before > 0 {
                    let line = AnnotatedLine { line_number: n, text, match_span: None };
                    self.buffer.push(line);
                }
            },
        }
        self.consumed = n;
        self.seen = Ghost(pre.push(rawv));
        proof {
            let st1 = scan(self.cfg, self.query@, self.seen@);
            assert(st1 == scan_step(self.cfg, self.query@, st0, rawv));
            assert(self.buffer@ =~= st1.buffer);
        }
    }

    /// The number of matching lines seen so far.
    pub fn match_count(&self) -> (r: usize)
        requires
            self.wf(),
        ensures
            r as int == scan(self.config(), self.query_chars(), self.consumed_lines()).count,
    {
        self.matches_found
    }

    /// Ends the scan: lines still sitting in the context buffer are
    /// discarded, and the ordered output with the match count is returned.
    pub fn into_result(self) -> (r: ScanResult)
        requires
            self.wf(),
        ensures
            entries_model(r.entries@) == scan(
                self.config(),
                self.query_chars(),
                self.consumed_lines(),
            ).out,
            r.match_count as int == scan(
                self.config(),
                self.query_chars(),
                self.consumed_lines(),
            ).count,
    {
        ScanResult { entries: self.entries, match_count: self.matches_found }
    }
}

/// Scans a whole sequence of lines with a fresh scanner and returns the
/// ordered output entries, with gap markers, and the total match count.
pub fn scan_lines(lines: &Vec<String>, query: &str, cfg: &ScanConfig) -> (r: ScanResult)
    ensures
        entries_model(r.entries@) == scan(*cfg, query@, strings_model(lines@)).out,
        r.match_count as int == scan(*cfg, query@, strings_model(lines@)).count,
{
    let mut sc = Scanner::new(query.to_owned(), *cfg);
    proof {
        assert(strings_model(lines@).take(0) =~= Seq::<Seq<char>>::empty());
    }
    let mut i: usize = 0;
    while i < lines.len()
        invariant
            i <= lines@.len(),
            sc.wf(),
            sc.config() == *cfg,
            sc.query_chars() == query@,
            sc.consumed_lines() == strings_model(lines@).take(i as int),
        decreases lines@.len() - i,
    {
        let line = lines[i].clone();
        sc.push_line(line);
        proof {
            assert(strings_model(lines@).take(i as int).push(lines@[i as int]@)
                =~= strings_model(lines@).take(i + 1));
        }
        i = i + 1;
    }
    proof {
        assert(strings_model(lines@).take(lines@.len() as int) =~= strings_model(lines@));
    }
    sc.into_result()
}

} // verus!
