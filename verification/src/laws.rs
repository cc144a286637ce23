//! Properties of the scanner proved once and for all: the shape of the
//! output around gap markers, the bound on flushed "before" context, the
//! exhaustion of "after" context, and the confinement of every context line
//! to the window of some match.

use vstd::prelude::*;

verus! {

use vstd::math::min;
use crate::matcher::line_matches;
use crate::output::{EntryModel, LineModel};
use crate::scanner::{ScanConfig, ScanState, effective_text, emit_all, emit_one, init_state,
    lemma_scan_snoc, lemma_scan_ok, needs_gap, scan, scan_from, scan_step, state_ok};

/// The line number carried by a line entry; gap markers carry none.
pub open spec fn entry_number(e: EntryModel) -> int {
    match e {
        EntryModel::Line(l) => l.number,
        EntryModel::Gap => 0,
    }
}

/// The entry is a context line: a line entry without a match span.
pub open spec fn entry_is_context(e: EntryModel) -> bool {
    match e {
        EntryModel::Line(l) => l.span is None,
        EntryModel::Gap => false,
    }
}

/// Line `k` of the input (0-based) matches the query once trimmed per the
/// configuration.
pub open spec fn matches_at(cfg: ScanConfig, query: Seq<char>, lines: Seq<Seq<char>>, k: int) -> bool {
    line_matches(effective_text(cfg, lines[k]), query, cfg.case_sensitive)
}

/// Structure of an emitted output relative to the last emitted line number:
/// the output ends in a line entry numbered `last`; a gap marker stands only
/// strictly between two line entries whose numbers are not consecutive;
/// adjacent line entries have consecutive numbers; and line numbers strictly
/// increase through the output.
pub open spec fn output_ok(out: Seq<EntryModel>, last: Option<int>) -> bool {
    &&& (match last {
        None => out.len() == 0,
        Some(m) => out.len() > 0 && out.last() is Line && entry_number(out.last()) == m,
    })
    &&& (forall|i: int|
        0 <= i < out.len() && (#[trigger] out[i]) is Gap ==> 0 < i < out.len() - 1 && out[i - 1]
            is Line && out[i + 1] is Line && entry_number(out[i + 1]) != entry_number(out[i - 1])
            + 1)
    &&& (forall|i: int|
        0 <= i && i + 1 < out.len() && (#[trigger] out[i]) is Line && out[i + 1] is Line
            ==> entry_number(out[i + 1]) == entry_number(out[i]) + 1)
    &&& (forall|i: int, j: int|
        0 <= i < j < out.len() && (#[trigger] out[i]) is Line && (#[trigger] out[j]) is Line
            ==> entry_number(out[i]) < entry_number(out[j]))
}

proof fn lemma_emit_one_ok(out: Seq<EntryModel>, last: Option<int>, l: LineModel)
    requires
        output_ok(out, last),
        match last {
            Some(m) => l.number > m,
            None => true,
        },
    ensures
        output_ok(emit_one(out, last, l).0, emit_one(out, last, l).1),
{
    let stepped = emit_one(out, last, l);
    let entry = EntryModel::Line(l);
    if needs_gap(last, l.number) {
        let mid = out.push(EntryModel::Gap);
        let grown = mid.push(entry);
        assert(stepped.0 == grown);
        assert forall|i: int|
            0 <= i < grown.len() && (#[trigger] grown[i]) is Gap implies 0 < i < grown.len() - 1
            && grown[i - 1] is Line && grown[i + 1] is Line && entry_number(grown[i + 1])
            != entry_number(grown[i - 1]) + 1 by {
            if i < out.len() {
                assert(grown[i] == out[i]);
                assert(grown[i - 1] == out[i - 1]);
                assert(grown[i + 1] == out[i + 1]);
            } else {
                assert(i == out.len());
                assert(grown[i - 1] == out.last());
                assert(grown[i + 1] == entry);
            }
        }
        assert forall|i: int|
            0 <= i && i + 1 < grown.len() && (#[trigger] grown[i]) is Line && grown[i + 1]
            is Line implies entry_number(grown[i + 1]) == entry_number(grown[i]) + 1 by {
            if i + 1 < out.len() {
                assert(grown[i] == out[i]);
                assert(grown[i + 1] == out[i + 1]);
            } else if i + 1 == out.len() {
                assert(grown[i + 1] == EntryModel::Gap);
            }
        }
    } else {
        let grown = out.push(entry);
        assert(stepped.0 == grown);
        assert forall|i: int|
            0 <= i < grown.len() && (#[trigger] grown[i]) is Gap implies 0 < i < grown.len() - 1
            && grown[i - 1] is Line && grown[i + 1] is Line && entry_number(grown[i + 1])
            != entry_number(grown[i - 1]) + 1 by {
            assert(i < out.len());
            assert(grown[i] == out[i]);
            assert(grown[i - 1] == out[i - 1]);
            if i + 1 < out.len() {
                assert(grown[i + 1] == out[i + 1]);
            } else {
                assert(i == out.len() - 1);
                assert(out[i] is Gap && out.last() is Line && i == out.len() - 1);
                assert(false);
            }
        }
        assert forall|i: int|
            0 <= i && i + 1 < grown.len() && (#[trigger] grown[i]) is Line && grown[i + 1]
            is Line implies entry_number(grown[i + 1]) == entry_number(grown[i]) + 1 by {
            if i + 1 < out.len() {
                assert(grown[i] == out[i]);
                assert(grown[i + 1] == out[i + 1]);
            } else {
                assert(i == out.len() - 1);
                assert(grown[i] == out.last());
                assert(grown[i + 1] == entry);
                assert(!needs_gap(last, l.number));
            }
        }
    }
}

proof fn lemma_emit_all_entries(out: Seq<EntryModel>, last: Option<int>, ls: Seq<LineModel>)
    ensures
        out.len() <= emit_all(out, last, ls).0.len(),
        forall|i: int| 0 <= i < out.len() ==> emit_all(out, last, ls).0[i] == out[i],
        forall|i: int|
            out.len() <= i < emit_all(out, last, ls).0.len() ==> (emit_all(out, last, ls).0[i]
                is Gap || (exists|j: int|
                0 <= j < ls.len() && emit_all(out, last, ls).0[i] == EntryModel::Line(
                    #[trigger] ls[j],
                ))),
    decreases ls.len(),
{
    if ls.len() > 0 {
        let stepped = emit_one(out, last, ls[0]);
        lemma_emit_all_entries(stepped.0, stepped.1, ls.drop_first());
        let r = emit_all(out, last, ls).0;
        assert(r == emit_all(stepped.0, stepped.1, ls.drop_first()).0);
        assert forall|i: int| 0 <= i < out.len() implies r[i] == out[i] by {
            assert(r[i] == stepped.0[i]);
            assert(stepped.0[i] == out[i]);
        }
        assert forall|i: int| out.len() <= i < r.len() implies (r[i] is Gap || (exists|j: int|
            0 <= j < ls.len() && r[i] == EntryModel::Line(#[trigger] ls[j]))) by {
            if i < stepped.0.len() {
                assert(r[i] == stepped.0[i]);
                if !(stepped.0[i] is Gap) {
                    assert(stepped.0[i] == EntryModel::Line(ls[0]));
                }
            } else {
                if !(r[i] is Gap) {
                    let j = choose|j: int|
                        0 <= j < ls.drop_first().len() && r[i] == EntryModel::Line(
                            #[trigger] ls.drop_first()[j],
                        );
                    assert(ls.drop_first()[j] == ls[j + 1]);
                }
            }
        }
    }
}

proof fn lemma_emit_all_ok(out: Seq<EntryModel>, last: Option<int>, ls: Seq<LineModel>)
    requires
        output_ok(out, last),
        forall|j: int, k: int|
            0 <= j < k < ls.len() ==> (#[trigger] ls[j]).number < (#[trigger] ls[k]).number,
        match last {
            Some(m) => forall|j: int| 0 <= j < ls.len() ==> (#[trigger] ls[j]).number > m,
            None => true,
        },
    ensures
        output_ok(emit_all(out, last, ls).0, emit_all(out, last, ls).1),
    decreases ls.len(),
{
    if ls.len() > 0 {
        lemma_emit_one_ok(out, last, ls[0]);
        let stepped = emit_one(out, last, ls[0]);
        assert(forall|j: int|
            0 <= j < ls.drop_first().len() ==> (#[trigger] ls.drop_first()[j]).number > ls[0].number);
        lemma_emit_all_ok(stepped.0, stepped.1, ls.drop_first());
    }
}

/// A context line numbered `n` lies within the configured window of some
/// matching input line: at most `context_before` lines before it or at most
/// `context_after` lines after it.
pub open spec fn in_context_window(cfg: ScanConfig, query: Seq<char>, lines: Seq<Seq<char>>, n: int) -> bool {
    exists|k: int|
        0 <= k < lines.len() && #[trigger] matches_at(cfg, query, lines, k) && k + 1
            - cfg.context_before <= n <= k + 1 + cfg.context_after && n != k + 1
}

/// What holds of every reachable scanner state beyond `state_ok`: the output
/// is well shaped; the after-context countdown never exceeds its bound and
/// runs only with an empty buffer, right after a match; the buffer holds at
/// most `context_before` consecutively numbered lines ending just before the
/// next one, all newer than the last emitted line; and every context entry
/// already emitted lies in the window of some match.
pub open spec fn scan_inv(cfg: ScanConfig, query: Seq<char>, lines: Seq<Seq<char>>, st: ScanState) -> bool {
    &&& output_ok(st.out, st.last)
    &&& st.after <= cfg.context_after
    &&& (st.after > 0 ==> st.buffer.len() == 0)
    &&& (st.after > 0 ==> exists|k: int|
        0 <= k < lines.len() && #[trigger] matches_at(cfg, query, lines, k) && k + 1 == st.next
            - 1 - (cfg.context_after - st.after))
    &&& st.buffer.len() <= cfg.context_before
    &&& (forall|j: int|
        0 <= j < st.buffer.len() ==> (#[trigger] st.buffer[j]).number == st.next
            - st.buffer.len() + j)
    &&& (match st.last {
        Some(m) => st.buffer.len() > 0 ==> m < st.buffer[0].number,
        None => true,
    })
    &&& (forall|i: int|
        0 <= i < st.out.len() && entry_is_context(#[trigger] st.out[i]) ==> in_context_window(
            cfg,
            query,
            lines,
            entry_number(st.out[i]),
        ))
}

proof fn lemma_step_inv(cfg: ScanConfig, query: Seq<char>, lines: Seq<Seq<char>>, raw: Seq<char>, st: ScanState)
    requires
        state_ok(st),
        st.next == lines.len() + 1,
        scan_inv(cfg, query, lines, st),
    ensures
        scan_inv(cfg, query, lines.push(raw), scan_step(cfg, query, st, raw)),
{
    let grown = lines.push(raw);
    let st1 = scan_step(cfg, query, st, raw);
    let text = effective_text(cfg, raw);
    let n = st.next;
    assert forall|m: int| in_context_window(cfg, query, lines, m) implies in_context_window(
        cfg,
        query,
        grown,
        m,
    ) by {
        let k = choose|k: int|
            0 <= k < lines.len() && #[trigger] matches_at(cfg, query, lines, k) && k + 1
                - cfg.context_before <= m <= k + 1 + cfg.context_after && m != k + 1;
        assert(grown[k] == lines[k]);
        assert(matches_at(cfg, query, grown, k));
    }
    if line_matches(text, query, cfg.case_sensitive) {
        let kk = lines.len() as int;
        assert(grown[kk] == raw);
        assert(matches_at(cfg, query, grown, kk));
        assert(forall|j1: int, j2: int|
            0 <= j1 < j2 < st.buffer.len() ==> (#[trigger] st.buffer[j1]).number < (
            #[trigger] st.buffer[j2]).number);
        lemma_emit_all_ok(st.out, st.last, st.buffer);
        crate::scanner::lemma_emit_all_last(st.out, st.last, st.buffer);
        lemma_emit_all_entries(st.out, st.last, st.buffer);
        let flushed = emit_all(st.out, st.last, st.buffer);
        let ml = LineModel {
            number: n,
            text,
            span: crate::matcher::match_span(text, query, cfg.case_sensitive),
        };
        lemma_emit_one_ok(flushed.0, flushed.1, ml);
        assert(ml.span is Some);
        assert forall|i: int|
            0 <= i < st1.out.len() && entry_is_context(#[trigger] st1.out[i])
            implies in_context_window(cfg, query, grown, entry_number(st1.out[i])) by {
            if i < st.out.len() {
                assert(st1.out[i] == st.out[i]);
                assert(in_context_window(cfg, query, lines, entry_number(st.out[i])));
            } else if i < flushed.0.len() {
                assert(flushed.0[i] is Gap || (exists|j: int|
                    0 <= j < st.buffer.len() && flushed.0[i] == EntryModel::Line(
                        #[trigger] st.buffer[j],
                    )));
                let j = choose|j: int|
                    0 <= j < st.buffer.len() && flushed.0[i] == EntryModel::Line(
                        #[trigger] st.buffer[j],
                    );
                assert(entry_number(st1.out[i]) == st.buffer[j].number);
                assert(st.buffer[j].number == n - st.buffer.len() + j);
                assert(kk + 1 - cfg.context_before <= st.buffer[j].number <= kk + 1
                    + cfg.context_after && st.buffer[j].number != kk + 1);
            } else {
                assert(st1.out[i] is Gap || st1.out[i] == EntryModel::Line(ml));
            }
        }
    } else if st.after > 0 {
        let cl = LineModel { number: n, text, span: None };
        lemma_emit_one_ok(st.out, st.last, cl);
        let k = choose|k: int|
            0 <= k < lines.len() && #[trigger] matches_at(cfg, query, lines, k) && k + 1
                == st.next - 1 - (cfg.context_after - st.after);
        assert(grown[k] == lines[k]);
        assert(matches_at(cfg, query, grown, k));
        assert(k + 1 - cfg.context_before <= n <= k + 1 + cfg.context_after && n != k + 1);
        assert forall|i: int|
            0 <= i < st1.out.len() && entry_is_context(#[trigger] st1.out[i])
            implies in_context_window(cfg, query, grown, entry_number(st1.out[i])) by {
            if i < st.out.len() {
                assert(st1.out[i] == st.out[i]);
                assert(in_context_window(cfg, query, lines, entry_number(st.out[i])));
            } else {
                assert(st1.out[i] == EntryModel::Line(cl));
                assert(in_context_window(cfg, query, grown, n));
            }
        }
    } else if cfg.context_before > 0 {
        let cl = LineModel { number: n, text, span: None };
        let pushed = st.buffer.push(cl);
        assert forall|j: int| 0 <= j < st1.buffer.len() implies (#[trigger] st1.buffer[j]).number
            == st1.next - st1.buffer.len() + j by {
            if pushed.len() > cfg.context_before {
                assert(st1.buffer == pushed.drop_first());
                assert(st1.buffer[j] == pushed[j + 1]);
                if j + 1 < st.buffer.len() {
                    assert(pushed[j + 1] == st.buffer[j + 1]);
                } else {
                    assert(pushed[j + 1] == cl);
                }
            } else {
                assert(st1.buffer == pushed);
                if j < st.buffer.len() {
                    assert(pushed[j] == st.buffer[j]);
                } else {
                    assert(pushed[j] == cl);
                }
            }
        }
    } else {
    }
}

/// Every state the scanner reaches satisfies the invariant `scan_inv`.
pub proof fn lemma_scan_inv(cfg: ScanConfig, query: Seq<char>, lines: Seq<Seq<char>>)
    ensures
        scan_inv(cfg, query, lines, scan(cfg, query, lines)),
    decreases lines.len(),
{
    if lines.len() == 0 {
        assert(scan(cfg, query, lines) == init_state());
    } else {
        let prefix = lines.drop_last();
        lemma_scan_inv(cfg, query, prefix);
        lemma_scan_ok(cfg, query, prefix);
        assert(prefix.push(lines.last()) =~= lines);
        lemma_scan_snoc(cfg, query, prefix, lines.last());
        lemma_step_inv(cfg, query, prefix, lines.last(), scan(cfg, query, prefix));
    }
}

/// Gap marker correctness: in a scan's output, two adjacent line entries
/// always carry consecutive line numbers, and a gap marker stands exactly
/// strictly between two line entries whose numbers are not consecutive.
pub proof fn lemma_gap_markers(cfg: ScanConfig, query: Seq<char>, lines: Seq<Seq<char>>)
    ensures
        ({
            let out = scan(cfg, query, lines).out;
            &&& (forall|i: int|
                0 <= i && i + 1 < out.len() && (#[trigger] out[i]) is Line && out[i + 1] is Line
                    ==> entry_number(out[i + 1]) == entry_number(out[i]) + 1)
            &&& (forall|i: int|
                0 <= i < out.len() && (#[trigger] out[i]) is Gap ==> 0 < i < out.len() - 1 && out[
                    i - 1
                ] is Line && out[i + 1] is Line && entry_number(out[i + 1]) != entry_number(
                    out[i - 1],
                ) + 1)
        }),
{
    lemma_scan_inv(cfg, query, lines);
}

/// No false retention: every context entry of a scan's output lies within
/// the configured window of some matching line — `context_before` lines
/// before it through `context_after` lines after it — and line numbers
/// strictly increase through the output, so each input line appears at most
/// once and a line once evicted from the context buffer never reappears.
pub proof fn lemma_no_false_retention(cfg: ScanConfig, query: Seq<char>, lines: Seq<Seq<char>>)
    ensures
        ({
            let out = scan(cfg, query, lines).out;
            &&& (forall|i: int|
                0 <= i < out.len() && entry_is_context(#[trigger] out[i]) ==> in_context_window(
                    cfg,
                    query,
                    lines,
                    entry_number(out[i]),
                ))
            &&& (forall|i: int, j: int|
                0 <= i < j < out.len() && (#[trigger] out[i]) is Line && (#[trigger] out[j])
                    is Line ==> entry_number(out[i]) < entry_number(out[j]))
        }),
{
    lemma_scan_inv(cfg, query, lines);
}

/// The entries of a flushed context buffer, in order.
pub open spec fn context_entries(ls: Seq<LineModel>) -> Seq<EntryModel> {
    ls.map_values(|l: LineModel| EntryModel::Line(l))
}

proof fn lemma_emit_all_consecutive(out: Seq<EntryModel>, last: Option<int>, ls: Seq<LineModel>)
    requires
        forall|j: int| 0 <= j < ls.len() - 1 ==> (#[trigger] ls[j + 1]).number == ls[j].number + 1,
    ensures
        emit_all(out, last, ls).0 == if ls.len() == 0 {
            out
        } else if needs_gap(last, ls[0].number) {
            out.push(EntryModel::Gap) + context_entries(ls)
        } else {
            out + context_entries(ls)
        },
    decreases ls.len(),
{
    if ls.len() > 0 {
        let stepped = emit_one(out, last, ls[0]);
        assert(forall|j: int|
            0 <= j < ls.drop_first().len() - 1 ==> (#[trigger] ls.drop_first()[j + 1]).number
                == ls.drop_first()[j].number + 1);
        lemma_emit_all_consecutive(stepped.0, stepped.1, ls.drop_first());
        if ls.len() == 1 {
            assert(context_entries(ls) =~= seq![EntryModel::Line(ls[0])]);
            assert(stepped.0 =~= (if needs_gap(last, ls[0].number) {
                out.push(EntryModel::Gap) + context_entries(ls)
            } else {
                out + context_entries(ls)
            }));
        } else {
            assert(ls.drop_first()[0] == ls[1]);
            assert(!needs_gap(stepped.1, ls.drop_first()[0].number));
            assert(stepped.0 + context_entries(ls.drop_first()) =~= (if needs_gap(
                last,
                ls[0].number,
            ) {
                out.push(EntryModel::Gap) + context_entries(ls)
            } else {
                out + context_entries(ls)
            }));
        }
    }
}

/// The length of the run of consecutive non-matching lines immediately
/// before line index `k`.
pub open spec fn run_of_nonmatches(cfg: ScanConfig, query: Seq<char>, lines: Seq<Seq<char>>, k: int) -> int
    decreases k,
{
    if k <= 0 {
        0
    } else if matches_at(cfg, query, lines, k - 1) {
        0
    } else {
        run_of_nonmatches(cfg, query, lines, k - 1) + 1
    }
}

proof fn lemma_buffer_run(cfg: ScanConfig, query: Seq<char>, lines: Seq<Seq<char>>, k: int)
    requires
        cfg.context_after == 0,
        0 <= k <= lines.len(),
    ensures
        scan(cfg, query, lines.take(k)).buffer.len() == min(
            cfg.context_before as int,
            run_of_nonmatches(cfg, query, lines, k),
        ),
    decreases k,
{
    if k == 0 {
        assert(lines.take(0) =~= Seq::<Seq<char>>::empty());
        assert(scan(cfg, query, lines.take(0)) == init_state());
    } else {
        lemma_buffer_run(cfg, query, lines, k - 1);
        let prefix = lines.take(k - 1);
        let st = scan(cfg, query, prefix);
        lemma_scan_inv(cfg, query, prefix);
        lemma_scan_ok(cfg, query, prefix);
        assert(st.after == 0);
        assert(prefix.push(lines[k - 1]) =~= lines.take(k));
        lemma_scan_snoc(cfg, query, prefix, lines[k - 1]);
        let st1 = scan(cfg, query, lines.take(k));
        assert(st1 == scan_step(cfg, query, st, lines[k - 1]));
        if matches_at(cfg, query, lines, k - 1) {
        } else {
            if cfg.context_before > 0 {
                assert(st1.buffer == crate::context::push_evict(
                    st.buffer,
                    LineModel {
                        number: st.next,
                        text: effective_text(cfg, lines[k - 1]),
                        span: None,
                    },
                    cfg.context_before as int,
                ));
            } else {
                assert(st.buffer.len() == 0);
            }
        }
    }
}

/// Context window size: when line `k` matches and no after-context is
/// configured, the lines flushed at that match are exactly the buffered
/// ones, numbering `min(context_before, run of non-matching lines since the
/// previous match or the start of the file)`, and they stand in the output
/// immediately before the match entry, preceded by a gap marker exactly when
/// one is owed.
pub proof fn lemma_before_context_window(cfg: ScanConfig, query: Seq<char>, lines: Seq<Seq<char>>, k: int)
    requires
        cfg.context_after == 0,
        0 <= k < lines.len(),
        matches_at(cfg, query, lines, k),
    ensures
        ({
            let st = scan(cfg, query, lines.take(k));
            let flushed = st.buffer;
            let text = effective_text(cfg, lines[k]);
            let ml = LineModel {
                number: k + 1,
                text,
                span: crate::matcher::match_span(text, query, cfg.case_sensitive),
            };
            &&& flushed.len() == min(
                cfg.context_before as int,
                run_of_nonmatches(cfg, query, lines, k),
            )
            &&& scan(cfg, query, lines.take(k + 1)).out == (if flushed.len() > 0 {
                (if needs_gap(st.last, flushed[0].number) {
                    st.out.push(EntryModel::Gap)
                } else {
                    st.out
                }) + context_entries(flushed) + seq![EntryModel::Line(ml)]
            } else {
                (if needs_gap(st.last, k + 1) {
                    st.out.push(EntryModel::Gap)
                } else {
                    st.out
                }).push(EntryModel::Line(ml))
            })
        }),
{
    lemma_buffer_run(cfg, query, lines, k);
    let prefix = lines.take(k);
    let st = scan(cfg, query, prefix);
    lemma_scan_inv(cfg, query, prefix);
    lemma_scan_ok(cfg, query, prefix);
    assert(prefix.push(lines[k]) =~= lines.take(k + 1));
    lemma_scan_snoc(cfg, query, prefix, lines[k]);
    let st1 = scan(cfg, query, lines.take(k + 1));
    assert(st1 == scan_step(cfg, query, st, lines[k]));
    let text = effective_text(cfg, lines[k]);
    let ml = LineModel {
        number: k + 1,
        text,
        span: crate::matcher::match_span(text, query, cfg.case_sensitive),
    };
    assert(forall|j: int|
        0 <= j < st.buffer.len() - 1 ==> (#[trigger] st.buffer[j + 1]).number == st.buffer[
            j
        ].number + 1);
    lemma_emit_all_consecutive(st.out, st.last, st.buffer);
    crate::scanner::lemma_emit_all_last(st.out, st.last, st.buffer);
    let flushed = emit_all(st.out, st.last, st.buffer);
    if st.buffer.len() > 0 {
        assert(st.buffer.last().number == k);
        assert(!needs_gap(flushed.1, ml.number));
        assert(flushed.0.push(EntryModel::Line(ml)) =~= (if needs_gap(
            st.last,
            st.buffer[0].number,
        ) {
            st.out.push(EntryModel::Gap)
        } else {
            st.out
        }) + context_entries(st.buffer) + seq![EntryModel::Line(ml)]);
    }
}

proof fn lemma_no_match_no_out(cfg: ScanConfig, query: Seq<char>, st: ScanState, rest: Seq<Seq<char>>)
    requires
        state_ok(st),
        st.after == 0,
        forall|i: int|
            0 <= i < rest.len() ==> !line_matches(
                effective_text(cfg, #[trigger] rest[i]),
                query,
                cfg.case_sensitive,
            ),
    ensures
        scan_from(cfg, query, st, rest).out == st.out,
        scan_from(cfg, query, st, rest).count == st.count,
    decreases rest.len(),
{
    if rest.len() > 0 {
        let st1 = scan_step(cfg, query, st, rest[0]);
        crate::scanner::lemma_step_ok(cfg, query, st, rest[0]);
        assert(forall|i: int|
            0 <= i < rest.drop_first().len() ==> rest.drop_first()[i] == rest[i + 1]);
        lemma_no_match_no_out(cfg, query, st1, rest.drop_first());
    }
}

proof fn lemma_drain_after(cfg: ScanConfig, query: Seq<char>, st: ScanState, rest: Seq<Seq<char>>)
    requires
        state_ok(st),
        st.last == Some(st.next - 1),
        forall|i: int|
            0 <= i < rest.len() ==> !line_matches(
                effective_text(cfg, #[trigger] rest[i]),
                query,
                cfg.case_sensitive,
            ),
    ensures
        ({
            let t = min(st.after, rest.len() as int);
            &&& scan_from(cfg, query, st, rest).out == st.out + Seq::new(
                t as nat,
                |j: int|
                    EntryModel::Line(
                        LineModel { number: st.next + j, text: effective_text(cfg, rest[j]), span: None },
                    ),
            )
            &&& scan_from(cfg, query, st, rest).count == st.count
        }),
    decreases rest.len(),
{
    let t = min(st.after, rest.len() as int);
    if rest.len() == 0 {
        assert(st.out + Seq::new(0, |j: int|
            EntryModel::Line(
                LineModel { number: st.next + j, text: effective_text(cfg, rest[j]), span: None },
            )) =~= st.out);
    } else if st.after == 0 {
        lemma_no_match_no_out(cfg, query, st, rest);
        assert(st.out + Seq::new(0, |j: int|
            EntryModel::Line(
                LineModel { number: st.next + j, text: effective_text(cfg, rest[j]), span: None },
            )) =~= st.out);
    } else {
        let st1 = scan_step(cfg, query, st, rest[0]);
        crate::scanner::lemma_step_ok(cfg, query, st, rest[0]);
        let cl = LineModel { number: st.next, text: effective_text(cfg, rest[0]), span: None };
        assert(!needs_gap(st.last, cl.number));
        assert(st1.out == st.out.push(EntryModel::Line(cl)));
        assert(st1.last == Some(st1.next - 1));
        assert(forall|i: int|
            0 <= i < rest.drop_first().len() ==> rest.drop_first()[i] == rest[i + 1]);
        lemma_drain_after(cfg, query, st1, rest.drop_first());
        let t1 = min(st1.after, rest.drop_first().len() as int);
        assert(t1 == t - 1);
        assert(st1.out + Seq::new(t1 as nat, |j: int|
            EntryModel::Line(
                LineModel {
                    number: st1.next + j,
                    text: effective_text(cfg, rest.drop_first()[j]),
                    span: None,
                },
            )) =~= st.out + Seq::new(t as nat, |j: int|
            EntryModel::Line(
                LineModel { number: st.next + j, text: effective_text(cfg, rest[j]), span: None },
            )));
    }
}

proof fn lemma_scan_from_concat(cfg: ScanConfig, query: Seq<char>, st: ScanState, a: Seq<Seq<char>>, b: Seq<Seq<char>>)
    ensures
        scan_from(cfg, query, st, a + b) == scan_from(cfg, query, scan_from(cfg, query, st, a), b),
    decreases a.len(),
{
    if a.len() == 0 {
        assert(a + b =~= b);
    } else {
        assert((a + b)[0] == a[0]);
        assert((a + b).drop_first() =~= a.drop_first() + b);
        lemma_scan_from_concat(cfg, query, scan_step(cfg, query, st, a[0]), a.drop_first(), b);
    }
}

/// After-context exhaustion: after a match at line `k` that no later line
/// matches, exactly the next `min(context_after, remaining lines)` lines are
/// emitted as context lines, with consecutive numbers and no gap markers,
/// after which nothing further is emitted and the match count stays.
pub proof fn lemma_after_context_exhaustion(cfg: ScanConfig, query: Seq<char>, lines: Seq<Seq<char>>, k: int)
    requires
        0 <= k < lines.len(),
        matches_at(cfg, query, lines, k),
        forall|i: int| k < i < lines.len() ==> !matches_at(cfg, query, lines, i),
    ensures
        ({
            let st1 = scan(cfg, query, lines.take(k + 1));
            let t = min(cfg.context_after as int, lines.len() - 1 - k);
            &&& scan(cfg, query, lines).out == st1.out + Seq::new(
                t as nat,
                |j: int|
                    EntryModel::Line(
                        LineModel {
                            number: k + 2 + j,
                            text: effective_text(cfg, lines[k + 1 + j]),
                            span: None,
                        },
                    ),
            )
            &&& scan(cfg, query, lines).count == st1.count
        }),
{
    let prefix = lines.take(k);
    let st = scan(cfg, query, prefix);
    lemma_scan_ok(cfg, query, prefix);
    assert(prefix.push(lines[k]) =~= lines.take(k + 1));
    lemma_scan_snoc(cfg, query, prefix, lines[k]);
    let st1 = scan(cfg, query, lines.take(k + 1));
    lemma_scan_ok(cfg, query, lines.take(k + 1));
    assert(st1 == scan_step(cfg, query, st, lines[k]));
    assert(st1.after == cfg.context_after as int);
    assert(st1.last == Some(k + 1));
    assert(st1.next == k + 2);
    let rest = lines.skip(k + 1);
    assert(lines.take(k + 1) + rest =~= lines);
    lemma_scan_from_concat(cfg, query, init_state(), lines.take(k + 1), rest);
    assert(forall|i: int| 0 <= i < rest.len() ==> rest[i] == lines[k + 1 + i]);
    assert forall|i: int| 0 <= i < rest.len() implies !line_matches(
        effective_text(cfg, #[trigger] rest[i]),
        query,
        cfg.case_sensitive,
    ) by {
        assert(rest[i] == lines[k + 1 + i]);
        assert(!matches_at(cfg, query, lines, k + 1 + i));
    }
    lemma_drain_after(cfg, query, st1, rest);
    let t = min(cfg.context_after as int, lines.len() - 1 - k);
    assert(st1.out + Seq::new(t as nat, |j: int|
        EntryModel::Line(
            LineModel { number: st1.next + j, text: effective_text(cfg, rest[j]), span: None },
        )) =~= st1.out + Seq::new(t as nat, |j: int|
        EntryModel::Line(
            LineModel {
                number: k + 2 + j,
                text: effective_text(cfg, lines[k + 1 + j]),
                span: None,
            },
        )));
}

} // verus!
