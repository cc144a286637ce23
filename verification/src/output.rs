//! The annotated lines a scan produces and their mathematical models.

use vstd::prelude::*;

verus! {

/// One output line: its 1-based line number, its text, and, for a match line,
/// the byte offsets delimiting the first occurrence of the query. `None`
/// marks a context line rather than a match line.
pub struct AnnotatedLine {
    pub line_number: usize,
    pub text: String,
    pub match_span: Option<(usize, usize)>,
}

/// The mathematical value of an `AnnotatedLine`.
pub struct LineModel {
    pub number: int,
    pub text: Seq<char>,
    pub span: Option<(int, int)>,
}

impl View for AnnotatedLine {
    type V = LineModel;

    open spec fn view(&self) -> LineModel {
        LineModel {
            number: self.line_number as int,
            text: self.text@,
            span: match self.match_span {
                Some(p) => Some((p.0 as int, p.1 as int)),
                None => None,
            },
        }
    }
}

/// One entry of a scan's output: an annotated line, or a gap marker signaling
/// that the displayed lines around it are not contiguous in the input.
pub enum OutputEntry {
    Gap,
    Line(AnnotatedLine),
}

/// The mathematical value of an `OutputEntry`.
pub enum EntryModel {
    Gap,
    Line(LineModel),
}

impl View for OutputEntry {
    type V = EntryModel;

    open spec fn view(&self) -> EntryModel {
        match self {
            OutputEntry::Gap => EntryModel::Gap,
            OutputEntry::Line(l) => EntryModel::Line(l@),
        }
    }
}

/// The mathematical value of a sequence of annotated lines.
pub open spec fn lines_model(s: Seq<AnnotatedLine>) -> Seq<LineModel> {
    s.map_values(|a: AnnotatedLine| a@)
}

/// The mathematical value of a sequence of output entries.
pub open spec fn entries_model(s: Seq<OutputEntry>) -> Seq<EntryModel> {
    s.map_values(|e: OutputEntry| e@)
}

pub proof fn lemma_lines_model_push(s: Seq<AnnotatedLine>, a: AnnotatedLine)
    ensures
        lines_model(s.push(a)) == lines_model(s).push(a@),
{
    assert(lines_model(s.push(a)) =~= lines_model(s).push(a@));
}

pub proof fn lemma_lines_model_drop_first(s: Seq<AnnotatedLine>)
    requires
        s.len() > 0,
    ensures
        lines_model(s.drop_first()) == lines_model(s).drop_first(),
{
    assert(lines_model(s.drop_first()) =~= lines_model(s).drop_first());
}

pub proof fn lemma_entries_model_push(s: Seq<OutputEntry>, e: OutputEntry)
    ensures
        entries_model(s.push(e)) == entries_model(s).push(e@),
{
    assert(entries_model(s.push(e)) =~= entries_model(s).push(e@));
}

} // verus!
