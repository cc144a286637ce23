//! A bounded FIFO holding the most recent non-matching lines, used to emit
//! the "before" context when a match occurs.

use vstd::prelude::*;

verus! {

use std::collections::VecDeque;
use crate::output::{AnnotatedLine, LineModel, lines_model, lemma_lines_model_push,
    lemma_lines_model_drop_first};

/// A push on a bounded FIFO: append, then evict the oldest entry when the
/// bound is exceeded.
pub open spec fn push_evict(s: Seq<LineModel>, l: LineModel, capacity: int) -> Seq<LineModel> {
    let grown = s.push(l);
    if grown.len() > capacity {
        grown.drop_first()
    } else {
        grown
    }
}

/// A bounded FIFO of annotated lines with a fixed capacity; pushing beyond
/// the capacity evicts the oldest entry.
pub struct ContextBuffer {
    items: VecDeque<AnnotatedLine>,
    capacity: usize,
}

impl View for ContextBuffer {
    type V = Seq<LineModel>;

    closed spec fn view(&self) -> Seq<LineModel> {
        lines_model(self.items@)
    }
}

impl ContextBuffer {
    /// The buffer's fixed capacity.
    pub closed spec fn cap(&self) -> int {
        self.capacity as int
    }

    /// An empty buffer of the given capacity.
    pub fn new(capacity: usize) -> (r: ContextBuffer)
        ensures
            r@ == Seq::<LineModel>::empty(),
            r.cap() == capacity,
    {
        let r = ContextBuffer { items: VecDeque::new(), capacity };
        proof {
            assert(r@ =~= Seq::<LineModel>::empty());
        }
        r
    }

    /// The number of buffered lines.
    pub fn len(&self) -> (r: usize)
        ensures
            r == self@.len(),
    {
        self.items.len()
    }

    /// Appends `line`; when the buffer already holds `cap` lines, the oldest
    /// entry is evicted.
    pub fn push(&mut self, line: AnnotatedLine)
        ensures
            final(self)@ == push_evict(old(self)@, line@, old(self).cap()),
            final(self).cap() == old(self).cap(),
    {
        proof {
            lemma_lines_model_push(self.items@, line);
        }
        self.items.push_back(line);
        if self.items.len() > self.capacity {
            proof {
                lemma_lines_model_drop_first(self.items@);
            }
            self.items.pop_front();
        }
    }

    /// Removes and returns the oldest buffered line.
    pub fn pop_front(&mut self) -> (r: Option<AnnotatedLine>)
        ensures
            final(self).cap() == old(self).cap(),
            match r {
                Some(a) => old(self)@.len() > 0 && a@ == old(self)@[0] && final(self)@ == old(
                    self,
                )@.drop_first(),
                None => old(self)@.len() == 0 && final(self)@ == old(self)@,
            },
    {
        proof {
            if self.items@.len() > 0 {
                lemma_lines_model_drop_first(self.items@);
            }
        }
        self.items.pop_front()
    }

    /// Removes and returns all buffered lines in insertion order (oldest
    /// first), leaving the buffer empty.
    pub fn drain_all(&mut self) -> (r: Vec<AnnotatedLine>)
        ensures
            lines_model(r@) == old(self)@,
            final(self)@ == Seq::<LineModel>::empty(),
            final(self).cap() == old(self).cap(),
    {
        let ghost orig: Seq<LineModel> = self@;
        let ghost orig_cap: int = self.cap();
        let mut out: Vec<AnnotatedLine> = Vec::new();
        proof {
            assert(lines_model(out@) + self@ =~= orig);
        }
        while self.items.len() > 0
            invariant
                lines_model(out@) + self@ == orig,
                self.cap() == orig_cap,
            decreases self.items@.len(),
        {
            proof {
                lemma_lines_model_drop_first(self.items@);
            }
            let a = self.items.pop_front().unwrap();
            proof {
                lemma_lines_model_push(out@, a);
                assert(lines_model(out@).push(a@) + self@ =~= lines_model(out@) + (seq![a@]
                    + self@));
            }
            out.push(a);
        }
        proof {
            assert(self@ =~= Seq::<LineModel>::empty());
            assert(lines_model(out@) =~= lines_model(out@) + self@);
        }
        out
    }
}

} // verus!
