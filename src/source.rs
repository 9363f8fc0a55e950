//! The line sequence that every reader consumes, and an in-memory source of it.
use std::collections::VecDeque;
use vstd::prelude::*;

verus! {

/// An I/O failure reported by a line source; carried through unchanged.
#[verifier::external_type_specification]
#[verifier::external_body]
pub struct ExIoError(std::io::Error);

/// One element of a line sequence: a line with its terminator stripped, or a failure.
pub type LineItem = std::io::Result<String>;

/// A single-pass producer of lines or failures.
///
/// `pending` is the model of the source: the elements it will still hand out,
/// in order. Each call of `next_line` consumes the first of them, or reports
/// the end once none is left.
pub trait LineSource {
    spec fn pending(&self) -> Seq<LineItem>;

    fn next_line(&mut self) -> (r: Option<LineItem>)
        ensures
            old(self).pending().len() == 0 ==> r is None && final(self).pending()
                == old(self).pending(),
            old(self).pending().len() > 0 ==> r == Some(old(self).pending()[0])
                && final(self).pending() == old(self).pending().drop_first(),
    ;
}

/// A line source over elements held in memory.
pub struct LineBuffer {
    items: VecDeque<LineItem>,
}

impl LineBuffer {
    /// A source with nothing in it.
    pub fn new() -> (r: LineBuffer)
        ensures
            r.pending() == Seq::<LineItem>::empty(),
    {
        LineBuffer { items: VecDeque::new() }
    }

    /// A source that hands out `items` in order.
    pub fn from_items(items: Vec<LineItem>) -> (r: LineBuffer)
        ensures
            r.pending() == items@,
    {
        let mut items = items;
        let ghost all = items@;
        let mut queue: VecDeque<LineItem> = VecDeque::new();
        while items.len() > 0
            invariant
                items@ + queue@ == all,
            decreases items.len(),
        {
            let item = items.pop().unwrap();
            queue.push_front(item);
            assert(items@ + queue@ =~= all);
        }
        assert(queue@ =~= all);
        LineBuffer { items: queue }
    }

    /// Appends one element at the end of the source.
    pub fn push(&mut self, item: LineItem)
        ensures
            final(self).pending() == old(self).pending().push(item),
    {
        self.items.push_back(item);
    }
}

impl LineSource for LineBuffer {
    closed spec fn pending(&self) -> Seq<LineItem> {
        self.items@
    }

    fn next_line(&mut self) -> (r: Option<LineItem>) {
        let r = self.items.pop_front();
        proof {
            if old(self).items@.len() > 0 {
                assert(self.items@ =~= old(self).items@.drop_first());
            }
        }
        r
    }
}

} // verus!
