//! A sliding FIFO window over an indexed point stream.
use vstd::prelude::*;

verus! {

/// What happened to the window on one arrival: the item was queued while
/// filling, or it displaced the oldest item, which is handed back.
pub enum WindowUpdate {
    Insert,
    Replace((usize, Vec<i64>)),
}

/// A FIFO buffer of the last `w` indexed points.
pub struct Window {
    pub buf: Vec<(usize, Vec<i64>)>,
    pub w: usize,
}

impl Window {
    pub open spec fn wf(&self) -> bool {
        &&& self.w >= 1
        &&& self.buf@.len() <= self.w
    }

    pub fn new(w: usize) -> (r: Self)
        requires
            w >= 1,
        ensures
            r.w == w,
            r.buf@.len() == 0,
            r.wf(),
    {
        Window { buf: Vec::new(), w }
    }

    /// Accepts one item: queued while the buffer is filling; once full, the
    /// oldest item is evicted and returned.
    pub fn push(&mut self, item: (usize, Vec<i64>)) -> (u: WindowUpdate)
        requires
            old(self).wf(),
        ensures
            final(self).wf(),
            final(self).w == old(self).w,
            old(self).buf@.len() < old(self).w ==> u is Insert && final(self).buf@ == old(
                self,
            ).buf@.push(item),
            old(self).buf@.len() == old(self).w ==> u == WindowUpdate::Replace(old(self).buf@[0])
                && final(self).buf@ == old(self).buf@.subrange(1, old(self).w as int).push(item),
    {
        if self.buf.len() < self.w {
            self.buf.push(item);
            WindowUpdate::Insert
        } else {
            let oldest = self.buf.remove(0);
            self.buf.push(item);
            proof {
                assert(self.buf@ =~= old(self).buf@.subrange(1, old(self).w as int).push(item));
            }
            WindowUpdate::Replace(oldest)
        }
    }
}

} // verus!
