//! The shingle adaptor: a sliding concatenation of the last `s` input
//! vectors.  One output is emitted per input once the first `s - 1` inputs
//! have been buffered.
use vstd::prelude::*;

verus! {

/// Concatenation of a sequence of vectors, in order.
pub open spec fn concat_of(bufs: Seq<Vec<i64>>) -> Seq<i64>
    decreases bufs.len(),
{
    if bufs.len() == 0 {
        Seq::empty()
    } else {
        concat_of(bufs.drop_last()) + bufs.last()@
    }
}

/// A ring of the last `s` input vectors.
pub struct Shingle {
    pub buf: Vec<Vec<i64>>,
    pub s: usize,
}

impl Shingle {
    pub open spec fn wf(&self) -> bool {
        &&& self.s >= 1
        &&& self.buf@.len() <= self.s
    }

    pub fn new(s: usize) -> (r: Self)
        requires
            s >= 1,
        ensures
            r.s == s,
            r.buf@.len() == 0,
            r.wf(),
    {
        Shingle { buf: Vec::new(), s }
    }

    /// Accepts one vector; once `s` are buffered, emits their
    /// concatenation, oldest first, and slides the ring by one.
    pub fn push(&mut self, x: Vec<i64>) -> (r: Option<Vec<i64>>)
        requires
            old(self).wf(),
            concat_of(old(self).buf@.push(x)).len() <= usize::MAX,
        ensures
            final(self).wf(),
            final(self).s == old(self).s,
            old(self).buf@.len() + 1 < old(self).s ==> r is None && final(self).buf@ == old(
                self,
            ).buf@.push(x),
            old(self).buf@.len() + 1 == old(self).s ==> final(self).buf@ == old(self).buf@.push(x),
            old(self).buf@.len() + 1 == old(self).s || old(self).buf@.len() == old(self).s
                ==> r is Some && r->Some_0@ == concat_of(final(self).buf@),
            old(self).buf@.len() == old(self).s ==> final(self).buf@ == old(self).buf@.subrange(
                1,
                old(self).s as int,
            ).push(x),
    {
        if self.buf.len() == self.s {
            let ghost pre = self.buf@;
            let dropped = self.buf.remove(0);
            proof {
                lemma_concat_prefix(pre.push(x), dropped@.len() as int);
                assert(pre.push(x).subrange(1, pre.push(x).len() as int) =~= pre.subrange(
                    1,
                    pre.len() as int,
                ).push(x));
            }
        }
        self.buf.push(x);
        if self.buf.len() == self.s {
            Option::Some(concat_buffer(&self.buf))
        } else {
            Option::None
        }
    }
}

/// Dropping the head of a buffer only shortens the concatenation.
proof fn lemma_concat_prefix(bufs: Seq<Vec<i64>>, head_len: int)
    requires
        bufs.len() >= 1,
    ensures
        concat_of(bufs.subrange(1, bufs.len() as int)).len() <= concat_of(bufs).len(),
    decreases bufs.len(),
{
    if bufs.len() == 1 {
        assert(bufs.subrange(1, 1) =~= Seq::<Vec<i64>>::empty());
    } else {
        assert(bufs.subrange(1, bufs.len() as int).drop_last() =~= bufs.drop_last().subrange(
            1,
            bufs.len() - 1,
        ));
        assert(bufs.subrange(1, bufs.len() as int).last() == bufs.last());
        lemma_concat_prefix(bufs.drop_last(), head_len);
    }
}

/// A prefix never concatenates to more than the whole.
proof fn lemma_concat_take_le(bufs: Seq<Vec<i64>>, i: int)
    requires
        0 <= i <= bufs.len(),
    ensures
        concat_of(bufs.take(i)).len() <= concat_of(bufs).len(),
    decreases bufs.len() - i,
{
    if i == bufs.len() {
        assert(bufs.take(i) =~= bufs);
    } else {
        assert(bufs.take(i + 1).drop_last() =~= bufs.take(i));
        assert(bufs.take(i + 1).last() == bufs[i]);
        lemma_concat_take_le(bufs, i + 1);
    }
}

/// The concatenation of the buffered vectors, oldest first.
fn concat_buffer(bufs: &Vec<Vec<i64>>) -> (r: Vec<i64>)
    requires
        concat_of(bufs@).len() <= usize::MAX,
    ensures
        r@ == concat_of(bufs@),
{
    let ghost s = bufs@;
    let mut r: Vec<i64> = Vec::new();
    let mut i: usize = 0;
    proof {
        assert(s.take(0) =~= Seq::<Vec<i64>>::empty());
    }
    while i < bufs.len()
        invariant
            s == bufs@,
            concat_of(s).len() <= usize::MAX,
            0 <= i <= s.len(),
            r@ == concat_of(s.take(i as int)),
        decreases s.len() - i,
    {
        proof {
            assert(s.take(i + 1).drop_last() =~= s.take(i as int));
            assert(s.take(i + 1).last() == s[i as int]);
            lemma_concat_take_le(s, i as int + 1);
        }
        let mut j: usize = 0;
        while j < bufs[i].len()
            invariant
                s == bufs@,
                0 <= i < s.len(),
                0 <= j <= s[i as int]@.len(),
                concat_of(s.take(i + 1)).len() <= usize::MAX,
                concat_of(s.take(i + 1)) == concat_of(s.take(i as int)) + s[i as int]@,
                r@ == concat_of(s.take(i as int)) + s[i as int]@.take(j as int),
            decreases s[i as int]@.len() - j,
        {
            let v: i64 = bufs[i][j];
            r.push(v);
            proof {
                assert(concat_of(s.take(i as int)) + s[i as int]@.take(j + 1) =~= (concat_of(
                    s.take(i as int),
                ) + s[i as int]@.take(j as int)).push(v));
            }
            j += 1;
        }
        proof {
            assert(s[i as int]@.take(s[i as int]@.len() as int) =~= s[i as int]@);
        }
        i += 1;
    }
    proof {
        assert(s.take(s.len() as int) =~= s);
    }
    r
}

} // verus!
