use vstd::prelude::*;

use crate::multi_query::chained;

verus! {

/// A series of sequences traversed in a row, the last one first: the order in which a
/// query visits the archetypes it matched.
pub struct ChainedIterator<T> {
    current_iter: Option<Vec<T>>,
    iterators: Vec<Vec<T>>,
}

pub open spec fn views<T>(parts: Seq<Vec<T>>) -> Seq<Seq<T>> {
    Seq::new(parts.len(), |i: int| parts[i]@)
}

impl<T> ChainedIterator<T> {
    /// The items still to come, in order.
    pub closed spec fn view(&self) -> Seq<T> {
        (match self.current_iter {
            Some(c) => c@,
            None => Seq::empty(),
        }) + chained(views(self.iterators@))
    }

    pub fn new(iterators: Vec<Vec<T>>) -> (r: Self)
        ensures
            r@ == chained(views(iterators@)),
    {
        let ghost parts = views(iterators@);
        let mut iterators = iterators;
        let current_iter = iterators.pop();
        let r = Self { current_iter, iterators };
        proof {
            if parts.len() > 0 {
                lemma_chained_last(parts);
                assert(views(r.iterators@) =~= parts.drop_last());
            } else {
                assert(views(r.iterators@) =~= parts);
            }
        }
        r
    }

    /// How many items are still to come, as a lower and an upper bound (both exact).
    pub fn size_hint(&self) -> (r: (usize, Option<usize>))
        requires
            self@.len() <= usize::MAX,
        ensures
            r.0 == self@.len(),
            r.1 == Some(self@.len() as usize),
    {
        let ghost parts = views(self.iterators@);
        let mut total: usize = match &self.current_iter {
            Some(c) => c.len(),
            None => 0,
        };
        let mut i = self.iterators.len();
        assert(parts.subrange(i as int, i as int) =~= Seq::<Seq<T>>::empty());
        while i > 0
            invariant
                i <= self.iterators@.len(),
                parts == views(self.iterators@),
                self@.len() <= usize::MAX,
                total == (match self.current_iter {
                    Some(c) => c@.len(),
                    None => 0,
                }) + chained(parts.subrange(i as int, parts.len() as int)).len(),
            decreases i,
        {
            proof {
                let s = parts.subrange(i - 1, parts.len() as int);
                assert(s.drop_first() =~= parts.subrange(i as int, parts.len() as int));
                assert(s[0] == self.iterators@[i - 1]@);
                lemma_chained_suffix_len(parts, i - 1);
            }
            total = total + self.iterators[i - 1].len();
            i = i - 1;
        }
        assert(parts.subrange(0, parts.len() as int) =~= parts);
        (total, Some(total))
    }

    /// The next item, or `None` once every sequence is exhausted.
    pub fn next(&mut self) -> (r: Option<T>)
        ensures
            old(self)@.len() == 0 ==> r is None && final(self)@ == old(self)@,
            old(self)@.len() > 0 ==> r == Some(old(self)@[0]) && final(self)@ == old(self)@.drop_first(),
    {
        loop
            invariant
                self@ == old(self)@,
            decreases 2 * self.iterators@.len() + (if self.current_iter is Some { 1int } else { 0int }),
        {
            let ghost before = self@;
            let ghost rest = chained(views(self.iterators@));
            match self.current_iter.take() {
                Some(mut cur) => {
                    if cur.len() > 0 {
                        let item = cur.remove(0);
                        self.current_iter = Some(cur);
                        assert(self@ =~= before.drop_first());
                        return Some(item);
                    } else {
                        let ghost parts = views(self.iterators@);
                        self.current_iter = self.iterators.pop();
                        proof {
                            if parts.len() > 0 {
                                lemma_chained_last(parts);
                                assert(views(self.iterators@) =~= parts.drop_last());
                            } else {
                                assert(views(self.iterators@) =~= parts);
                            }
                            assert(self@ =~= before);
                        }
                    }
                },
                None => {
                    let ghost parts = views(self.iterators@);
                    self.current_iter = self.iterators.pop();
                    proof {
                        if parts.len() > 0 {
                            lemma_chained_last(parts);
                            assert(views(self.iterators@) =~= parts.drop_last());
                        } else {
                            assert(views(self.iterators@) =~= parts);
                        }
                        assert(self@ =~= before);
                    }
                    if self.current_iter.is_none() {
                        return None;
                    }
                },
            }
        }
    }
}

/// A suffix of the parts chains to no more items than all of them.
pub proof fn lemma_chained_suffix_len<T>(parts: Seq<Seq<T>>, j: int)
    requires
        0 <= j <= parts.len(),
    ensures
        chained(parts.subrange(j, parts.len() as int)).len() <= chained(parts).len(),
    decreases j,
{
    if j == 0 {
        assert(parts.subrange(0, parts.len() as int) =~= parts);
    } else {
        lemma_chained_suffix_len(parts, j - 1);
        let s = parts.subrange(j - 1, parts.len() as int);
        assert(s.drop_first() =~= parts.subrange(j, parts.len() as int));
    }
}

/// The chained sequence starts with the last part.
pub proof fn lemma_chained_last<T>(parts: Seq<Seq<T>>)
    requires
        parts.len() > 0,
    ensures
        chained(parts) == parts.last() + chained(parts.drop_last()),
    decreases parts.len(),
{
    if parts.len() == 1 {
        assert(parts.drop_first() =~= Seq::<Seq<T>>::empty());
        assert(parts.drop_last() =~= Seq::<Seq<T>>::empty());
        assert(chained(parts) =~= parts.last() + chained(parts.drop_last()));
    } else {
        let rest = parts.drop_first();
        lemma_chained_last(rest);
        assert(rest.last() == parts.last());
        assert(rest.drop_last() =~= parts.drop_last().drop_first());
        assert(parts.drop_last()[0] == parts[0]);
        assert(chained(parts) =~= parts.last() + chained(parts.drop_last()));
    }
}

} // verus!
