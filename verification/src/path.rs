//! Absolute paths: sequences of key segments addressing one node of the tree.

use vstd::prelude::*;

verus! {

/// A path through the tree: a sequence of key segments, viewed as a sequence
/// of character sequences.
#[derive(Debug, PartialEq)]
pub struct Path {
    pub segs: Vec<String>,
}

/// Relates the two levels at which a segment vector can be read: as a
/// sequence of strings and as a sequence of character sequences.
pub proof fn lemma_segs_view(v: Vec<String>)
    ensures
        v.deep_view().len() == v@.len(),
        forall|i: int| 0 <= i < v@.len() ==> #[trigger] v.deep_view()[i] == v@[i]@,
{
}

impl View for Path {
    type V = Seq<Seq<char>>;

    open spec fn view(&self) -> Seq<Seq<char>> {
        self.segs.deep_view()
    }
}

impl Clone for Path {
    fn clone(&self) -> (r: Path)
        ensures
            r@ == self@,
            r.segs@ == self.segs@,
    {
        let segs = self.segs.clone();
        proof {
            assert forall|i: int| 0 <= i < self.segs@.len() implies segs@[i] == self.segs@[i] by {
                assert(cloned::<String>(self.segs[i], segs[i]));
            }
            assert(segs@ =~= self.segs@);
        }
        Path { segs }
    }
}

impl Path {
    /// The empty path: the root of the tree.
    pub fn empty() -> (r: Path)
        ensures
            r@ == Seq::<Seq<char>>::empty(),
            r.segs@ == Seq::<String>::empty(),
    {
        let r = Path { segs: Vec::new() };
        proof {
            assert(r@ =~= Seq::<Seq<char>>::empty());
        }
        r
    }

    /// A path made of the given segments.
    pub fn new(segs: Vec<String>) -> (r: Path)
        ensures
            r.segs@ == segs@,
    {
        Path { segs }
    }

    /// Number of segments.
    pub fn len(&self) -> (r: usize)
        ensures
            r == self@.len(),
    {
        self.segs.len()
    }

    /// Appends one segment.
    pub fn push(&mut self, seg: &String)
        ensures
            final(self)@ == old(self)@.push(seg@),
            final(self).segs@ == old(self).segs@.push(*seg),
    {
        self.segs.push(seg.clone());
        proof {
            assert(self@ =~= old(self)@.push(seg@));
        }
    }

    /// Removes the last segment, if any.
    pub fn pop(&mut self)
        ensures
            old(self)@.len() == 0 ==> *final(self) == *old(self),
            old(self)@.len() > 0 ==> final(self).segs@ == old(self).segs@.take(
                old(self).segs@.len() - 1,
            ),
            old(self)@.len() > 0 ==> final(self)@ == old(self)@.take(old(self)@.len() - 1),
    {
        if self.segs.len() > 0 {
            self.segs.pop();
            proof {
                assert(self.segs@ =~= old(self).segs@.take(old(self).segs@.len() - 1));
                assert forall|j: int| 0 <= j < self@.len() implies self@[j] == old(self)@.take(
                    old(self)@.len() - 1,
                )[j] by {
                    assert(self.segs@[j] == old(self).segs@[j]);
                }
                assert(self@ =~= old(self)@.take(old(self)@.len() - 1));
            }
        }
    }

    /// The remainder of the path starting at segment `pos`; the whole path
    /// when `pos` is past the end is empty.
    pub fn slice(&self, pos: usize) -> (r: Path)
        ensures
            pos <= self@.len() ==> r.segs@ == self.segs@.skip(pos as int) && r@ == self@.skip(
                pos as int,
            ),
            pos > self@.len() ==> r.segs@ == Seq::<String>::empty() && r@ == Seq::<
                Seq<char>,
            >::empty(),
    {
        let mut segs: Vec<String> = Vec::new();
        let mut i: usize = pos;
        while i < self.segs.len()
            invariant
                pos <= i,
                i <= self.segs.len() || i == pos,
                pos <= self.segs.len() ==> segs@ =~= self.segs@.subrange(pos as int, i as int),
                pos > self.segs.len() ==> segs@ =~= Seq::<String>::empty(),
            decreases self.segs.len() - i,
        {
            let s = self.segs[i].clone();
            segs.push(s);
            proof {
                assert(segs@ =~= self.segs@.subrange(pos as int, i + 1));
            }
            i = i + 1;
        }
        let r = Path { segs };
        proof {
            lemma_segs_view(r.segs);
            lemma_segs_view(self.segs);
            if pos <= self@.len() {
                assert(r.segs@ =~= self.segs@.skip(pos as int));
                assert(r@ =~= self@.skip(pos as int));
            } else {
                assert(r@ =~= Seq::<Seq<char>>::empty());
            }
        }
        r
    }
}

} // verus!
