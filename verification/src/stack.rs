//! A persistent stack built from fixed-capacity chunks linked through shared
//! ownership. Mutation only ever touches the exclusively owned `current`
//! chunk; older, full chunks live in an immutable, reference-counted chain,
//! so cloning a whole stack costs at most one chunk copy.
use std::rc::Rc;
use vstd::prelude::*;

verus! {

/// A chunked persistent stack holding values of type `T`, with chunk
/// capacity `B`.
///
/// `current` is the exclusively owned, mutable chunk (at most `B` values,
/// top at its end). `prev` links to an immutable chain of full chunks shared
/// with every handle cloned from a common ancestor; a node of that chain is
/// itself a stack value whose `current` chunk is full and never mutated.
pub struct PStack<T, const B: usize> {
    prev: Option<Rc<PStack<T, B>>>,
    current: Vec<T>,
}

impl<T, const B: usize> PStack<T, B> {
    /// The logical contents of the stack, oldest value first, top last:
    /// the chain's values followed by the current chunk's.
    pub closed spec fn contents(&self) -> Seq<T>
        decreases self,
    {
        match self.prev {
            Option::Some(p) => (*p).contents() + self.current@,
            Option::None => self.current@,
        }
    }

    /// Well-formed: the capacity is positive, the current chunk holds at
    /// most `B` values, and every chunk on the shared chain is full.
    pub closed spec fn wf(&self) -> bool
        decreases self,
    {
        &&& 0 < B
        &&& self.current@.len() <= B
        &&& match self.prev {
            Option::Some(p) => (*p).wf() && (*p).current@.len() == B,
            Option::None => true,
        }
    }
}

impl<T, const B: usize> View for PStack<T, B> {
    type V = Seq<T>;

    closed spec fn view(&self) -> Seq<T> {
        self.contents()
    }
}

impl<T, const B: usize> PStack<T, B> {
    /// An empty stack: empty current chunk, no chain.
    pub fn new() -> (s: Self)
        requires
            0 < B,
        ensures
            s.wf(),
            s@ == Seq::<T>::empty(),
    {
        PStack { prev: None, current: Vec::new() }
    }

    /// Append `value` on top. If the current chunk is full, it is first
    /// folded, together with the existing chain link, into a new immutable
    /// chain node, and a fresh empty chunk becomes current; so the cost is
    /// one chunk allocation every `B` pushes.
    pub fn push(&mut self, value: T)
        requires
            old(self).wf(),
        ensures
            final(self).wf(),
            final(self)@ == old(self)@.push(value),
    {
        if self.current.len() == B {
            let folded_prev = self.prev.take();
            let mut full_chunk: Vec<T> = Vec::new();
            core::mem::swap(&mut full_chunk, &mut self.current);
            let node = PStack { prev: folded_prev, current: full_chunk };
            proof {
                assert(node == *old(self));
            }
            self.prev = Some(Rc::new(node));
            proof {
                assert(self.contents() =~= old(self)@);
            }
        }
        self.current.push(value);
        proof {
            assert(self.contents() =~= old(self)@.push(value));
        }
    }
}

/// An element-for-element copy of a chunk. Promotion duplicates a shared
/// chunk into the exclusively owned slot, which is why `T` must be `Copy`.
fn chunk_copy<T: Copy>(src: &Vec<T>) -> (dst: Vec<T>)
    ensures
        dst@ == src@,
{
    let mut dst: Vec<T> = Vec::new();
    let mut i: usize = 0;
    while i < src.len()
        invariant
            i <= src.len(),
            dst@ == src@.subrange(0, i as int),
        decreases src.len() - i,
    {
        dst.push(src[i]);
        proof {
            assert(dst@ =~= src@.subrange(0, i + 1));
        }
        i = i + 1;
    }
    proof {
        assert(dst@ =~= src@);
    }
    dst
}

impl<T: Copy, const B: usize> PStack<T, B> {
    /// Remove and return the top value, or `None` on the empty stack.
    /// When the current chunk is empty, the most recent chain node's chunk
    /// is first copied back into the current slot and the chain advanced
    /// past it, so the chain node itself is never mutated.
    pub fn pop(&mut self) -> (r: Option<T>)
        requires
            old(self).wf(),
        ensures
            final(self).wf(),
            old(self)@.len() == 0 ==> r is None && *final(self) == *old(self),
            old(self)@.len() > 0 ==> r == Some(old(self)@.last()) && final(self)@
                == old(self)@.drop_last(),
    {
        if self.current.len() > 0 {
            let r = self.current.pop();
            proof {
                assert(self.contents() =~= old(self)@.drop_last());
                assert(old(self)@.last() == old(self).current@.last());
                assert(self.wf());
            }
            return r;
        }
        let taken = self.prev.take();
        match taken {
            Some(p) => {
                proof {
                    assert((*p).wf() && (*p).current@.len() == B);
                }
                let node: &PStack<T, B> = &*p;
                self.prev = match &node.prev {
                    Some(rc) => Some(rc.clone()),
                    None => None,
                };
                self.current = chunk_copy(&node.current);
                proof {
                    assert(self.contents() =~= (*p).contents());
                    assert(self.contents() =~= old(self)@);
                }
                let r = self.current.pop();
                proof {
                    assert(self.contents() =~= old(self)@.drop_last());
                    assert(self.prev == (*p).prev);
                    let gp = (*p).prev;
                    match gp {
                        Option::Some(q) => {
                            assert((*q).wf() && (*q).current@.len() == B);
                        },
                        Option::None => {},
                    }
                    assert(self.wf());
                }
                r
            },
            None => {
                proof {
                    assert(self.contents() =~= old(self)@);
                    assert(self.wf());
                }
                None
            },
        }
    }

    /// Read-only peek at the top value, or `None` on the empty stack.
    /// When the current chunk is empty the shared chain node's chunk is
    /// read in place: no promotion, no mutation, no allocation.
    pub fn top(&self) -> (r: Option<&T>)
        requires
            self.wf(),
        ensures
            self@.len() == 0 ==> r is None,
            self@.len() > 0 ==> r is Some && *r.unwrap() == self@.last(),
    {
        if self.current.len() > 0 {
            let r = self.current.as_slice().last();
            proof {
                let gp = self.prev;
                match gp {
                    Option::Some(p) => {
                        assert(self.contents() == (*p).contents() + self.current@);
                    },
                    Option::None => {},
                }
            }
            return r;
        }
        match &self.prev {
            Some(p) => {
                let r = p.current.as_slice().last();
                proof {
                    assert((**p).wf() && (**p).current@.len() == B);
                    assert(self.contents() == (**p).contents() + self.current@);
                    let gq = (**p).prev;
                    match gq {
                        Option::Some(q) => {
                            assert((**p).contents() == (*q).contents() + (**p).current@);
                        },
                        Option::None => {},
                    }
                    assert(self.contents() =~= (**p).contents());
                    assert(self@.last() == (**p).current@.last());
                }
                r
            },
            None => None,
        }
    }

    /// Mutable peek at the top value, or `None` on the empty stack.
    /// Unlike `top`, when the current chunk is empty this first promotes
    /// the most recent chain node's chunk into the current slot, exactly as
    /// `pop` does: in-place mutation is only ever safe on the exclusively
    /// owned chunk, never on a shared chain node.
    pub fn top_mut(&mut self) -> (r: Option<&mut T>)
        requires
            old(self).wf(),
        ensures
            old(self)@.len() == 0 ==> r is None && *final(self) == *old(self),
            old(self)@.len() > 0 ==> r is Some && *r.unwrap() == old(self)@.last()
                && final(self).wf()
                && final(self)@ == old(self)@.update(
                    old(self)@.len() - 1,
                    *final(r.unwrap()),
                ),
    {
        if self.current.len() == 0 {
            let taken = self.prev.take();
            match taken {
                Some(p) => {
                    proof {
                        assert((*p).wf() && (*p).current@.len() == B);
                    }
                    let node: &PStack<T, B> = &*p;
                    self.prev = match &node.prev {
                        Some(rc) => Some(rc.clone()),
                        None => None,
                    };
                    self.current = chunk_copy(&node.current);
                    proof {
                        assert(self.contents() =~= (*p).contents());
                        assert(self.contents() =~= old(self)@);
                        assert(self.wf());
                    }
                },
                None => {
                    proof {
                        assert(self.contents() =~= old(self)@);
                        assert(self.wf());
                    }
                    return None;
                },
            }
        }
        let i: usize = self.current.len() - 1;
        proof {
            let pre = *self;
            assert(pre.wf());
            assert(pre.contents() == old(self)@);
            let gp = pre.prev;
            match gp {
                Option::Some(p2) => {
                    assert(pre.contents() == (*p2).contents() + pre.current@);
                    assert((*p2).wf() && (*p2).current@.len() == B);
                    let a = (*p2).contents();
                    let b = pre.current@;
                    assert forall|x: T|
                        old(self)@.update(old(self)@.len() - 1, x) == a + b.update(
                            i as int,
                            x,
                        ) by {
                        assert(old(self)@.update(old(self)@.len() - 1, x) =~= a + b.update(
                            i as int,
                            x,
                        ));
                    }
                },
                Option::None => {
                    assert(pre.contents() == pre.current@);
                },
            }
        }
        Some(&mut self.current[i])
    }
}

impl<T: Copy, const B: usize> Clone for PStack<T, B> {
    /// Duplicate the handle: the current chunk is copied element for
    /// element (at most `B` values), while the chain link is shared by a
    /// reference-count increment, so no chain data is copied. The clone
    /// holds exactly the contents the source held at this moment, and the
    /// two handles are independent from here on: mutation through either
    /// never shows through the other.
    fn clone(&self) -> (res: Self)
        ensures
            res@ == self@,
            self.wf() ==> res.wf(),
    {
        let res = PStack {
            prev: match &self.prev {
                Some(rc) => Some(rc.clone()),
                None => None,
            },
            current: chunk_copy(&self.current),
        };
        proof {
            assert(res.contents() =~= self.contents());
            if self.wf() {
                assert(res.wf());
            }
        }
        res
    }
}

impl<T, const B: usize> Default for PStack<T, B> {
    fn default() -> (s: Self)
        ensures
            s@ == Seq::<T>::empty(),
            0 < B ==> s.wf(),
    {
        PStack { prev: None, current: Vec::new() }
    }
}

/// The values that popping a stack with contents `s` down to empty
/// returns, in pop order: the top value first. By `pop`'s contract each
/// pop on a non-empty stack returns the last of the contents and drops it.
pub open spec fn drain<T>(s: Seq<T>) -> Seq<T>
    decreases s.len(),
{
    if s.len() == 0 {
        Seq::empty()
    } else {
        seq![s.last()] + drain(s.drop_last())
    }
}

/// Popping a stack holding `v0, …, vn-1` (oldest first) down to empty
/// returns the values newest first: `vn-1, …, v0`. By `push`'s contract,
/// pushing `v0, …, vn-1` on an empty stack leaves exactly those contents,
/// and by `clone`'s contract a snapshot holds exactly the contents of its
/// source, so a drained snapshot reproduces the source's contents at the
/// moment it was taken, newest first.
pub proof fn lemma_drain_reverses<T>(s: Seq<T>)
    ensures
        drain(s) == s.reverse(),
    decreases s.len(),
{
    if s.len() == 0 {
        assert(drain(s) =~= s.reverse());
    } else {
        lemma_drain_reverses(s.drop_last());
        assert forall|i: int| 0 <= i < s.len() implies (seq![s.last()] + drain(s.drop_last()))[i]
            == s.reverse()[i] by {
            if i > 0 {
                assert(drain(s.drop_last())[i - 1] == s.drop_last().reverse()[i - 1]);
                assert(s.drop_last().reverse()[i - 1] == s.drop_last()[s.len() - 1 - i]);
            }
        }
        assert(drain(s) =~= s.reverse());
    }
}

} // verus!
