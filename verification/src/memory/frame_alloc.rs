//! Physical frame allocator.
use vstd::prelude::*;
use super::addresses::PhysPageNum;

verus! {

/// A stack frame allocator: it hands out the pages of `[current, end)` in order,
/// and keeps the pages given back in a stack that it serves first.
pub struct StackFrameAllocator {
    pub current: PhysPageNum,
    pub end: PhysPageNum,
    pub freed: Vec<PhysPageNum>,
}

/// The page numbers of a stack of freed pages.
pub open spec fn ppns(s: Seq<PhysPageNum>) -> Seq<usize> {
    s.map_values(|p: PhysPageNum| p.0)
}

impl StackFrameAllocator {
    /// Every freed page lies below `current`, and no page was freed twice.
    pub open spec fn wf(&self) -> bool {
        &&& forall|i: int| 0 <= i < self.freed@.len() ==> (#[trigger] self.freed@[i]).0 < self.current.0
        &&& ppns(self.freed@).no_duplicates()
    }

    /// Whether `free` takes `p` back: it lies below `current` and was not given
    /// back already.
    pub open spec fn may_free(&self, p: PhysPageNum) -> bool {
        p.0 < self.current.0 && !ppns(self.freed@).contains(p.0)
    }

    /// The pages that a call of `alloc_page` may still hand out.
    pub open spec fn free_pages(&self) -> Set<usize> {
        ppns(self.freed@).to_set().union(Set::new(|p: usize| self.current.0 <= p < self.end.0))
    }

    /// An allocator for the pages of `[start, stop)`.
    pub fn new(start: PhysPageNum, stop: PhysPageNum) -> (r: Self)
        ensures
            r.wf(),
            r.current == start,
            r.end == stop,
            r.freed@.len() == 0,
    {
        StackFrameAllocator { current: start, end: stop, freed: Vec::new() }
    }

    /// Hands out a page: the last one given back, else the next unused one, else
    /// `None` when the managed range is used up.
    pub fn alloc_page(&mut self) -> (r: Option<PhysPageNum>)
        requires
            old(self).wf(),
        ensures
            final(self).wf(),
            final(self).end == old(self).end,
            old(self).freed@.len() > 0 ==> {
                &&& r == Some(old(self).freed@.last())
                &&& final(self).freed@ == old(self).freed@.drop_last()
                &&& final(self).current == old(self).current
            },
            old(self).freed@.len() == 0 && old(self).current.0 < old(self).end.0 ==> {
                &&& r == Some(old(self).current)
                &&& final(self).current.0 == old(self).current.0 + 1
                &&& final(self).freed@.len() == 0
            },
            old(self).freed@.len() == 0 && old(self).current.0 >= old(self).end.0 ==> {
                &&& r is None
                &&& final(self).freed@ == old(self).freed@
                &&& final(self).current == old(self).current
            },
            r matches Some(p) ==> old(self).free_pages().contains(p.0) && final(self).free_pages()
                == old(self).free_pages().remove(p.0),
            r is None ==> old(self).free_pages().is_empty(),
    {
        let ghost old_self = *self;
        if let Some(free_frame) = self.freed.pop() {
            proof {
                let s = old_self.freed@;
                let n = s.len() - 1;
                assert(s == s.drop_last().push(s.last()));
                assert(ppns(s) == ppns(s.drop_last()).push(s.last().0));
                assert(ppns(s)[n] == s.last().0);
                assert(ppns(s).contains(s.last().0));
                assert forall|i: int| 0 <= i < ppns(s.drop_last()).len() implies ppns(
                    s.drop_last(),
                )[i] != s.last().0 by {
                    assert(ppns(s)[i] == ppns(s.drop_last())[i]);
                }
                assert(ppns(s).to_set() == ppns(s.drop_last()).to_set().insert(s.last().0)) by {
                    assert forall|x: usize| #[trigger] ppns(s).to_set().contains(x) <==> ppns(
                        s.drop_last(),
                    ).to_set().insert(s.last().0).contains(x) by {
                        if ppns(s).contains(x) {
                            let i = choose|i: int| 0 <= i < ppns(s).len() && ppns(s)[i] == x;
                            if i < n {
                                assert(ppns(s.drop_last())[i] == x);
                            }
                        }
                        if ppns(s.drop_last()).contains(x) {
                            let i = choose|i: int|
                                0 <= i < ppns(s.drop_last()).len() && ppns(s.drop_last())[i] == x;
                            assert(ppns(s)[i] == x);
                        }
                    }
                }
                assert(!ppns(s.drop_last()).to_set().contains(s.last().0));
                assert(ppns(s.drop_last()) =~= ppns(s).subrange(0, n));
                assert forall|i: int, j: int|
                    0 <= i < j < ppns(s.drop_last()).len() implies ppns(s.drop_last())[i] != ppns(
                        s.drop_last(),
                    )[j] by {
                    assert(ppns(s)[i] != ppns(s)[j]);
                }
                assert forall|i: int| 0 <= i < self.freed@.len() implies (
                #[trigger] self.freed@[i]).0 < self.current.0 by {
                    assert(self.freed@[i] == s[i]);
                }
                assert(self.free_pages() =~= old_self.free_pages().remove(free_frame.0));
            }
            return Some(free_frame);
        } else if self.current.0 < self.end.0 {
            self.current = PhysPageNum(self.current.0 + 1);
            proof {
                assert(ppns(self.freed@) =~= Seq::<usize>::empty());
                assert(ppns(old_self.freed@) =~= Seq::<usize>::empty());
                assert(self.free_pages() =~= old_self.free_pages().remove(old_self.current.0));
            }
            return Some(PhysPageNum(self.current.0 - 1));
        } else {
            proof {
                assert(ppns(self.freed@) =~= Seq::<usize>::empty());
                assert(self.free_pages() =~= Set::<usize>::empty());
            }
            return None;
        }
    }

    /// Hands out `size_in_pages` consecutive unused pages, the first of which is
    /// returned, or `None` when fewer remain; the freed stack is not consulted.
    pub fn alloc_continuous(&mut self, size_in_pages: usize) -> (r: Option<PhysPageNum>)
        requires
            old(self).wf(),
        ensures
            final(self).wf(),
            final(self).end == old(self).end,
            final(self).freed == old(self).freed,
            old(self).current.0 + size_in_pages <= old(self).end.0 ==> {
                &&& r == Some(old(self).current)
                &&& final(self).current.0 == old(self).current.0 + size_in_pages
            },
            !(old(self).current.0 + size_in_pages <= old(self).end.0) ==> {
                &&& r is None
                &&& final(self).current == old(self).current
            },
    {
        if self.current.0 <= self.end.0 && size_in_pages <= self.end.0 - self.current.0 {
            self.current = PhysPageNum(self.current.0 + size_in_pages);
            return Some(PhysPageNum(self.current.0 - size_in_pages));
        } else {
            return None;
        }
    }

    /// Takes a page back. A page at or above `current`, or one already given back,
    /// is refused and nothing changes.
    pub fn free(&mut self, to_free: PhysPageNum)
        requires
            old(self).wf(),
        ensures
            final(self).wf(),
            old(self).may_free(to_free) ==> final(self).freed@ == old(self).freed@.push(to_free),
            !old(self).may_free(to_free) ==> final(self).freed@ == old(self).freed@,
            final(self).current == old(self).current,
            final(self).end == old(self).end,
            old(self).may_free(to_free) ==> final(self).free_pages() == old(self).free_pages().insert(
                to_free.0,
            ),
    {
        if to_free.0 >= self.current.0 {
            return;
        }
        let mut i: usize = 0;
        while i < self.freed.len()
            invariant
                i <= self.freed@.len(),
                forall|j: int| 0 <= j < i ==> (#[trigger] self.freed@[j]).0 != to_free.0,
                self.wf(),
                *self == *old(self),
                to_free.0 < self.current.0,
            decreases self.freed@.len() - i,
        {
            if self.freed[i].0 == to_free.0 {
                proof {
                    assert(ppns(self.freed@)[i as int] == to_free.0);
                }
                return;
            }
            i = i + 1;
        }
        let ghost old_freed = self.freed@;
        proof {
            assert forall|j: int| 0 <= j < ppns(old_freed).len() implies ppns(old_freed)[j]
                != to_free.0 by {
                assert(old_freed[j].0 != to_free.0);
            }
        }
        self.freed.push(to_free);
        proof {
            assert(ppns(self.freed@) =~= ppns(old_freed).push(to_free.0));
            assert(ppns(self.freed@).to_set() =~= ppns(old_freed).to_set().insert(to_free.0)) by {
                assert forall|x: usize| #[trigger] ppns(self.freed@).to_set().contains(x) <==> ppns(
                    old_freed,
                ).to_set().insert(to_free.0).contains(x) by {
                    if ppns(self.freed@).contains(x) {
                        let k = choose|k: int|
                            0 <= k < ppns(self.freed@).len() && ppns(self.freed@)[k] == x;
                        if k < old_freed.len() {
                            assert(ppns(old_freed)[k] == x);
                        }
                    }
                    if ppns(old_freed).contains(x) {
                        let k = choose|k: int|
                            0 <= k < ppns(old_freed).len() && ppns(old_freed)[k] == x;
                        assert(ppns(self.freed@)[k] == x);
                    }
                    if x == to_free.0 {
                        assert(ppns(self.freed@)[old_freed.len() as int] == x);
                    }
                }
            }
            assert(self.free_pages() =~= old(self).free_pages().insert(to_free.0));
        }
    }
}

/// A page that `free` took back is the one the next `alloc_page` hands out: after
/// `free` the freed stack ends with it, and `alloc_page` serves the end of that stack.
pub proof fn lemma_free_then_alloc(a0: StackFrameAllocator, a1: StackFrameAllocator, p: PhysPageNum)
    requires
        a0.wf(),
        a0.may_free(p),
        a1.freed@ == a0.freed@.push(p),
    ensures
        a1.freed@.len() > 0,
        a1.freed@.last() == p,
{
}

/// No page is handed out twice while it is held: a page that `alloc_page` handed out is
/// no longer among the free pages, so a later `alloc_page` (with no `free` in between)
/// hands out a different page.
pub proof fn lemma_alloc_distinct(
    a0: StackFrameAllocator,
    a1: StackFrameAllocator,
    p: usize,
    q: usize,
)
    requires
        a0.free_pages().contains(p),
        a1.free_pages() == a0.free_pages().remove(p),
        a1.free_pages().contains(q),
    ensures
        p != q,
{
}

} // verus!
