use vstd::prelude::*;

verus! {

/// The free list of one size class: the start addresses of its free blocks.
///
/// The list behaves as a stack: `push` puts a block at the head and `pop`
/// takes the head, so the last block pushed is the first one handed out.
/// Any node can also be unlinked in place, which buddy coalescing needs.
#[derive(Debug)]
pub struct FreeList {
    nodes: Vec<usize>,
}

impl View for FreeList {
    type V = Seq<usize>;

    /// The addresses in the list, oldest first; the head is the last element.
    closed spec fn view(&self) -> Seq<usize> {
        self.nodes@
    }
}

impl FreeList {
    /// An empty list.
    pub fn new() -> (l: FreeList)
        ensures
            l@ == Seq::<usize>::empty(),
    {
        FreeList { nodes: Vec::new() }
    }

    pub fn is_empty(&self) -> (b: bool)
        ensures
            b == (self@.len() == 0),
    {
        self.nodes.len() == 0
    }

    /// Links the block at `addr` in as the new head.
    pub fn push(&mut self, addr: usize)
        ensures
            final(self)@ == old(self)@.push(addr),
    {
        self.nodes.push(addr);
    }

    /// Unlinks and returns the head, if any.
    pub fn pop(&mut self) -> (r: Option<usize>)
        ensures
            old(self)@.len() == 0 ==> r is None && final(self)@ == old(self)@,
            old(self)@.len() > 0 ==> r == Some(old(self)@.last()) && final(self)@
                == old(self)@.drop_last(),
    {
        self.nodes.pop()
    }

    /// The index of a node holding `addr`, searching from the head.
    pub fn find(&self, addr: usize) -> (r: Option<usize>)
        ensures
            r matches Some(i) ==> i < self@.len() && self@[i as int] == addr && forall|j: int|
                i < j < self@.len() ==> self@[j] != addr,
            r is None ==> !self@.contains(addr),
    {
        let n = self.nodes.len();
        let mut i: usize = n;
        while i > 0
            invariant
                n == self@.len(),
                i <= n,
                forall|j: int| i <= j < n ==> self@[j] != addr,
            decreases i,
        {
            i = i - 1;
            if self.nodes[i] == addr {
                return Some(i);
            }
        }
        None
    }

    /// Unlinks the node at index `i` and returns its address.
    pub fn remove(&mut self, i: usize) -> (a: usize)
        requires
            i < old(self)@.len(),
        ensures
            a == old(self)@[i as int],
            final(self)@ == old(self)@.remove(i as int),
    {
        self.nodes.remove(i)
    }

    /// The addresses in the list, head first.
    pub fn to_vec(&self) -> (v: Vec<usize>)
        ensures
            v@ == self@.reverse(),
    {
        let n = self.nodes.len();
        let mut v: Vec<usize> = Vec::new();
        let mut i: usize = n;
        while i > 0
            invariant
                n == self@.len(),
                i <= n,
                v@ == self@.subrange(i as int, n as int).reverse(),
            decreases i,
        {
            i = i - 1;
            v.push(self.nodes[i]);
            assert(self@.subrange(i as int, n as int) =~= seq![self@[i as int]] + self@.subrange(
                i + 1,
                n as int,
            ));
        }
        assert(self@.subrange(0, n as int) =~= self@);
        v
    }
}

} // verus!
