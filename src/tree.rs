use vstd::prelude::*;

verus! {

/// One node of a parse tree, stored in its tree's node table.
pub struct SyntaxNode {
    pub start_byte: usize,
    pub end_byte: usize,
    /// Whether the grammar names this node (as opposed to punctuation tokens).
    pub named: bool,
    pub parent: Option<usize>,
    /// Position of this node among its parent's children.
    pub index_in_parent: usize,
    pub children: Vec<usize>,
}

/// A parse tree held as a node table. Node 0 is the root, every node stands
/// after its parent, and children lie in order within their parent's span.
pub struct SyntaxTree {
    pub nodes: Vec<SyntaxNode>,
}

impl SyntaxTree {
    pub open spec fn size(&self) -> int {
        self.nodes@.len() as int
    }

    pub open spec fn children_of(&self, n: int) -> Seq<usize> {
        self.nodes@[n].children@
    }

    pub open spec fn start_of(&self, n: int) -> usize {
        self.nodes@[n].start_byte
    }

    pub open spec fn end_of(&self, n: int) -> usize {
        self.nodes@[n].end_byte
    }

    /// Node `n` (not the root) is listed by its parent where it says.
    pub open spec fn parent_link(&self, n: int) -> bool {
        match self.nodes@[n].parent {
            Some(p) => {
                &&& (p as int) < n
                &&& (self.nodes@[n].index_in_parent as int) < self.children_of(p as int).len()
                &&& self.children_of(p as int)[self.nodes@[n].index_in_parent as int] == n
            },
            None => false,
        }
    }

    /// Child `k` of node `n` points back to `n`, lies within `n`'s span, and
    /// ends at or before the next child starts.
    pub open spec fn child_link(&self, n: int, k: int) -> bool {
        let c = self.children_of(n)[k] as int;
        &&& n < c < self.size()
        &&& self.nodes@[c].parent == Some(n as usize)
        &&& self.nodes@[c].index_in_parent == k
        &&& self.start_of(n) <= self.start_of(c)
        &&& self.start_of(c) <= self.end_of(c)
        &&& self.end_of(c) <= self.end_of(n)
        &&& k + 1 < self.children_of(n).len() ==> self.end_of(c) <= self.start_of(
            self.children_of(n)[k + 1] as int,
        )
    }

    pub open spec fn wf(&self) -> bool {
        &&& 0 < self.size() <= usize::MAX
        &&& self.nodes@[0].parent is None
        &&& self.start_of(0) <= self.end_of(0)
        &&& forall|n: int| 0 < n < self.size() ==> #[trigger] self.parent_link(n)
        &&& forall|n: int, k: int|
            0 <= n < self.size() && 0 <= k < self.children_of(n).len() ==> #[trigger] self.child_link(
                n,
                k,
            )
    }

    pub open spec fn parent_of(&self, n: int) -> Option<usize> {
        self.nodes@[n].parent
    }

    pub open spec fn child_count_of(&self, n: int) -> int {
        self.children_of(n).len() as int
    }

    pub open spec fn first_child_of(&self, n: int) -> Option<usize> {
        if self.children_of(n).len() > 0 {
            Some(self.children_of(n)[0])
        } else {
            None
        }
    }

    pub open spec fn next_sibling_of(&self, n: int) -> Option<usize> {
        match self.nodes@[n].parent {
            Some(p) => {
                let k = self.nodes@[n].index_in_parent + 1;
                if k < self.children_of(p as int).len() {
                    Some(self.children_of(p as int)[k])
                } else {
                    None
                }
            },
            None => None,
        }
    }

    pub open spec fn prev_sibling_of(&self, n: int) -> Option<usize> {
        match self.nodes@[n].parent {
            Some(p) => {
                let k = self.nodes@[n].index_in_parent;
                if 0 < k <= self.children_of(p as int).len() {
                    Some(self.children_of(p as int)[k - 1])
                } else {
                    None
                }
            },
            None => None,
        }
    }

    /// The first named child of `p` at position `k` or later.
    pub open spec fn first_named_from(&self, p: int, k: int) -> Option<usize>
        decreases self.children_of(p).len() - k,
    {
        if k < 0 || k >= self.children_of(p).len() {
            None
        } else if self.nodes@[self.children_of(p)[k] as int].named {
            Some(self.children_of(p)[k])
        } else {
            self.first_named_from(p, k + 1)
        }
    }

    /// The last named child of `p` before position `k`.
    pub open spec fn last_named_before(&self, p: int, k: int) -> Option<usize>
        decreases k,
    {
        if k <= 0 || k > self.children_of(p).len() {
            None
        } else if self.nodes@[self.children_of(p)[k - 1] as int].named {
            Some(self.children_of(p)[k - 1])
        } else {
            self.last_named_before(p, k - 1)
        }
    }

    pub open spec fn first_named_child_of(&self, n: int) -> Option<usize> {
        self.first_named_from(n, 0)
    }

    pub open spec fn next_named_sibling_of(&self, n: int) -> Option<usize> {
        match self.nodes@[n].parent {
            Some(p) => self.first_named_from(p as int, self.nodes@[n].index_in_parent + 1),
            None => None,
        }
    }

    pub open spec fn prev_named_sibling_of(&self, n: int) -> Option<usize> {
        match self.nodes@[n].parent {
            Some(p) => self.last_named_before(p as int, self.nodes@[n].index_in_parent as int),
            None => None,
        }
    }

    /// The named ones among the first `k` children of `n`, in order.
    pub open spec fn named_children_upto(&self, n: int, k: int) -> Seq<usize>
        decreases k,
    {
        if k <= 0 {
            Seq::empty()
        } else {
            let c = self.children_of(n)[k - 1];
            if self.nodes@[c as int].named {
                self.named_children_upto(n, k - 1).push(c)
            } else {
                self.named_children_upto(n, k - 1)
            }
        }
    }

    pub open spec fn named_children_of(&self, n: int) -> Seq<usize> {
        self.named_children_upto(n, self.children_of(n).len() as int)
    }

    /// Among the children of `n` from position `k` on, the one to descend
    /// into when looking for the smallest node that covers `[start, end]`:
    /// the first child that ends at or after `end` and after `start`, if it
    /// starts at or before `start`.
    pub open spec fn covering_child_from(&self, n: int, start: int, end: int, k: int) -> Option<
        usize,
    >
        decreases self.children_of(n).len() - k,
    {
        if k < 0 || k >= self.children_of(n).len() {
            None
        } else {
            let c = self.children_of(n)[k] as int;
            if self.end_of(c) < end || self.end_of(c) <= start {
                self.covering_child_from(n, start, end, k + 1)
            } else if start < self.start_of(c) {
                None
            } else {
                Some(self.children_of(n)[k])
            }
        }
    }

    /// The smallest node at or below `n` that covers `[start, end]`.
    pub open spec fn descendant_from(&self, n: int, start: int, end: int) -> int
        decreases self.size() - n,
    {
        match self.covering_child_from(n, start, end, 0) {
            Some(c) => if n < c < self.size() {
                self.descendant_from(c as int, start, end)
            } else {
                n
            },
            None => n,
        }
    }

    /// The smallest node that covers `[start, end]`; the root where none is
    /// smaller.
    pub open spec fn descendant_for_range(&self, start: int, end: int) -> int {
        self.descendant_from(0, start, end)
    }

    proof fn lemma_parent_link(&self, n: int)
        requires
            self.wf(),
            0 <= n < self.size(),
            self.nodes@[n].parent is Some,
        ensures
            self.parent_link(n),
    {
        if n == 0 {
        } else {
            assert(self.parent_link(n));
        }
    }

    pub fn parent(&self, n: usize) -> (r: Option<usize>)
        requires
            self.wf(),
            n < self.size(),
        ensures
            r == self.parent_of(n as int),
            r matches Some(p) ==> p < n,
    {
        let r = self.nodes[n].parent;
        proof {
            if r is Some {
                self.lemma_parent_link(n as int);
            }
        }
        r
    }

    pub fn child_count(&self, n: usize) -> (r: usize)
        requires
            self.wf(),
            n < self.size(),
        ensures
            r == self.child_count_of(n as int),
    {
        self.nodes[n].children.len()
    }

    pub fn first_child(&self, n: usize) -> (r: Option<usize>)
        requires
            self.wf(),
            n < self.size(),
        ensures
            r == self.first_child_of(n as int),
            r matches Some(c) ==> n < c < self.size(),
    {
        if self.nodes[n].children.len() > 0 {
            assert(self.child_link(n as int, 0));
            Some(self.nodes[n].children[0])
        } else {
            None
        }
    }

    pub fn next_sibling(&self, n: usize) -> (r: Option<usize>)
        requires
            self.wf(),
            n < self.size(),
        ensures
            r == self.next_sibling_of(n as int),
            r matches Some(c) ==> c < self.size(),
    {
        match self.nodes[n].parent {
            Some(p) => {
                proof {
                    self.lemma_parent_link(n as int);
                }
                let k = self.nodes[n].index_in_parent;
                let len = self.nodes[p].children.len();
                if k + 1 < len {
                    assert(self.child_link(p as int, k + 1));
                    Some(self.nodes[p].children[k + 1])
                } else {
                    None
                }
            },
            None => None,
        }
    }

    pub fn prev_sibling(&self, n: usize) -> (r: Option<usize>)
        requires
            self.wf(),
            n < self.size(),
        ensures
            r == self.prev_sibling_of(n as int),
            r matches Some(c) ==> c < self.size(),
    {
        match self.nodes[n].parent {
            Some(p) => {
                proof {
                    self.lemma_parent_link(n as int);
                }
                let k = self.nodes[n].index_in_parent;
                if k > 0 {
                    assert(self.child_link(p as int, k - 1));
                    Some(self.nodes[p].children[k - 1])
                } else {
                    None
                }
            },
            None => None,
        }
    }

    /// The first named child of `p` at position `k` or later.
    fn first_named_from_exec(&self, p: usize, k: usize) -> (r: Option<usize>)
        requires
            self.wf(),
            p < self.size(),
        ensures
            r == self.first_named_from(p as int, k as int),
            r matches Some(c) ==> p < c < self.size(),
    {
        let len = self.nodes[p].children.len();
        let mut i: usize = k;
        while i < len
            invariant
                self.wf(),
                p < self.size(),
                len == self.children_of(p as int).len(),
                k <= i,
                self.first_named_from(p as int, k as int) == self.first_named_from(
                    p as int,
                    i as int,
                ),
            decreases len - i,
        {
            let c = self.nodes[p].children[i];
            assert(self.child_link(p as int, i as int));
            if self.nodes[c].named {
                return Some(c);
            }
            i = i + 1;
        }
        None
    }

    /// The last named child of `p` before position `k`.
    fn last_named_before_exec(&self, p: usize, k: usize) -> (r: Option<usize>)
        requires
            self.wf(),
            p < self.size(),
            k <= self.children_of(p as int).len(),
        ensures
            r == self.last_named_before(p as int, k as int),
            r matches Some(c) ==> p < c < self.size(),
    {
        let mut i: usize = k;
        while i > 0
            invariant
                self.wf(),
                p < self.size(),
                i <= k <= self.children_of(p as int).len(),
                self.last_named_before(p as int, k as int) == self.last_named_before(
                    p as int,
                    i as int,
                ),
            decreases i,
        {
            let c = self.nodes[p].children[i - 1];
            assert(self.child_link(p as int, i - 1));
            if self.nodes[c].named {
                return Some(c);
            }
            i = i - 1;
        }
        None
    }

    pub fn first_named_child(&self, n: usize) -> (r: Option<usize>)
        requires
            self.wf(),
            n < self.size(),
        ensures
            r == self.first_named_child_of(n as int),
            r matches Some(c) ==> n < c < self.size(),
    {
        self.first_named_from_exec(n, 0)
    }

    pub fn next_named_sibling(&self, n: usize) -> (r: Option<usize>)
        requires
            self.wf(),
            n < self.size(),
        ensures
            r == self.next_named_sibling_of(n as int),
            r matches Some(c) ==> c < self.size(),
    {
        match self.nodes[n].parent {
            Some(p) => {
                proof {
                    self.lemma_parent_link(n as int);
                }
                let k = self.nodes[n].index_in_parent;
                if k < self.nodes[p].children.len() {
                    self.first_named_from_exec(p, k + 1)
                } else {
                    None
                }
            },
            None => None,
        }
    }

    pub fn prev_named_sibling(&self, n: usize) -> (r: Option<usize>)
        requires
            self.wf(),
            n < self.size(),
        ensures
            r == self.prev_named_sibling_of(n as int),
            r matches Some(c) ==> c < self.size(),
    {
        match self.nodes[n].parent {
            Some(p) => {
                proof {
                    self.lemma_parent_link(n as int);
                }
                self.last_named_before_exec(p, self.nodes[n].index_in_parent)
            },
            None => None,
        }
    }

    pub fn named_children(&self, n: usize) -> (r: Vec<usize>)
        requires
            self.wf(),
            n < self.size(),
        ensures
            r@ == self.named_children_of(n as int),
            forall|i: int| 0 <= i < r@.len() ==> n < #[trigger] r@[i] < self.size(),
    {
        let len = self.nodes[n].children.len();
        let mut out: Vec<usize> = Vec::new();
        let mut i: usize = 0;
        while i < len
            invariant
                self.wf(),
                n < self.size(),
                len == self.children_of(n as int).len(),
                i <= len,
                out@ == self.named_children_upto(n as int, i as int),
                forall|j: int| 0 <= j < out@.len() ==> n < #[trigger] out@[j] < self.size(),
            decreases len - i,
        {
            let c = self.nodes[n].children[i];
            assert(self.child_link(n as int, i as int));
            if self.nodes[c].named {
                out.push(c);
            }
            i = i + 1;
        }
        out
    }

    /// The child of `n` to descend into when looking for the smallest node
    /// that covers `[start, end]`.
    fn covering_child(&self, n: usize, start: usize, end: usize) -> (r: Option<usize>)
        requires
            self.wf(),
            n < self.size(),
        ensures
            r == self.covering_child_from(n as int, start as int, end as int, 0),
            r matches Some(c) ==> n < c < self.size(),
    {
        let len = self.nodes[n].children.len();
        let mut k: usize = 0;
        while k < len
            invariant
                self.wf(),
                n < self.size(),
                len == self.children_of(n as int).len(),
                k <= len,
                self.covering_child_from(n as int, start as int, end as int, 0)
                    == self.covering_child_from(n as int, start as int, end as int, k as int),
            decreases len - k,
        {
            let c = self.nodes[n].children[k];
            assert(self.child_link(n as int, k as int));
            if self.nodes[c].end_byte < end || self.nodes[c].end_byte <= start {
                k = k + 1;
            } else if start < self.nodes[c].start_byte {
                return None;
            } else {
                return Some(c);
            }
        }
        None
    }

    /// The smallest node that covers `[start, end]`; the root where none is
    /// smaller.
    pub fn descendant_for_byte_range(&self, start: usize, end: usize) -> (r: usize)
        requires
            self.wf(),
        ensures
            r == self.descendant_for_range(start as int, end as int),
            r < self.size(),
    {
        let mut n: usize = 0;
        loop
            invariant
                self.wf(),
                n < self.size(),
                self.descendant_for_range(start as int, end as int) == self.descendant_from(
                    n as int,
                    start as int,
                    end as int,
                ),
            decreases self.size() - n,
        {
            match self.covering_child(n, start, end) {
                Some(c) => {
                    n = c;
                },
                None => {
                    return n;
                },
            }
        }
    }
}

} // verus!
