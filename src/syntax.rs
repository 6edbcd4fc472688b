use vstd::prelude::*;

use crate::tree::SyntaxTree;

verus! {

/// A byte span `[start_byte, end_byte)` of the document.
#[derive(Clone, Copy, Debug, PartialEq, Eq, Structural)]
pub struct ByteRange {
    pub start_byte: usize,
    pub end_byte: usize,
}

/// One parsed tree with the spans of the document that it covers.
pub struct LanguageLayer {
    pub tree: SyntaxTree,
    /// The layer this one is embedded in; `None` for the root layer only.
    pub parent: Option<usize>,
    /// 0 for the root layer, one more for each level of embedding.
    pub depth: u32,
    /// Spans of the document that this layer was parsed from.
    pub ranges: Vec<ByteRange>,
}

/// All the layers of a document, keyed by their position in `layers`.
pub struct Syntax {
    pub layers: Vec<LanguageLayer>,
    pub root: usize,
}

/// The span of one injected layer, with that layer's id and depth.
#[derive(Clone, Copy, Debug, PartialEq, Eq, Structural)]
pub struct InjectionRange {
    pub start: usize,
    pub end: usize,
    pub layer_id: usize,
    pub depth: u32,
}

impl Syntax {
    pub open spec fn num_layers(&self) -> int {
        self.layers@.len() as int
    }

    pub open spec fn tree(&self, l: int) -> SyntaxTree {
        self.layers@[l].tree
    }

    pub open spec fn depth_of(&self, l: int) -> int {
        self.layers@[l].depth as int
    }

    /// A layer other than the root sits one level below its parent, and its
    /// root node lies within its parent's root node.
    pub open spec fn layer_link(&self, l: int) -> bool {
        match self.layers@[l].parent {
            Some(p) => {
                &&& (p as int) < self.num_layers()
                &&& self.depth_of(l) == self.depth_of(p as int) + 1
                &&& self.tree(p as int).start_of(0) <= self.tree(l).start_of(0)
                &&& self.tree(l).end_of(0) <= self.tree(p as int).end_of(0)
            },
            None => false,
        }
    }

    pub open spec fn wf(&self) -> bool {
        &&& self.root < self.num_layers()
        &&& self.layers@[self.root as int].parent is None
        &&& self.depth_of(self.root as int) == 0
        &&& forall|l: int| 0 <= l < self.num_layers() ==> #[trigger] self.tree(l).wf()
        &&& forall|l: int|
            0 <= l < self.num_layers() && l != self.root ==> #[trigger] self.layer_link(l)
    }

    /// The injection entries that layer `l` contributes: one per span of a
    /// layer that has a parent.
    pub open spec fn layer_entries(&self, l: int) -> Seq<InjectionRange> {
        if self.layers@[l].parent is None {
            Seq::empty()
        } else {
            self.layers@[l].ranges@.map_values(
                |r: ByteRange|
                    InjectionRange {
                        start: r.start_byte,
                        end: r.end_byte,
                        layer_id: l as usize,
                        depth: self.layers@[l].depth,
                    },
            )
        }
    }

    /// The entries of the first `l` layers, layer by layer.
    pub open spec fn entries_upto(&self, l: int) -> Seq<InjectionRange>
        decreases l,
    {
        if l <= 0 {
            Seq::empty()
        } else {
            self.entries_upto(l - 1) + self.layer_entries(l - 1)
        }
    }

    /// The injection index of this store: all entries ordered by ascending
    /// end, deeper first among equal ends.
    pub open spec fn injection_index(&self) -> Seq<InjectionRange> {
        sort_entries(self.entries_upto(self.num_layers()))
    }
}

/// `a` goes strictly before `b` in the index.
pub open spec fn key_before(a: InjectionRange, b: InjectionRange) -> bool {
    a.end < b.end || (a.end == b.end && a.depth > b.depth)
}

/// Where `x` is inserted into `s`: before the first entry from `i` on that
/// it goes strictly before.
pub open spec fn insert_pos(s: Seq<InjectionRange>, x: InjectionRange, i: int) -> int
    decreases s.len() - i,
{
    if i < 0 || i >= s.len() {
        s.len() as int
    } else if key_before(x, s[i]) {
        i
    } else {
        insert_pos(s, x, i + 1)
    }
}

/// Stable insertion sort by `key_before`.
pub open spec fn sort_entries(s: Seq<InjectionRange>) -> Seq<InjectionRange>
    decreases s.len(),
{
    if s.len() == 0 {
        s
    } else {
        let sorted = sort_entries(s.drop_last());
        sorted.insert(insert_pos(sorted, s.last(), 0), s.last())
    }
}

/// Index of the first entry from `i` on whose end is at least `end`.
pub open spec fn partition_from(idx: Seq<InjectionRange>, end: int, i: int) -> int
    decreases idx.len() - i,
{
    if i < 0 || i >= idx.len() {
        idx.len() as int
    } else if idx[i].end >= end {
        i
    } else {
        partition_from(idx, end, i + 1)
    }
}

/// Entry `k` of `idx` contains `[start, end)`.
pub open spec fn entry_contains(idx: Seq<InjectionRange>, k: int, start: int, end: int) -> bool {
    idx[k].start <= start && end <= idx[k].end
}

/// Scanning from `i`, the index of the deepest entry that contains
/// `[start, end)` (the earliest among equally deep ones); `best` is the pick
/// so far.
pub open spec fn deepest_from(idx: Seq<InjectionRange>, start: int, end: int, i: int, best: Option<
    int,
>) -> Option<int>
    decreases idx.len() - i,
{
    if i < 0 || i >= idx.len() {
        best
    } else {
        let better = entry_contains(idx, i, start, end) && (best is None || idx[i].depth
            > idx[best->Some_0].depth);
        deepest_from(idx, start, end, i + 1, if better { Some(i) } else { best })
    }
}

/// Scanning from `i` while entries end at `end`, the layer of the first
/// entry that starts at `start`.
pub open spec fn exact_from(idx: Seq<InjectionRange>, start: int, end: int, i: int) -> Option<
    usize,
>
    decreases idx.len() - i,
{
    if i < 0 || i >= idx.len() || idx[i].end != end {
        None
    } else if idx[i].start == start {
        Some(idx[i].layer_id)
    } else {
        exact_from(idx, start, end, i + 1)
    }
}

/// The layer that owns `[start, end)`: the layer of the deepest entry that
/// contains it, looked for from the first entry that ends at or after `end`;
/// `root` when there is none.
pub open spec fn layer_containing(idx: Seq<InjectionRange>, root: usize, start: int, end: int) -> usize {
    match deepest_from(idx, start, end, partition_from(idx, end, 0), None) {
        Some(k) => idx[k].layer_id,
        None => root,
    }
}

/// The layer injected at exactly `[start, end)`, if any.
pub open spec fn layer_of_exact_range(idx: Seq<InjectionRange>, start: int, end: int) -> Option<usize> {
    exact_from(idx, start, end, partition_from(idx, end, 0))
}

/// Every entry of `idx` names a layer of a store with `n` layers.
pub open spec fn index_in_bounds(idx: Seq<InjectionRange>, n: int) -> bool {
    forall|i: int| 0 <= i < idx.len() ==> (#[trigger] idx[i]).layer_id < n
}

fn insert_position(v: &Vec<InjectionRange>, x: InjectionRange) -> (r: usize)
    ensures
        r == insert_pos(v@, x, 0),
        r <= v@.len(),
{
    let mut i: usize = 0;
    while i < v.len()
        invariant
            i <= v@.len(),
            insert_pos(v@, x, 0) == insert_pos(v@, x, i as int),
        decreases v@.len() - i,
    {
        let y = v[i];
        if x.end < y.end || (x.end == y.end && x.depth > y.depth) {
            return i;
        }
        i = i + 1;
    }
    i
}

/// Builds the injection index of `syntax`.
pub fn build_injection_index(syntax: &Syntax) -> (r: Vec<InjectionRange>)
    requires
        syntax.wf(),
    ensures
        r@ == syntax.injection_index(),
        index_in_bounds(r@, syntax.num_layers()),
{
    let mut out: Vec<InjectionRange> = Vec::new();
    let n = syntax.layers.len();
    let mut l: usize = 0;
    while l < n
        invariant
            n == syntax.num_layers(),
            l <= n,
            out@ == sort_entries(syntax.entries_upto(l as int)),
            index_in_bounds(out@, n as int),
        decreases n - l,
    {
        let layer = &syntax.layers[l];
        if layer.parent.is_some() {
            let m = layer.ranges.len();
            let mut k: usize = 0;
            while k < m
                invariant
                    n == syntax.num_layers(),
                    l < n,
                    layer == syntax.layers@[l as int],
                    layer.parent is Some,
                    m == layer.ranges@.len(),
                    k <= m,
                    out@ == sort_entries(
                        syntax.entries_upto(l as int) + syntax.layer_entries(l as int).take(
                            k as int,
                        ),
                    ),
                    index_in_bounds(out@, n as int),
                decreases m - k,
            {
                let x = InjectionRange {
                    start: layer.ranges[k].start_byte,
                    end: layer.ranges[k].end_byte,
                    layer_id: l,
                    depth: layer.depth,
                };
                let ghost before = syntax.entries_upto(l as int) + syntax.layer_entries(
                    l as int,
                ).take(k as int);
                let ghost after = syntax.entries_upto(l as int) + syntax.layer_entries(
                    l as int,
                ).take(k + 1);
                proof {
                    assert(syntax.layer_entries(l as int)[k as int] == x);
                    assert(after.drop_last() =~= before);
                    assert(after.last() == x);
                }
                let pos = insert_position(&out, x);
                let ghost prev = out@;
                out.insert(pos, x);
                proof {
                    assert(out@ == sort_entries(after));
                    assert forall|i: int| 0 <= i < out@.len() implies (#[trigger] out@[i]).layer_id
                        < n by {
                        if i < pos {
                            assert(out@[i] == prev[i]);
                        } else if i > pos {
                            assert(out@[i] == prev[i - 1]);
                        }
                    }
                }
                k = k + 1;
            }
            proof {
                assert(syntax.layer_entries(l as int).take(m as int) =~= syntax.layer_entries(
                    l as int,
                ));
                assert(syntax.entries_upto(l + 1) == syntax.entries_upto(l as int)
                    + syntax.layer_entries(l as int));
            }
        } else {
            proof {
                assert(syntax.entries_upto(l + 1) =~= syntax.entries_upto(l as int)
                    + syntax.layer_entries(l as int));
                assert(syntax.entries_upto(l + 1) =~= syntax.entries_upto(l as int));
            }
        }
        l = l + 1;
    }
    out
}

/// `a` may stand before `b` in the index.
pub open spec fn key_le(a: InjectionRange, b: InjectionRange) -> bool {
    !key_before(b, a)
}

/// Entries never stand before one that goes strictly before them.
pub open spec fn index_sorted(s: Seq<InjectionRange>) -> bool {
    forall|i: int, j: int| 0 <= i < j < s.len() ==> key_le(#[trigger] s[i], #[trigger] s[j])
}

proof fn lemma_insert_pos(s: Seq<InjectionRange>, x: InjectionRange, i: int)
    requires
        0 <= i <= s.len(),
    ensures
        i <= insert_pos(s, x, i) <= s.len(),
        forall|k: int| i <= k < insert_pos(s, x, i) ==> !key_before(x, #[trigger] s[k]),
        insert_pos(s, x, i) < s.len() ==> key_before(x, s[insert_pos(s, x, i)]),
    decreases s.len() - i,
{
    if i < s.len() && !key_before(x, s[i]) {
        lemma_insert_pos(s, x, i + 1);
    }
}

/// The insertion sort gives a sorted index.
pub proof fn lemma_sort_entries_sorted(s: Seq<InjectionRange>)
    ensures
        index_sorted(sort_entries(s)),
        sort_entries(s).len() == s.len(),
    decreases s.len(),
{
    if s.len() > 0 {
        let sorted = sort_entries(s.drop_last());
        lemma_sort_entries_sorted(s.drop_last());
        let x = s.last();
        let pos = insert_pos(sorted, x, 0);
        lemma_insert_pos(sorted, x, 0);
        let out = sorted.insert(pos, x);
        assert forall|i: int, j: int| 0 <= i < j < out.len() implies key_le(
            #[trigger] out[i],
            #[trigger] out[j],
        ) by {
            if j < pos {
                assert(out[i] == sorted[i] && out[j] == sorted[j]);
            } else if j == pos {
                assert(out[i] == sorted[i]);
            } else if i < pos {
                assert(out[i] == sorted[i] && out[j] == sorted[j - 1]);
                assert(key_le(sorted[i], sorted[j - 1]));
            } else if i == pos {
                assert(out[j] == sorted[j - 1]);
                assert(key_before(x, sorted[pos]));
                if j - 1 > pos {
                    assert(key_le(sorted[pos], sorted[j - 1]));
                }
            } else {
                assert(out[i] == sorted[i - 1] && out[j] == sorted[j - 1]);
            }
        }
    }
}

proof fn lemma_partition_from(idx: Seq<InjectionRange>, end: int, i: int)
    requires
        0 <= i <= idx.len(),
    ensures
        i <= partition_from(idx, end, i) <= idx.len(),
        partition_from(idx, end, i) < idx.len() ==> idx[partition_from(idx, end, i)].end >= end,
    decreases idx.len() - i,
{
    if i < idx.len() && idx[i].end < end {
        lemma_partition_from(idx, end, i + 1);
    }
}

proof fn lemma_partition_before(idx: Seq<InjectionRange>, end: int, i: int)
    requires
        0 <= i <= idx.len(),
        forall|k: int| 0 <= k < i ==> (#[trigger] idx[k]).end < end,
    ensures
        forall|k: int| 0 <= k < partition_from(idx, end, i) ==> (#[trigger] idx[k]).end < end,
    decreases idx.len() - i,
{
    if i < idx.len() && idx[i].end < end {
        lemma_partition_before(idx, end, i + 1);
    }
}

proof fn lemma_deepest_from(
    idx: Seq<InjectionRange>,
    start: int,
    end: int,
    i: int,
    best: Option<int>,
)
    requires
        0 <= i <= idx.len(),
        best matches Some(b) ==> 0 <= b < idx.len() && entry_contains(idx, b, start, end),
        forall|j: int|
            0 <= j < i && #[trigger] entry_contains(idx, j, start, end) ==> best is Some
                && idx[j].depth <= idx[best->Some_0].depth,
    ensures
        match deepest_from(idx, start, end, i, best) {
            Some(k) => 0 <= k < idx.len() && entry_contains(idx, k, start, end) && forall|j: int|
                0 <= j < idx.len() && #[trigger] entry_contains(idx, j, start, end)
                    ==> idx[j].depth <= idx[k].depth,
            None => forall|j: int| 0 <= j < idx.len() ==> !#[trigger] entry_contains(idx, j, start, end),
        },
    decreases idx.len() - i,
{
    if i < idx.len() {
        let better = entry_contains(idx, i, start, end) && (best is None || idx[i].depth
            > idx[best->Some_0].depth);
        lemma_deepest_from(idx, start, end, i + 1, if better { Some(i) } else { best });
    }
}

proof fn lemma_sort_entries_multiset(s: Seq<InjectionRange>)
    ensures
        sort_entries(s).to_multiset() == s.to_multiset(),
    decreases s.len(),
{
    broadcast use vstd::seq_lib::to_multiset_insert, vstd::seq_lib::to_multiset_build;

    if s.len() > 0 {
        let sorted = sort_entries(s.drop_last());
        lemma_sort_entries_multiset(s.drop_last());
        lemma_sort_entries_sorted(s.drop_last());
        let pos = insert_pos(sorted, s.last(), 0);
        lemma_insert_pos(sorted, s.last(), 0);
        assert(s.drop_last().push(s.last()) =~= s);
    }
}

impl Syntax {
    /// The injection index holds exactly the entries of the layers' spans.
    pub proof fn lemma_index_is_permutation(&self)
        ensures
            self.injection_index().to_multiset() == self.entries_upto(
                self.num_layers(),
            ).to_multiset(),
    {
        lemma_sort_entries_multiset(self.entries_upto(self.num_layers()));
    }

    /// The layer that owns `[start, end)` is the layer of an injected span
    /// that contains it and is at least as deep as every injected span that
    /// contains it; where no injected span contains it, it is the root layer.
    pub proof fn lemma_layer_containing_deepest(&self, start: int, end: int)
        ensures
            ({
                let idx = self.injection_index();
                let l = layer_containing(idx, self.root, start, end);
                ||| exists|k: int|
                    0 <= k < idx.len() && (#[trigger] idx[k]).layer_id == l && entry_contains(
                        idx,
                        k,
                        start,
                        end,
                    ) && forall|j: int|
                        0 <= j < idx.len() && #[trigger] entry_contains(idx, j, start, end)
                            ==> idx[j].depth <= idx[k].depth
                ||| l == self.root && forall|j: int|
                    0 <= j < idx.len() ==> !#[trigger] entry_contains(idx, j, start, end)
            }),
    {
        let idx = self.injection_index();
        lemma_partition_from(idx, end, 0);
        lemma_partition_before(idx, end, 0);
        let p = partition_from(idx, end, 0);
        lemma_deepest_from(idx, start, end, p, None);
        match deepest_from(idx, start, end, p, None) {
            Some(k) => {
                assert(idx[k].layer_id == layer_containing(idx, self.root, start, end));
            },
            None => {},
        }
    }
}

} // verus!
