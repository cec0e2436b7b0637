use std::ops::Range;
use std::rc::Rc;
use vstd::prelude::*;

verus! {

/// A byte buffer that a `SliceTree` can share and view in pieces.
pub trait SliceTreeSource {
    /// The bytes of the buffer.
    spec fn source_bytes(&self) -> Seq<u8>;

    /// The bytes of the buffer, as a slice.
    fn bytes(&self) -> (b: &[u8])
        ensures
            b@ == self.source_bytes(),
    ;
}

impl SliceTreeSource for String {
    open spec fn source_bytes(&self) -> Seq<u8> {
        vstd::utf8::encode_utf8(self@)
    }

    fn bytes(&self) -> (b: &[u8]) {
        self.as_str().as_bytes()
    }
}

impl SliceTreeSource for Vec<u8> {
    open spec fn source_bytes(&self) -> Seq<u8> {
        self@
    }

    fn bytes(&self) -> (b: &[u8]) {
        self.as_slice()
    }
}


/// `Rc::clone`: a second handle to the value that `rc` holds; the value is
/// shared, not copied, so the new handle holds the same value.
#[verifier::external_body]
fn share<T>(rc: &Rc<T>) -> (r: Rc<T>)
    ensures
        r == *rc,
{
    Rc::clone(rc)
}

/// A view of the bytes `range` of a shared source buffer.  Views of one
/// buffer share it: taking a subslice copies nothing.
pub struct SliceTree<T: SliceTreeSource> {
    source: Rc<T>,
    range: Range<usize>,
}

impl<T: SliceTreeSource> SliceTree<T> {
    /// The range never ends past the end of the source.
    #[verifier::type_invariant]
    spec fn well_formed(self) -> bool {
        self.range.end <= (*self.source).source_bytes().len()
    }

    /// All the bytes of the shared source.
    pub closed spec fn source_view(&self) -> Seq<u8> {
        (*self.source).source_bytes()
    }

    /// First byte of the view (inclusive).
    pub closed spec fn start(&self) -> int {
        self.range.start as int
    }

    /// End of the view (exclusive).
    pub closed spec fn end(&self) -> int {
        self.range.end as int
    }

    /// The bytes the view stands for.
    pub open spec fn bytes_view(&self) -> Seq<u8> {
        self.source_view().subrange(self.start(), self.end())
    }

    /// Takes ownership of `item` and views all of it.
    pub fn consume(item: T) -> (tree: Self)
        ensures
            tree.source_view() == item.source_bytes(),
            tree.start() == 0,
            tree.end() == item.source_bytes().len(),
    {
        let len = item.bytes().len();
        SliceTree { range: 0..len, source: Rc::new(item) }
    }

    /// A view of the bytes `range` of the same source.  The new range must
    /// lie within this view's range (the start may still exceed the end).
    pub fn subslice(&self, range: Range<usize>) -> (tree: Self)
        requires
            self.start() <= range.start,
            range.end <= self.end(),
        ensures
            tree.source_view() == self.source_view(),
            tree.start() == range.start,
            tree.end() == range.end,
    {
        proof { use_type_invariant(self); }
        SliceTree { source: share(&self.source), range }
    }

    /// The bytes of the view.
    pub fn as_slice(&self) -> (s: &[u8])
        requires
            self.start() <= self.end(),
        ensures
            s@ == self.bytes_view(),
    {
        proof { use_type_invariant(self); }
        let all = (*self.source).bytes();
        &all[self.range.start..self.range.end]
    }

    /// Start of the view, in bytes.
    pub fn range_start(&self) -> (n: usize)
        ensures
            n == self.start(),
    {
        self.range.start
    }

    /// End of the view, in bytes (exclusive).
    pub fn range_end(&self) -> (n: usize)
        ensures
            n == self.end(),
            n <= self.source_view().len(),
    {
        proof { use_type_invariant(self); }
        self.range.end
    }
}

/// `a` and `b` view the same bytes of the same source.
pub open spec fn same_view<T: SliceTreeSource>(a: SliceTree<T>, b: SliceTree<T>) -> bool {
    &&& a.source_view() == b.source_view()
    &&& a.start() == b.start()
    &&& a.end() == b.end()
}

/// `a` and `b` hold views pairwise the same.
pub open spec fn same_views<T: SliceTreeSource>(a: Seq<SliceTree<T>>, b: Seq<SliceTree<T>>) -> bool {
    &&& a.len() == b.len()
    &&& forall|i: int| 0 <= i < a.len() ==> same_view(#[trigger] a[i], b[i])
}

/// A copy of each view of `trees` (the sources stay shared).
pub fn clone_all<T: SliceTreeSource>(trees: &[SliceTree<T>]) -> (c: Vec<SliceTree<T>>)
    ensures
        same_views(c@, trees@),
{
    let mut c: Vec<SliceTree<T>> = Vec::new();
    for i in 0..trees.len()
        invariant
            c@.len() == i,
            forall|j: int| 0 <= j < i ==> same_view(#[trigger] c@[j], trees@[j]),
    {
        c.push(trees[i].clone());
    }
    c
}

impl<T: SliceTreeSource> Clone for SliceTree<T> {
    fn clone(&self) -> (c: Self)
        ensures
            c.source_view() == self.source_view(),
            c.start() == self.start(),
            c.end() == self.end(),
    {
        proof { use_type_invariant(self); }
        SliceTree { source: share(&self.source), range: self.range.start..self.range.end }
    }
}

} // verus!
