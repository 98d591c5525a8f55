use vstd::prelude::*;

verus! {

/// A rectangle of values stored row by row in one flat run.
#[derive(Debug)]
pub struct Vec2d<T> {
    data: Vec<T>,
    width: usize,
    height: usize,
}

impl<T> Vec2d<T> {
    /// The flat storage holds exactly one value per cell.
    pub closed spec fn wf(&self) -> bool {
        self.data@.len() == self.width * self.height
    }

    pub closed spec fn spec_width(&self) -> nat {
        self.width as nat
    }

    pub closed spec fn spec_height(&self) -> nat {
        self.height as nat
    }

    /// The flat contents, row by row.
    pub closed spec fn spec_data(&self) -> Seq<T> {
        self.data@
    }

    /// The flat index of a cell.
    pub open spec fn spec_index_of(&self, x: int, y: int) -> int {
        y * self.spec_width() + x
    }

    /// What well-formedness gives a caller: one value per cell, within
    /// machine bounds.
    pub proof fn lemma_wf(&self)
        requires
            self.wf(),
        ensures
            self.spec_data().len() == self.spec_width() * self.spec_height(),
            self.spec_width() * self.spec_height() <= usize::MAX,
    {
        vstd::std_specs::vec::axiom_spec_len(&self.data);
    }

    pub fn width(&self) -> (r: usize)
        ensures
            r == self.spec_width(),
    {
        self.width
    }

    pub fn height(&self) -> (r: usize)
        ensures
            r == self.spec_height(),
    {
        self.height
    }

    /// Number of cells.
    pub fn size(&self) -> (r: usize)
        requires
            self.wf(),
        ensures
            r == self.spec_width() * self.spec_height(),
    {
        self.data.len()
    }

    /// The value of a cell, when the flat index it names is in range (a
    /// coordinate pair outside the rectangle can still name a cell of a
    /// later row, as the flat layout does).
    pub fn get(&self, x: usize, y: usize) -> (r: Option<&T>)
        requires
            self.wf(),
            y * self.spec_width() + x <= usize::MAX,
        ensures
            self.spec_index_of(x as int, y as int) < self.spec_data().len() ==> (r matches Some(v)
                && *v == self.spec_data()[self.spec_index_of(x as int, y as int)]),
            self.spec_index_of(x as int, y as int) >= self.spec_data().len() ==> r is None,
    {
        let idx = y * self.width + x;
        if idx < self.data.len() {
            Some(&self.data[idx])
        } else {
            None
        }
    }

    /// Replaces the value of a cell; nothing happens when the flat index
    /// is out of range.
    pub fn insert(&mut self, x: usize, y: usize, val: T) -> (r: Option<()>)
        requires
            old(self).wf(),
            y * old(self).spec_width() + x <= usize::MAX,
        ensures
            final(self).wf(),
            final(self).spec_width() == old(self).spec_width(),
            final(self).spec_height() == old(self).spec_height(),
            old(self).spec_index_of(x as int, y as int) < old(self).spec_data().len() ==> r
                is Some && final(self).spec_data() == old(self).spec_data().update(
                old(self).spec_index_of(x as int, y as int),
                val,
            ),
            old(self).spec_index_of(x as int, y as int) >= old(self).spec_data().len() ==> r
                is None && *final(self) == *old(self),
    {
        let idx = y * self.width + x;
        if idx < self.data.len() {
            self.data.set(idx, val);
            Some(())
        } else {
            None
        }
    }

    /// The flat contents, for walking every cell in row order.
    pub fn iter(&self) -> (r: &Vec<T>)
        ensures
            r@ == self.spec_data(),
    {
        &self.data
    }
}

/// Whether `b` could be what `T::default()` returns. For the types the
/// standard library's contracts pin down (the integer primitives among
/// them), this fixes the value itself.
pub open spec fn defaulted<T: Default>(b: T) -> bool {
    call_ensures(T::default, (), b)
}

impl<T: Default> Vec2d<T> {
    /// A rectangle filled with the default value of `T`.
    pub fn new(width: usize, height: usize) -> (r: Vec2d<T>)
        requires
            width * height <= usize::MAX,
        ensures
            r.wf(),
            r.spec_width() == width,
            r.spec_height() == height,
            forall|i: int| 0 <= i < r.spec_data().len() ==> defaulted::<T>(#[trigger] r.spec_data()[i]),
    {
        let size = width * height;
        let mut data: Vec<T> = Vec::new();
        let mut i: usize = 0;
        while i < size
            invariant
                i <= size,
                data@.len() == i,
                forall|j: int| 0 <= j < i ==> defaulted::<T>(#[trigger] data@[j]),
            decreases size - i,
        {
            data.push(T::default());
            i = i + 1;
        }
        Vec2d { data, width, height }
    }
}

impl<T: Copy> Vec2d<T> {
    /// A rectangle over the first `width * height` values of a slice.
    pub fn from_slice(width: usize, height: usize, slice: &[T]) -> (r: Vec2d<T>)
        requires
            width * height <= usize::MAX,
            width * height <= slice@.len(),
        ensures
            r.wf(),
            r.spec_width() == width,
            r.spec_height() == height,
            r.spec_data() == slice@.take((width * height) as int),
    {
        let size = width * height;
        let mut data: Vec<T> = Vec::new();
        let mut i: usize = 0;
        while i < size
            invariant
                i <= size,
                size <= slice@.len(),
                data@ == slice@.take(i as int),
            decreases size - i,
        {
            data.push(slice[i]);
            i = i + 1;
            proof {
                assert(data@ =~= slice@.take(i as int));
            }
        }
        Vec2d { data, width, height }
    }

    /// A rectangle filled with one value.
    pub fn new_with(width: usize, height: usize, val: T) -> (r: Vec2d<T>)
        requires
            width * height <= usize::MAX,
        ensures
            r.wf(),
            r.spec_width() == width,
            r.spec_height() == height,
            forall|i: int| 0 <= i < r.spec_data().len() ==> r.spec_data()[i] == val,
    {
        let size = width * height;
        let mut data: Vec<T> = Vec::new();
        let mut i: usize = 0;
        while i < size
            invariant
                i <= size,
                data@.len() == i,
                forall|j: int| 0 <= j < i ==> data@[j] == val,
            decreases size - i,
        {
            data.push(val);
            i = i + 1;
        }
        Vec2d { data, width, height }
    }
}

} // verus!
