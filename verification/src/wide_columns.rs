//! Wide-column result sets: multi-attribute values composed of named
//! column/value pairs, as returned from point lookups, with bounds-checked
//! random access and restartable forward iteration.

use vstd::prelude::*;

use crate::error::Error;

verus! {

/// One column of a wide-column entity: a name/value pair of byte strings.
pub struct WideColumn {
    pub name: Vec<u8>,
    pub value: Vec<u8>,
}

impl View for WideColumn {
    type V = (Seq<u8>, Seq<u8>);

    open spec fn view(&self) -> (Seq<u8>, Seq<u8>) {
        (self.name@, self.value@)
    }
}

impl DeepView for WideColumn {
    type V = (Seq<u8>, Seq<u8>);

    open spec fn deep_view(&self) -> (Seq<u8>, Seq<u8>) {
        self.view()
    }
}

/// A plain wide-column result set: the ordered columns of one entity, in the
/// engine's native storage order. The set owns its entries; its length is
/// fixed at construction, and every access is bounds-checked.
pub struct WideColumns {
    entries: Vec<WideColumn>,
}

impl View for WideColumns {
    type V = Seq<(Seq<u8>, Seq<u8>)>;

    closed spec fn view(&self) -> Seq<(Seq<u8>, Seq<u8>)> {
        self.entries.deep_view()
    }
}

impl WideColumns {
    /// Wraps the columns of one lookup result, keeping their order.
    pub fn from_entries(entries: Vec<WideColumn>) -> (r: Self)
        ensures
            r@ == entries.deep_view(),
    {
        WideColumns { entries }
    }

    /// The number of columns in the set.
    pub fn len(&self) -> (r: usize)
        ensures
            r == self@.len(),
    {
        self.entries.len()
    }

    /// Whether the set has no columns.
    pub fn is_empty(&self) -> (r: bool)
        ensures
            r == (self@.len() == 0),
    {
        self.entries.len() == 0
    }

    /// The name of the column at `idx`, or `OutOfRange` past the end.
    pub fn get_column_name(&self, idx: usize) -> (r: Result<&Vec<u8>, Error>)
        ensures
            idx < self@.len() ==> (r matches Ok(n) && n@ == self@[idx as int].0),
            idx >= self@.len() ==> (r matches Err(e) && e == Error::OutOfRange),
    {
        if idx < self.entries.len() {
            Ok(&self.entries[idx].name)
        } else {
            Err(Error::OutOfRange)
        }
    }

    /// The value of the column at `idx`, or `OutOfRange` past the end.
    pub fn get_column_value(&self, idx: usize) -> (r: Result<&Vec<u8>, Error>)
        ensures
            idx < self@.len() ==> (r matches Ok(v) && v@ == self@[idx as int].1),
            idx >= self@.len() ==> (r matches Err(e) && e == Error::OutOfRange),
    {
        if idx < self.entries.len() {
            Ok(&self.entries[idx].value)
        } else {
            Err(Error::OutOfRange)
        }
    }

    /// The column at `idx` as one name/value view, or `OutOfRange` past the
    /// end.
    pub fn get_column(&self, idx: usize) -> (r: Result<&WideColumn, Error>)
        ensures
            idx < self@.len() ==> (r matches Ok(c) && c@ == self@[idx as int]),
            idx >= self@.len() ==> (r matches Err(e) && e == Error::OutOfRange),
    {
        if idx < self.entries.len() {
            Ok(&self.entries[idx])
        } else {
            Err(Error::OutOfRange)
        }
    }

    /// A fresh forward iterator over all columns, starting at the first.
    /// Each call returns an independent iterator positioned at index zero, so
    /// iteration restarts at the container level.
    pub fn iter(&self) -> (r: WideColumnsIter<'_>)
        ensures
            r@.0 == self@,
            r@.1 == 0,
    {
        WideColumnsIter { columns: self, idx: 0 }
    }
}

/// A forward, single-pass iterator over a [`WideColumns`] set. It borrows the
/// set for its whole lifetime: every yielded column view lives exactly as
/// long as the set itself.
pub struct WideColumnsIter<'a> {
    columns: &'a WideColumns,
    idx: usize,
}

impl<'a> View for WideColumnsIter<'a> {
    type V = (Seq<(Seq<u8>, Seq<u8>)>, int);

    closed spec fn view(&self) -> (Seq<(Seq<u8>, Seq<u8>)>, int) {
        (self.columns@, self.idx as int)
    }
}

impl<'a> WideColumnsIter<'a> {
    /// The next column view, in the set's native order, or `None` exactly
    /// when the iterator has passed the last column. Advancing past the end
    /// is not an error and leaves the iterator unchanged.
    pub fn next(&mut self) -> (r: Option<&'a WideColumn>)
        ensures
            old(self)@.1 < old(self)@.0.len() ==> (r matches Some(c) && c@ == old(self)@.0[old(
                self,
            )@.1] && final(self)@.0 == old(self)@.0 && final(self)@.1 == old(self)@.1 + 1),
            old(self)@.1 >= old(self)@.0.len() ==> (r is None && final(self)@ == old(self)@),
    {
        let cols: &'a WideColumns = self.columns;
        if self.idx < cols.entries.len() {
            let c = &cols.entries[self.idx];
            self.idx = self.idx + 1;
            Some(c)
        } else {
            None
        }
    }
}

/// A pinned wide-column result set: the flavor of lookup result whose
/// underlying storage pages stay held open for the duration of the borrow.
/// It reads exactly like [`WideColumns`]; only the engine-side release
/// strategy distinguishes the two flavors.
pub struct PinnableWideColumns {
    inner: WideColumns,
}

impl View for PinnableWideColumns {
    type V = Seq<(Seq<u8>, Seq<u8>)>;

    closed spec fn view(&self) -> Seq<(Seq<u8>, Seq<u8>)> {
        self.inner@
    }
}

impl PinnableWideColumns {
    /// Wraps the columns of one pinned lookup result, keeping their order.
    pub fn from_entries(entries: Vec<WideColumn>) -> (r: Self)
        ensures
            r@ == entries.deep_view(),
    {
        PinnableWideColumns { inner: WideColumns::from_entries(entries) }
    }

    /// The number of columns in the set.
    pub fn len(&self) -> (r: usize)
        ensures
            r == self@.len(),
    {
        self.inner.len()
    }

    /// Whether the set has no columns.
    pub fn is_empty(&self) -> (r: bool)
        ensures
            r == (self@.len() == 0),
    {
        self.inner.is_empty()
    }

    /// The name of the column at `idx`, or `OutOfRange` past the end.
    pub fn get_column_name(&self, idx: usize) -> (r: Result<&Vec<u8>, Error>)
        ensures
            idx < self@.len() ==> (r matches Ok(n) && n@ == self@[idx as int].0),
            idx >= self@.len() ==> (r matches Err(e) && e == Error::OutOfRange),
    {
        self.inner.get_column_name(idx)
    }

    /// The value of the column at `idx`, or `OutOfRange` past the end.
    pub fn get_column_value(&self, idx: usize) -> (r: Result<&Vec<u8>, Error>)
        ensures
            idx < self@.len() ==> (r matches Ok(v) && v@ == self@[idx as int].1),
            idx >= self@.len() ==> (r matches Err(e) && e == Error::OutOfRange),
    {
        self.inner.get_column_value(idx)
    }

    /// The column at `idx` as one name/value view, or `OutOfRange` past the
    /// end.
    pub fn get_column(&self, idx: usize) -> (r: Result<&WideColumn, Error>)
        ensures
            idx < self@.len() ==> (r matches Ok(c) && c@ == self@[idx as int]),
            idx >= self@.len() ==> (r matches Err(e) && e == Error::OutOfRange),
    {
        self.inner.get_column(idx)
    }

    /// A fresh forward iterator over all columns, starting at the first.
    pub fn iter(&self) -> (r: PinnableWideColumnsIter<'_>)
        ensures
            r@.0 == self@,
            r@.1 == 0,
    {
        PinnableWideColumnsIter { inner: self.inner.iter() }
    }
}

/// A forward, single-pass iterator over a [`PinnableWideColumns`] set.
pub struct PinnableWideColumnsIter<'a> {
    inner: WideColumnsIter<'a>,
}

impl<'a> View for PinnableWideColumnsIter<'a> {
    type V = (Seq<(Seq<u8>, Seq<u8>)>, int);

    closed spec fn view(&self) -> (Seq<(Seq<u8>, Seq<u8>)>, int) {
        self.inner@
    }
}

impl<'a> PinnableWideColumnsIter<'a> {
    /// The next column view, in the set's native order, or `None` exactly
    /// when the iterator has passed the last column.
    pub fn next(&mut self) -> (r: Option<&'a WideColumn>)
        ensures
            old(self)@.1 < old(self)@.0.len() ==> (r matches Some(c) && c@ == old(self)@.0[old(
                self,
            )@.1] && final(self)@.0 == old(self)@.0 && final(self)@.1 == old(self)@.1 + 1),
            old(self)@.1 >= old(self)@.0.len() ==> (r is None && final(self)@ == old(self)@),
    {
        self.inner.next()
    }
}

/// The iteration capability both wide-column set flavors offer: a fresh,
/// forward, single-pass iterator over the set's columns, borrowing the set
/// for the iterator's whole lifetime.
pub trait Iterable {
    type Iter<'me> where Self: 'me;

    /// A fresh iterator positioned at the first column.
    fn iter<'me>(&'me self) -> Self::Iter<'me>;
}

impl Iterable for WideColumns {
    type Iter<'me> = WideColumnsIter<'me>;

    fn iter<'me>(&'me self) -> Self::Iter<'me> {
        WideColumns::iter(self)
    }
}

impl Iterable for PinnableWideColumns {
    type Iter<'me> = PinnableWideColumnsIter<'me>;

    fn iter<'me>(&'me self) -> Self::Iter<'me> {
        PinnableWideColumns::iter(self)
    }
}

} // verus!
