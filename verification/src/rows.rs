//! The rows that the window shows: a `slint::VecModel` of name and path, one pair for each
//! application.
//!
//! A `VecModel` can be changed through any handle to it. `Rows` therefore keeps the only handle
//! that can change it, and is not `Clone`: what changes the rows has to hold the `Rows` itself.

use slint::{Model, ModelExt, ModelRc, VecModel};
use std::rc::Rc;
use vstd::prelude::*;

verus! {

/// The rows of the window, in a `slint::VecModel` that tells the views attached to it about each
/// change. The contracts below speak of the rows. That views are told of a change is left unsaid:
/// it shows in the views alone.
#[verifier::external_body]
pub struct Rows {
    model: Rc<VecModel<(String, String)>>,
}

/// `slint::ModelRc`: a model as a window takes it.
#[verifier::external_type_specification]
#[verifier::external_body]
#[verifier::reject_recursive_types(T)]
pub struct ExModelRc<T>(ModelRc<T>);

/// The name and the path in each row, from the first row to the last.
pub uninterp spec fn rows_shown(rows: Rows) -> Seq<(Seq<char>, Seq<char>)>;

impl View for Rows {
    type V = Seq<(Seq<char>, Seq<char>)>;

    /// The rows.
    open spec fn view(&self) -> Seq<(Seq<char>, Seq<char>)> {
        rows_shown(*self)
    }
}

impl Rows {
    /// `VecModel::default` makes a model without rows.
    #[verifier::external_body]
    pub fn new() -> (r: Rows)
        ensures
            rows_shown(r) == Seq::<(Seq<char>, Seq<char>)>::empty(),
    {
        Rows { model: Rc::new(VecModel::default()) }
    }

    /// `ModelExt::map` makes a model that reads the rows as they are at any time and cannot change
    /// them: this is the one that the window is given. Nothing is claimed of it.
    #[verifier::external_body]
    pub fn window_model(&self) -> (r: ModelRc<(String, String)>) {
        ModelRc::new(self.model.clone().map(|row: (String, String)| (row.0, row.1)))
    }

    /// `VecModel::row_count` gives the number of rows.
    #[verifier::external_body]
    pub(crate) fn row_count(&self) -> (r: usize)
        ensures
            r == rows_shown(*self).len(),
    {
        self.model.row_count()
    }

    /// `VecModel::row_data` gives a copy of the row at an index, and `None` behind the last row.
    #[verifier::external_body]
    pub(crate) fn row_data(&self, row: usize) -> (r: Option<(String, String)>)
        ensures
            r is Some <==> row < rows_shown(*self).len(),
            r matches Some(item) ==> (item.0@, item.1@) == rows_shown(*self)[row as int],
    {
        self.model.row_data(row)
    }

    /// `VecModel::push` adds a row at the end. The other rows stay.
    #[verifier::external_body]
    pub(crate) fn push_row(&mut self, name: String, path: String)
        ensures
            rows_shown(*final(self)) == rows_shown(*old(self)).push((name@, path@)),
    {
        self.model.push((name, path))
    }

    /// `VecModel::remove` takes the row at an index out, and the rows behind it move up by one. It
    /// panics where there is no such row.
    #[verifier::external_body]
    pub(crate) fn remove_row(&mut self, row: usize) -> (r: (String, String))
        requires
            row < rows_shown(*old(self)).len(),
        ensures
            (r.0@, r.1@) == rows_shown(*old(self))[row as int],
            rows_shown(*final(self)) == rows_shown(*old(self)).remove(row as int),
    {
        self.model.remove(row)
    }

    /// `VecModel::set_vec` puts new rows in the place of all that were there.
    #[verifier::external_body]
    pub(crate) fn set_rows(&mut self, rows: Vec<(String, String)>)
        ensures
            rows_shown(*final(self)) == rows@.map_values(|r: (String, String)| (r.0@, r.1@)),
    {
        self.model.set_vec(rows)
    }
}

} // verus!
