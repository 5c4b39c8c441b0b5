use vstd::prelude::*;

verus! {

/// One entry of the list: its number, its text and when it was written.
#[derive(Debug, Clone)]
pub struct Todo {
    pub number: i32,
    pub content: String,
    pub date: String,
}

/// What a [`Todo`] is, as a mathematical value.
pub struct TodoView {
    pub number: int,
    pub content: Seq<char>,
    pub date: Seq<char>,
}

impl View for Todo {
    type V = TodoView;

    open spec fn view(&self) -> TodoView {
        TodoView { number: self.number as int, content: self.content@, date: self.date@ }
    }
}

/// The views of a sequence of entries, in order.
pub open spec fn views(s: Seq<Todo>) -> Seq<TodoView> {
    s.map_values(|t: Todo| t@)
}

impl Todo {
    /// A fresh entry with the same number, text and date.
    pub fn copy(&self) -> (r: Todo)
        ensures
            r@ == self@,
    {
        Todo { number: self.number, content: self.content.clone(), date: self.date.clone() }
    }
}

impl PartialEq for Todo {
    fn eq(&self, o: &Todo) -> (r: bool) {
        self.number == o.number && self.content == o.content && self.date == o.date
    }
}

impl vstd::std_specs::cmp::PartialEqSpecImpl for Todo {
    open spec fn obeys_eq_spec() -> bool {
        true
    }

    open spec fn eq_spec(&self, o: &Todo) -> bool {
        self@ == o@
    }
}

/// Whether an operation on a position of the list took place.
#[derive(Debug, Clone, Copy, PartialEq, Eq, Structural)]
pub enum Status {
    Success,
    Failed,
}

/// Why the stored list could not be read or extended.
#[derive(Debug, Clone, Copy, PartialEq, Eq, Structural)]
pub enum StoreError {
    /// The line at this index (counted from 0, blank lines included) is
    /// neither blank nor a valid record.
    Malformed(usize),
    /// The largest number in the list leaves no room for a next one.
    NumberOverflow,
}

} // verus!
