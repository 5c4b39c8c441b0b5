use vstd::prelude::*;
use crate::numbering::{generate_number, next_number_spec};
use crate::record::{views, Status, StoreError, Todo, TodoView};

verus! {

// The operations on a loaded list. A position is 1-based and counts records
// in load order; it is not the stored number.

/// The record at a position after an edit: the new text where one is given.
pub open spec fn edited(t: TodoView, new_content: Option<Seq<char>>) -> TodoView {
    match new_content {
        Some(c) => TodoView { content: c, ..t },
        None => t,
    }
}

pub open spec fn content_view(o: &Option<String>) -> Option<Seq<char>> {
    match o {
        Some(c) => Some(c@),
        None => None,
    }
}

/// The records with their numbers reassigned as 1, 2, ... in order.
pub open spec fn renumbered(s: Seq<TodoView>) -> Seq<TodoView> {
    Seq::new(s.len(), |k: int| TodoView { number: k + 1, ..s[k] })
}

/// A new record with the given text and date, numbered after those of `todos`.
pub fn create_todo(todos: &Vec<Todo>, content: String, date: String) -> (r: Result<Todo, StoreError>)
    ensures
        r is Ok == (next_number_spec(views(todos@)) <= i32::MAX),
        match r {
            Ok(t) => t@ == (TodoView {
                number: next_number_spec(views(todos@)),
                content: content@,
                date: date@,
            }),
            Err(e) => e == StoreError::NumberOverflow,
        },
{
    let mut todo = Todo { number: 1, content, date };
    match generate_number(&mut todo, todos) {
        Ok(()) => Ok(todo),
        Err(e) => Err(e),
    }
}

/// Replaces the text of the record at `number` (a position) where a new text
/// is given; an out-of-range position changes nothing.
pub fn edit_todo(todos: &mut Vec<Todo>, number: usize, new_content: &Option<String>) -> (r: Status)
    ensures
        (r == Status::Success) == (1 <= number <= old(todos)@.len()),
        r == Status::Success ==> views(final(todos)@) == views(old(todos)@).update(
            number - 1,
            edited(old(todos)@[number - 1]@, content_view(new_content)),
        ),
        r == Status::Failed ==> final(todos)@ == old(todos)@,
{
    if number < 1 || number > todos.len() {
        return Status::Failed;
    }
    match new_content {
        Some(c) => {
            let t = Todo {
                number: todos[number - 1].number,
                content: c.clone(),
                date: todos[number - 1].date.clone(),
            };
            todos[number - 1] = t;
        },
        None => {},
    }
    assert(views(final(todos)@) =~= views(old(todos)@).update(
        number - 1,
        edited(old(todos)@[number - 1]@, content_view(new_content)),
    ));
    Status::Success
}

/// Numbers the records 1, 2, ... in their order.
pub fn renumber(todos: &mut Vec<Todo>)
    requires
        old(todos)@.len() <= i32::MAX,
    ensures
        views(final(todos)@) == renumbered(views(old(todos)@)),
{
    let mut out: Vec<Todo> = Vec::new();
    let mut i: usize = 0;
    while i < todos.len()
        invariant
            i <= todos@.len() <= i32::MAX,
            views(out@) == renumbered(views(todos@)).take(i as int),
        decreases todos@.len() - i,
    {
        let t = Todo {
            number: (i + 1) as i32,
            content: todos[i].content.clone(),
            date: todos[i].date.clone(),
        };
        let ghost before = out@;
        out.push(t);
        assert(views(out@) =~= renumbered(views(todos@)).take(i + 1)) by {
            assert(views(out@) =~= views(before).push(out@[i as int]@));
        }
        i = i + 1;
    }
    assert(renumbered(views(todos@)).take(i as int) =~= renumbered(views(todos@)));
    *todos = out;
}

/// Removes the record at `todo_num` (a position) and numbers the rest 1, 2, ...
/// in order; an out-of-range position changes nothing.
pub fn delete_todo(todo_num: usize, todos: &mut Vec<Todo>) -> (r: Status)
    requires
        old(todos)@.len() <= i32::MAX + 1,
    ensures
        (r == Status::Success) == (1 <= todo_num <= old(todos)@.len()),
        r == Status::Success ==> views(final(todos)@) == renumbered(
            views(old(todos)@).remove(todo_num - 1),
        ),
        r == Status::Failed ==> final(todos)@ == old(todos)@,
{
    if todo_num < 1 || todo_num > todos.len() {
        return Status::Failed;
    }
    let ghost before = todos@;
    todos.remove(todo_num - 1);
    assert(views(todos@) =~= views(before).remove(todo_num - 1));
    renumber(todos);
    Status::Success
}

/// The position (counted from 0) of the first record with this number, or
/// the length of the list where none has it.
pub fn get_line(todo_num: i32, todos: &Vec<Todo>) -> (r: i32)
    requires
        todos@.len() <= i32::MAX,
    ensures
        0 <= r <= todos@.len(),
        forall|k: int| 0 <= k < r ==> #[trigger] todos@[k].number != todo_num,
        r < todos@.len() ==> todos@[r as int].number == todo_num,
{
    let mut count: usize = 0;
    while count < todos.len() && todos[count].number != todo_num
        invariant
            count <= todos@.len() <= i32::MAX,
            forall|k: int| 0 <= k < count ==> #[trigger] todos@[k].number != todo_num,
        decreases todos@.len() - count,
    {
        count = count + 1;
    }
    count as i32
}

} // verus!
