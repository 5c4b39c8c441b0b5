use vstd::prelude::*;
use crate::record::{views, StoreError, Todo, TodoView};

verus! {

/// The largest number among the records (0 for none).
pub open spec fn max_number(s: Seq<TodoView>) -> int
    decreases s.len(),
{
    if s.len() == 0 {
        0
    } else if s.len() == 1 {
        s[0].number
    } else {
        let m = max_number(s.drop_last());
        if s.last().number > m {
            s.last().number
        } else {
            m
        }
    }
}

/// The number that a new record gets: one more than the largest, or 1 in an empty list.
pub open spec fn next_number_spec(s: Seq<TodoView>) -> int {
    if s.len() == 0 {
        1
    } else {
        max_number(s) + 1
    }
}

/// The next number is above every number in the list, so it is not in use.
pub proof fn lemma_next_number_fresh(s: Seq<TodoView>)
    ensures
        forall|k: int| 0 <= k < s.len() ==> #[trigger] s[k].number < next_number_spec(s),
    decreases s.len(),
{
    if s.len() > 1 {
        let p = s.drop_last();
        lemma_next_number_fresh(p);
        assert forall|k: int| 0 <= k < s.len() implies #[trigger] s[k].number < next_number_spec(
            s,
        ) by {
            if k < p.len() {
                assert(p[k] == s[k]);
            }
        }
    }
}

/// The number that a record added to this list gets; `None` where it would not fit an `i32`.
pub fn next_number(todos: &Vec<Todo>) -> (r: Option<i32>)
    ensures
        r is Some == (next_number_spec(views(todos@)) <= i32::MAX),
        r is Some ==> r->0 as int == next_number_spec(views(todos@)),
{
    if todos.len() == 0 {
        return Some(1);
    }
    let mut m: i32 = todos[0].number;
    let mut i: usize = 1;
    while i < todos.len()
        invariant
            1 <= i <= todos@.len(),
            m as int == max_number(views(todos@.take(i as int))),
        decreases todos@.len() - i,
    {
        proof {
            let t = views(todos@.take(i + 1));
            assert(t.drop_last() =~= views(todos@.take(i as int)));
        }
        if todos[i].number > m {
            m = todos[i].number;
        }
        i = i + 1;
    }
    assert(todos@.take(i as int) =~= todos@);
    if m == i32::MAX {
        None
    } else {
        Some(m + 1)
    }
}

/// Gives `todo` the number that follows those of `todos`. Where that number
/// would not fit, `todo` is left as it was and the error says so.
pub fn generate_number(todo: &mut Todo, todos: &Vec<Todo>) -> (r: Result<(), StoreError>)
    ensures
        r is Ok == (next_number_spec(views(todos@)) <= i32::MAX),
        r is Ok ==> final(todo)@ == (TodoView {
            number: next_number_spec(views(todos@)),
            ..old(todo)@
        }),
        r is Err ==> r == Err::<(), StoreError>(StoreError::NumberOverflow) && *final(todo)
            == *old(todo),
{
    match next_number(todos) {
        Some(n) => {
            todo.number = n;
            Ok(())
        },
        None => Err(StoreError::NumberOverflow),
    }
}

} // verus!
