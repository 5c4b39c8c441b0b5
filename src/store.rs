use vstd::prelude::*;
use crate::codec::{decode, decode_spec, encode, encode_spec, lemma_round_trip};
use crate::record::{views, StoreError, Todo, TodoView};

verus! {

// The store file is modelled by its lines, as a sequence of texts without
// line breaks; the code that reads and writes the file lives outside this
// library and hands the lines over.

/// A white-space character of Unicode: tab to carriage return, space, and
/// the white-space characters above ASCII.
pub open spec fn is_space(c: char) -> bool {
    ('\u{9}' <= c && c <= '\u{d}') || c == ' ' || c == '\u{85}' || c == '\u{a0}' || c
        == '\u{1680}' || ('\u{2000}' <= c && c <= '\u{200a}') || c == '\u{2028}' || c
        == '\u{2029}' || c == '\u{202f}' || c == '\u{205f}' || c == '\u{3000}'
}

/// A line that holds nothing but white space; such lines are skipped.
pub open spec fn is_blank(s: Seq<char>) -> bool {
    forall|k: int| 0 <= k < s.len() ==> is_space(#[trigger] s[k])
}

/// The records that the lines of a store file hold, in order, or the index
/// of the first line that is neither blank nor a valid record.
pub open spec fn load_spec(lines: Seq<Seq<char>>) -> Result<Seq<TodoView>, int>
    decreases lines.len(),
{
    if lines.len() == 0 {
        Ok(seq![])
    } else {
        match load_spec(lines.drop_last()) {
            Err(k) => Err(k),
            Ok(v) => if is_blank(lines.last()) {
                Ok(v)
            } else {
                match decode_spec(lines.last()) {
                    Some(t) => Ok(v.push(t)),
                    None => Err(lines.len() - 1),
                }
            },
        }
    }
}

/// The lines of a store file that holds exactly these records, in order.
pub open spec fn render_spec(s: Seq<TodoView>) -> Seq<Seq<char>> {
    s.map_values(|t: TodoView| encode_spec(t))
}

/// The number of every record fits an `i32`.
pub open spec fn numbers_fit(s: Seq<TodoView>) -> bool {
    forall|k: int| 0 <= k < s.len() ==> i32::MIN <= #[trigger] s[k].number <= i32::MAX
}

/// No record line is blank.
proof fn lemma_encoded_not_blank(t: TodoView)
    ensures
        !is_blank(encode_spec(t)),
{
    reveal(encode_spec);
    assert(encode_spec(t)[0] == '{');
}

/// Appending the line of a record to a store that loads adds that record at the end.
pub proof fn lemma_load_push(lines: Seq<Seq<char>>, t: TodoView)
    requires
        i32::MIN <= t.number <= i32::MAX,
    ensures
        load_spec(lines.push(encode_spec(t))) == match load_spec(lines) {
            Ok(v) => Ok(v.push(t)),
            Err(k) => Err(k),
        },
{
    let l = lines.push(encode_spec(t));
    assert(l.drop_last() =~= lines);
    lemma_encoded_not_blank(t);
    lemma_round_trip(t);
}

/// The lines rendered from records load back as those records.
pub proof fn lemma_render_load(s: Seq<TodoView>)
    requires
        numbers_fit(s),
    ensures
        load_spec(render_spec(s)) == Ok::<Seq<TodoView>, int>(s),
    decreases s.len(),
{
    if s.len() == 0 {
        assert(render_spec(s) =~= seq![]);
        assert(s =~= seq![]);
    } else {
        let p = s.drop_last();
        assert(numbers_fit(p)) by {
            assert forall|k: int| 0 <= k < p.len() implies i32::MIN <= #[trigger] p[k].number
                <= i32::MAX by {
                assert(p[k] == s[k]);
            }
        }
        lemma_render_load(p);
        assert(render_spec(s) =~= render_spec(p).push(encode_spec(s.last())));
        lemma_load_push(render_spec(p), s.last());
        assert(p.push(s.last()) =~= s);
    }
}

/// An invalid line stays an error when more lines follow it.
proof fn lemma_load_err_extends(lines: Seq<Seq<char>>, n: int, k: int)
    requires
        0 <= n <= lines.len(),
        load_spec(lines.take(n)) == Err::<Seq<TodoView>, int>(k),
    ensures
        load_spec(lines) == Err::<Seq<TodoView>, int>(k),
    decreases lines.len(),
{
    if lines.len() == n {
        assert(lines.take(n) =~= lines);
    } else {
        assert(lines.drop_last().take(n) =~= lines.take(n));
        lemma_load_err_extends(lines.drop_last(), n, k);
    }
}

/// Whether there are no lines at all.
pub fn is_empty(vec_string: &Vec<String>) -> (r: bool)
    ensures
        r == (vec_string@.len() == 0),
{
    vec_string.len() == 0
}

fn is_blank_exec(line: &str) -> (r: bool)
    ensures
        r == is_blank(line@),
{
    let n = line.unicode_len();
    let mut k: usize = 0;
    while k < n
        invariant
            n == line@.len(),
            k <= n,
            forall|m: int| 0 <= m < k ==> is_space(#[trigger] line@[m]),
        decreases n - k,
    {
        let c = line.get_char(k);
        if !(('\u{9}' <= c && c <= '\u{d}') || c == ' ' || c == '\u{85}' || c == '\u{a0}'
            || c == '\u{1680}' || ('\u{2000}' <= c && c <= '\u{200a}') || c == '\u{2028}'
            || c == '\u{2029}' || c == '\u{202f}' || c == '\u{205f}' || c == '\u{3000}') {
            return false;
        }
        k = k + 1;
    }
    true
}

/// The records that the lines of a store file hold, in file order; blank lines
/// are skipped, and the first line that is not a valid record is an error.
pub fn get_todo_vec(lines: &Vec<String>) -> (r: Result<Vec<Todo>, StoreError>)
    ensures
        match r {
            Ok(v) => load_spec(lines.deep_view()) == Ok::<Seq<TodoView>, int>(views(v@)),
            Err(e) => exists|k: int|
                load_spec(lines.deep_view()) == Err::<Seq<TodoView>, int>(k) && e
                    == StoreError::Malformed(k as usize),
        },
{
    let mut out: Vec<Todo> = Vec::new();
    let mut i: usize = 0;
    assert(lines.deep_view().take(0) =~= seq![]);
    assert(views(out@) =~= seq![]);
    while i < lines.len()
        invariant
            i <= lines@.len(),
            load_spec(lines.deep_view().take(i as int)) == Ok::<Seq<TodoView>, int>(views(out@)),
        decreases lines@.len() - i,
    {
        let line = lines[i].as_str();
        proof {
            let t = lines.deep_view().take(i + 1);
            assert(t.drop_last() =~= lines.deep_view().take(i as int));
            assert(t.last() == line@);
        }
        if !is_blank_exec(line) {
            match decode(line) {
                Some(todo) => {
                    let ghost before = out@;
                    let ghost tv = todo@;
                    out.push(todo);
                    assert(views(out@) =~= views(before).push(tv));
                },
                None => {
                    proof {
                        lemma_load_err_extends(lines.deep_view(), i + 1, i as int);
                    }
                    return Err(StoreError::Malformed(i));
                },
            }
        }
        i = i + 1;
    }
    assert(lines.deep_view().take(i as int) =~= lines.deep_view());
    Ok(out)
}

/// The lines of a store file that holds exactly these records, in order.
pub fn write_lines(todos: &Vec<Todo>) -> (r: Vec<String>)
    ensures
        r.deep_view() == render_spec(views(todos@)),
{
    let mut out: Vec<String> = Vec::new();
    let mut i: usize = 0;
    while i < todos.len()
        invariant
            i <= todos@.len(),
            out.deep_view() == render_spec(views(todos@.take(i as int))),
        decreases todos@.len() - i,
    {
        let line = encode(&todos[i]);
        let ghost before = out.deep_view();
        let ghost l = line@;
        out.push(line);
        proof {
            assert(out.deep_view() =~= before.push(l));
            assert(todos@.take(i + 1) =~= todos@.take(i as int).push(todos@[i as int]));
            assert(views(todos@.take(i + 1)) =~= views(todos@.take(i as int)).push(todos@[i as int]@));
            assert(render_spec(views(todos@.take(i + 1))) =~= render_spec(views(todos@.take(i as int))).push(l));
        }
        i = i + 1;
    }
    assert(todos@.take(i as int) =~= todos@);
    out
}

} // verus!
