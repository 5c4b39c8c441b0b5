use vstd::prelude::*;
use crate::codec::{decode_spec, encode_spec, lemma_decode_fits};
use crate::numbering::next_number_spec;
use crate::record::TodoView;
use crate::store::{
    is_blank, lemma_load_push, lemma_render_load, load_spec, numbers_fit, render_spec,
};

verus! {

/// Every record that a store file loads has a number that fits an `i32`.
pub proof fn lemma_load_fits(lines: Seq<Seq<char>>)
    requires
        load_spec(lines) is Ok,
    ensures
        numbers_fit(load_spec(lines)->Ok_0),
    decreases lines.len(),
{
    if lines.len() > 0 {
        lemma_load_fits(lines.drop_last());
        if !is_blank(lines.last()) {
            lemma_decode_fits(lines.last());
        }
        let v = load_spec(lines)->Ok_0;
        let p = load_spec(lines.drop_last())->Ok_0;
        assert forall|k: int| 0 <= k < v.len() implies i32::MIN <= #[trigger] v[k].number
            <= i32::MAX by {
            if k < p.len() {
                assert(v[k] == p[k]);
            }
        }
    }
}

/// Listing is stable: a store file rewritten with the records that it lists
/// lists the same records again.
pub proof fn lemma_list_stable(lines: Seq<Seq<char>>)
    requires
        load_spec(lines) is Ok,
    ensures
        load_spec(render_spec(load_spec(lines)->Ok_0)) == load_spec(lines),
{
    lemma_load_fits(lines);
    lemma_render_load(load_spec(lines)->Ok_0);
}

/// After a record is created for a store file and its line appended, the file
/// lists the records it listed before and then the new record, whose number is
/// one more than the largest before it (1 in an empty store).
pub proof fn lemma_create_then_list(lines: Seq<Seq<char>>, content: Seq<char>, date: Seq<char>)
    requires
        load_spec(lines) is Ok,
        next_number_spec(load_spec(lines)->Ok_0) <= i32::MAX,
    ensures
        ({
            let v = load_spec(lines)->Ok_0;
            let t = TodoView { number: next_number_spec(v), content, date };
            load_spec(lines.push(encode_spec(t))) == Ok::<Seq<TodoView>, int>(v.push(t))
        }),
{
    let v = load_spec(lines)->Ok_0;
    if v.len() > 0 {
        lemma_load_fits(lines);
        lemma_max_in(v);
    }
    let t = TodoView { number: next_number_spec(v), content, date };
    lemma_load_push(lines, t);
}

/// The largest number is the number of some record.
proof fn lemma_max_in(s: Seq<TodoView>)
    requires
        s.len() > 0,
    ensures
        exists|k: int| 0 <= k < s.len() && #[trigger] s[k].number == crate::numbering::max_number(s),
    decreases s.len(),
{
    if s.len() == 1 {
        assert(s[0].number == crate::numbering::max_number(s));
    } else {
        let p = s.drop_last();
        lemma_max_in(p);
        let k = choose|k: int| 0 <= k < p.len() && #[trigger] p[k].number == crate::numbering::max_number(p);
        assert(p[k] == s[k]);
        if s.last().number > crate::numbering::max_number(p) {
            assert(s[s.len() - 1].number == crate::numbering::max_number(s));
        } else {
            assert(s[k].number == crate::numbering::max_number(s));
        }
    }
}

/// An empty store file lists no records, and the first record created for it
/// gets number 1.
pub proof fn lemma_empty_store()
    ensures
        load_spec(seq![]) == Ok::<Seq<TodoView>, int>(seq![]),
        next_number_spec(seq![]) == 1,
{
}

/// A store file with a line that is neither blank nor a valid record does not
/// list: the bad line is reported, not skipped.
pub proof fn lemma_corrupt_line(lines: Seq<Seq<char>>, k: int)
    requires
        0 <= k < lines.len(),
        !is_blank(lines[k]),
        decode_spec(lines[k]) is None,
    ensures
        load_spec(lines) is Err,
    decreases lines.len(),
{
    if k < lines.len() - 1 {
        assert(lines.drop_last()[k] == lines[k]);
        lemma_corrupt_line(lines.drop_last(), k);
    }
}

} // verus!
