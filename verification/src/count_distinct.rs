//! The number of different fields of a list with commas.
use vstd::prelude::*;
use crate::text::{chars_of, same_text, split, split_by};

verus! {

/// The number of different fields among those that the commas of `text`
/// part.
pub open spec fn distinct_fields(text: Seq<char>) -> nat {
    split_by(text, ',').to_set().len()
}

/// Tells whether `field` is among the first `count` of `fields`.
fn occurs_before(fields: &Vec<Vec<char>>, count: usize, field: &Vec<char>) -> (found: bool)
    requires
        count <= fields.len(),
    ensures
        found == exists|j: int| 0 <= j < count && (#[trigger] fields[j])@ == field@,
{
    let mut j: usize = 0;
    while j < count
        invariant
            j <= count <= fields.len(),
            forall|k: int| 0 <= k < j ==> (#[trigger] fields[k])@ != field@,
        decreases count - j,
    {
        if same_text(&fields[j], field) {
            return true;
        }
        j = j + 1;
    }
    false
}

/// The number of different fields of `input_str`, which commas part into
/// fields.  A text without a comma is one field, the empty text too.
pub fn new_count_distinct(input_str: &str) -> (count: usize)
    ensures
        count == distinct_fields(input_str@),
        count >= 1,
{
    broadcast use {vstd::seq_lib::group_seq_properties, vstd::set::group_set_axioms};

    let chars: Vec<char> = chars_of(input_str);
    let fields: Vec<Vec<char>> = split(&chars, ',');
    let ghost all: Seq<Seq<char>> = split_by(input_str@, ',');
    let mut count: usize = 0;
    let mut i: usize = 0;
    assert(all.take(0) =~= Seq::<Seq<char>>::empty());
    assert(all.take(0).to_set() =~= Set::<Seq<char>>::empty());
    while i < fields.len()
        invariant
            i <= fields.len(),
            fields.len() == all.len(),
            forall|j: int| 0 <= j < fields.len() ==> (#[trigger] fields[j])@ == all[j],
            count == all.take(i as int).to_set().len(),
            count <= i,
            i > 0 ==> count >= 1,
        decreases fields.len() - i,
    {
        let seen: bool = occurs_before(&fields, i, &fields[i]);
        proof {
            let before = all.take(i as int);
            let next = all.take(i + 1);
            assert(next =~= before.push(all[i as int]));
            before.lemma_push_to_set_commute(all[i as int]);
            vstd::seq_lib::seq_to_set_is_finite(before);
            if seen {
                let j = choose|j: int| 0 <= j < i && (#[trigger] fields[j])@ == fields[i as int]@;
                assert(before[j] == all[i as int]);
                assert(before.to_set().contains(all[i as int]));
                assert(before.to_set().insert(all[i as int]) =~= before.to_set());
            } else {
                if before.to_set().contains(all[i as int]) {
                    let j = choose|j: int| 0 <= j < before.len() && before[j] == all[i as int];
                    assert(fields[j]@ == fields[i as int]@);
                    assert(false);
                }
            }
        }
        if !seen {
            count = count + 1;
        }
        i = i + 1;
    }
    proof {
        assert(all.take(i as int) =~= all);
        crate::text::lemma_split_fields(input_str@, ',');
    }
    count
}

} // verus!
