//! The texts that are shown.

use vstd::prelude::*;
use vstd::string::*;

verus! {

/// What `str::to_uppercase` makes of a text.
pub uninterp spec fn uppercase(text: Seq<char>) -> Seq<char>;

/// Calls `str::to_uppercase`. The claim is that the result depends on the
/// characters of the text alone: the mapping is Unicode's, in no locale. Which
/// characters come out is left unsaid.
#[verifier::external_body]
pub(crate) fn to_uppercase(text: &str) -> (upper: String)
    ensures
        upper@ == uppercase(text@),
{
    text.to_uppercase()
}

/// The texts of a list of strings.
pub open spec fn texts(list: Seq<String>) -> Seq<Seq<char>> {
    Seq::new(list.len(), |i: int| list[i]@)
}

/// The items in a row, with the separator between any two of them.
pub open spec fn joined(items: Seq<Seq<char>>, separator: Seq<char>) -> Seq<char>
    decreases items.len(),
{
    if items.len() == 0 {
        Seq::empty()
    } else if items.len() == 1 {
        items[0]
    } else {
        joined(items.drop_last(), separator) + separator + items.last()
    }
}

/// Joins the items with the separator between any two of them.
pub fn join(items: &Vec<String>, separator: &str) -> (label: String)
    ensures
        label@ == joined(texts(items@), separator@),
{
    let mut label = String::new();
    let mut i: usize = 0;
    assert(texts(items@).take(0) =~= Seq::<Seq<char>>::empty());
    while i < items.len()
        invariant
            i <= items.len(),
            label@ == joined(texts(items@).take(i as int), separator@),
        decreases items.len() - i,
    {
        proof {
            let before = texts(items@).take(i as int);
            let after = texts(items@).take(i + 1);
            assert(after.drop_last() =~= before);
            assert(after.last() == items@[i as int]@);
        }
        if i > 0 {
            label.append(separator);
        }
        label.append(items[i].as_str());
        proof {
            if i == 0 {
                assert(label@ =~= items@[0]@);
            }
        }
        i = i + 1;
    }
    assert(texts(items@).take(i as int) =~= texts(items@));
    label
}

} // verus!
