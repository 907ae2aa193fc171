use vstd::prelude::*;

verus! {

/// Borrows two distinct slots of `items` mutably at once, when both hold a value.
/// The first reference returned is to slot `first_index`, the second to slot `second_index`.
pub fn mut_two<T>(first_index: usize, second_index: usize, items: &mut [Option<T>]) -> (r: Option<(&mut T, &mut T)>)
    requires
        first_index != second_index,
        first_index < old(items)@.len(),
        second_index < old(items)@.len(),
    ensures
        r.is_some() == (old(items)@[first_index as int].is_some() && old(items)@[second_index as int].is_some()),
        r.is_none() ==> final(items)@ == old(items)@,
        r.is_some() ==> {
            &&& *r.unwrap().0 == old(items)@[first_index as int].unwrap()
            &&& *r.unwrap().1 == old(items)@[second_index as int].unwrap()
            &&& final(items)@ == old(items)@.update(first_index as int, Some(*final(r.unwrap().0))).update(
                second_index as int,
                Some(*final(r.unwrap().1)),
            )
        },
{
    let split_at_index = if first_index > second_index { first_index } else { second_index };
    let (first_slice, second_slice) = items.split_at_mut(split_at_index);
    if first_index < second_index {
        if let Some(item1) = &mut first_slice[first_index] {
            if let Some(item2) = &mut second_slice[0] {
                Some((item1, item2))
            } else {
                None
            }
        } else {
            None
        }
    } else {
        if let Some(item1) = &mut second_slice[0] {
            if let Some(item2) = &mut first_slice[second_index] {
                Some((item1, item2))
            } else {
                None
            }
        } else {
            None
        }
    }
}

} // verus!
