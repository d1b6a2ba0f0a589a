use fast_approx_dtw::{StackVec, StackVecError, StackVecIterator};

#[test]
fn keeps_item_count() {
    let mut vec = StackVec::<u8, 5>::empty(false);
    assert_eq!(0, vec.len());
    vec.push(2);
    assert_eq!(1, vec.len());
    vec.push(3);
    assert_eq!(2, vec.len());
    vec.push(4);
    assert_eq!(3, vec.len());
}

#[test]
fn can_fill_completely() {
    let mut vec = StackVec::<u8, 5>::empty(false);
    vec.push(2);
    vec.push(3);
    vec.push(4);
    vec.push(5);
    vec.push(6);
}

#[test]
fn is_indexable() {
    let mut vec = StackVec::<u8, 5>::empty(false);
    vec.push(2);
    vec.push(3);
    vec.push(4);
    assert_eq!(4, *vec.index(2));
    assert_eq!(3, *vec.index(1));
    assert_eq!(2, *vec.index(0));
}

#[test]
fn iterates_items() {
    let mut vec = StackVec::<u8, 5>::empty(false);
    let values = [1, 2, 3];

    for item in values.iter() {
        vec.push(*item);
    }

    let mut it = vec.iter();
    let mut i = 0;
    while let Some(item) = it.next() {
        assert_eq!(values[i], *item);
        i += 1;
    }
    assert_eq!(3, i);
}

#[test]
fn reverse_iterates_items() {
    let mut vec = StackVec::<u8, 5>::empty(false);
    let values = [1, 2, 3];

    for item in values.iter() {
        vec.push(*item);
    }

    let mut it = vec.iter();
    let mut i = 0;
    while let Some(item) = it.next_back() {
        assert_eq!(values[values.len() - i - 1], *item);
        i += 1;
    }
    assert_eq!(3, i);
}

#[test]
fn overfill_is_refused() {
    let mut vec = StackVec::<u8, 5>::empty(false);
    for item in [2u8, 3, 4, 5, 6] {
        assert_eq!(Ok(()), vec.try_push(item));
    }
    assert_eq!(Err(StackVecError::CapacityExceeded), vec.try_push(7));
    assert_eq!(5, vec.len());
    assert_eq!(6, *vec.index(4));
}

#[test]
fn zero_index_when_empty_is_out_of_range() {
    let vec = StackVec::<u8, 5>::empty(false);
    assert_eq!(Err(StackVecError::OutOfRange), vec.get(0));
}

#[test]
fn index_above_len_is_out_of_range() {
    let mut vec = StackVec::<u8, 5>::empty(false);
    vec.push(2);
    vec.push(3);
    vec.push(4);
    assert_eq!(Err(StackVecError::OutOfRange), vec.get(3));
    assert_eq!(Ok(&4), vec.get(2));
}

#[test]
fn new_keeps_the_first_len_items() {
    let vec = StackVec::<u8, 4>::new([9, 8, 7, 6], 3);
    assert_eq!(3, vec.len());
    assert_eq!(9, *vec.index(0));
    assert_eq!(7, *vec.index(2));
    assert_eq!(Err(StackVecError::OutOfRange), vec.get(3));
    let full = StackVec::<u8, 4>::new([9, 8, 7, 6], 4);
    assert_eq!(4, full.len());
    assert_eq!(6, *full.index(3));
}

#[test]
fn index_mut_gives_one_item_for_writing() {
    let mut vec = StackVec::<u8, 3>::empty(false);
    vec.push(1);
    vec.push(2);
    *vec.index_mut(1) = 9;
    *vec.index_mut(0) += 4;
    assert_eq!(5, *vec.index(0));
    assert_eq!(9, *vec.index(1));
    assert_eq!(2, vec.len());
}

#[test]
fn set_replaces_one_item() {
    let mut vec = StackVec::<u8, 3>::empty(true);
    vec.push(1);
    vec.push(2);
    vec.set(0, 5);
    assert_eq!(5, *vec.index(0));
    assert_eq!(2, *vec.index(1));
    assert_eq!(2, vec.len());
}

#[test]
fn cursor_ends_and_stays_ended() {
    let mut vec = StackVec::<u8, 3>::empty(false);
    vec.push(1);
    let mut it = StackVecIterator::new(&vec);
    assert_eq!(Some(&1), it.next());
    assert_eq!(None, it.next());
    assert_eq!(None, it.next_back());
    let empty = StackVec::<u8, 3>::empty(false);
    let mut none = empty.iter();
    assert_eq!(None, none.next());
}

#[test]
fn cursor_counts_positions_from_both_ends() {
    let mut vec = StackVec::<u8, 4>::empty(false);
    for item in [1u8, 2, 3, 4] {
        vec.push(item);
    }
    let mut it = vec.iter();
    assert_eq!(Some(&1), it.next());
    assert_eq!(Some(&3), it.next_back());
    assert_eq!(Some(&3), it.next());
    assert_eq!(Some(&1), it.next_back());
    assert_eq!(None, it.next());
}
