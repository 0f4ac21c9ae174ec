//! The editing rules of the pin editor: moving the selection and typing digits.
use vstd::prelude::*;

verus! {

/// The largest pin that one more digit may follow (eight digits).
pub const MAX_BEFORE_DIGIT: u32 = 99_999_999;

/// The selection after moving down a list of `len` items: the next item,
/// wrapping to the first; with nothing selected, the one last selected, or
/// the first. An empty list keeps `selected`.
pub fn next_index(selected: Option<usize>, last: Option<usize>, len: usize) -> (r: Option<usize>)
    ensures
        len == 0 ==> r == selected,
        len > 0 ==> r == Some(
            match selected {
                Some(i) => if i >= len - 1 {
                    0
                } else {
                    (i + 1) as usize
                },
                None => match last {
                    Some(l) => l,
                    None => 0,
                },
            },
        ),
{
    if len == 0 {
        return selected;
    }
    let i = match selected {
        Some(i) => {
            if i >= len - 1 {
                0
            } else {
                i + 1
            }
        },
        None => match last {
            Some(l) => l,
            None => 0,
        },
    };
    Some(i)
}

/// The selection after moving up a list of `len` items: the previous item,
/// wrapping to the last; with nothing selected, the one last selected, or
/// the first. An empty list keeps `selected`.
pub fn previous_index(selected: Option<usize>, last: Option<usize>, len: usize) -> (r: Option<
    usize,
>)
    ensures
        len == 0 ==> r == selected,
        len > 0 ==> r == Some(
            match selected {
                Some(i) => if i == 0 {
                    (len - 1) as usize
                } else {
                    (i - 1) as usize
                },
                None => match last {
                    Some(l) => l,
                    None => 0,
                },
            },
        ),
{
    if len == 0 {
        return selected;
    }
    let i = match selected {
        Some(i) => {
            if i == 0 {
                len - 1
            } else {
                i - 1
            }
        },
        None => match last {
            Some(l) => l,
            None => 0,
        },
    };
    Some(i)
}

/// The pin after typing `digit` at its end; a pin of nine digits takes no
/// more.
pub fn append_digit(pin: u32, digit: u32) -> (r: u32)
    requires
        digit <= 9,
    ensures
        pin <= MAX_BEFORE_DIGIT ==> r == pin * 10 + digit,
        pin > MAX_BEFORE_DIGIT ==> r == pin,
        pin <= 999_999_999 ==> r <= 999_999_999,
{
    if pin <= MAX_BEFORE_DIGIT {
        pin * 10 + digit
    } else {
        pin
    }
}

/// The selection after the item at `index` was removed, leaving `len`
/// items: nothing when the list is empty, the new last item when `index`
/// fell off the end, else `index`.
pub fn selection_after_remove(index: usize, len: usize) -> (r: Option<usize>)
    ensures
        len == 0 ==> r is None,
        len > 0 && len <= index ==> r == Some((index - 1) as usize),
        len > index ==> r == Some(index),
{
    if len == 0 {
        None
    } else if len <= index {
        Some(index - 1)
    } else {
        Some(index)
    }
}

} // verus!
