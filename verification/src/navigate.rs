//! Pure index arithmetic for an ordered list with an optional selection.
//! One implementation serves both the record table and the history list.

use vstd::prelude::*;

verus! {

/// One navigation command: move up or down by a step, or jump to an end.
#[derive(Clone, Copy, Debug, PartialEq, Eq, Structural)]
pub enum NavOp {
    Up(usize),
    Down(usize),
    Home,
    End,
}

/// A selection is either absent or an index into the list.
pub open spec fn sel_in_range(len: nat, sel: Option<usize>) -> bool {
    match sel {
        None => true,
        Some(i) => i < len,
    }
}

pub open spec fn nav_up_spec(len: nat, sel: Option<usize>, delta: usize) -> Option<usize> {
    if len == 0 {
        None
    } else {
        match sel {
            None => Some((len - 1) as usize),
            Some(i) => if i <= delta {
                Some(0usize)
            } else {
                Some((i - delta) as usize)
            },
        }
    }
}

pub open spec fn nav_down_spec(len: nat, sel: Option<usize>, delta: usize) -> Option<usize> {
    if len == 0 {
        None
    } else {
        match sel {
            None => Some(0usize),
            Some(i) => if i + delta >= len - 1 {
                Some((len - 1) as usize)
            } else {
                Some((i + delta) as usize)
            },
        }
    }
}

pub open spec fn nav_home_spec(len: nat) -> Option<usize> {
    if len == 0 {
        None
    } else {
        Some(0usize)
    }
}

pub open spec fn nav_end_spec(len: nat) -> Option<usize> {
    if len == 0 {
        None
    } else {
        Some((len - 1) as usize)
    }
}

/// Moves the selection up by `delta`, stopping at the top; an absent
/// selection starts from the bottom.
pub fn navigate_up<T>(list: &Vec<T>, selected: Option<usize>, delta: usize) -> (r: Option<usize>)
    ensures
        r == nav_up_spec(list@.len(), selected, delta),
        sel_in_range(list@.len(), selected) ==> sel_in_range(list@.len(), r) && (r.is_some()
            <==> list@.len() > 0),
{
    if list.len() == 0 {
        None
    } else {
        match selected {
            Some(i) => {
                if i <= delta {
                    Some(0)
                } else {
                    Some(i - delta)
                }
            },
            None => Some(list.len() - 1),
        }
    }
}

/// Moves the selection down by `delta`, stopping at the bottom; an absent
/// selection starts from the top. Also re-clamps a stale index after the
/// list shrank: any out-of-range index is pulled back to the last one.
pub fn navigate_down<T>(list: &Vec<T>, selected: Option<usize>, delta: usize) -> (r: Option<usize>)
    ensures
        r == nav_down_spec(list@.len(), selected, delta),
        sel_in_range(list@.len(), r),
        r.is_some() <==> list@.len() > 0,
{
    if list.len() == 0 {
        None
    } else {
        match selected {
            Some(i) => {
                let last = list.len() - 1;
                if delta >= last || i >= last - delta {
                    Some(last)
                } else {
                    Some(i + delta)
                }
            },
            None => Some(0),
        }
    }
}

/// Selects the first entry, or nothing if the list is empty.
pub fn navigate_home<T>(list: &Vec<T>) -> (r: Option<usize>)
    ensures
        r == nav_home_spec(list@.len()),
        sel_in_range(list@.len(), r),
        r.is_some() <==> list@.len() > 0,
{
    if list.len() == 0 {
        None
    } else {
        Some(0)
    }
}

/// Selects the last entry, or nothing if the list is empty.
pub fn navigate_end<T>(list: &Vec<T>) -> (r: Option<usize>)
    ensures
        r == nav_end_spec(list@.len()),
        sel_in_range(list@.len(), r),
        r.is_some() <==> list@.len() > 0,
{
    if list.len() == 0 {
        None
    } else {
        Some(list.len() - 1)
    }
}

pub open spec fn nav_op_apply(len: nat, sel: Option<usize>, op: NavOp) -> Option<usize> {
    match op {
        NavOp::Up(delta) => nav_up_spec(len, sel, delta),
        NavOp::Down(delta) => nav_down_spec(len, sel, delta),
        NavOp::Home => nav_home_spec(len),
        NavOp::End => nav_end_spec(len),
    }
}

pub open spec fn nav_apply_seq(len: nat, sel: Option<usize>, ops: Seq<NavOp>) -> Option<usize>
    decreases ops.len(),
{
    if ops.len() == 0 {
        sel
    } else {
        nav_apply_seq(len, nav_op_apply(len, sel, ops[0]), ops.drop_first())
    }
}

/// One navigation command keeps the selection inside the list, and yields a
/// selection exactly when the list is nonempty.
pub proof fn lemma_nav_op(len: nat, sel: Option<usize>, op: NavOp)
    requires
        len <= usize::MAX,
        sel_in_range(len, sel),
    ensures
        sel_in_range(len, nav_op_apply(len, sel, op)),
        nav_op_apply(len, sel, op).is_some() <==> len > 0,
{
}

/// Starting from a valid selection, any nonempty sequence of navigation
/// commands ends with a selection in `[0, len)` if the list is nonempty,
/// and with no selection if it is empty.
pub proof fn lemma_nav_sequence(len: nat, sel: Option<usize>, ops: Seq<NavOp>)
    requires
        len <= usize::MAX,
        sel_in_range(len, sel),
        ops.len() > 0,
    ensures
        sel_in_range(len, nav_apply_seq(len, sel, ops)),
        nav_apply_seq(len, sel, ops).is_some() <==> len > 0,
    decreases ops.len(),
{
    let next = nav_op_apply(len, sel, ops[0]);
    lemma_nav_op(len, sel, ops[0]);
    if ops.len() > 1 {
        lemma_nav_sequence(len, next, ops.drop_first());
    }
}

} // verus!
