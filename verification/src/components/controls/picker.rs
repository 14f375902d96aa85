//! Keeping a picker and the value it is bound to in step.
//!
//! The items of a picker are known by their identifiers. Either side can
//! change: a change of the control updates the value, a change of the value
//! moves the control, and neither is echoed back.

use vstd::prelude::*;

verus! {

/// The position of a list in which nothing is selected.
pub const INVALID_LIST_POSITION: u32 = 0xffff_ffff;

/// The first position at which `id` stands.
pub open spec fn position_of(ids: Seq<i32>, id: i32) -> Option<usize>
    decreases ids.len(),
{
    if ids.len() == 0 {
        None
    } else {
        match position_of(ids.drop_last(), id) {
            Some(i) => Some(i),
            None => if ids.last() == id {
                Some((ids.len() - 1) as usize)
            } else {
                None
            },
        }
    }
}

/// The first position of an identifier holds it, and no earlier one does.
pub proof fn lemma_position_of(ids: Seq<i32>, id: i32)
    requires
        ids.len() <= usize::MAX,
    ensures
        match position_of(ids, id) {
            Some(i) => i < ids.len() && ids[i as int] == id && forall|j: int|
                0 <= j < i ==> ids[j] != id,
            None => !ids.contains(id),
        },
    decreases ids.len(),
{
    if ids.len() > 0 {
        lemma_position_of(ids.drop_last(), id);
        if let Some(i) = position_of(ids.drop_last(), id) {
            assert(ids.drop_last()[i as int] == ids[i as int]);
            assert forall|j: int| 0 <= j < i implies ids[j] != id by {
                assert(ids.drop_last()[j] == ids[j]);
            }
        } else if position_of(ids, id) is None {
            assert forall|j: int| 0 <= j < ids.len() implies ids[j] != id by {
                if j < ids.len() - 1 {
                    assert(ids.drop_last()[j] == ids[j]);
                    assert(ids.drop_last().contains(ids[j]));
                }
            }
        } else {
            assert forall|j: int| 0 <= j < ids.len() - 1 implies ids[j] != id by {
                assert(ids.drop_last()[j] == ids[j]);
                assert(ids.drop_last().contains(ids[j]));
            }
        }
    }
}

/// The first position at which `id` stands.
pub fn position(ids: &Vec<i32>, id: i32) -> (r: Option<usize>)
    ensures
        r == position_of(ids@, id),
{
    let mut i: usize = 0;
    assert(ids@.take(0) =~= seq![]);
    while i < ids.len()
        invariant
            i <= ids.len(),
            position_of(ids@.take(i as int), id) is None,
        decreases ids.len() - i,
    {
        assert(ids@.take(i + 1).drop_last() =~= ids@.take(i as int));
        assert(ids@.take(i + 1).last() == ids@[i as int]);
        if ids[i] == id {
            proof {
                lemma_position_of_prefix(ids@, (i + 1) as nat, id);
            }
            return Some(i);
        }
        i = i + 1;
    }
    assert(ids@.take(i as int) =~= ids@);
    None
}

/// What a prefix holds stands at the same first position in the whole.
proof fn lemma_position_of_prefix(ids: Seq<i32>, n: nat, id: i32)
    requires
        n <= ids.len(),
        position_of(ids.take(n as int), id) is Some,
    ensures
        position_of(ids, id) == position_of(ids.take(n as int), id),
    decreases ids.len(),
{
    if n < ids.len() {
        assert(ids.drop_last().take(n as int) =~= ids.take(n as int));
        lemma_position_of_prefix(ids.drop_last(), n, id);
    } else {
        assert(ids.take(n as int) =~= ids);
    }
}

/// Where a drop-down stands once its items were replaced: at the value it is
/// bound to, else at the first item, if there is one.
pub open spec fn refreshed(ids: Seq<i32>, current: i32) -> u32 {
    if ids.len() == 0 {
        INVALID_LIST_POSITION
    } else {
        match position_of(ids, current) {
            Some(i) => i as u32,
            None => 0,
        }
    }
}

/// The value that a drop-down standing at `selected` writes, if it differs from
/// the one it is bound to.
pub open spec fn written(ids: Seq<i32>, selected: u32, current: i32) -> Option<i32> {
    if selected < ids.len() && ids[selected as int] != current {
        Some(ids[selected as int])
    } else {
        None
    }
}

/// Where a drop-down standing at `selected` moves when its value becomes
/// `value`.
pub open spec fn moved(ids: Seq<i32>, selected: u32, value: i32) -> Option<u32> {
    match position_of(ids, value) {
        Some(i) => if i != selected {
            Some(i as u32)
        } else {
            None
        },
        None => None,
    }
}

/// Where a drop-down stands once its items were replaced.
pub fn refresh_items(ids: &Vec<i32>, current: i32) -> (r: u32)
    requires
        ids@.len() < u32::MAX,
    ensures
        r == refreshed(ids@, current),
        ids@.len() > 0 ==> r < ids@.len(),
{
    proof {
        lemma_position_of(ids@, current);
    }
    if ids.len() == 0 {
        return INVALID_LIST_POSITION;
    }
    match position(ids, current) {
        Some(i) => i as u32,
        None => 0,
    }
}

/// The user, or a refresh, put the drop-down at `selected`: the value to be
/// written, if it is another one.
pub fn selected_notify(ids: &Vec<i32>, selected: u32, current: i32) -> (r: Option<i32>)
    ensures
        r == written(ids@, selected, current),
{
    let index: usize = selected as usize;
    if index < ids.len() && ids[index] != current {
        Some(ids[index])
    } else {
        None
    }
}

/// The bound value became `value`: where the drop-down moves, if it has to.
pub fn selection_changed(ids: &Vec<i32>, selected: u32, value: i32) -> (r: Option<u32>)
    requires
        ids@.len() < u32::MAX,
    ensures
        r == moved(ids@, selected, value),
{
    proof {
        lemma_position_of(ids@, value);
    }
    match position(ids, value) {
        Some(i) => {
            if i as u32 != selected {
                Some(i as u32)
            } else {
                None
            }
        },
        None => None,
    }
}

/// Neither side echoes the other: where the control wrote a value, the position
/// that value moves it to writes nothing more; and where a value moved the
/// control, its new position writes nothing.
pub proof fn lemma_selection_settles(ids: Seq<i32>, selected: u32, current: i32)
    requires
        ids.len() < u32::MAX,
    ensures
        written(ids, selected, current) matches Some(value) ==> match moved(ids, selected, value) {
            Some(next) => written(ids, next, value) is None && moved(ids, next, value) is None,
            None => written(ids, selected, value) is None,
        },
        moved(ids, selected, current) matches Some(next) ==> written(ids, next, current) is None
            && moved(ids, next, current) is None,
{
    lemma_position_of(ids, current);
    if let Some(value) = written(ids, selected, current) {
        lemma_position_of(ids, value);
    }
}

/// A refresh keeps the bound value wherever the new items hold it, and settles
/// on the first of them otherwise.
pub proof fn lemma_refresh_keeps_the_value(ids: Seq<i32>, current: i32)
    requires
        ids.len() < u32::MAX,
    ensures
        ids.contains(current) ==> written(ids, refreshed(ids, current), current) is None,
        ids.len() > 0 && !ids.contains(current) ==> written(ids, refreshed(ids, current), current)
            == Some(ids[0]),
        ids.len() == 0 ==> written(ids, refreshed(ids, current), current) is None,
{
    lemma_position_of(ids, current);
    if ids.len() > 0 && !ids.contains(current) {
        assert(ids.contains(ids[0]));
    }
}

/// The radio button that starts out active, if any stands for the bound value.
pub fn rebuild_radio_group(ids: &Vec<i32>, current: i32) -> (r: Option<usize>)
    ensures
        r == position_of(ids@, current),
{
    position(ids, current)
}

/// The value that a radio button of `id` writes when it is toggled.
pub open spec fn toggled(id: i32, active: bool, current: i32) -> Option<i32> {
    if active && current != id {
        Some(id)
    } else {
        None
    }
}

/// The radio button that becomes active when the value becomes `value`.
pub open spec fn activated(ids: Seq<i32>, active: Seq<bool>, value: i32) -> Option<usize> {
    match position_of(ids, value) {
        Some(i) => if i < active.len() && !active[i as int] {
            Some(i)
        } else {
            None
        },
        None => None,
    }
}

/// The radio button of `id` was toggled: the value to be written, if the button
/// became active and the value is another one.
pub fn radio_toggled(id: i32, active: bool, current: i32) -> (r: Option<i32>)
    ensures
        r == toggled(id, active, current),
{
    if active && current != id {
        Some(id)
    } else {
        None
    }
}

/// The bound value became `value`: the radio button to be made active, if it is
/// not so already.
pub fn radio_selection_changed(ids: &Vec<i32>, active: &Vec<bool>, value: i32) -> (r: Option<
    usize,
>)
    ensures
        r == activated(ids@, active@, value),
{
    match position(ids, value) {
        Some(i) => {
            if i < active.len() && !active[i] {
                Some(i)
            } else {
                None
            }
        },
        None => None,
    }
}

/// A radio button that a value made active writes nothing back.
pub proof fn lemma_radio_group_settles(ids: Seq<i32>, value: i32)
    requires
        ids.len() <= usize::MAX,
    ensures
        position_of(ids, value) matches Some(i) ==> ids[i as int] == value,
{
    lemma_position_of(ids, value);
}

/// Once the bound value is one that the items hold, the drop-down stands at the
/// first position of that value, wherever it stood before. It stays where it is
/// if no item has the value, and moves nowhere if it is there already.
pub proof fn lemma_control_ends_at_the_value(ids: Seq<i32>, selected: u32, value: i32)
    requires
        ids.len() < u32::MAX,
    ensures
        ids.contains(value) ==> ({
            let end = match moved(ids, selected, value) {
                Some(next) => next,
                None => selected,
            };
            &&& end < ids.len()
            &&& ids[end as int] == value
            &&& forall|j: int| 0 <= j < end ==> ids[j] != value
        }),
        !ids.contains(value) ==> moved(ids, selected, value) is None,
        moved(ids, selected, value) != Some(selected),
{
    lemma_position_of(ids, value);
}

/// Once the control stands at an item, the bound value is that item's; it is
/// written only where it was another, and a position without an item writes
/// nothing.
pub proof fn lemma_value_ends_at_the_control(ids: Seq<i32>, selected: u32, current: i32)
    ensures
        selected < ids.len() ==> written(ids, selected, current).unwrap_or(current)
            == ids[selected as int],
        written(ids, selected, current) != Some(current),
        selected >= ids.len() ==> written(ids, selected, current) is None,
{
}

/// A refresh puts the drop-down at the first position of the bound value; at
/// the first item if none has it; and nowhere if there are no items.
pub proof fn lemma_refresh_finds_the_value(ids: Seq<i32>, current: i32)
    requires
        ids.len() < u32::MAX,
    ensures
        ids.contains(current) ==> refreshed(ids, current) < ids.len() && ids[refreshed(
            ids,
            current,
        ) as int] == current && forall|j: int|
            0 <= j < refreshed(ids, current) ==> ids[j] != current,
        ids.len() > 0 && !ids.contains(current) ==> refreshed(ids, current) == 0,
        ids.len() == 0 ==> refreshed(ids, current) == 0xffff_ffff,
{
    lemma_position_of(ids, current);
}

/// A radio button that becomes active makes its own value the bound one; one
/// that becomes inactive writes nothing, and no value is written twice.
pub proof fn lemma_radio_button_writes_its_value(id: i32, active: bool, current: i32)
    ensures
        active ==> toggled(id, active, current).unwrap_or(current) == id,
        !active ==> toggled(id, active, current) is None,
        toggled(id, active, current) != Some(current),
{
}

/// Once the bound value is one that a button stands for, the first such button
/// is active: it was, or it is the one made active. No other is made active.
pub proof fn lemma_radio_group_ends_at_the_value(ids: Seq<i32>, active: Seq<bool>, value: i32)
    requires
        ids.len() <= usize::MAX,
        active.len() == ids.len(),
    ensures
        forall|i: int|
            0 <= i < ids.len() && ids[i] == value && (forall|j: int| 0 <= j < i ==> ids[j] != value)
                ==> (#[trigger] active[i]) != (activated(ids, active, value) == Some(i as usize)),
        activated(ids, active, value) matches Some(i) ==> i < ids.len() && ids[i as int] == value
            && !active[i as int] && forall|j: int| 0 <= j < i ==> ids[j] != value,
        !ids.contains(value) ==> activated(ids, active, value) is None,
{
    lemma_position_of(ids, value);
    assert forall|i: int|
        0 <= i < ids.len() && ids[i] == value && (forall|j: int|
            0 <= j < i ==> ids[j] != value) implies (#[trigger] active[i]) != (activated(
        ids,
        active,
        value,
    ) == Some(i as usize)) by {
        assert(ids.contains(ids[i]));
        let k = position_of(ids, value)->0;
        assert(ids[k as int] == value);
        assert(k == i);
    }
}

} // verus!
