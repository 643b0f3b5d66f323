//! Keys to player actions: `w`, `a`, `s`, `d` move; the same keys in upper
//! case attack.
use vstd::prelude::*;
use crate::geom::Dir;
use crate::world::{EntityId, PlayerActionEvent, WorldEvent, WorldEventView};

verus! {

pub open spec fn spec_is_wasd(ch: char) -> bool {
    ch == 'w' || ch == 'a' || ch == 's' || ch == 'd'
}

/// The direction a movement key stands for.
pub open spec fn spec_wasd_dir(ch: char) -> Dir {
    if ch == 'w' {
        Dir::spec_up()
    } else if ch == 'a' {
        Dir::spec_left()
    } else if ch == 's' {
        Dir::spec_down()
    } else {
        Dir::spec_right()
    }
}

/// The lower-case form of the upper-case movement keys; other characters stay.
pub open spec fn spec_ascii_lower(ch: char) -> char {
    if ch == 'W' {
        'w'
    } else if ch == 'A' {
        'a'
    } else if ch == 'S' {
        's'
    } else if ch == 'D' {
        'd'
    } else {
        ch
    }
}

/// The action a key asks for, if any.
pub open spec fn spec_key_action(entity: EntityId, ch: char) -> Option<WorldEventView> {
    if spec_is_wasd(ch) {
        Some(WorldEventView::PlayerAction(entity, PlayerActionEvent::Move(spec_wasd_dir(ch))))
    } else if spec_is_wasd(spec_ascii_lower(ch)) {
        Some(
            WorldEventView::PlayerAction(
                entity,
                PlayerActionEvent::Attack(spec_wasd_dir(spec_ascii_lower(ch))),
            ),
        )
    } else {
        None
    }
}

pub fn is_wasd(ch: char) -> (r: bool)
    ensures
        r == spec_is_wasd(ch),
{
    ch == 'w' || ch == 'a' || ch == 's' || ch == 'd'
}

pub fn wasd_to_dir(ch: char) -> (r: Dir)
    requires
        spec_is_wasd(ch),
    ensures
        r == spec_wasd_dir(ch),
{
    if ch == 'w' {
        Dir::up()
    } else if ch == 'a' {
        Dir::left()
    } else if ch == 's' {
        Dir::down()
    } else {
        Dir::right()
    }
}

fn ascii_lower(ch: char) -> (r: char)
    ensures
        r == spec_ascii_lower(ch),
{
    if ch == 'W' {
        'w'
    } else if ch == 'A' {
        'a'
    } else if ch == 'S' {
        's'
    } else if ch == 'D' {
        'd'
    } else {
        ch
    }
}

/// The event a key press asks for on behalf of `entity`, if any.
pub fn key_to_event(entity: EntityId, ch: char) -> (r: Option<WorldEvent>)
    ensures
        match r {
            Some(ev) => spec_key_action(entity, ch) == Some(ev@),
            None => spec_key_action(entity, ch).is_none(),
        },
{
    if is_wasd(ch) {
        return Some(WorldEvent::PlayerAction(entity, PlayerActionEvent::Move(wasd_to_dir(ch))));
    }
    let lower = ascii_lower(ch);
    if is_wasd(lower) {
        return Some(WorldEvent::PlayerAction(entity, PlayerActionEvent::Attack(wasd_to_dir(lower))));
    }
    None
}

} // verus!
