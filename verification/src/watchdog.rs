use vstd::prelude::*;

use crate::control::{
    apply_commands, healthy_spec, health_key, health_key_spec, lemma_apply_one,
    number_at, same_at, saved_weight_key_spec, weight_key_spec, CommandView, StoreCommand,
    StoredValue,
};

verus! {

/// What a health probe result changes, for the log.
#[derive(Debug, Clone, Copy, PartialEq, Eq, Structural)]
pub enum HealthChange {
    /// The backend came up (or is seen up for the first time).
    Up,
    /// The backend went down.
    Down,
    /// Nothing worth logging.
    Unchanged,
}

/// The flag the watchdog publishes: 1 when the backend answered, 0 when it did not.
pub open spec fn health_flag_spec(healthy: bool) -> u32 {
    if healthy {
        1
    } else {
        0
    }
}

/// The transition to log, given the flag previously published (`None` when it could not
/// be read) and the new probe result: up when the flag was 0 or unreadable and the
/// backend answers, down when the flag was 1 and it does not.
pub open spec fn health_change_spec(previous: Option<u8>, healthy: bool) -> HealthChange {
    match previous {
        Some(0u8) => if healthy { HealthChange::Up } else { HealthChange::Unchanged },
        Some(1u8) => if healthy { HealthChange::Unchanged } else { HealthChange::Down },
        Some(_) => HealthChange::Unchanged,
        None => if healthy { HealthChange::Up } else { HealthChange::Unchanged },
    }
}

/// Classifies a probe result for the log.
pub fn health_change(previous: Option<u8>, healthy: bool) -> (r: HealthChange)
    ensures
        r == health_change_spec(previous, healthy),
{
    match previous {
        Some(0u8) => if healthy { HealthChange::Up } else { HealthChange::Unchanged },
        Some(1u8) => if healthy { HealthChange::Unchanged } else { HealthChange::Down },
        Some(_) => HealthChange::Unchanged,
        None => if healthy { HealthChange::Up } else { HealthChange::Unchanged },
    }
}

/// Each transition is logged once: a probe that agrees with the flag already published
/// logs nothing, and one that contradicts it logs the change.
pub proof fn lemma_transitions_logged_once(healthy: bool)
    ensures
        health_change_spec(Some(health_flag_spec(healthy) as u8), healthy) == HealthChange::Unchanged,
        health_change_spec(Some(health_flag_spec(!healthy) as u8), healthy) == if healthy {
            HealthChange::Up
        } else {
            HealthChange::Down
        },
{
}

/// The write that publishes the probe result for backend `addr`.
pub fn health_update(addr: &str, healthy: bool) -> (r: StoreCommand)
    ensures
        r@ == CommandView::SetNumber(health_key_spec(addr@), health_flag_spec(healthy)),
{
    let flag: u32 = if healthy { 1 } else { 0 };
    StoreCommand::SetNumber(health_key(addr), flag)
}

/// The health that the balancer reads back is the one the watchdog published, and the
/// watchdog's write leaves every operator weight and saved weight untouched (the
/// operator's weights belong to the operator).
pub proof fn lemma_published_health_is_read(s: Map<Seq<char>, StoredValue>, addr: Seq<char>, healthy: bool, other: Seq<char>)
    ensures
        ({
            let t = apply_commands(s, seq![CommandView::SetNumber(health_key_spec(addr), health_flag_spec(healthy))]);
            &&& number_at(t, health_key_spec(addr)) matches Some(f)
            &&& f <= u8::MAX
            &&& healthy_spec(Some(f as u8)) == healthy
            &&& same_at(t, s, weight_key_spec(other))
            &&& same_at(t, s, saved_weight_key_spec(other))
        }),
{
    let c = CommandView::SetNumber(health_key_spec(addr), health_flag_spec(healthy));
    lemma_apply_one(s, c);
    reveal_strlit("weight:");
    reveal_strlit("wrr_weight:");
    reveal_strlit("health:");
    assert(health_key_spec(addr)[0] != weight_key_spec(other)[0]);
    assert(health_key_spec(addr)[0] != saved_weight_key_spec(other)[0]);
}

} // verus!
