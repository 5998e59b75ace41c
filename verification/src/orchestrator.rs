//! The orchestrator's decisions: what one trigger obliges the main loop to
//! do, which paths the filesystem watcher must hold, and when a burst of
//! raw notifications has settled enough to act on.
//!
//! The blocking watch loops, the timer and the channel plumbing live in the
//! binary; they only feed triggers in and carry the decided actions out.

use vstd::prelude::*;

use crate::config::Config;
use crate::paths::FsPath;
use crate::util::push_deep;

verus! {

/// What woke the main loop.
#[derive(Clone, Copy, Debug, PartialEq, Eq, Structural)]
pub enum Trigger {
    /// The configuration file changed and was reloaded.
    ConfigChanged,
    /// Something under a watched source root changed.
    FsChanged,
    /// The periodic safety-net timer fired.
    Timer,
}

/// What the main loop must do in response to one trigger.
pub struct PlanStep {
    /// Re-derive the active rule set from the fresh configuration.
    pub reload_rules: bool,
    /// Reconnect the store, in case its location moved.
    pub reconnect_store: bool,
    /// Tear down and re-install the filesystem watches.
    pub rebuild_watches: bool,
    /// Run one full reconciliation pass over all rules.
    pub run_pass: bool,
}

/// Every trigger leads to exactly one full pass; only a configuration
/// change additionally re-derives the rules, reconnects the store and
/// rebuilds the watch set — all before the pass starts.
pub fn on_trigger(t: &Trigger) -> (r: PlanStep)
    ensures
        r.run_pass,
        r.reload_rules == (*t == Trigger::ConfigChanged),
        r.reconnect_store == (*t == Trigger::ConfigChanged),
        r.rebuild_watches == (*t == Trigger::ConfigChanged),
{
    match t {
        Trigger::ConfigChanged => PlanStep {
            reload_rules: true,
            reconnect_store: true,
            rebuild_watches: true,
            run_pass: true,
        },
        Trigger::FsChanged => PlanStep {
            reload_rules: false,
            reconnect_store: false,
            rebuild_watches: false,
            run_pass: true,
        },
        Trigger::Timer => PlanStep {
            reload_rules: false,
            reconnect_store: false,
            rebuild_watches: false,
            run_pass: true,
        },
    }
}

/// The paths the filesystem watcher must hold once this configuration is
/// live: one watch per rule, on the rule's source root.
pub fn watch_roots(config: &Config) -> (r: Vec<FsPath>)
    ensures
        r.deep_view().len() == config.rule@.len(),
        forall|i: int|
            0 <= i < r.deep_view().len() ==> #[trigger] r.deep_view()[i] == config.rule@[i].src@,
{
    let mut r: Vec<FsPath> = Vec::new();
    let n: usize = config.rule.len();
    let mut i: usize = 0;
    while i < n
        invariant
            n == config.rule.len(),
            i <= n,
            r.deep_view().len() == i,
            forall|m: int|
                0 <= m < i ==> #[trigger] r.deep_view()[m] == config.rule@[m].src@,
        decreases n - i,
    {
        push_deep(&mut r, config.rule[i].src.duplicate());
        i = i + 1;
    }
    r
}

/// A debounced edge: a burst of raw notifications is acted on only once the
/// configured quiet interval has passed since the last action.
pub fn debounce_ready(last: u64, now: u64, interval: u64) -> (r: bool)
    ensures
        r == (now >= last && now - last >= interval),
{
    if now < last {
        false
    } else {
        now - last >= interval
    }
}

} // verus!
