//! The watchdog reconciler: the active-monitor table and the poll cycle.
//!
//! Per executable the table knows one of two states: `Armed` (a monitor is
//! attached and its stop signal has not been sent) and `Signaled` (the stop
//! signal was consumed; the monitor is draining and will remove its key).
//! The table is keyed by executable name, so at most one monitor exists per
//! executable at any time — when several entries share an executable, the
//! first one in configuration order wins.

use vstd::prelude::*;

verus! {

/// State of one monitored executable.
#[derive(Clone, Copy, PartialEq, Eq, Structural, Debug)]
pub enum MonitorState {
    /// A monitor runs and still holds an unsent stop signal.
    Armed,
    /// The stop signal has been consumed; the monitor is shutting down.
    Signaled,
}

/// One row of the table: an executable name and its monitor's state.
struct MonitorSlot {
    executable: String,
    state: MonitorState,
}

/// The active-monitor table, keyed by executable name.
///
/// Viewed as a `Map<Seq<char>, MonitorState>`; the representation keeps at
/// most one slot per executable.
pub struct MonitorTable {
    slots: Vec<MonitorSlot>,
}

/// The map a sequence of slots denotes (later slots would win; the table
/// never stores a key twice).
spec fn slots_map(s: Seq<MonitorSlot>) -> Map<Seq<char>, MonitorState>
    decreases s.len(),
{
    if s.len() == 0 {
        Map::empty()
    } else {
        slots_map(s.drop_last()).insert(s.last().executable@, s.last().state)
    }
}

/// No two slots share an executable name.
spec fn distinct_keys(s: Seq<MonitorSlot>) -> bool {
    forall|i: int, j: int|
        0 <= i < j < s.len() ==> s[i].executable@ != s[j].executable@
}

/// A key is in the denoted map exactly when some slot carries it.
proof fn lemma_slots_map_key(s: Seq<MonitorSlot>, k: Seq<char>)
    ensures
        slots_map(s).contains_key(k) <==> (exists|i: int|
            0 <= i < s.len() && s[i].executable@ == k),
    decreases s.len(),
{
    if s.len() > 0 {
        lemma_slots_map_key(s.drop_last(), k);
        if s.last().executable@ == k {
            assert(s[s.len() - 1].executable@ == k);
        } else if slots_map(s).contains_key(k) {
            let i = choose|i: int| 0 <= i < s.drop_last().len() && s.drop_last()[i].executable@ == k;
            assert(s[i].executable@ == k);
        } else if exists|i: int| 0 <= i < s.len() && s[i].executable@ == k {
            let i = choose|i: int| 0 <= i < s.len() && s[i].executable@ == k;
            assert(i < s.len() - 1);
            assert(s.drop_last()[i].executable@ == k);
        }
    }
}

/// With distinct keys, the slot at `i` gives the map's value at its key.
proof fn lemma_slots_map_at(s: Seq<MonitorSlot>, i: int)
    requires
        distinct_keys(s),
        0 <= i < s.len(),
    ensures
        slots_map(s).contains_key(s[i].executable@),
        slots_map(s)[s[i].executable@] == s[i].state,
    decreases s.len(),
{
    if i < s.len() - 1 {
        assert(distinct_keys(s.drop_last())) by {
            assert(forall|p: int, q: int|
                0 <= p < q < s.drop_last().len() ==> s.drop_last()[p] == s[p] && s.drop_last()[q]
                    == s[q]);
        }
        lemma_slots_map_at(s.drop_last(), i);
        assert(s.drop_last()[i] == s[i]);
        assert(s[i].executable@ != s.last().executable@);
    }
}

/// Appending a slot denotes an insertion.
proof fn lemma_slots_map_push(s: Seq<MonitorSlot>, slot: MonitorSlot)
    ensures
        slots_map(s.push(slot)) == slots_map(s).insert(slot.executable@, slot.state),
{
    assert(s.push(slot).drop_last() =~= s);
    assert(s.push(slot).last() == slot);
}

/// Replacing the slot at `i` by one with the same key denotes an insertion
/// at that key.
proof fn lemma_slots_map_update(s: Seq<MonitorSlot>, i: int, slot: MonitorSlot)
    requires
        distinct_keys(s),
        0 <= i < s.len(),
        slot.executable@ == s[i].executable@,
    ensures
        slots_map(s.update(i, slot)) == slots_map(s).insert(slot.executable@, slot.state),
    decreases s.len(),
{
    let k = slot.executable@;
    if i == s.len() - 1 {
        assert(s.update(i, slot).drop_last() =~= s.drop_last());
        assert(s.update(i, slot).last() == slot);
        assert(slots_map(s.drop_last()).insert(k, s[i].state).insert(k, slot.state)
            =~= slots_map(s.drop_last()).insert(k, slot.state));
    } else {
        assert(distinct_keys(s.drop_last())) by {
            assert(forall|p: int, q: int|
                0 <= p < q < s.drop_last().len() ==> s.drop_last()[p] == s[p] && s.drop_last()[q]
                    == s[q]);
        }
        assert(s.drop_last()[i] == s[i]);
        lemma_slots_map_update(s.drop_last(), i, slot);
        assert(s.update(i, slot).drop_last() =~= s.drop_last().update(i, slot));
        assert(s.update(i, slot).last() == s.last());
        let lk = s.last().executable@;
        let lv = s.last().state;
        assert(k != lk);
        assert(slots_map(s.drop_last()).insert(k, slot.state).insert(lk, lv)
            =~= slots_map(s.drop_last()).insert(lk, lv).insert(k, slot.state));
    }
}

/// Removing the slot at `i` denotes removal of its key.
proof fn lemma_slots_map_remove(s: Seq<MonitorSlot>, i: int)
    requires
        distinct_keys(s),
        0 <= i < s.len(),
    ensures
        slots_map(s.remove(i)) == slots_map(s).remove(s[i].executable@),
    decreases s.len(),
{
    let k = s[i].executable@;
    if i == s.len() - 1 {
        assert(s.remove(i) =~= s.drop_last());
        lemma_slots_map_key(s.drop_last(), k);
        assert(forall|j: int| 0 <= j < s.drop_last().len() ==> s.drop_last()[j] == s[j]);
        assert(!slots_map(s.drop_last()).contains_key(k));
        assert(slots_map(s.drop_last()).insert(k, s[i].state).remove(k)
            =~= slots_map(s.drop_last()));
    } else {
        assert(distinct_keys(s.drop_last())) by {
            assert(forall|p: int, q: int|
                0 <= p < q < s.drop_last().len() ==> s.drop_last()[p] == s[p] && s.drop_last()[q]
                    == s[q]);
        }
        assert(s.drop_last()[i] == s[i]);
        lemma_slots_map_remove(s.drop_last(), i);
        assert(s.remove(i).drop_last() =~= s.drop_last().remove(i));
        assert(s.remove(i).last() == s.last());
        let lk = s.last().executable@;
        let lv = s.last().state;
        assert(k != lk);
        assert(slots_map(s.drop_last()).remove(k).insert(lk, lv)
            =~= slots_map(s.drop_last()).insert(lk, lv).remove(k));
    }
}

impl View for MonitorTable {
    type V = Map<Seq<char>, MonitorState>;

    closed spec fn view(&self) -> Map<Seq<char>, MonitorState> {
        slots_map(self.slots@)
    }
}

impl MonitorTable {
    /// Table well-formedness: no executable is listed twice.  Every value
    /// this module hands out satisfies it (it is the type's invariant).
    #[verifier::type_invariant]
    pub closed spec fn wf(self) -> bool {
        distinct_keys(self.slots@)
    }

    /// The executables currently monitored, in table order.
    pub closed spec fn keys_in_order(&self) -> Seq<Seq<char>> {
        self.slots@.map_values(|slot: MonitorSlot| slot.executable@)
    }

    /// The empty table.
    pub fn new() -> (t: MonitorTable)
        ensures
            t@ == Map::<Seq<char>, MonitorState>::empty(),
    {
        MonitorTable { slots: Vec::new() }
    }

    /// The monitored executables, in table order, as owned strings.
    pub fn keys(&self) -> (r: Vec<String>)
        ensures
            r@.len() == self.keys_in_order().len(),
            forall|i: int| 0 <= i < r@.len() ==> (#[trigger] r@[i])@ == self.keys_in_order()[i],
    {
        let mut r: Vec<String> = Vec::new();
        let mut i: usize = 0;
        while i < self.slots.len()
            invariant
                i <= self.slots@.len(),
                r@.len() == i,
                forall|j: int|
                    0 <= j < i ==> (#[trigger] r@[j])@ == self.slots@[j].executable@,
            decreases self.slots@.len() - i,
        {
            r.push(self.slots[i].executable.clone());
            i = i + 1;
        }
        r
    }

    /// Index of the slot holding `exe`, if the table contains it.
    fn find_index(&self, exe: &String) -> (r: Option<usize>)
        ensures
            match r {
                Some(i) => 0 <= i < self.slots@.len() && self.slots@[i as int].executable@ == exe@,
                None => forall|i: int|
                    0 <= i < self.slots@.len() ==> self.slots@[i].executable@ != exe@,
            },
    {
        let mut i: usize = 0;
        while i < self.slots.len()
            invariant
                i <= self.slots@.len(),
                forall|j: int| 0 <= j < i ==> self.slots@[j].executable@ != exe@,
            decreases self.slots@.len() - i,
        {
            if self.slots[i].executable == *exe {
                return Some(i);
            }
            i = i + 1;
        }
        None
    }

    /// The state recorded for `exe`, if any.
    pub fn state_of(&self, exe: &String) -> (r: Option<MonitorState>)
        ensures
            r == if self@.contains_key(exe@) {
                Some(self@[exe@])
            } else {
                Option::<MonitorState>::None
            },
    {
        proof {
            use_type_invariant(&*self);
            lemma_slots_map_key(self.slots@, exe@);
        }
        match self.find_index(exe) {
            Some(i) => {
                proof {
                    lemma_slots_map_at(self.slots@, i as int);
                }
                Some(self.slots[i].state)
            },
            None => None,
        }
    }

    /// Whether `exe` is currently monitored.
    pub fn contains(&self, exe: &String) -> (r: bool)
        ensures
            r == self@.contains_key(exe@),
    {
        self.state_of(exe).is_some()
    }

    /// Record a newly spawned monitor for `exe`, armed with its stop signal.
    pub fn insert_armed(&mut self, exe: String)
        requires
            !old(self)@.contains_key(exe@),
        ensures
            final(self)@ == old(self)@.insert(exe@, MonitorState::Armed),
    {
        proof {
            use_type_invariant(&*self);
            lemma_slots_map_key(self.slots@, exe@);
        }
        let ghost s0 = self.slots@;
        let mut slots: Vec<MonitorSlot> = Vec::new();
        core::mem::swap(&mut slots, &mut self.slots);
        slots.push(MonitorSlot { executable: exe, state: MonitorState::Armed });
        proof {
            lemma_slots_map_push(s0, slots@.last());
            assert(distinct_keys(slots@)) by {
                assert(forall|j: int| 0 <= j < s0.len() ==> slots@[j] == s0[j]);
            }
        }
        self.slots = slots;
    }

    /// Record that the stop signal for `exe` has been taken and sent.
    pub fn mark_signaled(&mut self, exe: &String)
        requires
            old(self)@.contains_key(exe@),
        ensures
            final(self)@ == old(self)@.insert(exe@, MonitorState::Signaled),
    {
        proof {
            use_type_invariant(&*self);
            lemma_slots_map_key(self.slots@, exe@);
        }
        let ghost s0 = self.slots@;
        match self.find_index(exe) {
            Some(i) => {
                let mut slots: Vec<MonitorSlot> = Vec::new();
                core::mem::swap(&mut slots, &mut self.slots);
                let name = slots[i].executable.clone();
                let slot = MonitorSlot { executable: name, state: MonitorState::Signaled };
                slots.set(i, slot);
                proof {
                    lemma_slots_map_update(s0, i as int, slots@[i as int]);
                    assert(distinct_keys(slots@)) by {
                        assert(forall|j: int|
                            0 <= j < s0.len() && j != i ==> slots@[j] == s0[j]);
                    }
                }
                self.slots = slots;
            },
            None => {
                proof {
                    assert(false);
                }
            },
        }
    }

    /// Forget `exe`: the monitor has finished and unregistered itself.
    /// Removing an absent key leaves the table unchanged.
    pub fn remove(&mut self, exe: &String)
        ensures
            final(self)@ == old(self)@.remove(exe@),
    {
        proof {
            use_type_invariant(&*self);
            lemma_slots_map_key(self.slots@, exe@);
        }
        let ghost s0 = self.slots@;
        match self.find_index(exe) {
            Some(i) => {
                let mut slots: Vec<MonitorSlot> = Vec::new();
                core::mem::swap(&mut slots, &mut self.slots);
                slots.remove(i);
                proof {
                    lemma_slots_map_remove(s0, i as int);
                    assert(distinct_keys(slots@)) by {
                        assert(forall|p: int, q: int|
                            0 <= p < q < slots@.len() ==> (slots@[p] == if p < i {
                                s0[p]
                            } else {
                                s0[p + 1]
                            }) && (slots@[q] == if q < i {
                                s0[q]
                            } else {
                                s0[q + 1]
                            }));
                    }
                }
                self.slots = slots;
            },
            None => {
                proof {
                    assert(self@ =~= self@.remove(exe@));
                }
            },
        }
    }
}

/// An action the poll cycle asks the supervising shell to carry out.
/// `entry` indexes the configuration entry that triggered the action.
#[derive(Clone, Copy, PartialEq, Eq, Structural, Debug)]
pub enum CycleAction {
    /// Spawn a monitor for this entry's executable: run its start commands,
    /// then wait for the stop signal.
    Start { entry: usize },
    /// Send the stop signal to this entry's executable's monitor.
    SignalStop { entry: usize },
}

/// Effect of one entry on the table, and the action it emits, given whether
/// its executable is running.
///
/// An absent-but-running executable arms a new monitor; a monitored-but-gone
/// executable has its stop signal consumed exactly once (`Armed` →
/// `Signaled`); everything else is left alone.
pub open spec fn step_entry(
    m: Map<Seq<char>, MonitorState>,
    exe: Seq<char>,
    running: bool,
    idx: usize,
) -> (Seq<CycleAction>, Map<Seq<char>, MonitorState>) {
    if running && !m.contains_key(exe) {
        (seq![CycleAction::Start { entry: idx }], m.insert(exe, MonitorState::Armed))
    } else if !running && m.contains_key(exe) && m[exe] == MonitorState::Armed {
        (seq![CycleAction::SignalStop { entry: idx }], m.insert(exe, MonitorState::Signaled))
    } else {
        (Seq::empty(), m)
    }
}

/// One whole poll cycle over the entry list, in configuration order, against
/// a single process-table snapshot `ps`.
pub open spec fn cycle_spec(
    entries: Seq<crate::config::Entry>,
    ps: Seq<char>,
    m: Map<Seq<char>, MonitorState>,
) -> (Seq<CycleAction>, Map<Seq<char>, MonitorState>)
    decreases entries.len(),
{
    if entries.len() == 0 {
        (Seq::empty(), m)
    } else {
        let prev = cycle_spec(entries.drop_last(), ps, m);
        let e = entries.last();
        let st = step_entry(
            prev.1,
            e.executable@,
            crate::scan::spec_is_running(e.executable@, ps),
            (entries.len() - 1) as usize,
        );
        (prev.0 + st.0, st.1)
    }
}

/// One poll cycle: reconcile the configured entries against one process
/// table snapshot, updating the table and returning the actions to perform,
/// in order.
///
/// `ps_output` is the text of the process listing for this cycle, or `None`
/// when the listing could not be obtained — in that case the cycle is
/// skipped entirely: no action fires and the table is untouched, so a
/// transient scan failure never masquerades as every process having exited.
pub fn poll_cycle(
    entries: &Vec<crate::config::Entry>,
    ps_output: Option<&str>,
    table: &mut MonitorTable,
) -> (actions: Vec<CycleAction>)
    ensures
        match ps_output {
            Some(ps) => ({
                let r = cycle_spec(entries@, ps@, old(table)@);
                actions@ == r.0 && final(table)@ == r.1
            }),
            None => actions@.len() == 0 && final(table)@ == old(table)@,
        },
{
    let ps = match ps_output {
        Some(ps) => ps,
        None => {
            return Vec::new();
        },
    };
    let mut actions: Vec<CycleAction> = Vec::new();
    let mut i: usize = 0;
    while i < entries.len()
        invariant
            i <= entries@.len(),
            actions@ == cycle_spec(entries@.take(i as int), ps@, old(table)@).0,
            table@ == cycle_spec(entries@.take(i as int), ps@, old(table)@).1,
        decreases entries@.len() - i,
    {
        let e = &entries[i];
        let running = crate::scan::is_executable_running(e.executable.as_str(), ps);
        let state = table.state_of(&e.executable);
        if running && state.is_none() {
            table.insert_armed(e.executable.clone());
            actions.push(CycleAction::Start { entry: i });
        } else if !running && state == Some(MonitorState::Armed) {
            table.mark_signaled(&e.executable);
            actions.push(CycleAction::SignalStop { entry: i });
        }
        proof {
            let pre = entries@.take(i as int);
            let cur = entries@.take(i + 1);
            assert(cur.drop_last() =~= pre);
            assert(cur.last() == entries@[i as int]);
            let prev = cycle_spec(pre, ps@, old(table)@);
            let st = step_entry(
                prev.1,
                entries@[i as int].executable@,
                crate::scan::spec_is_running(entries@[i as int].executable@, ps@),
                i,
            );
            assert(actions@ =~= prev.0 + st.0);
        }
        i = i + 1;
    }
    proof {
        assert(entries@.take(entries@.len() as int) =~= entries@);
    }
    actions
}

/// The state one executable holds in the table, `None` when unmonitored.
pub open spec fn key_of(m: Map<Seq<char>, MonitorState>, k: Seq<char>) -> Option<MonitorState> {
    if m.contains_key(k) {
        Some(m[k])
    } else {
        None
    }
}

/// The per-executable state machine one poll cycle applies: an unmonitored
/// running executable becomes `Armed`; an armed executable that is gone
/// becomes `Signaled`; a signaled executable stays signaled until its
/// monitor removes it.
pub open spec fn key_next(st: Option<MonitorState>, running: bool) -> Option<MonitorState> {
    match st {
        None => if running {
            Some(MonitorState::Armed)
        } else {
            None
        },
        Some(MonitorState::Armed) => if running {
            Some(MonitorState::Armed)
        } else {
            Some(MonitorState::Signaled)
        },
        Some(MonitorState::Signaled) => Some(MonitorState::Signaled),
    }
}

/// A cycle emits a start action for this key exactly in this situation.
pub open spec fn start_fires(st: Option<MonitorState>, running: bool) -> bool {
    running && st is None
}

/// A cycle emits a stop signal for this key exactly in this situation.
pub open spec fn stop_fires(st: Option<MonitorState>, running: bool) -> bool {
    !running && st == Some(MonitorState::Armed)
}

/// The configuration entry an action refers to.
pub open spec fn action_entry(a: CycleAction) -> usize {
    match a {
        CycleAction::Start { entry } => entry,
        CycleAction::SignalStop { entry } => entry,
    }
}

/// Whether the action is a start (as opposed to a stop signal).
pub open spec fn is_start_action(a: CycleAction) -> bool {
    a is Start
}

/// 1 when the action is of the requested kind and belongs to executable `k`.
pub open spec fn action_weight(
    a: CycleAction,
    entries: Seq<crate::config::Entry>,
    k: Seq<char>,
    starts: bool,
) -> nat {
    if is_start_action(a) == starts && action_entry(a) < entries.len() && entries[action_entry(
        a,
    ) as int].executable@ == k {
        1
    } else {
        0
    }
}

/// How many actions of the requested kind in `acts` belong to executable `k`.
pub open spec fn count_key_actions(
    acts: Seq<CycleAction>,
    entries: Seq<crate::config::Entry>,
    k: Seq<char>,
    starts: bool,
) -> nat
    decreases acts.len(),
{
    if acts.len() == 0 {
        0
    } else {
        count_key_actions(acts.drop_last(), entries, k, starts) + action_weight(
            acts.last(),
            entries,
            k,
            starts,
        )
    }
}

/// Some entry is configured for executable `k`.
pub open spec fn has_entry_for(entries: Seq<crate::config::Entry>, k: Seq<char>) -> bool {
    exists|i: int| 0 <= i < entries.len() && entries[i].executable@ == k
}

proof fn lemma_count_concat(
    a: Seq<CycleAction>,
    b: Seq<CycleAction>,
    entries: Seq<crate::config::Entry>,
    k: Seq<char>,
    starts: bool,
)
    ensures
        count_key_actions(a + b, entries, k, starts) == count_key_actions(a, entries, k, starts)
            + count_key_actions(b, entries, k, starts),
    decreases b.len(),
{
    if b.len() == 0 {
        assert(a + b =~= a);
    } else {
        lemma_count_concat(a, b.drop_last(), entries, k, starts);
        assert((a + b).drop_last() =~= a + b.drop_last());
        assert((a + b).last() == b.last());
    }
}

/// Every action a cycle emits refers to an entry of the list it was run on.
proof fn lemma_cycle_action_bounds(
    entries: Seq<crate::config::Entry>,
    ps: Seq<char>,
    m: Map<Seq<char>, MonitorState>,
)
    ensures
        forall|t: int|
            0 <= t < cycle_spec(entries, ps, m).0.len() ==> action_entry(
                #[trigger] cycle_spec(entries, ps, m).0[t],
            ) < entries.len(),
    decreases entries.len(),
{
    if entries.len() > 0 {
        lemma_cycle_action_bounds(entries.drop_last(), ps, m);
        let prev = cycle_spec(entries.drop_last(), ps, m);
        let r = cycle_spec(entries, ps, m);
        let e = entries.last();
        let st = step_entry(
            prev.1,
            e.executable@,
            crate::scan::spec_is_running(e.executable@, ps),
            (entries.len() - 1) as usize,
        );
        assert forall|t: int| 0 <= t < r.0.len() implies action_entry(r.0[t]) < entries.len() by {
            if t < prev.0.len() {
                assert(r.0[t] == prev.0[t]);
            } else {
                assert(r.0[t] == st.0[t - prev.0.len()]);
            }
        }
    }
}

/// Counting is insensitive to trailing entries none of the actions refer to.
proof fn lemma_count_shrink_entries(
    acts: Seq<CycleAction>,
    entries: Seq<crate::config::Entry>,
    k: Seq<char>,
    starts: bool,
)
    requires
        entries.len() >= 1,
        forall|t: int| 0 <= t < acts.len() ==> action_entry(#[trigger] acts[t]) < entries.len() - 1,
    ensures
        count_key_actions(acts, entries, k, starts) == count_key_actions(
            acts,
            entries.drop_last(),
            k,
            starts,
        ),
    decreases acts.len(),
{
    if acts.len() > 0 {
        assert(forall|t: int|
            0 <= t < acts.drop_last().len() ==> #[trigger] acts.drop_last()[t] == acts[t]);
        lemma_count_shrink_entries(acts.drop_last(), entries, k, starts);
        let a = acts.last();
        assert(acts[acts.len() - 1] == a);
        assert(action_entry(a) < entries.drop_last().len());
        assert(entries.drop_last()[action_entry(a) as int] == entries[action_entry(a) as int]);
    }
}

/// Effect of one poll cycle on a single executable `k`: if some entry is
/// configured for `k`, its state advances by exactly one `key_next` step and
/// the cycle emits exactly one start action when `start_fires`, exactly one
/// stop signal when `stop_fires`, and nothing for `k` otherwise — however
/// many entries share the executable.  An executable no entry is configured
/// for is never touched.
pub proof fn lemma_cycle_key(
    entries: Seq<crate::config::Entry>,
    ps: Seq<char>,
    m: Map<Seq<char>, MonitorState>,
    k: Seq<char>,
)
    requires
        entries.len() <= usize::MAX,
    ensures
        ({
            let r = cycle_spec(entries, ps, m);
            let run = crate::scan::spec_is_running(k, ps);
            &&& has_entry_for(entries, k) ==> {
                &&& key_of(r.1, k) == key_next(key_of(m, k), run)
                &&& count_key_actions(r.0, entries, k, true) == (if start_fires(key_of(m, k), run) {
                    1nat
                } else {
                    0nat
                })
                &&& count_key_actions(r.0, entries, k, false) == (if stop_fires(key_of(m, k), run) {
                    1nat
                } else {
                    0nat
                })
            }
            &&& !has_entry_for(entries, k) ==> {
                &&& key_of(r.1, k) == key_of(m, k)
                &&& count_key_actions(r.0, entries, k, true) == 0
                &&& count_key_actions(r.0, entries, k, false) == 0
            }
        }),
    decreases entries.len(),
{
    let r = cycle_spec(entries, ps, m);
    let run = crate::scan::spec_is_running(k, ps);
    if entries.len() == 0 {
        assert(!has_entry_for(entries, k));
    } else {
        let pe = entries.drop_last();
        lemma_cycle_key(pe, ps, m, k);
        lemma_cycle_action_bounds(pe, ps, m);
        let prev = cycle_spec(pe, ps, m);
        let e = entries.last();
        let idx = (entries.len() - 1) as usize;
        let run_e = crate::scan::spec_is_running(e.executable@, ps);
        let st = step_entry(prev.1, e.executable@, run_e, idx);
        lemma_count_concat(prev.0, st.0, entries, k, true);
        lemma_count_concat(prev.0, st.0, entries, k, false);
        assert(forall|t: int|
            0 <= t < prev.0.len() ==> action_entry(#[trigger] prev.0[t]) < entries.len() - 1);
        lemma_count_shrink_entries(prev.0, entries, k, true);
        lemma_count_shrink_entries(prev.0, entries, k, false);
        assert(forall|i: int| 0 <= i < pe.len() ==> #[trigger] pe[i] == entries[i]);
        assert(count_key_actions(Seq::<CycleAction>::empty(), entries, k, true) == 0);
        assert(count_key_actions(Seq::<CycleAction>::empty(), entries, k, false) == 0);
        if st.0.len() > 0 {
            assert(st.0.drop_last() =~= Seq::<CycleAction>::empty());
            assert(st.0.last() == st.0[0]);
        }
        if e.executable@ == k {
            assert(has_entry_for(entries, k)) by {
                assert(entries[entries.len() - 1].executable@ == k);
            }
            assert(run_e == run);
            if has_entry_for(pe, k) {
                // `k` was already stepped by an earlier entry; this step is a
                // no-op for it.
                assert(key_of(prev.1, k) == key_next(key_of(m, k), run));
                assert(st.0.len() == 0 && st.1 == prev.1) by {
                    match key_of(prev.1, k) {
                        None => {
                            assert(!run);
                        },
                        Some(s) => {},
                    }
                }
                assert(count_key_actions(st.0, entries, k, true) == 0);
                assert(count_key_actions(st.0, entries, k, false) == 0);
            } else {
                assert(key_of(prev.1, k) == key_of(m, k));
                assert(count_key_actions(prev.0, pe, k, true) == 0);
                assert(count_key_actions(prev.0, pe, k, false) == 0);
                if st.0.len() > 0 {
                    assert(count_key_actions(st.0, entries, k, true) == action_weight(
                        st.0[0],
                        entries,
                        k,
                        true,
                    ));
                    assert(count_key_actions(st.0, entries, k, false) == action_weight(
                        st.0[0],
                        entries,
                        k,
                        false,
                    ));
                    assert(action_entry(st.0[0]) == entries.len() - 1);
                    assert(entries[entries.len() - 1].executable@ == k);
                }
            }
        } else {
            // the step touches another executable; `k` is unaffected
            assert(key_of(st.1, k) == key_of(prev.1, k));
            if st.0.len() > 0 {
                assert(action_weight(st.0[0], entries, k, true) == 0);
                assert(action_weight(st.0[0], entries, k, false) == 0);
            }
            if has_entry_for(pe, k) {
                assert(has_entry_for(entries, k)) by {
                    let i = choose|i: int| 0 <= i < pe.len() && pe[i].executable@ == k;
                    assert(entries[i].executable@ == k);
                }
            } else {
                assert(!has_entry_for(entries, k)) by {
                    if has_entry_for(entries, k) {
                        let i = choose|i: int|
                            0 <= i < entries.len() && entries[i].executable@ == k;
                        assert(i < entries.len() - 1);
                        assert(pe[i].executable@ == k);
                    }
                }
            }
        }
    }
}

/// The table holds no pending work for this executable under this scan
/// result: nothing would fire for it.
pub open spec fn entry_settled(
    m: Map<Seq<char>, MonitorState>,
    exe: Seq<char>,
    running: bool,
) -> bool {
    &&& !(running && !m.contains_key(exe))
    &&& !(!running && m.contains_key(exe) && m[exe] == MonitorState::Armed)
}

/// The table holds no pending work for any configured entry under this
/// process-table snapshot.
pub open spec fn settled(
    m: Map<Seq<char>, MonitorState>,
    entries: Seq<crate::config::Entry>,
    ps: Seq<char>,
) -> bool {
    forall|i: int|
        0 <= i < entries.len() ==> entry_settled(
            m,
            (#[trigger] entries[i]).executable@,
            crate::scan::spec_is_running(entries[i].executable@, ps),
        )
}

/// One entry's step settles that entry and disturbs no other settled one.
proof fn lemma_step_settles(
    m: Map<Seq<char>, MonitorState>,
    exe: Seq<char>,
    running: bool,
    idx: usize,
)
    ensures
        entry_settled(step_entry(m, exe, running, idx).1, exe, running),
        forall|k2: Seq<char>, run2: bool|
            k2 != exe && entry_settled(m, k2, run2) ==> entry_settled(
                step_entry(m, exe, running, idx).1,
                k2,
                run2,
            ),
{
}

/// After a full cycle the table is settled for every entry of the list it
/// was run against.
proof fn lemma_cycle_settles(
    entries: Seq<crate::config::Entry>,
    ps: Seq<char>,
    m: Map<Seq<char>, MonitorState>,
)
    ensures
        settled(cycle_spec(entries, ps, m).1, entries, ps),
    decreases entries.len(),
{
    if entries.len() > 0 {
        let pe = entries.drop_last();
        lemma_cycle_settles(pe, ps, m);
        let prev = cycle_spec(pe, ps, m);
        let e = entries.last();
        let run_e = crate::scan::spec_is_running(e.executable@, ps);
        let idx = (entries.len() - 1) as usize;
        let st = step_entry(prev.1, e.executable@, run_e, idx);
        lemma_step_settles(prev.1, e.executable@, run_e, idx);
        assert forall|i: int| 0 <= i < entries.len() implies entry_settled(
            st.1,
            (#[trigger] entries[i]).executable@,
            crate::scan::spec_is_running(entries[i].executable@, ps),
        ) by {
            if i < entries.len() - 1 {
                assert(pe[i] == entries[i]);
                assert(entry_settled(
                    prev.1,
                    entries[i].executable@,
                    crate::scan::spec_is_running(entries[i].executable@, ps),
                ));
                if entries[i].executable@ == e.executable@ {
                    // same executable, same scan result: the step left it
                    // settled as well
                    assert(entry_settled(st.1, e.executable@, run_e));
                }
            } else {
                assert(entries[i] == e);
            }
        }
    }
}

/// A cycle over a settled table does nothing: no action and no change.
proof fn lemma_settled_cycle_noop(
    entries: Seq<crate::config::Entry>,
    ps: Seq<char>,
    m: Map<Seq<char>, MonitorState>,
)
    requires
        settled(m, entries, ps),
    ensures
        cycle_spec(entries, ps, m).0 == Seq::<CycleAction>::empty(),
        cycle_spec(entries, ps, m).1 == m,
    decreases entries.len(),
{
    if entries.len() > 0 {
        let pe = entries.drop_last();
        assert(forall|i: int| 0 <= i < pe.len() ==> #[trigger] pe[i] == entries[i]);
        lemma_settled_cycle_noop(pe, ps, m);
        let e = entries.last();
        assert(entries[entries.len() - 1] == e);
        assert(entry_settled(m, e.executable@, crate::scan::spec_is_running(e.executable@, ps)));
        assert(cycle_spec(entries, ps, m).0 =~= Seq::<CycleAction>::empty());
    }
}

/// Idempotent polling: while presence is unchanged, running a second cycle
/// on the same process-table snapshot emits no action and leaves the table
/// exactly as the first cycle left it.
pub proof fn lemma_cycle_idempotent(
    entries: Seq<crate::config::Entry>,
    ps: Seq<char>,
    m: Map<Seq<char>, MonitorState>,
)
    ensures
        ({
            let once = cycle_spec(entries, ps, m);
            let again = cycle_spec(entries, ps, once.1);
            again.0 == Seq::<CycleAction>::empty() && again.1 == once.1
        }),
{
    lemma_cycle_settles(entries, ps, m);
    lemma_settled_cycle_noop(entries, ps, cycle_spec(entries, ps, m).1);
}

/// Re-detection: once an executable's episode is over and its key has been
/// removed from the table, a cycle that sees it running again arms a fresh
/// monitor and emits exactly one start action for it.
pub proof fn lemma_redetection(
    entries: Seq<crate::config::Entry>,
    ps: Seq<char>,
    m: Map<Seq<char>, MonitorState>,
    k: Seq<char>,
)
    requires
        entries.len() <= usize::MAX,
        has_entry_for(entries, k),
        !m.contains_key(k),
        crate::scan::spec_is_running(k, ps),
    ensures
        key_of(cycle_spec(entries, ps, m).1, k) == Some(MonitorState::Armed),
        count_key_actions(cycle_spec(entries, ps, m).0, entries, k, true) == 1,
        count_key_actions(cycle_spec(entries, ps, m).0, entries, k, false) == 0,
{
    lemma_cycle_key(entries, ps, m, k);
}

/// Several poll cycles in sequence: `outs` holds one process-table snapshot
/// per cycle, oldest first; the emitted actions are concatenated in order.
pub open spec fn run_cycles(
    entries: Seq<crate::config::Entry>,
    outs: Seq<Seq<char>>,
    m: Map<Seq<char>, MonitorState>,
) -> (Seq<CycleAction>, Map<Seq<char>, MonitorState>)
    decreases outs.len(),
{
    if outs.len() == 0 {
        (Seq::empty(), m)
    } else {
        let prev = run_cycles(entries, outs.drop_last(), m);
        let c = cycle_spec(entries, outs.last(), prev.1);
        (prev.0 + c.0, c.1)
    }
}

/// Pairing over a presence episode: starting unmonitored, an executable
/// that is seen running for the first `p` cycles and absent for the rest
/// collects exactly one start action, and — as soon as at least one absent
/// cycle has been observed — exactly one stop signal.  Applying the lemma
/// to the first `p` cycles alone (`p == outs.len()`) shows that no stop
/// fires while presence lasts, so the stop always comes after the start.
pub proof fn lemma_episode_pairing(
    entries: Seq<crate::config::Entry>,
    outs: Seq<Seq<char>>,
    m: Map<Seq<char>, MonitorState>,
    k: Seq<char>,
    p: int,
)
    requires
        entries.len() <= usize::MAX,
        has_entry_for(entries, k),
        !m.contains_key(k),
        1 <= p <= outs.len(),
        forall|c: int| 0 <= c < p ==> crate::scan::spec_is_running(k, #[trigger] outs[c]),
        forall|c: int| p <= c < outs.len() ==> !crate::scan::spec_is_running(k, #[trigger] outs[c]),
    ensures
        ({
            let r = run_cycles(entries, outs, m);
            &&& count_key_actions(r.0, entries, k, true) == 1
            &&& count_key_actions(r.0, entries, k, false) == (if p < outs.len() {
                1nat
            } else {
                0nat
            })
            &&& key_of(r.1, k) == (if p < outs.len() {
                Some(MonitorState::Signaled)
            } else {
                Some(MonitorState::Armed)
            })
        }),
    decreases outs.len(),
{
    let r = run_cycles(entries, outs, m);
    let po = outs.drop_last();
    let prev = run_cycles(entries, po, m);
    let c = cycle_spec(entries, outs.last(), prev.1);
    assert(forall|i: int| 0 <= i < po.len() ==> #[trigger] po[i] == outs[i]);
    assert(outs[outs.len() - 1] == outs.last());
    lemma_count_concat(prev.0, c.0, entries, k, true);
    lemma_count_concat(prev.0, c.0, entries, k, false);
    lemma_cycle_key(entries, outs.last(), prev.1, k);
    assert(count_key_actions(Seq::<CycleAction>::empty(), entries, k, true) == 0);
    assert(count_key_actions(Seq::<CycleAction>::empty(), entries, k, false) == 0);
    if outs.len() == 1 {
        // a single, present cycle: the start fires now
        assert(prev.0 == Seq::<CycleAction>::empty() && prev.1 == m);
        assert(crate::scan::spec_is_running(k, outs.last()));
    } else if p == outs.len() {
        // still present: the earlier cycles did the start, this one is idle
        lemma_episode_pairing(entries, po, m, k, p - 1);
        assert(crate::scan::spec_is_running(k, outs.last()));
        assert(key_of(prev.1, k) == Some(MonitorState::Armed));
    } else if p == outs.len() - 1 {
        // the first absent cycle: the stop fires now
        lemma_episode_pairing(entries, po, m, k, p);
        assert(!crate::scan::spec_is_running(k, outs.last()));
        assert(key_of(prev.1, k) == Some(MonitorState::Armed));
    } else {
        // absent before and still absent: the stop already fired
        lemma_episode_pairing(entries, po, m, k, p);
        assert(!crate::scan::spec_is_running(k, outs.last()));
        assert(key_of(prev.1, k) == Some(MonitorState::Signaled));
    }
}

/// Phase of one monitor task, the per-episode worker.
#[derive(Clone, Copy, PartialEq, Eq, Structural, Debug)]
pub enum MonitorPhase {
    /// Just spawned; the start commands are being run.
    Starting,
    /// Start commands finished; blocked waiting for the stop signal.
    Waiting,
    /// Stop signal received (or the channel closed); the end commands are
    /// being run.
    Ending,
    /// End commands finished; the task unregisters its key and exits.
    Done,
}

/// The lifecycle of one monitor task.
///
/// The phases only ever advance `Starting → Waiting → Ending → Done`, each
/// step taken exactly once: start commands run exactly once when the task
/// spawns, end commands run exactly once and only after the stop signal —
/// this is the per-task half of the start/end pairing guarantee.  The caller
/// drives the task: it runs the command batches and blocks on the signal,
/// and removes the task's key from the table only in phase `Done`.
pub struct MonitorTask {
    phase: MonitorPhase,
}

impl View for MonitorTask {
    type V = MonitorPhase;

    closed spec fn view(&self) -> MonitorPhase {
        self.phase
    }
}

impl MonitorTask {
    /// A freshly spawned task, about to run its start commands.
    pub fn new() -> (t: MonitorTask)
        ensures
            t@ == MonitorPhase::Starting,
    {
        MonitorTask { phase: MonitorPhase::Starting }
    }

    /// The phase the task is in.
    pub fn phase(&self) -> (p: MonitorPhase)
        ensures
            p == self@,
    {
        self.phase
    }

    /// The start commands have been run (their outcome does not matter);
    /// the task now waits for its stop signal.
    pub fn start_commands_done(&mut self)
        requires
            old(self)@ == MonitorPhase::Starting,
        ensures
            final(self)@ == MonitorPhase::Waiting,
    {
        self.phase = MonitorPhase::Waiting;
    }

    /// The stop signal arrived, or the sending side went away; either way
    /// the end commands are due now, exactly once.
    pub fn stop_received(&mut self)
        requires
            old(self)@ == MonitorPhase::Waiting,
        ensures
            final(self)@ == MonitorPhase::Ending,
    {
        self.phase = MonitorPhase::Ending;
    }

    /// The end commands have been run; the task may now remove its key from
    /// the table and exit, re-enabling detection of its executable.
    pub fn end_commands_done(&mut self)
        requires
            old(self)@ == MonitorPhase::Ending,
        ensures
            final(self)@ == MonitorPhase::Done,
    {
        self.phase = MonitorPhase::Done;
    }
}

/// At most one monitor per executable: the table never lists an executable
/// twice, so no executable can have two live monitors registered.
pub proof fn lemma_at_most_one_monitor(t: MonitorTable, i: int, j: int)
    requires
        t.wf(),
        0 <= i < t.keys_in_order().len(),
        0 <= j < t.keys_in_order().len(),
        i != j,
    ensures
        t.keys_in_order()[i] != t.keys_in_order()[j],
{
}

} // verus!
