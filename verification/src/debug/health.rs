use vstd::prelude::*;
use std::collections::{HashMap, HashSet, VecDeque};
use crate::keys::collect_keys;

verus! {

/// Alerts kept in the ring buffer.
pub const MAX_ALERTS: usize = 100;

/// Ticks without moving after which a creature counts as stuck.
pub const STUCK_ENTITY_THRESHOLD_TICKS: u64 = 50;

/// Ticks of population history looked at for a crash.
pub const POPULATION_WINDOW_TICKS: u64 = 100;

/// Repeats of one action after which a creature counts as looping.
pub const AI_LOOP_REPEAT_THRESHOLD: u32 = 20;

/// Kinds of health alert.
#[derive(Debug, Clone, Copy, PartialEq, Eq, Structural)]
pub enum HealthAlert {
    /// Ticks per second fell below 10.
    TpsBelow10,
    /// Some creature has not moved for `STUCK_ENTITY_THRESHOLD_TICKS` ticks.
    EntitiesStuck,
    /// The population lost at least half within the window.
    PopulationCrash,
    /// Some creature repeated one action `AI_LOOP_REPEAT_THRESHOLD` times.
    AiLoops,
}

/// The message shown for an alert.
pub open spec fn alert_text(a: HealthAlert) -> Seq<char> {
    match a {
        HealthAlert::TpsBelow10 => "TPS below 10"@,
        HealthAlert::EntitiesStuck => "Entities stuck"@,
        HealthAlert::PopulationCrash => "Population crash"@,
        HealthAlert::AiLoops => "AI loops detected"@,
    }
}

impl HealthAlert {
    /// The message shown for the alert.
    pub fn to_string(&self) -> (s: String)
        ensures
            s@ == alert_text(*self),
    {
        match self {
            HealthAlert::TpsBelow10 => "TPS below 10".to_string(),
            HealthAlert::EntitiesStuck => "Entities stuck".to_string(),
            HealthAlert::PopulationCrash => "Population crash".to_string(),
            HealthAlert::AiLoops => "AI loops detected".to_string(),
        }
    }
}

/// The system clock's time type of std.
#[verifier::external_type_specification]
#[verifier::external_body]
pub struct ExSystemTime(std::time::SystemTime);

/// `std::time::SystemTime::now`: the system clock's current time. Nothing
/// is stated of it: it is the time.
#[verifier::external_body]
fn clock_now() -> std::time::SystemTime {
    std::time::SystemTime::now()
}

/// `SystemTime::duration_since(UNIX_EPOCH)`: the time elapsed since the
/// Unix epoch, `None` when the clock reads earlier than the epoch (std's
/// error). Nothing is stated of the duration.
#[verifier::external_body]
fn since_unix_epoch(t: std::time::SystemTime) -> Option<core::time::Duration> {
    match t.duration_since(std::time::UNIX_EPOCH) {
        Ok(d) => Some(d),
        Err(_) => None,
    }
}

/// `Duration::as_millis`: the whole milliseconds of a duration. Nothing is
/// stated of the value.
#[verifier::external_body]
fn whole_millis(d: core::time::Duration) -> u128 {
    d.as_millis()
}

/// Milliseconds since the Unix epoch by the system clock, 0 when the clock
/// reads earlier than the epoch, cut to 64 bits.
fn unix_time_millis() -> u64 {
    let ms: u128 = match since_unix_epoch(clock_now()) {
        Some(d) => whole_millis(d),
        None => 0,
    };
    ms as u64
}

/// An alert raised at a tick, with the wall-clock time it was raised.
#[derive(Debug, Clone, Copy, PartialEq, Eq, Structural)]
pub struct AlertRecord {
    pub alert_type: HealthAlert,
    pub tick: u64,
    pub timestamp_ms: u64,
}

impl AlertRecord {
    /// A record of `alert_type` at `tick`, stamped with the current time.
    pub fn new(alert_type: HealthAlert, tick: u64) -> (r: AlertRecord)
        ensures
            r.alert_type == alert_type,
            r.tick == tick,
    {
        let timestamp_ms = unix_time_millis();
        AlertRecord { alert_type, tick, timestamp_ms }
    }
}

/// What the checker tracks of one creature.
#[derive(Debug)]
pub struct EntityHealthState {
    pub last_position: (i32, i32),
    pub last_position_update_tick: u64,
    pub current_action: String,
    pub action_repeat_count: u32,
}

impl EntityHealthState {
    pub fn new(position: (i32, i32), tick: u64) -> (s: EntityHealthState)
        ensures
            s.last_position == position,
            s.last_position_update_tick == tick,
            s.current_action@ == Seq::<char>::empty(),
            s.action_repeat_count == 0,
    {
        EntityHealthState {
            last_position: position,
            last_position_update_tick: tick,
            current_action: String::new(),
            action_repeat_count: 0,
        }
    }
}

/// `a - b`, or 0 when `b` is larger.
pub open spec fn sat_sub(a: u64, b: u64) -> u64 {
    if a >= b { (a - b) as u64 } else { 0 }
}

/// The creature has not moved for the stuck threshold at `tick`.
pub open spec fn is_stuck(s: EntityHealthState, tick: u64) -> bool {
    sat_sub(tick, s.last_position_update_tick) >= STUCK_ENTITY_THRESHOLD_TICKS
}

/// The creature repeated its action at least the loop threshold.
pub open spec fn is_looping(s: EntityHealthState) -> bool {
    s.action_repeat_count >= AI_LOOP_REPEAT_THRESHOLD
}

/// The latest record of kind `t` in `s`.
pub open spec fn latest_of(s: Seq<AlertRecord>, t: HealthAlert) -> Option<AlertRecord>
    decreases s.len(),
{
    if s.len() == 0 {
        None
    } else if s.last().alert_type == t {
        Some(s.last())
    } else {
        latest_of(s.drop_last(), t)
    }
}

/// Records of kind `t` raised at most `window` ticks before `tick`.
pub open spec fn count_in_window(s: Seq<AlertRecord>, t: HealthAlert, window: u64, tick: u64) -> nat
    decreases s.len(),
{
    if s.len() == 0 {
        0
    } else {
        count_in_window(s.drop_last(), t, window, tick) + if s.last().alert_type == t && sat_sub(
            tick,
            s.last().tick,
        ) <= window {
            1nat
        } else {
            0nat
        }
    }
}

/// Records of kind `t` in `s`.
pub open spec fn count_of(s: Seq<AlertRecord>, t: HealthAlert) -> nat
    decreases s.len(),
{
    if s.len() == 0 {
        0
    } else {
        count_of(s.drop_last(), t) + if s.last().alert_type == t { 1nat } else { 0nat }
    }
}

proof fn lemma_count_in_window_bound(s: Seq<AlertRecord>, t: HealthAlert, window: u64, tick: u64)
    ensures
        count_in_window(s, t, window, tick) <= s.len(),
    decreases s.len(),
{
    if s.len() > 0 {
        lemma_count_in_window_bound(s.drop_last(), t, window, tick);
    }
}

proof fn lemma_count_of_bound(s: Seq<AlertRecord>, t: HealthAlert)
    ensures
        count_of(s, t) <= s.len(),
    decreases s.len(),
{
    if s.len() > 0 {
        lemma_count_of_bound(s.drop_last(), t);
    }
}

/// How many alerts of each kind the buffer holds.
#[derive(Debug, Clone, Copy, PartialEq, Eq, Structural)]
pub struct AlertCounts {
    pub tps_below_10: usize,
    pub entities_stuck: usize,
    pub population_crash: usize,
    pub ai_loops: usize,
}

/// The count of kind `a` in `c`.
pub open spec fn count_for(c: AlertCounts, a: HealthAlert) -> usize {
    match a {
        HealthAlert::TpsBelow10 => c.tps_below_10,
        HealthAlert::EntitiesStuck => c.entities_stuck,
        HealthAlert::PopulationCrash => c.population_crash,
        HealthAlert::AiLoops => c.ai_loops,
    }
}

/// The count stored under a key: only the four alert keys are known, and
/// a kind never raised has no entry.
pub open spec fn key_count(c: AlertCounts, key: Seq<char>) -> Option<usize> {
    let n = if key == "tps_below_10"@ {
        c.tps_below_10
    } else if key == "entities_stuck"@ {
        c.entities_stuck
    } else if key == "population_crash"@ {
        c.population_crash
    } else if key == "ai_loops"@ {
        c.ai_loops
    } else {
        0
    };
    if n > 0 {
        Some(n)
    } else {
        None
    }
}

impl AlertCounts {
    /// The count under a key (`"tps_below_10"`, `"entities_stuck"`,
    /// `"population_crash"`, `"ai_loops"`); `None` for an unknown key or a
    /// kind that was never raised.
    pub fn get(&self, key: &str) -> (r: Option<usize>)
        ensures
            r == key_count(*self, key@),
    {
        let k = key.to_string();
        let n = if k == "tps_below_10".to_string() {
            self.tps_below_10
        } else if k == "entities_stuck".to_string() {
            self.entities_stuck
        } else if k == "population_crash".to_string() {
            self.population_crash
        } else if k == "ai_loops".to_string() {
            self.ai_loops
        } else {
            0
        };
        if n > 0 {
            Some(n)
        } else {
            None
        }
    }
}

/// `after` is `before` with one more record of `alert` at `tick`, keeping
/// the newest `MAX_ALERTS`.
pub open spec fn alert_pushed(before: Seq<AlertRecord>, after: Seq<AlertRecord>, alert: HealthAlert, tick: u64) -> bool {
    let n = if before.len() + 1 > MAX_ALERTS { MAX_ALERTS as int } else { before.len() + 1int };
    &&& after.len() == n
    &&& after.last().alert_type == alert
    &&& after.last().tick == tick
    &&& after.drop_last() == before.skip(before.len() + 1 - n)
}

/// The population history after recording `count` at `tick`: the newest
/// `POPULATION_WINDOW_TICKS` entries are kept, then the entry is added
/// unless the count equals the latest one.
pub open spec fn history_after(h: Seq<(u64, u32)>, count: u32, tick: u64) -> Seq<(u64, u32)> {
    let t = if h.len() > POPULATION_WINDOW_TICKS {
        h.skip(h.len() - POPULATION_WINDOW_TICKS)
    } else {
        h
    };
    if t.len() == 0 || t.last().1 != count {
        t.push((tick, count))
    } else {
        t
    }
}

/// The first entry of `h` recorded at or after `start`.
pub open spec fn first_from(h: Seq<(u64, u32)>, start: u64) -> Option<(u64, u32)>
    decreases h.len(),
{
    if h.len() == 0 {
        None
    } else if h[0].0 >= start {
        Some(h[0])
    } else {
        first_from(h.subrange(1, h.len() as int), start)
    }
}

/// A population crash at `tick`: with at least two entries, the first
/// entry inside the window had a positive count and the latest count is
/// at most half of it.
pub open spec fn crashed(h: Seq<(u64, u32)>, tick: u64) -> bool {
    h.len() >= 2 && match first_from(h, sat_sub(tick, POPULATION_WINDOW_TICKS)) {
        Some((_, old_count)) => old_count > 0 && 2 * h.last().1 <= old_count,
        None => false,
    }
}

/// `st` is the state of creature `id` after it was seen at `position` at
/// `tick`: a known creature keeps its action record, and its time of last
/// move changes only if the position did; a new one starts with no action.
pub open spec fn moved_state(
    states: Map<u32, EntityHealthState>,
    st: EntityHealthState,
    id: u32,
    position: (i32, i32),
    tick: u64,
) -> bool {
    &&& st.last_position == position
    &&& if states.contains_key(id) {
        &&& st.last_position_update_tick == if states[id].last_position != position {
            tick
        } else {
            states[id].last_position_update_tick
        }
        &&& st.current_action == states[id].current_action
        &&& st.action_repeat_count == states[id].action_repeat_count
    } else {
        &&& st.last_position_update_tick == tick
        &&& st.current_action@ == Seq::<char>::empty()
        &&& st.action_repeat_count == 0
    }
}

/// Seeing a known creature where it already stood keeps its time of last
/// move: standing still for long makes it stuck, however often it is seen.
/// Seeing it somewhere else, or for the first time, sets that time to now.
pub proof fn law_standing_still_keeps_move_time(
    states: Map<u32, EntityHealthState>,
    st: EntityHealthState,
    id: u32,
    position: (i32, i32),
    tick: u64,
)
    requires
        moved_state(states, st, id, position, tick),
    ensures
        st.last_position == position,
        states.contains_key(id) && states[id].last_position == position ==> st.last_position_update_tick
            == states[id].last_position_update_tick,
        states.contains_key(id) && states[id].last_position != position ==> st.last_position_update_tick == tick,
        !states.contains_key(id) ==> st.last_position_update_tick == tick,
{
}

/// `after` is `before` with the entry of `id` replaced (or added), and
/// every other entry unchanged.
pub open spec fn only_changed(before: Map<u32, EntityHealthState>, after: Map<u32, EntityHealthState>, id: u32) -> bool {
    &&& after.dom() == before.dom().insert(id)
    &&& forall|k: u32| k != id && #[trigger] before.contains_key(k) ==> after[k] == before[k]
}

/// `st` is the state of creature `id` after it was seen doing `action`: a
/// repeat of its current action counts one more, another action restarts
/// the count at one; a new creature starts at the origin at tick 0.
pub open spec fn acted_state(states: Map<u32, EntityHealthState>, st: EntityHealthState, id: u32, action: Seq<char>) -> bool {
    &&& st.current_action@ == action
    &&& if states.contains_key(id) {
        &&& st.last_position == states[id].last_position
        &&& st.last_position_update_tick == states[id].last_position_update_tick
        &&& st.action_repeat_count == if states[id].current_action@ == action {
            states[id].action_repeat_count + 1
        } else {
            1
        }
    } else {
        &&& st.last_position == (0i32, 0i32)
        &&& st.last_position_update_tick == 0
        &&& st.action_repeat_count == 1
    }
}

/// Monitors the simulation's health and keeps a ring buffer of alerts.
pub struct HealthChecker {
    alerts: VecDeque<AlertRecord>,
    entity_states: HashMap<u32, EntityHealthState>,
    population_history: VecDeque<(u64, u32)>,
}

impl HealthChecker {
    pub closed spec fn alerts_view(&self) -> Seq<AlertRecord> {
        self.alerts@
    }

    pub closed spec fn states_view(&self) -> Map<u32, EntityHealthState> {
        self.entity_states@
    }

    pub closed spec fn history_view(&self) -> Seq<(u64, u32)> {
        self.population_history@
    }

    pub fn new() -> (c: HealthChecker)
        ensures
            c.alerts_view() == Seq::<AlertRecord>::empty(),
            c.states_view() == Map::<u32, EntityHealthState>::empty(),
            c.history_view() == Seq::<(u64, u32)>::empty(),
    {
        HealthChecker {
            alerts: VecDeque::new(),
            entity_states: HashMap::new(),
            population_history: VecDeque::new(),
        }
    }

    /// Records an alert, dropping the oldest beyond `MAX_ALERTS`.
    pub fn add_alert(&mut self, alert: HealthAlert, tick: u64)
        ensures
            alert_pushed(old(self).alerts_view(), final(self).alerts_view(), alert, tick),
            final(self).states_view() == old(self).states_view(),
            final(self).history_view() == old(self).history_view(),
    {
        let record = AlertRecord::new(alert, tick);
        let ghost pushed = self.alerts@.push(record);
        self.alerts.push_back(record);
        while self.alerts.len() > MAX_ALERTS
            invariant
                self.alerts@.len() >= 1,
                self.alerts@.last() == record,
                self.alerts@ == pushed.skip(pushed.len() - self.alerts@.len()),
                pushed.len() == old(self).alerts@.len() + 1,
                self.entity_states@ == old(self).entity_states@,
                self.population_history@ == old(self).population_history@,
                self.alerts@.len() <= pushed.len(),
                pushed.len() > MAX_ALERTS ==> self.alerts@.len() >= MAX_ALERTS,
                pushed.len() <= MAX_ALERTS ==> self.alerts@.len() == pushed.len(),
            decreases self.alerts@.len(),
        {
            let ghost before = self.alerts@;
            self.alerts.pop_front();
            assert(self.alerts@ =~= pushed.skip(pushed.len() - self.alerts@.len()));
        }
        proof {
            let n = self.alerts@.len();
            assert(self.alerts@.drop_last() =~= old(self).alerts@.skip(old(self).alerts@.len() + 1 - n));
        }
    }

    /// Every alert in the buffer, oldest first.
    pub fn get_alerts(&self) -> (r: Vec<AlertRecord>)
        ensures
            r@ == self.alerts_view(),
    {
        let mut out: Vec<AlertRecord> = Vec::new();
        let mut i: usize = 0;
        while i < self.alerts.len()
            invariant
                0 <= i <= self.alerts@.len(),
                out@ == self.alerts@.take(i as int),
            decreases self.alerts@.len() - i,
        {
            out.push(self.alerts[i]);
            proof {
                assert(out@ =~= self.alerts@.take(i + 1));
            }
            i = i + 1;
        }
        proof {
            assert(self.alerts@.take(self.alerts@.len() as int) =~= self.alerts@);
        }
        out
    }

    /// The most recent alert of a kind.
    pub fn get_latest_alert(&self, alert_type: HealthAlert) -> (r: Option<AlertRecord>)
        ensures
            r == latest_of(self.alerts_view(), alert_type),
    {
        let mut i: usize = self.alerts.len();
        proof {
            assert(self.alerts@.take(i as int) =~= self.alerts@);
        }
        while i > 0
            invariant
                0 <= i <= self.alerts@.len(),
                latest_of(self.alerts@, alert_type) == latest_of(self.alerts@.take(i as int), alert_type),
            decreases i,
        {
            let a = self.alerts[i - 1];
            proof {
                assert(self.alerts@.take(i as int).drop_last() =~= self.alerts@.take(i - 1));
            }
            if a.alert_type == alert_type {
                return Some(a);
            }
            i = i - 1;
        }
        None
    }

    /// Alerts of a kind raised at most `window_ticks` before `current_tick`.
    pub fn count_alerts_in_window(&self, alert_type: HealthAlert, window_ticks: u64, current_tick: u64) -> (n: usize)
        ensures
            n == count_in_window(self.alerts_view(), alert_type, window_ticks, current_tick),
    {
        let mut n: usize = 0;
        let mut i: usize = 0;
        while i < self.alerts.len()
            invariant
                0 <= i <= self.alerts@.len(),
                n == count_in_window(self.alerts@.take(i as int), alert_type, window_ticks, current_tick),
            decreases self.alerts@.len() - i,
        {
            let a = self.alerts[i];
            proof {
                assert(self.alerts@.take(i + 1).drop_last() =~= self.alerts@.take(i as int));
                lemma_count_in_window_bound(self.alerts@.take(i as int), alert_type, window_ticks, current_tick);
            }
            if a.alert_type == alert_type && current_tick.saturating_sub(a.tick) <= window_ticks {
                n = n + 1;
            }
            i = i + 1;
        }
        proof {
            assert(self.alerts@.take(self.alerts@.len() as int) =~= self.alerts@);
        }
        n
    }

    /// Forgets every alert.
    pub fn clear_alerts(&mut self)
        ensures
            final(self).alerts_view() == Seq::<AlertRecord>::empty(),
            final(self).states_view() == old(self).states_view(),
            final(self).history_view() == old(self).history_view(),
    {
        self.alerts.clear();
    }

    /// Notes where a creature is; the time of the last move is updated only
    /// when the position changed.
    pub fn update_entity_position(&mut self, entity_id: u32, position: (i32, i32), tick: u64)
        ensures
            only_changed(old(self).states_view(), final(self).states_view(), entity_id),
            moved_state(old(self).states_view(), final(self).states_view()[entity_id], entity_id, position, tick),
            final(self).states_view()[entity_id].last_position == position,
            old(self).states_view().contains_key(entity_id) && old(self).states_view()[entity_id].last_position
                == position ==> final(self).states_view()[entity_id].last_position_update_tick
                == old(self).states_view()[entity_id].last_position_update_tick,
            old(self).states_view().contains_key(entity_id) && old(self).states_view()[entity_id].last_position
                != position ==> final(self).states_view()[entity_id].last_position_update_tick == tick,
            !old(self).states_view().contains_key(entity_id)
                ==> final(self).states_view()[entity_id].last_position_update_tick == tick,
            final(self).alerts_view() == old(self).alerts_view(),
            final(self).history_view() == old(self).history_view(),
    {
        match self.entity_states.remove(&entity_id) {
            Some(mut state) => {
                if state.last_position.0 != position.0 || state.last_position.1 != position.1 {
                    state.last_position = position;
                    state.last_position_update_tick = tick;
                }
                self.entity_states.insert(entity_id, state);
            },
            None => {
                self.entity_states.insert(entity_id, EntityHealthState::new(position, tick));
            },
        }
        proof {
            assert(self.entity_states@.dom() =~= old(self).entity_states@.dom().insert(entity_id));
        }
    }

    /// Whether some tracked creature has not moved for the stuck threshold.
    fn any_stuck(&self, current_tick: u64) -> (b: bool)
        ensures
            b == exists|id: u32| #[trigger] self.entity_states@.contains_key(id) && is_stuck(self.entity_states@[id], current_tick),
    {
        let keys = collect_keys(&self.entity_states);
        let mut i: usize = 0;
        while i < keys.len()
            invariant
                0 <= i <= keys.len(),
                keys@.to_set() == self.entity_states@.dom(),
                forall|j: int| 0 <= j < i ==> !is_stuck(self.entity_states@[#[trigger] keys@[j]], current_tick),
            decreases keys.len() - i,
        {
            let k = keys[i];
            proof {
                assert(keys@.contains(k));
                assert(keys@.to_set().contains(k));
            }
            match self.entity_states.get(&k) {
                Some(st) => {
                    if current_tick.saturating_sub(st.last_position_update_tick) >= STUCK_ENTITY_THRESHOLD_TICKS {
                        return true;
                    }
                },
                None => {},
            }
            i = i + 1;
        }
        proof {
            assert forall|id: u32| #[trigger] self.entity_states@.contains_key(id) implies !is_stuck(self.entity_states@[id], current_tick) by {
                assert(keys@.to_set().contains(id));
                let j = choose|j: int| 0 <= j < keys.len() && keys@[j] == id;
                assert(!is_stuck(self.entity_states@[keys@[j]], current_tick));
            }
        }
        false
    }

    /// Raises `EntitiesStuck` when some creature has not moved for
    /// `STUCK_ENTITY_THRESHOLD_TICKS` ticks; tells whether it did.
    pub fn check_stuck_entities(&mut self, current_tick: u64) -> (r: bool)
        ensures
            r == exists|id: u32| #[trigger] old(self).states_view().contains_key(id) && is_stuck(old(self).states_view()[id], current_tick),
            r ==> alert_pushed(old(self).alerts_view(), final(self).alerts_view(), HealthAlert::EntitiesStuck, current_tick),
            !r ==> final(self).alerts_view() == old(self).alerts_view(),
            final(self).states_view() == old(self).states_view(),
            final(self).history_view() == old(self).history_view(),
    {
        if self.any_stuck(current_tick) {
            self.add_alert(HealthAlert::EntitiesStuck, current_tick);
            true
        } else {
            false
        }
    }

    /// Records the population at a tick (see `history_after`).
    pub fn update_population(&mut self, entity_count: u32, tick: u64)
        ensures
            final(self).history_view() == history_after(old(self).history_view(), entity_count, tick),
            final(self).alerts_view() == old(self).alerts_view(),
            final(self).states_view() == old(self).states_view(),
    {
        let ghost h = self.population_history@;
        while self.population_history.len() > POPULATION_WINDOW_TICKS as usize
            invariant
                self.population_history@ == h.skip(h.len() - self.population_history@.len()),
                self.population_history@.len() <= h.len(),
                h.len() > POPULATION_WINDOW_TICKS ==> self.population_history@.len() >= POPULATION_WINDOW_TICKS,
                h.len() <= POPULATION_WINDOW_TICKS ==> self.population_history@.len() == h.len(),
                self.alerts@ == old(self).alerts@,
                self.entity_states@ == old(self).entity_states@,
                h == old(self).population_history@,
            decreases self.population_history@.len(),
        {
            self.population_history.pop_front();
            assert(self.population_history@ =~= h.skip(h.len() - self.population_history@.len()));
        }
        proof {
            if h.len() <= POPULATION_WINDOW_TICKS {
                assert(h.skip(0) =~= h);
            }
        }
        let n = self.population_history.len();
        if n > 0 {
            let (_, last_count) = self.population_history[n - 1];
            if last_count != entity_count {
                self.population_history.push_back((tick, entity_count));
            }
        } else {
            self.population_history.push_back((tick, entity_count));
        }
    }

    /// The first history entry at or after `start`.
    fn first_entry_from(&self, start: u64) -> (r: Option<(u64, u32)>)
        ensures
            r == first_from(self.population_history@, start),
    {
        let mut i: usize = 0;
        proof {
            assert(self.population_history@.subrange(0, self.population_history@.len() as int)
                =~= self.population_history@);
        }
        while i < self.population_history.len()
            invariant
                0 <= i <= self.population_history@.len(),
                first_from(self.population_history@, start) == first_from(
                    self.population_history@.subrange(i as int, self.population_history@.len() as int),
                    start,
                ),
            decreases self.population_history@.len() - i,
        {
            let e = self.population_history[i];
            let ghost rest = self.population_history@.subrange(i as int, self.population_history@.len() as int);
            proof {
                assert(rest[0] == e);
                assert(rest.subrange(1, rest.len() as int) =~= self.population_history@.subrange(
                    i + 1,
                    self.population_history@.len() as int,
                ));
            }
            if e.0 >= start {
                return Some(e);
            }
            i = i + 1;
        }
        proof {
            assert(self.population_history@.subrange(i as int, self.population_history@.len() as int)
                =~= Seq::<(u64, u32)>::empty());
        }
        None
    }

    /// Raises `PopulationCrash` when the latest population is at most half
    /// of the first one recorded within `POPULATION_WINDOW_TICKS` ticks
    /// (see `crashed`); tells whether it did.
    pub fn check_population_crash(&mut self, current_tick: u64) -> (r: bool)
        ensures
            r == crashed(old(self).history_view(), current_tick),
            r ==> alert_pushed(old(self).alerts_view(), final(self).alerts_view(), HealthAlert::PopulationCrash, current_tick),
            !r ==> final(self).alerts_view() == old(self).alerts_view(),
            final(self).states_view() == old(self).states_view(),
            final(self).history_view() == old(self).history_view(),
    {
        let n = self.population_history.len();
        if n < 2 {
            return false;
        }
        let window_start = current_tick.saturating_sub(POPULATION_WINDOW_TICKS);
        let oldest = self.first_entry_from(window_start);
        let (_, new_count) = self.population_history[n - 1];
        match oldest {
            Some((_, old_count)) => {
                if old_count > 0 && 2 * (new_count as u64) <= old_count as u64 {
                    self.add_alert(HealthAlert::PopulationCrash, current_tick);
                    return true;
                }
            },
            None => {},
        }
        false
    }

    /// Notes the action a creature is doing, counting repeats.
    pub fn update_entity_action(&mut self, entity_id: u32, action: String)
        requires
            old(self).states_view().contains_key(entity_id) && old(self).states_view()[entity_id].current_action@
                == action@ ==> old(self).states_view()[entity_id].action_repeat_count < u32::MAX,
        ensures
            only_changed(old(self).states_view(), final(self).states_view(), entity_id),
            acted_state(old(self).states_view(), final(self).states_view()[entity_id], entity_id, action@),
            final(self).alerts_view() == old(self).alerts_view(),
            final(self).history_view() == old(self).history_view(),
    {
        let ghost a = action@;
        match self.entity_states.remove(&entity_id) {
            Some(mut state) => {
                if state.current_action == action {
                    state.action_repeat_count = state.action_repeat_count + 1;
                } else {
                    state.current_action = action;
                    state.action_repeat_count = 1;
                }
                self.entity_states.insert(entity_id, state);
            },
            None => {
                let mut state = EntityHealthState::new((0, 0), 0);
                state.current_action = action;
                state.action_repeat_count = 1;
                self.entity_states.insert(entity_id, state);
            },
        }
        proof {
            assert(self.entity_states@.dom() =~= old(self).entity_states@.dom().insert(entity_id));
        }
    }

    /// Whether some tracked creature repeated its action the loop threshold.
    fn any_looping(&self) -> (b: bool)
        ensures
            b == exists|id: u32| #[trigger] self.entity_states@.contains_key(id) && is_looping(self.entity_states@[id]),
    {
        let keys = collect_keys(&self.entity_states);
        let mut i: usize = 0;
        while i < keys.len()
            invariant
                0 <= i <= keys.len(),
                keys@.to_set() == self.entity_states@.dom(),
                forall|j: int| 0 <= j < i ==> !is_looping(self.entity_states@[#[trigger] keys@[j]]),
            decreases keys.len() - i,
        {
            let k = keys[i];
            proof {
                assert(keys@.contains(k));
                assert(keys@.to_set().contains(k));
            }
            match self.entity_states.get(&k) {
                Some(st) => {
                    if st.action_repeat_count >= AI_LOOP_REPEAT_THRESHOLD {
                        return true;
                    }
                },
                None => {},
            }
            i = i + 1;
        }
        proof {
            assert forall|id: u32| #[trigger] self.entity_states@.contains_key(id) implies !is_looping(self.entity_states@[id]) by {
                assert(keys@.to_set().contains(id));
                let j = choose|j: int| 0 <= j < keys.len() && keys@[j] == id;
                assert(!is_looping(self.entity_states@[keys@[j]]));
            }
        }
        false
    }

    /// Raises `AiLoops` when some creature repeated one action
    /// `AI_LOOP_REPEAT_THRESHOLD` times; tells whether it did.
    pub fn check_ai_loops(&mut self, current_tick: u64) -> (r: bool)
        ensures
            r == exists|id: u32| #[trigger] old(self).states_view().contains_key(id) && is_looping(old(self).states_view()[id]),
            r ==> alert_pushed(old(self).alerts_view(), final(self).alerts_view(), HealthAlert::AiLoops, current_tick),
            !r ==> final(self).alerts_view() == old(self).alerts_view(),
            final(self).states_view() == old(self).states_view(),
            final(self).history_view() == old(self).history_view(),
    {
        if self.any_looping() {
            self.add_alert(HealthAlert::AiLoops, current_tick);
            true
        } else {
            false
        }
    }

    /// Sets every creature's repeat count back to zero.
    pub fn reset_action_counters(&mut self)
        ensures
            final(self).states_view().dom() == old(self).states_view().dom(),
            forall|id: u32|
                #[trigger] old(self).states_view().contains_key(id) ==> ({
                    let a = old(self).states_view()[id];
                    let b = final(self).states_view()[id];
                    &&& b.action_repeat_count == 0
                    &&& b.last_position == a.last_position
                    &&& b.last_position_update_tick == a.last_position_update_tick
                    &&& b.current_action == a.current_action
                }),
            final(self).alerts_view() == old(self).alerts_view(),
            final(self).history_view() == old(self).history_view(),
    {
        let keys = collect_keys(&self.entity_states);
        let ghost m0 = self.entity_states@;
        let mut i: usize = 0;
        while i < keys.len()
            invariant
                0 <= i <= keys.len(),
                keys@.to_set() == m0.dom(),
                keys@.no_duplicates(),
                self.entity_states@.dom() == m0.dom(),
                forall|j: int| 0 <= j < i ==> ({
                    let id = #[trigger] keys@[j];
                    &&& self.entity_states@[id].action_repeat_count == 0
                    &&& self.entity_states@[id].last_position == m0[id].last_position
                    &&& self.entity_states@[id].last_position_update_tick == m0[id].last_position_update_tick
                    &&& self.entity_states@[id].current_action == m0[id].current_action
                }),
                forall|id: u32| #[trigger] m0.contains_key(id) && !keys@.take(i as int).contains(id) ==> self.entity_states@[id] == m0[id],
                self.alerts@ == old(self).alerts@,
                self.population_history@ == old(self).population_history@,
            decreases keys.len() - i,
        {
            let k = keys[i];
            proof {
                assert(keys@.contains(k));
                assert(keys@.to_set().contains(k));
                let t0 = keys@.take(i as int);
                assert(!t0.contains(k)) by {
                    if t0.contains(k) {
                        let j = choose|j: int| 0 <= j < t0.len() && t0[j] == k;
                        assert(keys@[j] == keys@[i as int]);
                    }
                }
            }
            let ghost before = self.entity_states@;
            match self.entity_states.remove(&k) {
                Some(mut st) => {
                    st.action_repeat_count = 0;
                    self.entity_states.insert(k, st);
                },
                None => {},
            }
            proof {
                assert(self.entity_states@.dom() =~= m0.dom());
                let t0 = keys@.take(i as int);
                let t1 = keys@.take(i + 1);
                assert forall|id: u32| #[trigger] m0.contains_key(id) && !t1.contains(id) implies self.entity_states@[id] == m0[id] by {
                    assert(id != k) by {
                        assert(t1[i as int] == k);
                    }
                    assert(!t0.contains(id)) by {
                        if t0.contains(id) {
                            let j = choose|j: int| 0 <= j < t0.len() && t0[j] == id;
                            assert(t1[j] == id);
                        }
                    }
                }
                assert forall|j: int| 0 <= j < i + 1 implies ({
                    let id = #[trigger] keys@[j];
                    &&& self.entity_states@[id].action_repeat_count == 0
                    &&& self.entity_states@[id].last_position == m0[id].last_position
                    &&& self.entity_states@[id].last_position_update_tick == m0[id].last_position_update_tick
                    &&& self.entity_states@[id].current_action == m0[id].current_action
                }) by {
                    if j < i {
                        assert(keys@[j] != k);
                    }
                }
            }
            i = i + 1;
        }
        proof {
            assert forall|id: u32| #[trigger] m0.contains_key(id) implies ({
                let a = m0[id];
                let b = self.entity_states@[id];
                &&& b.action_repeat_count == 0
                &&& b.last_position == a.last_position
                &&& b.last_position_update_tick == a.last_position_update_tick
                &&& b.current_action == a.current_action
            }) by {
                assert(keys@.to_set().contains(id));
                let j = choose|j: int| 0 <= j < keys.len() && keys@[j] == id;
            }
        }
    }

    /// Forgets the creatures that are not alive.
    pub fn cleanup_old_states(&mut self, alive: &HashSet<u32>)
        ensures
            final(self).states_view() == old(self).states_view().restrict(alive@),
            final(self).alerts_view() == old(self).alerts_view(),
            final(self).history_view() == old(self).history_view(),
    {
        let keys = collect_keys(&self.entity_states);
        let ghost m0 = self.entity_states@;
        let mut i: usize = 0;
        while i < keys.len()
            invariant
                0 <= i <= keys.len(),
                keys@.to_set() == m0.dom(),
                keys@.no_duplicates(),
                forall|id: u32| #[trigger] self.entity_states@.contains_key(id) <==> m0.contains_key(id)
                    && (keys@.take(i as int).contains(id) ==> alive@.contains(id)),
                forall|id: u32| #[trigger] self.entity_states@.contains_key(id) ==> self.entity_states@[id] == m0[id],
                self.alerts@ == old(self).alerts@,
                self.population_history@ == old(self).population_history@,
            decreases keys.len() - i,
        {
            let k = keys[i];
            if !alive.contains(&k) {
                self.entity_states.remove(&k);
            }
            proof {
                let t0 = keys@.take(i as int);
                let t1 = keys@.take(i + 1);
                assert forall|id: u32| t1.contains(id) <==> t0.contains(id) || id == k by {
                    if t1.contains(id) {
                        let j = choose|j: int| 0 <= j < t1.len() && t1[j] == id;
                        if j < i {
                            assert(t0[j] == id);
                        }
                    }
                    if t0.contains(id) {
                        let j = choose|j: int| 0 <= j < t0.len() && t0[j] == id;
                        assert(t1[j] == id);
                    }
                    if id == k {
                        assert(t1[i as int] == k);
                    }
                }
            }
            i = i + 1;
        }
        proof {
            assert(keys@.take(keys.len() as int) =~= keys@);
            assert forall|id: u32| keys@.contains(id) <==> m0.contains_key(id) by {
                assert(keys@.to_set().contains(id) == keys@.contains(id));
            }
            assert(self.entity_states@ =~= m0.restrict(alive@));
        }
    }

    /// How many alerts of each kind the buffer holds.
    pub fn get_alert_counts(&self) -> (c: AlertCounts)
        ensures
            forall|a: HealthAlert| #[trigger] count_for(c, a) == count_of(self.alerts_view(), a),
    {
        let mut c = AlertCounts { tps_below_10: 0, entities_stuck: 0, population_crash: 0, ai_loops: 0 };
        let mut i: usize = 0;
        while i < self.alerts.len()
            invariant
                0 <= i <= self.alerts@.len(),
                forall|a: HealthAlert| #[trigger] count_for(c, a) == count_of(self.alerts@.take(i as int), a),
            decreases self.alerts@.len() - i,
        {
            let r = self.alerts[i];
            let ghost c0 = c;
            proof {
                let t1 = self.alerts@.take(i + 1);
                assert(t1.drop_last() =~= self.alerts@.take(i as int));
                assert(t1.last() == r);
                lemma_count_of_bound(self.alerts@.take(i as int), r.alert_type);
                assert(count_for(c, r.alert_type) <= i);
                assert forall|a: HealthAlert| #[trigger] count_of(t1, a) == count_of(self.alerts@.take(i as int), a)
                    + if r.alert_type == a { 1nat } else { 0nat } by {}
            }
            match r.alert_type {
                HealthAlert::TpsBelow10 => c.tps_below_10 = c.tps_below_10 + 1,
                HealthAlert::EntitiesStuck => c.entities_stuck = c.entities_stuck + 1,
                HealthAlert::PopulationCrash => c.population_crash = c.population_crash + 1,
                HealthAlert::AiLoops => c.ai_loops = c.ai_loops + 1,
            }
            proof {
                let t1 = self.alerts@.take(i + 1);
                assert forall|a: HealthAlert| #[trigger] count_for(c, a) == count_of(t1, a) by {
                    assert(count_of(t1, a) == count_of(self.alerts@.take(i as int), a) + if r.alert_type == a { 1nat } else { 0nat });
                    assert(count_for(c0, a) == count_of(self.alerts@.take(i as int), a));
                    match a {
                        HealthAlert::TpsBelow10 => {},
                        HealthAlert::EntitiesStuck => {},
                        HealthAlert::PopulationCrash => {},
                        HealthAlert::AiLoops => {},
                    }
                }
            }
            i = i + 1;
        }
        proof {
            assert(self.alerts@.take(self.alerts@.len() as int) =~= self.alerts@);
        }
        c
    }

    /// Healthy: no alert at all, or none about ticks per second.
    pub fn is_healthy(&self) -> (b: bool)
        ensures
            b == (self.alerts_view().len() == 0 || latest_of(self.alerts_view(), HealthAlert::TpsBelow10) is None),
    {
        self.alerts.len() == 0 || self.get_latest_alert(HealthAlert::TpsBelow10).is_none()
    }

    /// Up to `n` alerts, newest first.
    pub fn recent_alerts(&self, n: usize) -> (r: Vec<AlertRecord>)
        ensures
            r.len() == if n < self.alerts_view().len() { n as int } else { self.alerts_view().len() as int },
            forall|i: int| 0 <= i < r.len() ==> #[trigger] r@[i] == self.alerts_view()[self.alerts_view().len() - 1 - i],
    {
        let len = self.alerts.len();
        let m = if n < len { n } else { len };
        let mut out: Vec<AlertRecord> = Vec::new();
        let mut i: usize = 0;
        while i < m
            invariant
                0 <= i <= m <= len,
                len == self.alerts@.len(),
                out.len() == i,
                forall|j: int| 0 <= j < i ==> #[trigger] out@[j] == self.alerts@[len - 1 - j],
            decreases m - i,
        {
            out.push(self.alerts[len - 1 - i]);
            i = i + 1;
        }
        out
    }

    /// Number of creatures tracked.
    pub fn entity_state_count(&self) -> (n: usize)
        ensures
            n == self.states_view().len(),
    {
        self.entity_states.len()
    }

    /// Number of population history entries.
    pub fn population_history_len(&self) -> (n: usize)
        ensures
            n == self.history_view().len(),
    {
        self.population_history.len()
    }
}

impl Default for HealthChecker {
    fn default() -> (c: HealthChecker)
        ensures
            c.alerts_view() == Seq::<AlertRecord>::empty(),
            c.states_view() == Map::<u32, EntityHealthState>::empty(),
            c.history_view() == Seq::<(u64, u32)>::empty(),
    {
        HealthChecker::new()
    }
}

} // verus!
