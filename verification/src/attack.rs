//! Shooting: the attack state machine (aim, shoot, cool down), the order in which
//! reachable targets are considered, and which layers can stand between a shooter and a
//! target.

use vstd::prelude::*;
use crate::layer::Layer;
use crate::timer::FrameTimer;

verus! {

/// Time to aim before a shot, in nanoseconds.
pub const ATTACK_TIME_NANOS: u64 = 100_000_000;

/// Pause after a shot before the next attack, in nanoseconds.
pub const COOLDOWN_TIME_NANOS: u64 = 100_000_000;

/// Whether the character is told to attack.
#[derive(Clone, Copy, Debug, PartialEq, Eq, Structural)]
pub enum AttackInput {
    Idle,
    Attack,
}

impl Default for AttackInput {
    fn default() -> (r: AttackInput)
        ensures
            r == AttackInput::Idle,
    {
        AttackInput::Idle
    }
}

impl AttackInput {
    /// Is the character attacking right now?
    pub fn is_attacking(&self) -> (r: bool)
        ensures
            r == (*self == AttackInput::Attack),
    {
        match self {
            AttackInput::Attack => true,
            AttackInput::Idle => false,
        }
    }
}

/// Phase of an attack.
#[derive(Clone, Copy, Debug, PartialEq, Eq, Structural)]
pub enum AttackState {
    /// Ready to attack.
    Idle,
    /// Aiming; the shot goes off when the timer finishes.
    Attack(FrameTimer),
    /// Pause before the next attack.
    Cooldown(FrameTimer),
}

/// The attack of a character.
#[derive(Clone, Copy, Debug, PartialEq, Eq, Structural)]
pub struct Attack {
    state: AttackState,
}

impl View for Attack {
    type V = AttackState;

    closed spec fn view(&self) -> AttackState {
        self.state
    }
}

/// One decision of the attack state machine: the next phase, and whether a shot is fired
/// now. A ready character starts aiming when told to attack; an aiming character shoots
/// when its aiming timer has finished and then cools down; a cooling character becomes
/// ready when its cooldown timer has finished.
pub open spec fn attack_step(s: AttackState, attacking: bool) -> (AttackState, bool) {
    match s {
        AttackState::Idle => if attacking {
            (AttackState::Attack(FrameTimer::new_spec(ATTACK_TIME_NANOS, false)), false)
        } else {
            (s, false)
        },
        AttackState::Attack(timer) => if timer.finished {
            (AttackState::Cooldown(FrameTimer::new_spec(COOLDOWN_TIME_NANOS, false)), true)
        } else {
            (s, false)
        },
        AttackState::Cooldown(timer) => if timer.finished {
            (AttackState::Idle, false)
        } else {
            (s, false)
        },
    }
}

/// A shot is fired only by an aiming character whose aiming timer has finished, and it is
/// always followed by a fresh cooldown; a ready or cooling character never shoots.
pub proof fn lemma_shot_only_after_aiming(s: AttackState, attacking: bool)
    ensures
        attack_step(s, attacking).1 ==> (s matches AttackState::Attack(timer) && timer.finished)
            && attack_step(s, attacking).0 == AttackState::Cooldown(
            FrameTimer::new_spec(COOLDOWN_TIME_NANOS, false),
        ),
        s is Idle || s is Cooldown ==> !attack_step(s, attacking).1,
{
}

/// Once aiming has started it runs its course whatever the input: until the aiming timer
/// finishes a decision changes nothing and fires nothing, and when it has finished the shot
/// goes off even if the attack key was released.
pub proof fn lemma_aim_ignores_input(t: FrameTimer, attacking: bool)
    ensures
        !t.finished ==> attack_step(AttackState::Attack(t), attacking) == (AttackState::Attack(t), false),
        t.finished ==> attack_step(AttackState::Attack(t), attacking) == (
            AttackState::Cooldown(
                FrameTimer { duration: COOLDOWN_TIME_NANOS, elapsed: 0, repeating: false, finished: false },
            ),
            true,
        ),
        attack_step(AttackState::Attack(t), attacking) == attack_step(AttackState::Attack(t), !attacking),
{
}

/// A ready character starts aiming, with a fresh aiming timer, exactly when told to attack,
/// and fires nothing then; a cooling character ignores the input, fires nothing, and becomes
/// ready exactly when its cooldown timer has finished.
pub proof fn lemma_ready_and_cooling(t: FrameTimer, attacking: bool)
    ensures
        attack_step(AttackState::Idle, attacking) == if attacking {
            (
                AttackState::Attack(
                    FrameTimer { duration: ATTACK_TIME_NANOS, elapsed: 0, repeating: false, finished: false },
                ),
                false,
            )
        } else {
            (AttackState::Idle, false)
        },
        !attack_step(AttackState::Cooldown(t), attacking).1,
        attack_step(AttackState::Cooldown(t), attacking).0 == if t.finished {
            AttackState::Idle
        } else {
            AttackState::Cooldown(t)
        },
{
}

/// What a tick of `delta` nanoseconds makes of the attack's timers.
pub open spec fn attack_tick(s: AttackState, delta: u64) -> AttackState {
    match s {
        AttackState::Idle => s,
        AttackState::Attack(timer) => AttackState::Attack(timer.after_tick(delta)),
        AttackState::Cooldown(timer) => AttackState::Cooldown(timer.after_tick(delta)),
    }
}

/// What happens to an attack: a tick of some nanoseconds, or a decision with whether the
/// character is told to attack.
pub enum AttackEvent {
    Tick(u64),
    Decide(bool),
}

/// The nanoseconds ticked from `s` through `events` up to the first shot, or `None` when
/// no decision among them fires one.
pub open spec fn time_to_shot(s: AttackState, events: Seq<AttackEvent>) -> Option<int>
    decreases events.len(),
{
    if events.len() == 0 {
        None
    } else {
        match events[0] {
            AttackEvent::Tick(d) => match time_to_shot(attack_tick(s, d), events.drop_first()) {
                Some(x) => Some(x + d),
                None => None,
            },
            AttackEvent::Decide(b) => if attack_step(s, b).1 {
                Some(0)
            } else {
                time_to_shot(attack_step(s, b).0, events.drop_first())
            },
        }
    }
}

/// A phase that the attack can be in: its timer is a one-shot timer of the phase's
/// duration, finished exactly when its elapsed time has reached that duration.
spec fn phase_ok(s: AttackState) -> bool {
    match s {
        AttackState::Idle => true,
        AttackState::Attack(t) => !t.repeating && t.duration == ATTACK_TIME_NANOS && t.elapsed
            <= t.duration && (t.finished <==> t.elapsed == t.duration),
        AttackState::Cooldown(t) => !t.repeating && t.duration == COOLDOWN_TIME_NANOS
            && t.elapsed <= t.duration && (t.finished <==> t.elapsed == t.duration),
    }
}

/// The ticked time that must still pass before the next shot can be fired.
spec fn time_needed(s: AttackState) -> int {
    match s {
        AttackState::Idle => ATTACK_TIME_NANOS as int,
        AttackState::Attack(t) => t.duration - t.elapsed,
        AttackState::Cooldown(t) => t.duration - t.elapsed + ATTACK_TIME_NANOS,
    }
}

/// From a phase that the attack can be in, no shot comes before the needed time has been
/// ticked.
proof fn lemma_time_needed(s: AttackState, events: Seq<AttackEvent>)
    requires
        phase_ok(s),
    ensures
        time_to_shot(s, events) matches Some(x) ==> x >= time_needed(s),
    decreases events.len(),
{
    if events.len() > 0 {
        match events[0] {
            AttackEvent::Tick(d) => {
                lemma_time_needed(attack_tick(s, d), events.drop_first());
            },
            AttackEvent::Decide(b) => {
                if !attack_step(s, b).1 {
                    lemma_time_needed(attack_step(s, b).0, events.drop_first());
                }
            },
        }
    }
}

/// Two shots are at least the aiming time plus the cooldown time of ticked time apart:
/// after a shot the attack cools down, and whatever happens next, the following shot comes
/// only after that much time has been ticked.
pub proof fn lemma_shots_apart(events: Seq<AttackEvent>)
    ensures
        time_to_shot(AttackState::Cooldown(FrameTimer::new_spec(COOLDOWN_TIME_NANOS, false)), events)
            matches Some(x) ==> x >= ATTACK_TIME_NANOS + COOLDOWN_TIME_NANOS,
{
    lemma_time_needed(AttackState::Cooldown(FrameTimer::new_spec(COOLDOWN_TIME_NANOS, false)), events);
}

impl Default for Attack {
    /// Ready to attack.
    fn default() -> (r: Attack)
        ensures
            r@ == AttackState::Idle,
    {
        Attack { state: AttackState::Idle }
    }
}

impl Attack {
    /// The current phase.
    pub fn state(&self) -> (r: AttackState)
        ensures
            r == self@,
    {
        self.state
    }

    /// Advances the running timer, if any, by `delta` nanoseconds.
    pub fn tick(&mut self, delta: u64)
        ensures
            final(self)@ == attack_tick(old(self)@, delta),
    {
        match self.state {
            AttackState::Idle => {},
            AttackState::Attack(timer) => {
                let mut t = timer;
                t.tick(delta);
                self.state = AttackState::Attack(t);
            },
            AttackState::Cooldown(timer) => {
                let mut t = timer;
                t.tick(delta);
                self.state = AttackState::Cooldown(t);
            },
        }
    }

    /// Takes one decision with the character's attack input; returns whether a shot is
    /// fired now.
    pub fn step(&mut self, input: &AttackInput) -> (shoot: bool)
        ensures
            (final(self)@, shoot) == attack_step(old(self)@, *input == AttackInput::Attack),
    {
        match self.state {
            AttackState::Idle => {
                if !input.is_attacking() {
                    return false;
                }
                self.state = AttackState::Attack(FrameTimer::new(ATTACK_TIME_NANOS, false));
                false
            },
            AttackState::Attack(timer) => {
                if !timer.is_finished() {
                    return false;
                }
                self.state = AttackState::Cooldown(FrameTimer::new(COOLDOWN_TIME_NANOS, false));
                true
            },
            AttackState::Cooldown(timer) => {
                if timer.is_finished() {
                    self.state = AttackState::Idle;
                }
                false
            },
        }
    }
}

/// The indexes among the first `n` flags whose flag is `want`, in order.
pub open spec fn indices_where(flags: Seq<bool>, want: bool, n: int) -> Seq<usize>
    decreases n,
{
    if n <= 0 {
        seq![]
    } else {
        indices_where(flags, want, n - 1) + if flags[n - 1] == want {
            seq![(n - 1) as usize]
        } else {
            seq![]
        }
    }
}

/// The indexes listed for the first `n` flags with flag `want` are below `n`, have that flag,
/// increase, and include every such index.
proof fn lemma_indices_where(flags: Seq<bool>, want: bool, n: int)
    requires
        0 <= n <= flags.len(),
        flags.len() <= usize::MAX,
    ensures
        forall|k: int|
            0 <= k < indices_where(flags, want, n).len() ==> (#[trigger] indices_where(flags, want, n)[k])
                < n && flags[indices_where(flags, want, n)[k] as int] == want,
        forall|k1: int, k2: int|
            0 <= k1 < k2 < indices_where(flags, want, n).len() ==> #[trigger] indices_where(
                flags,
                want,
                n,
            )[k1] < #[trigger] indices_where(flags, want, n)[k2],
        forall|i: int|
            0 <= i < n && flags[i] == want ==> #[trigger] indices_where(flags, want, n).contains(
                i as usize,
            ),
        indices_where(flags, want, n).len() + indices_where(flags, !want, n).len() == n,
    decreases n,
{
    if n > 0 {
        lemma_indices_where(flags, want, n - 1);
        let w = indices_where(flags, want, n - 1);
        let w2 = indices_where(flags, !want, n - 1);
        let e: Seq<usize> = if flags[n - 1] == want {
            seq![(n - 1) as usize]
        } else {
            seq![]
        };
        let e2: Seq<usize> = if flags[n - 1] == !want {
            seq![(n - 1) as usize]
        } else {
            seq![]
        };
        assert(indices_where(flags, want, n) == w + e);
        assert(indices_where(flags, !want, n) == w2 + e2);
        let r = w + e;
        assert forall|k: int| 0 <= k < r.len() implies (#[trigger] r[k]) < n && flags[r[k] as int]
            == want by {
            if k >= w.len() {
                assert(r[k] == e[k - w.len()]);
            } else {
                assert(r[k] == w[k]);
            }
        }
        assert forall|k1: int, k2: int| 0 <= k1 < k2 < r.len() implies #[trigger] r[k1]
            < #[trigger] r[k2] by {
            assert(r[k1] == w[k1]);
            if k2 >= w.len() {
                assert(r[k2] == e[k2 - w.len()]);
            } else {
                assert(r[k2] == w[k2]);
            }
        }
        assert forall|i: int| 0 <= i < n && flags[i] == want implies #[trigger] r.contains(
            i as usize,
        ) by {
            if i < n - 1 {
                assert(w.contains(i as usize));
                let j = choose|j: int| 0 <= j < w.len() && w[j] == i as usize;
                assert(r[j] == w[j]);
            } else {
                assert(r[w.len() as int] == (n - 1) as usize);
            }
        }
    }
}

/// The order of `prioritize_hits` is a reordering of all the targets' indexes that puts
/// every character before every other object and keeps the original order (nearest first)
/// among characters and among other objects.
pub proof fn lemma_prioritize_order(flags: Seq<bool>)
    requires
        flags.len() <= usize::MAX,
    ensures
        ({
            let n = flags.len() as int;
            let order = indices_where(flags, true, n) + indices_where(flags, false, n);
            &&& order.len() == n
            &&& forall|k: int| 0 <= k < n ==> (#[trigger] order[k]) < n
            &&& forall|i: int| 0 <= i < n ==> #[trigger] order.contains(i as usize)
            &&& forall|k1: int, k2: int|
                0 <= k1 < k2 < n ==> flags[#[trigger] order[k1] as int] || !flags[#[trigger] order[k2] as int]
            &&& forall|k1: int, k2: int|
                0 <= k1 < k2 < n && flags[#[trigger] order[k1] as int] == flags[#[trigger] order[k2] as int]
                    ==> order[k1] < order[k2]
        }),
{
    let n = flags.len() as int;
    lemma_indices_where(flags, true, n);
    lemma_indices_where(flags, false, n);
    let a = indices_where(flags, true, n);
    let b = indices_where(flags, false, n);
    let order = a + b;
    assert forall|k: int| 0 <= k < n implies (#[trigger] order[k]) < n && flags[order[k] as int]
        == (k < a.len()) by {
        if k < a.len() {
            assert(order[k] == a[k]);
        } else {
            assert(order[k] == b[k - a.len()]);
        }
    }
    assert forall|i: int| 0 <= i < n implies #[trigger] order.contains(i as usize) by {
        if flags[i] {
            assert(a.contains(i as usize));
            let j = choose|j: int| 0 <= j < a.len() && a[j] == i as usize;
            assert(order[j] == a[j]);
        } else {
            assert(b.contains(i as usize));
            let j = choose|j: int| 0 <= j < b.len() && b[j] == i as usize;
            assert(order[a.len() + j] == b[j]);
        }
    }
    assert forall|k1: int, k2: int|
        0 <= k1 < k2 < n && flags[#[trigger] order[k1] as int] == flags[#[trigger] order[k2] as int]
            implies order[k1] < order[k2] by {
        if k2 < a.len() {
            assert(order[k1] == a[k1] && order[k2] == a[k2]);
        } else if k1 >= a.len() {
            assert(order[k1] == b[k1 - a.len()] && order[k2] == b[k2 - a.len()]);
        }
    }
}

/// The order in which the reachable targets are tried, given which of them are characters:
/// characters first, then the other objects, each group in its original order (nearest
/// first).
pub fn prioritize_hits(is_character: &Vec<bool>) -> (order: Vec<usize>)
    ensures
        order@ == indices_where(is_character@, true, is_character@.len() as int) + indices_where(
            is_character@,
            false,
            is_character@.len() as int,
        ),
{
    let n = is_character.len();
    let mut characters: Vec<usize> = Vec::new();
    let mut others: Vec<usize> = Vec::new();
    let mut i: usize = 0;
    while i < n
        invariant
            n == is_character@.len(),
            i <= n,
            characters@ == indices_where(is_character@, true, i as int),
            others@ == indices_where(is_character@, false, i as int),
        decreases n - i,
    {
        if is_character[i] {
            characters.push(i);
        } else {
            others.push(i);
        }
        i = i + 1;
        assert(characters@ =~= indices_where(is_character@, true, i as int));
        assert(others@ =~= indices_where(is_character@, false, i as int));
    }
    characters.append(&mut others);
    characters
}

/// The mask of the layers strictly between layers `a` and `b`.
pub open spec fn between_mask(a: u32, b: u32) -> u32 {
    let low = if a < b { a } else { b };
    let high = if a < b { b } else { a };
    (((1u32 << ((high - low - 1) as u32)) - 1u32) as u32) << ((low + 1) as u32)
}

/// The mask of the layers that lie strictly between the shooter's layer `src` and the
/// target's layer `dst`, where an obstacle could stand in the way; `None` when the layers
/// are the same or neighbours, so that nothing can stand between them.
pub fn obstruction_mask(src: &Layer, dst: &Layer) -> (r: Option<u32>)
    ensures
        ({
            let a = src.spec_id();
            let b = dst.spec_id();
            let low = if a < b { a } else { b };
            let high = if a < b { b } else { a };
            &&& r is None <==> high <= low + 1
            &&& r matches Some(m) ==> m == between_mask(a, b) && forall|i: u32|
                i < 32 ==> (((m >> i) & 1u32) == 1u32 <==> low < i < high)
        }),
{
    let src_id = src.id();
    let dst_id = dst.id();
    if dst_id == src_id {
        return None;
    }
    let low = if dst_id > src_id { src_id } else { dst_id };
    let high = if dst_id > src_id { dst_id } else { src_id };
    let depth = high - low - 1;
    if depth == 0 {
        return None;
    }
    assert(1u32 << depth >= 1u32) by (bit_vector)
        requires
            depth < 32,
    ;
    let m = ((1u32 << depth) - 1) << (low + 1);
    proof {
        assert(forall|i: u32|
            i < 32 ==> ((#[trigger] (m >> i) & 1u32) == 1u32 <==> low + 1 <= i < low + 1 + depth))
            by (bit_vector)
            requires
                m == (((1u32 << depth) - 1u32) as u32) << ((low + 1) as u32),
                1 <= depth,
                low + 1 + depth <= 32,
        ;
    }
    Some(m)
}

} // verus!
