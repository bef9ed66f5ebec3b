//! Sprite animation of a character: which frames to show for its movement and attack state,
//! and when to move on to the next frame.

use vstd::prelude::*;
use bevy::platform::collections::HashMap;
use bevy::platform::hash::FixedHasher;
use crate::timer::FrameTimer;

verus! {

#[verifier::external_type_specification]
#[verifier::external_body]
#[verifier::reject_recursive_types(K)]
#[verifier::reject_recursive_types(V)]
#[verifier::reject_recursive_types(S)]
pub struct ExHashMap<K, V, S>(HashMap<K, V, S>);

#[verifier::external_type_specification]
#[verifier::external_body]
pub struct ExFixedHasher(FixedHasher);

/// Frame duration and sprite indexes of each animation state, keyed by the state's code.
pub type FrameTable = HashMap<u8, FrameEntry, FixedHasher>;

/// Frame duration in nanoseconds and the frames' sprite indexes.
pub type FrameEntry = (u64, Vec<usize>);

/// What a frame table holds: for each animation state's code, the frame duration in
/// nanoseconds and the sprite indexes of the frames.
pub uninterp spec fn frame_table(m: FrameTable) -> Map<u8, (u64, Seq<usize>)>;

/// The table with no entries.
pub open spec fn empty_table() -> Map<u8, (u64, Seq<usize>)> {
    Map::empty()
}

/// An empty table, by `bevy::platform::collections::HashMap::new`.
#[verifier::external_body]
fn table_new() -> (r: FrameTable)
    ensures
        frame_table(r) == empty_table(),
{
    HashMap::new()
}

/// `HashMap::insert`: the key now maps to the value, replacing any earlier value.
#[verifier::external_body]
fn table_insert(m: &mut FrameTable, k: u8, v: FrameEntry)
    ensures
        frame_table(*final(m)) == frame_table(*old(m)).insert(k, (v.0, v.1@)),
{
    m.insert(k, v);
}

/// `HashMap::get`: the value of the key, if the key is present.
#[verifier::external_body]
fn table_get(m: &FrameTable, k: u8) -> (r: Option<&FrameEntry>)
    ensures
        r is Some <==> frame_table(*m).contains_key(k),
        r matches Some(e) ==> frame_table(*m)[k] == (e.0, e.1@),
{
    m.get(&k)
}

/// Whether the character stands or walks.
#[derive(Clone, Copy, Debug, PartialEq, Eq, Structural, Hash)]
pub enum MovementMode {
    Idle,
    Walking,
}

/// Whether the character fires.
#[derive(Clone, Copy, Debug, PartialEq, Eq, Structural, Hash)]
pub enum AttackMode {
    NoAttack,
    Firing,
}

/// The state that selects a character's animation.
#[derive(Clone, Copy, Debug, PartialEq, Eq, Structural, Hash)]
pub struct AnimationState {
    pub movement_mode: MovementMode,
    pub attack_mode: AttackMode,
}

/// The table key of a state.
pub open spec fn state_code(s: AnimationState) -> u8 {
    match (s.movement_mode, s.attack_mode) {
        (MovementMode::Idle, AttackMode::NoAttack) => 0u8,
        (MovementMode::Idle, AttackMode::Firing) => 1u8,
        (MovementMode::Walking, AttackMode::NoAttack) => 2u8,
        (MovementMode::Walking, AttackMode::Firing) => 3u8,
    }
}

impl Default for AnimationState {
    /// The default state: standing, not firing.
    fn default() -> (r: AnimationState)
        ensures
            r.movement_mode == MovementMode::Idle,
            r.attack_mode == AttackMode::NoAttack,
    {
        AnimationState { movement_mode: MovementMode::Idle, attack_mode: AttackMode::NoAttack }
    }
}

impl AnimationState {
    /// The table key of the state.
    fn code(&self) -> (r: u8)
        ensures
            r == state_code(*self),
    {
        let m: u8 = match self.movement_mode {
            MovementMode::Idle => 0,
            MovementMode::Walking => 2,
        };
        let a: u8 = match self.attack_mode {
            AttackMode::NoAttack => 0,
            AttackMode::Firing => 1,
        };
        m + a
    }
}

/// Different states have different codes.
pub proof fn lemma_state_code_injective(a: AnimationState, b: AnimationState)
    ensures
        state_code(a) == state_code(b) <==> a == b,
{
}

/// The animation of a character: its frame timer, the current frame's number, the current
/// state and the frames registered for each state.
pub struct Animation {
    timer: FrameTimer,
    frame_index: usize,
    state: AnimationState,
    config: FrameTable,
}

/// The mathematical content of an animation.
pub struct AnimationView {
    pub timer: FrameTimer,
    pub frame_index: nat,
    pub state: AnimationState,
    pub config: Map<u8, (u64, Seq<usize>)>,
}

impl View for Animation {
    type V = AnimationView;

    closed spec fn view(&self) -> AnimationView {
        AnimationView {
            timer: self.timer,
            frame_index: self.frame_index as nat,
            state: self.state,
            config: frame_table(self.config),
        }
    }
}

impl Default for Animation {
    /// An animation with no registered states, standing and not firing, at frame 0, with
    /// the default zero-length one-shot timer.
    fn default() -> (r: Animation)
        ensures
            r@.timer == FrameTimer::zero_spec(),
            r@.frame_index == 0,
            r@.state == (AnimationState { movement_mode: MovementMode::Idle, attack_mode: AttackMode::NoAttack }),
            r@.config == empty_table(),
    {
        Animation {
            timer: FrameTimer::zero(),
            frame_index: 0,
            state: AnimationState::default(),
            config: table_new(),
        }
    }
}

impl Animation {
    #[verifier::type_invariant]
    spec fn inv(self) -> bool {
        self.frame_index < usize::MAX
    }

    /// The frames registered for the animation's current state, if any.
    pub open spec fn current_frames(v: AnimationView) -> Option<Seq<usize>> {
        if v.config.contains_key(state_code(v.state)) {
            Some(v.config[state_code(v.state)].1)
        } else {
            None
        }
    }

    /// Registers the frames of a state: each frame shows for `duration` nanoseconds, and
    /// `frames` holds the frames' sprite indexes.
    pub fn register_state(self, state: AnimationState, duration: u64, frames: Vec<usize>) -> (r: Animation)
        ensures
            r@.timer == self@.timer,
            r@.frame_index == self@.frame_index,
            r@.state == self@.state,
            r@.config == self@.config.insert(state_code(state), (duration, frames@)),
    {
        proof {
            use_type_invariant(&self);
        }
        let k = state.code();
        let Animation { timer, frame_index, state: current, mut config } = self;
        table_insert(&mut config, k, (duration, frames));
        Animation { timer, frame_index, state: current, config }
    }

    /// Advances the frame timer by `delta` nanoseconds; when the timer finishes, moves to
    /// the next frame of the current state, wrapping around to the first.
    pub fn update(&mut self, delta: u64)
        requires
            old(self)@.timer.after_tick(delta).finished ==> (Self::current_frames(old(self)@) matches Some(
                frames,
            ) ==> frames.len() > 0),
        ensures
            final(self)@.timer == old(self)@.timer.after_tick(delta),
            final(self)@.state == old(self)@.state,
            final(self)@.config == old(self)@.config,
            final(self)@.frame_index == if final(self)@.timer.finished && Self::current_frames(
                old(self)@,
            ) is Some {
                ((old(self)@.frame_index + 1) % Self::current_frames(old(self)@)->0.len()) as nat
            } else {
                old(self)@.frame_index
            },
    {
        proof {
            use_type_invariant(&*self);
        }
        let mut timer = self.timer;
        timer.tick(delta);
        self.timer = timer;
        if !self.timer.is_finished() {
            return;
        }
        let k = self.state.code();
        match table_get(&self.config, k) {
            Some(entry) => {
                let len = entry.1.len();
                self.frame_index = (self.frame_index + 1) % len;
            },
            None => {},
        }
    }

    /// Switches to `state` when it differs from the current one and has registered frames:
    /// the frame timer restarts with the state's frame duration, and the frame number goes
    /// back to the first frame unless only the attack mode changed, so that a walking
    /// character keeps its step when it starts or stops firing.
    pub fn change_state(&mut self, state: AnimationState)
        ensures
            (old(self)@.state == state || !old(self)@.config.contains_key(state_code(state)))
                ==> final(self)@ == old(self)@,
            (old(self)@.state != state && old(self)@.config.contains_key(state_code(state))) ==> {
                &&& final(self)@.state == state
                &&& final(self)@.config == old(self)@.config
                &&& final(self)@.timer == FrameTimer::new_spec(
                    old(self)@.config[state_code(state)].0,
                    true,
                )
                &&& final(self)@.frame_index == if state.movement_mode != old(
                    self,
                )@.state.movement_mode {
                    0
                } else {
                    old(self)@.frame_index
                }
            },
    {
        proof {
            use_type_invariant(&*self);
        }
        if self.state == state {
            return;
        }
        let k = state.code();
        let duration = match table_get(&self.config, k) {
            Some(entry) => entry.0,
            None => {
                return;
            },
        };
        let old_state = self.state;
        self.state = state;
        if state.movement_mode != old_state.movement_mode {
            self.frame_index = 0;
        }
        self.timer = FrameTimer::new(duration, true);
    }

    /// Whether the frame changed on the last tick.
    pub fn has_changed(&self) -> (r: bool)
        ensures
            r == self@.timer.finished,
    {
        self.timer.is_finished()
    }

    /// The sprite index of the current frame: the current state's frame at the current
    /// frame number, or 0 when the state has no registered frames or no such frame.
    pub fn get_atlas_index(&self) -> (r: usize)
        ensures
            r == match Self::current_frames(self@) {
                Some(frames) => if self@.frame_index < frames.len() {
                    frames[self@.frame_index as int]
                } else {
                    0
                },
                None => 0,
            },
    {
        let k = self.state.code();
        match table_get(&self.config, k) {
            Some(entry) => {
                if self.frame_index < entry.1.len() {
                    entry.1[self.frame_index]
                } else {
                    0
                }
            },
            None => 0,
        }
    }
}

} // verus!
