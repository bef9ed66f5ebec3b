use korchevatel::animation::{Animation, AnimationState, AttackMode, MovementMode};
use korchevatel::attack::{
    obstruction_mask, prioritize_hits, Attack, AttackInput, AttackState, ATTACK_TIME_NANOS,
    COOLDOWN_TIME_NANOS,
};
use korchevatel::layer::Layer;
use korchevatel::timer::FrameTimer;

const MS: u64 = 1_000_000;

fn walking() -> AnimationState {
    AnimationState { movement_mode: MovementMode::Walking, attack_mode: AttackMode::NoAttack }
}

fn walking_firing() -> AnimationState {
    AnimationState { movement_mode: MovementMode::Walking, attack_mode: AttackMode::Firing }
}

fn idle() -> AnimationState {
    AnimationState::default()
}

#[test]
fn repeating_timer_wraps_around() {
    let mut t = FrameTimer::new(100, true);
    t.tick(90);
    assert_eq!((t.elapsed, t.finished), (90, false));
    t.tick(30);
    assert_eq!((t.elapsed, t.finished), (20, true));
    t.tick(10);
    assert_eq!((t.elapsed, t.finished), (30, false));
    t.tick(250);
    assert_eq!((t.elapsed, t.finished), (80, true));
}

#[test]
fn once_timer_stays_finished() {
    let mut t = FrameTimer::new(100, false);
    t.tick(60);
    assert_eq!((t.elapsed, t.finished), (60, false));
    t.tick(60);
    assert_eq!((t.elapsed, t.finished), (100, true));
    t.tick(60);
    assert_eq!((t.elapsed, t.finished), (100, true));
}

#[test]
fn zero_timer_finishes_on_first_tick() {
    let mut t = FrameTimer::zero();
    assert!(!t.is_finished());
    t.tick(5);
    assert!(t.is_finished());
    assert_eq!(t.elapsed, 0);
}

#[test]
fn animation_cycles_frames_of_current_state() {
    let mut a = Animation::default()
        .register_state(idle(), 100 * MS, vec![7, 8])
        .register_state(walking(), 50 * MS, vec![1, 2, 3]);
    // The default timer is a zero-length one-shot timer: it finishes on the first tick.
    a.update(MS);
    assert!(a.has_changed());
    assert_eq!(a.get_atlas_index(), 8);

    a.change_state(walking());
    assert_eq!(a.get_atlas_index(), 1);
    a.update(20 * MS);
    assert!(!a.has_changed());
    assert_eq!(a.get_atlas_index(), 1);
    a.update(30 * MS);
    assert!(a.has_changed());
    assert_eq!(a.get_atlas_index(), 2);
    a.update(50 * MS);
    assert_eq!(a.get_atlas_index(), 3);
    a.update(50 * MS);
    assert_eq!(a.get_atlas_index(), 1);
}

#[test]
fn animation_keeps_step_when_only_attack_changes() {
    let mut a = Animation::default()
        .register_state(walking(), 50 * MS, vec![1, 2, 3])
        .register_state(walking_firing(), 50 * MS, vec![11, 12, 13]);
    a.change_state(walking());
    a.update(50 * MS);
    assert_eq!(a.get_atlas_index(), 2);
    a.change_state(walking_firing());
    assert_eq!(a.get_atlas_index(), 12);
    assert!(!a.has_changed());
}

#[test]
fn animation_ignores_unregistered_state() {
    let mut a = Animation::default().register_state(idle(), 100 * MS, vec![4, 5]);
    a.update(MS);
    assert_eq!(a.get_atlas_index(), 5);
    a.change_state(walking());
    assert_eq!(a.get_atlas_index(), 5);
}

#[test]
fn animation_without_frames_shows_sprite_zero() {
    let a = Animation::default();
    assert_eq!(a.get_atlas_index(), 0);
}

#[test]
fn attack_aims_shoots_and_cools_down() {
    let mut attack = Attack::default();
    assert_eq!(attack.state(), AttackState::Idle);
    assert!(!attack.step(&AttackInput::Idle));
    assert_eq!(attack.state(), AttackState::Idle);

    assert!(!attack.step(&AttackInput::Attack));
    assert!(matches!(attack.state(), AttackState::Attack(_)));

    attack.tick(ATTACK_TIME_NANOS / 2);
    assert!(!attack.step(&AttackInput::Attack));
    attack.tick(ATTACK_TIME_NANOS / 2);
    assert!(attack.step(&AttackInput::Idle));
    assert!(matches!(attack.state(), AttackState::Cooldown(_)));

    assert!(!attack.step(&AttackInput::Attack));
    attack.tick(COOLDOWN_TIME_NANOS);
    assert!(!attack.step(&AttackInput::Attack));
    assert_eq!(attack.state(), AttackState::Idle);
}

#[test]
fn attack_input_reports_attacking() {
    assert!(AttackInput::Attack.is_attacking());
    assert!(!AttackInput::Idle.is_attacking());
    assert_eq!(AttackInput::default(), AttackInput::Idle);
}

#[test]
fn characters_are_tried_first() {
    assert_eq!(prioritize_hits(&vec![false, true, false, true]), vec![1, 3, 0, 2]);
    assert_eq!(prioritize_hits(&vec![]), Vec::<usize>::new());
    assert_eq!(prioritize_hits(&vec![false, false]), vec![0, 1]);
}

#[test]
fn obstruction_mask_covers_layers_between() {
    assert_eq!(obstruction_mask(&Layer::new(3), &Layer::new(3)), None);
    assert_eq!(obstruction_mask(&Layer::new(3), &Layer::new(4)), None);
    assert_eq!(obstruction_mask(&Layer::new(4), &Layer::new(3)), None);
    assert_eq!(obstruction_mask(&Layer::new(1), &Layer::new(3)), Some(0b100));
    assert_eq!(obstruction_mask(&Layer::new(3), &Layer::new(6)), Some(0b110000));
    assert_eq!(obstruction_mask(&Layer::new(6), &Layer::new(3)), Some(0b110000));
}

#[test]
fn shots_are_apart_by_aim_and_cooldown() {
    let mut attack = Attack::default();
    let frame: u64 = 10_000_000;
    let mut shots: Vec<u64> = Vec::new();
    let mut ticked: u64 = 0;
    for _ in 0..100 {
        attack.tick(frame);
        ticked += frame;
        if attack.step(&AttackInput::Attack) {
            shots.push(ticked);
        }
    }
    assert!(shots.len() >= 3);
    for pair in shots.windows(2) {
        assert!(pair[1] - pair[0] >= ATTACK_TIME_NANOS + COOLDOWN_TIME_NANOS);
    }
}
