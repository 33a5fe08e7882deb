use evo::pods::runtime::{decide, refresh, PodCommand, PodError, PodFacts, PodVerb, RuntimeState};

fn pods() -> Vec<PodFacts> {
    vec![
        PodFacts { id: 7, name: "work".into(), surfaces_empty: false, debt: vec![] },
        PodFacts { id: 8, name: "empty".into(), surfaces_empty: true, debt: vec![] },
        PodFacts { id: 9, name: "drafts".into(), surfaces_empty: false, debt: vec!["notes.md".into(), "draft".into()] },
    ]
}

const IDLE: RuntimeState = RuntimeState { active: None, leased: false };

#[test]
fn enter_books_a_lease_and_double_enter_refuses() {
    let step = decide(IDLE, &pods(), PodCommand::Enter(0));
    assert_eq!(step.verbs, vec![PodVerb::Enter(0)]);
    assert_eq!(step.refusal, None);
    assert_eq!(step.next, RuntimeState { active: Some(0), leased: true });
    let again = decide(step.next, &pods(), PodCommand::Enter(2));
    assert!(again.verbs.is_empty());
    assert_eq!(again.refusal, Some(PodError::AlreadyActive { pod: "work".into() }));
    assert_eq!(again.next, step.next);
}

#[test]
fn empty_pod_and_missing_pod_refuse_to_enter() {
    assert_eq!(decide(IDLE, &pods(), PodCommand::Enter(1)).refusal, Some(PodError::EmptySurface));
    assert_eq!(decide(IDLE, &pods(), PodCommand::Enter(3)).refusal, Some(PodError::NoSuchPod));
}

#[test]
fn leave_replays_the_lease_or_refuses() {
    let active = RuntimeState { active: Some(0), leased: true };
    let step = decide(active, &pods(), PodCommand::Leave);
    assert_eq!(step.verbs, vec![PodVerb::Leave]);
    assert_eq!(step.next, IDLE);
    assert_eq!(decide(IDLE, &pods(), PodCommand::Leave).refusal, Some(PodError::NothingActive));
}

#[test]
fn switch_leaves_then_enters_and_cycle_wraps() {
    let active = RuntimeState { active: Some(2), leased: true };
    let step = decide(active, &pods(), PodCommand::Switch(0));
    assert_eq!(step.verbs, vec![PodVerb::Leave, PodVerb::Enter(0)]);
    assert_eq!(step.next, RuntimeState { active: Some(0), leased: true });
    let cycled = decide(active, &pods(), PodCommand::Cycle);
    assert_eq!(cycled.verbs, vec![PodVerb::Leave, PodVerb::Enter(0)]);
    assert_eq!(decide(IDLE, &[], PodCommand::Cycle).refusal, Some(PodError::NoSuchPod));
}

#[test]
fn mothball_refuses_while_unsaved_work_would_be_eaten_unless_forced() {
    let refused = decide(IDLE, &pods(), PodCommand::Mothball { index: 2, force: false });
    assert_eq!(
        refused.refusal,
        Some(PodError::UnsafeMothball { subjects: vec!["notes.md".into(), "draft".into()] })
    );
    assert!(refused.verbs.is_empty());
    let active = RuntimeState { active: Some(2), leased: true };
    let forced = decide(active, &pods(), PodCommand::Mothball { index: 2, force: true });
    assert_eq!(forced.verbs, vec![PodVerb::Leave, PodVerb::Mothball(2)]);
    assert_eq!(forced.next, IDLE);
}

#[test]
fn refresh_keeps_active_by_id_across_reordering() {
    let active = RuntimeState { active: Some(0), leased: true };
    let kept = refresh(active, &[7, 8, 9], &[9, 7, 8]);
    assert!(kept.verbs.is_empty());
    assert_eq!(kept.next, RuntimeState { active: Some(1), leased: true });
    let gone = refresh(active, &[7, 8, 9], &[8, 9]);
    assert_eq!(gone.verbs, vec![PodVerb::Leave]);
    assert_eq!(gone.next, IDLE);
}
