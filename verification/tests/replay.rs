use evo::observation::evidence::{Evidence, FactValue, ObservedFact};
use evo::observation::observation::{Observation, ObservationId};
use evo::observation::provenance::{ObservationSource, Provenance};
use evo::observation::schema::ObservationSchema;
use evo::replay::corpus::{CorpusError, ReplayCorpus};
use evo::replay::replay::replay;
use std::cell::RefCell;
use std::collections::HashMap;
use std::time::SystemTime;

/// A stand-in artifact: the artifact history is carried, never read.
type Artifact = String;

fn make_observation() -> Observation {
    let id = ObservationId::new();
    let schema = ObservationSchema::new("test-schema", 1).unwrap();
    let source = ObservationSource::new("test-source").unwrap();
    let provenance = Provenance::new(source, SystemTime::now(), HashMap::new());
    let fact = ObservedFact::new("key", FactValue::Text("value".into())).unwrap();
    let evidence = Evidence::new(vec![fact]);
    Observation::new(id, schema, provenance, evidence)
}

fn make_artifact() -> Artifact {
    "test-artifact".to_string()
}

#[test]
fn corpus_constructs_successfully_with_valid_inputs() {
    let observations = vec![make_observation()];
    let artifacts = vec![make_artifact()];
    assert!(ReplayCorpus::new(observations, artifacts).is_ok());
}

#[test]
fn corpus_rejects_empty_observations() {
    let result = ReplayCorpus::new(vec![], vec![make_artifact()]);
    assert!(matches!(result, Err(CorpusError::EmptyObservations)));
}

#[test]
fn corpus_rejects_empty_artifacts() {
    let result: Result<ReplayCorpus<Artifact>, CorpusError> = ReplayCorpus::new(vec![make_observation()], vec![]);
    assert!(matches!(result, Err(CorpusError::EmptyArtifacts)));
}

#[test]
fn corpus_observations_returns_observations_in_supplied_order() {
    let o1 = make_observation();
    let o2 = make_observation();
    let corpus = ReplayCorpus::new(vec![o1.clone(), o2.clone()], vec![make_artifact()]).unwrap();
    assert_eq!(corpus.observations()[0], o1);
    assert_eq!(corpus.observations()[1], o2);
}

#[test]
fn corpus_artifacts_returns_all_artifacts() {
    let a1 = make_artifact();
    let corpus = ReplayCorpus::new(vec![make_observation()], vec![a1.clone()]).unwrap();
    assert_eq!(corpus.artifacts().len(), 1);
    assert_eq!(corpus.artifacts()[0], a1);
}

#[test]
fn corpus_error_empty_observations_displays_message() {
    let msg = CorpusError::EmptyObservations.to_string();
    assert!(!msg.is_empty());
    assert!(msg.contains("Observation"));
}

#[test]
fn corpus_error_empty_artifacts_displays_message() {
    let msg = CorpusError::EmptyArtifacts.to_string();
    assert!(!msg.is_empty());
    assert!(msg.contains("Artifact"));
}

#[test]
fn corpus_error_implements_std_error() {
    // Every refusal carries a human-readable message.
    for e in [CorpusError::EmptyObservations, CorpusError::EmptyArtifacts] {
        assert!(e.to_string().starts_with("replay corpus must contain at least one canonical "));
    }
}

#[test]
fn corpus_clone_produces_equal_length_slices() {
    let corpus = ReplayCorpus::new(vec![make_observation()], vec![make_artifact()]).unwrap();
    let cloned = corpus.clone();
    assert_eq!(corpus.observations().len(), cloned.observations().len());
    assert_eq!(corpus.artifacts().len(), cloned.artifacts().len());
}

// ── replay ────────────────────────────────────────────────────────────────

fn corpus_of(n: usize) -> (ReplayCorpus<Artifact>, Vec<ObservationId>) {
    let observations: Vec<Observation> = (0..n).map(|_| make_observation()).collect();
    let ids = observations.iter().map(|o| *o.id()).collect();
    (ReplayCorpus::new(observations, vec![make_artifact(), "second".to_string()]).unwrap(), ids)
}

#[test]
fn replay_returns_workspace_for_single_observation() {
    let (corpus, ids) = corpus_of(1);
    let result = replay(&corpus, |o: &Observation, _: &[Artifact], prev: Option<Vec<ObservationId>>| {
        let mut seen = prev.unwrap_or_default();
        seen.push(*o.id());
        seen
    });
    assert_eq!(result, ids);
}

#[test]
fn replay_calls_formation_once_per_observation() {
    let (corpus, _) = corpus_of(4);
    let calls = RefCell::new(0usize);
    let _ = replay(&corpus, |_: &Observation, _: &[Artifact], _: Option<()>| {
        *calls.borrow_mut() += 1;
    });
    assert_eq!(*calls.borrow(), 4);
}

#[test]
fn replay_presents_observations_in_canonical_order() {
    let (corpus, ids) = corpus_of(3);
    let order = replay(&corpus, |o: &Observation, _: &[Artifact], prev: Option<Vec<ObservationId>>| {
        let mut seen = prev.unwrap_or_default();
        seen.push(*o.id());
        seen
    });
    assert_eq!(order, ids);
}

#[test]
fn replay_passes_artifacts_to_every_formation_invocation() {
    let (corpus, _) = corpus_of(3);
    let counts = replay(&corpus, |_: &Observation, a: &[Artifact], prev: Option<Vec<usize>>| {
        let mut seen = prev.unwrap_or_default();
        seen.push(a.len());
        seen
    });
    assert_eq!(counts, vec![2, 2, 2]);
}

#[test]
fn replay_passes_none_as_initial_workspace_for_first_observation() {
    let (corpus, _) = corpus_of(3);
    let firsts = replay(&corpus, |_: &Observation, _: &[Artifact], prev: Option<Vec<bool>>| match prev {
        None => vec![true],
        Some(mut v) => {
            v.push(false);
            v
        }
    });
    assert_eq!(firsts, vec![true, false, false]);
}

#[test]
fn replay_is_deterministic_given_identical_inputs() {
    let (corpus, _) = corpus_of(5);
    let f = |o: &Observation, _: &[Artifact], prev: Option<Vec<ObservationId>>| {
        let mut seen = prev.unwrap_or_default();
        seen.push(*o.id());
        seen
    };
    assert_eq!(replay(&corpus, f), replay(&corpus, f));
}

#[test]
fn replay_does_not_modify_corpus_observations() {
    let (corpus, ids) = corpus_of(2);
    let _ = replay(&corpus, |_: &Observation, _: &[Artifact], _: Option<()>| ());
    let after: Vec<ObservationId> = corpus.observations().iter().map(|o| *o.id()).collect();
    assert_eq!(after, ids);
    assert_eq!(corpus.artifacts().len(), 2);
}

#[test]
fn replay_does_not_skip_any_observation() {
    let n = 10usize;
    let observations: Vec<Observation> = (0..n).map(|_| make_observation()).collect();
    let corpus = ReplayCorpus::new(observations, vec![make_artifact()]).unwrap();
    let counter = std::sync::Arc::new(std::sync::Mutex::new(0usize));
    let c = counter.clone();
    replay(&corpus, move |_: &Observation, _: &[Artifact], _: Option<()>| {
        *c.lock().unwrap() += 1;
    });
    assert_eq!(*counter.lock().unwrap(), n);
}

#[test]
fn replay_passes_formation_result_as_current_workspace_to_next_observation() {
    let corpus = ReplayCorpus::new(vec![make_observation(), make_observation()], vec![make_artifact()]).unwrap();
    let second_received = std::sync::Arc::new(std::sync::Mutex::new(None::<String>));
    let calls = std::sync::Arc::new(std::sync::Mutex::new(0usize));
    let (s, k) = (second_received.clone(), calls.clone());
    replay(&corpus, move |_: &Observation, _: &[Artifact], current: Option<String>| {
        let count = {
            let mut c = k.lock().unwrap();
            *c += 1;
            *c
        };
        if count == 2 {
            *s.lock().unwrap() = current.clone();
        }
        "workspace-7".to_string()
    });
    assert_eq!(*second_received.lock().unwrap(), Some("workspace-7".to_string()));
}

#[test]
fn replay_does_not_modify_corpus_artifacts() {
    let a = make_artifact();
    let original = a.clone();
    let corpus = ReplayCorpus::new(vec![make_observation()], vec![a]).unwrap();
    replay(&corpus, |_: &Observation, _: &[Artifact], _: Option<()>| ());
    assert_eq!(corpus.artifacts()[0], original);
}

#[test]
fn replay_completes_only_after_every_observation_is_processed() {
    let n = 5usize;
    let observations: Vec<Observation> = (0..n).map(|_| make_observation()).collect();
    let corpus = ReplayCorpus::new(observations, vec![make_artifact()]).unwrap();
    let processed = std::sync::Arc::new(std::sync::Mutex::new(0usize));
    let p = processed.clone();
    replay(&corpus, move |_: &Observation, _: &[Artifact], _: Option<()>| {
        *p.lock().unwrap() += 1;
    });
    assert_eq!(*processed.lock().unwrap(), n);
}
