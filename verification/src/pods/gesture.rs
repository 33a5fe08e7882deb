//! Gestures are declarations: dragging a window onto a pod, dropping one
//! pod on another, ejecting a window. The physical act is the correction,
//! and it flows into the engine as an ordinary declaration.

use vstd::prelude::*;
use crate::text::{str_eq, to_owned_string};

verus! {

/// What a person declares about subjects of work.
#[derive(Debug, Clone, PartialEq, Eq)]
pub enum Declaration {
    /// The two subjects are one work.
    SameWork { a: String, b: String },
    /// The two subjects are different works.
    SeparateWork { a: String, b: String },
    /// The resource is not the person's work.
    NotMine { resource: String },
}

/// A physical act on the bar, already resolved to pods and subjects.
#[derive(Debug, Clone, PartialEq, Eq)]
pub enum PodGesture {
    /// Drag a loose window's subject onto a pod card.
    WindowIntoPod { subject: String, target_pod: u64, target_anchor: Option<String> },
    /// Drop one pod card onto another: "these are one work".
    MergePods {
        source_pod: u64,
        source_anchor: Option<String>,
        target_pod: u64,
        target_anchor: Option<String>,
    },
    /// Drag one window's subject off its pod: "this is not this work".
    EjectWindow { subject: String, source_pod: u64, source_anchor: Option<String> },
}

/// Either a declaration the engine can ingest, or the reason the gesture
/// has no binding.
#[derive(Debug, Clone, PartialEq, Eq)]
pub enum GestureOutcome {
    Declare(Declaration),
    Unbound(String),
}

/// The content of a declaration.
pub enum DeclarationModel {
    SameWork(Seq<char>, Seq<char>),
    SeparateWork(Seq<char>, Seq<char>),
    NotMine(Seq<char>),
}

/// The content of a gesture outcome.
pub enum OutcomeModel {
    Declare(DeclarationModel),
    Unbound(Seq<char>),
}

/// The content of an outcome value.
pub open spec fn outcome_model(o: GestureOutcome) -> OutcomeModel {
    match o {
        GestureOutcome::Declare(Declaration::SameWork { a, b }) => OutcomeModel::Declare(
            DeclarationModel::SameWork(a@, b@),
        ),
        GestureOutcome::Declare(Declaration::SeparateWork { a, b }) => OutcomeModel::Declare(
            DeclarationModel::SeparateWork(a@, b@),
        ),
        GestureOutcome::Declare(Declaration::NotMine { resource }) => OutcomeModel::Declare(
            DeclarationModel::NotMine(resource@),
        ),
        GestureOutcome::Unbound(m) => OutcomeModel::Unbound(m@),
    }
}

/// The declaration a gesture makes: a window joins the pod's anchor; two
/// anchored pods merge unless they already share the anchor; an ejected
/// window separates from its pod's anchor, or is quarantined when there is
/// no other side.
pub open spec fn gesture_outcome(g: PodGesture) -> OutcomeModel {
    match g {
        PodGesture::WindowIntoPod { subject, target_anchor, .. } => match target_anchor {
            Some(anchor) => OutcomeModel::Declare(DeclarationModel::SameWork(subject@, anchor@)),
            None => OutcomeModel::Unbound(
                "the pod has no anchor yet; gain one (produce something in it) before binding"@,
            ),
        },
        PodGesture::MergePods { source_anchor, target_anchor, .. } => match (
            source_anchor,
            target_anchor,
        ) {
            (Some(a), Some(b)) => if a@ == b@ {
                OutcomeModel::Unbound(
                    "both pods carry the same anchor; the engine already reads them as one"@,
                )
            } else {
                OutcomeModel::Declare(DeclarationModel::SameWork(a@, b@))
            },
            _ => OutcomeModel::Unbound(
                "a pod without an anchor can't be merged by declaration; produce in it first"@,
            ),
        },
        PodGesture::EjectWindow { subject, source_anchor, .. } => match source_anchor {
            Some(anchor) => if anchor@ != subject@ {
                OutcomeModel::Declare(DeclarationModel::SeparateWork(subject@, anchor@))
            } else {
                OutcomeModel::Declare(DeclarationModel::NotMine(subject@))
            },
            None => OutcomeModel::Declare(DeclarationModel::NotMine(subject@)),
        },
    }
}

/// Turns a gesture into its declaration, or says why it has no binding.
pub fn gesture_to_declaration(gesture: &PodGesture) -> (r: GestureOutcome)
    ensures
        outcome_model(r) == gesture_outcome(*gesture),
{
    match gesture {
        PodGesture::WindowIntoPod { subject, target_anchor, .. } => match target_anchor {
            Some(anchor) => GestureOutcome::Declare(
                Declaration::SameWork { a: subject.clone(), b: anchor.clone() },
            ),
            None => GestureOutcome::Unbound(
                to_owned_string(
                    "the pod has no anchor yet; gain one (produce something in it) before binding",
                ),
            ),
        },
        PodGesture::MergePods { source_anchor, target_anchor, .. } => match (
            source_anchor,
            target_anchor,
        ) {
            (Some(a), Some(b)) => if str_eq(a.as_str(), b.as_str()) {
                GestureOutcome::Unbound(
                    to_owned_string(
                        "both pods carry the same anchor; the engine already reads them as one",
                    ),
                )
            } else {
                GestureOutcome::Declare(Declaration::SameWork { a: a.clone(), b: b.clone() })
            },
            _ => GestureOutcome::Unbound(
                to_owned_string(
                    "a pod without an anchor can't be merged by declaration; produce in it first",
                ),
            ),
        },
        PodGesture::EjectWindow { subject, source_anchor, .. } => match source_anchor {
            Some(anchor) => if !str_eq(anchor.as_str(), subject.as_str()) {
                GestureOutcome::Declare(
                    Declaration::SeparateWork { a: subject.clone(), b: anchor.clone() },
                )
            } else {
                GestureOutcome::Declare(Declaration::NotMine { resource: subject.clone() })
            },
            None => GestureOutcome::Declare(Declaration::NotMine { resource: subject.clone() }),
        },
    }
}

/// An ejection always declares something: a separation from the pod's
/// anchor, or a quarantine of the subject — never an unbound gesture.
pub proof fn lemma_eject_always_declares(subject: String, source_pod: u64, source_anchor: Option<
    String,
>)
    ensures
        gesture_outcome(PodGesture::EjectWindow { subject, source_pod, source_anchor }) is Declare,
{
}

/// A merge never declares a pod the same work as itself: a declared
/// merge always names two different anchors.
pub proof fn lemma_merge_names_two_anchors(g: PodGesture)
    requires
        g is MergePods,
    ensures
        gesture_outcome(g) matches OutcomeModel::Declare(DeclarationModel::SameWork(a, b)) ==> a
            != b,
{
}

/// The strongest identity of a loose window: its non-empty document, else
/// its non-empty title, else nothing.
pub fn strongest_identity(ax_document: Option<&str>, title: &str) -> (r: Option<String>)
    ensures
        match r {
            Some(s) => match ax_document {
                Some(d) if d@.len() > 0 => s@ == d@,
                _ => title@.len() > 0 && s@ == title@,
            },
            None => (ax_document matches Some(d) ==> d@.len() == 0) && title@.len() == 0,
        },
{
    if let Some(doc) = ax_document {
        if !doc.is_empty() {
            return Some(to_owned_string(doc));
        }
    }
    if !title.is_empty() {
        return Some(to_owned_string(title));
    }
    None
}

/// Whether one pod card may be merged into another (drag hover): both
/// have a strongest anchor and they are different pods.
pub fn merge_ready(source_id: u64, source_anchor: &Option<String>, target_id: u64, target_anchor: &Option<String>) -> (r: bool)
    ensures
        r == (source_anchor is Some && target_anchor is Some && source_id != target_id),
{
    source_anchor.is_some() && target_anchor.is_some() && source_id != target_id
}

} // verus!
