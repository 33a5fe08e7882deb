//! The canonical Observation Language: the frozen, platform-independent
//! concepts a collector translates into before a candidate enters Evo.

use vstd::prelude::*;
use crate::observation::evidence::{Evidence, FactValue, FactValueModel, ObservedFact, fact_models};
use crate::observation::schema::ObservationSchema;
use crate::text::lex_le;
use crate::sorting::{least_index, least_text, lemma_least_is_minimum, lemma_sorted_texts_permutation, sort_strings,
    sorted_texts, views};

verus! {

broadcast use vstd::seq_lib::group_to_multiset_ensures;

/// The frozen canonical Observation Language.
#[derive(Debug, Clone, PartialEq, Eq)]
pub enum ObservationConcept {
    WindowFocusGained { subject: String },
    FileSaved { subject: String },
    URLNavigated { subject: String },
    CommitMade { subject: String },
    WorkDesignated { subject: String },
    /// The witnessed fact that entity `member` belongs to `repository`.
    RepositoryMembership { member: String, repository: String },
    /// The witnessed declaration that `first` and `second` are related work.
    WorkGrouped { first: String, second: String },
    /// Content-free input counters on a subject over one flush bucket.
    InputActivity { subject: String, keys: u64, clicks: u64, scrolls: u64 },
    /// The user's declaration that a set of witnessed subjects is the
    /// current continuation of their work; canonically ordered, the least
    /// subject being the Required Subject.
    ContinuationSurface { subjects: Vec<String> },
}

/// The canonical concept name.
pub open spec fn concept_name(c: ObservationConcept) -> Seq<char> {
    match c {
        ObservationConcept::WindowFocusGained { .. } => "WindowFocusGained"@,
        ObservationConcept::FileSaved { .. } => "FileSaved"@,
        ObservationConcept::URLNavigated { .. } => "URLNavigated"@,
        ObservationConcept::CommitMade { .. } => "CommitMade"@,
        ObservationConcept::WorkDesignated { .. } => "WorkDesignated"@,
        ObservationConcept::RepositoryMembership { .. } => "RepositoryMembership"@,
        ObservationConcept::WorkGrouped { .. } => "WorkGrouped"@,
        ObservationConcept::ContinuationSurface { .. } => "ContinuationSurface"@,
        ObservationConcept::InputActivity { .. } => "InputActivity"@,
    }
}

/// A concept is well formed unless it is a surface naming no subject.
pub open spec fn concept_well_formed(c: ObservationConcept) -> bool {
    c matches ObservationConcept::ContinuationSurface { subjects } ==> subjects.len() > 0
}

/// The directly observed primary subject.
pub open spec fn concept_subject(c: ObservationConcept) -> Seq<char> {
    match c {
        ObservationConcept::WindowFocusGained { subject } => subject@,
        ObservationConcept::FileSaved { subject } => subject@,
        ObservationConcept::URLNavigated { subject } => subject@,
        ObservationConcept::CommitMade { subject } => subject@,
        ObservationConcept::WorkDesignated { subject } => subject@,
        ObservationConcept::RepositoryMembership { member, .. } => member@,
        ObservationConcept::WorkGrouped { first, .. } => first@,
        ObservationConcept::InputActivity { subject, .. } => subject@,
        ObservationConcept::ContinuationSurface { subjects } => least_text(views(subjects@)),
    }
}

/// The frozen schema of a concept, as `(name, version)`.
pub open spec fn concept_schema(c: ObservationConcept) -> (Seq<char>, u32) {
    match c {
        ObservationConcept::WindowFocusGained { .. } => ("OBS-WINDOW-FOCUS-GAINED"@, 3),
        ObservationConcept::FileSaved { .. } => ("OBS-FILE-SAVED"@, 1),
        ObservationConcept::URLNavigated { .. } => ("OBS-URL-NAVIGATED"@, 1),
        ObservationConcept::CommitMade { .. } => ("OBS-COMMIT-MADE"@, 1),
        ObservationConcept::WorkDesignated { .. } => ("OBS-WORK-DESIGNATED"@, 1),
        ObservationConcept::RepositoryMembership { .. } => ("OBS-REPOSITORY-MEMBERSHIP"@, 1),
        ObservationConcept::WorkGrouped { .. } => ("OBS-WORK-GROUPED"@, 1),
        ObservationConcept::ContinuationSurface { .. } => ("OBS-CONTINUATION-SURFACE"@, 1),
        ObservationConcept::InputActivity { .. } => ("OBS-INPUT-ACTIVITY"@, 1),
    }
}

/// A text-valued fact.
pub open spec fn text_fact(name: Seq<char>, value: Seq<char>) -> (Seq<char>, FactValueModel) {
    (name, FactValueModel::Text(value))
}

/// The facts of a surface whose subjects are `sorted`: the first is the
/// Required Subject, every other follows as a continuation subject.
pub open spec fn surface_facts(sorted: Seq<Seq<char>>) -> Seq<(Seq<char>, FactValueModel)> {
    Seq::new(
        sorted.len(),
        |i: int|
            if i == 0 {
                text_fact("ContinuationSurface"@, sorted[i])
            } else {
                text_fact("ContinuationSubject"@, sorted[i])
            },
    )
}

/// The canonical Evidence body of a concept, fact by fact.
pub open spec fn concept_facts(c: ObservationConcept) -> Seq<(Seq<char>, FactValueModel)> {
    match c {
        ObservationConcept::RepositoryMembership { member, repository } => seq![
            text_fact("RepositoryMembership"@, member@),
            text_fact("Repository"@, repository@),
        ],
        ObservationConcept::WorkGrouped { first, second } => seq![
            text_fact("WorkGrouped"@, first@),
            text_fact("CoMember"@, second@),
        ],
        ObservationConcept::InputActivity { subject, keys, clicks, scrolls } => seq![
            text_fact("InputActivity"@, subject@),
            ("Keys"@, FactValueModel::Integer(keys as i64)),
            ("Clicks"@, FactValueModel::Integer(clicks as i64)),
            ("Scrolls"@, FactValueModel::Integer(scrolls as i64)),
        ],
        ObservationConcept::ContinuationSurface { subjects } => surface_facts(
            sorted_texts(views(subjects@)),
        ),
        _ => seq![text_fact(concept_name(c), concept_subject(c))],
    }
}

/// A continuation surface's canonical record does not depend on the order
/// in which its subjects were declared: two surfaces naming the same
/// subjects, in any order, carry the same facts.
pub proof fn lemma_surface_order_independent(a: Seq<String>, b: Seq<String>)
    requires
        views(a).to_multiset() == views(b).to_multiset(),
    ensures
        surface_facts(sorted_texts(views(a))) == surface_facts(sorted_texts(views(b))),
{
    lemma_sorted_texts_permutation(views(a), views(b));
}

fn push_text_fact(facts: &mut Vec<ObservedFact>, name: &str, value: &String)
    requires
        name@.len() > 0,
        !crate::text::is_ws(name@[0]),
    ensures
        final(facts)@.len() == old(facts)@.len() + 1,
        forall|i: int| 0 <= i < old(facts)@.len() ==> final(facts)@[i] == old(facts)@[i],
        final(facts)@.last().spec_name() == name@,
        final(facts)@.last().spec_value() == FactValueModel::Text(value@),
{
    facts.push(ObservedFact::canonical(name, FactValue::Text(value.clone())));
}

impl ObservationConcept {
    /// The canonical concept name.
    pub fn name(&self) -> (r: &'static str)
        ensures
            r@ == concept_name(*self),
    {
        match self {
            ObservationConcept::WindowFocusGained { .. } => "WindowFocusGained",
            ObservationConcept::FileSaved { .. } => "FileSaved",
            ObservationConcept::URLNavigated { .. } => "URLNavigated",
            ObservationConcept::CommitMade { .. } => "CommitMade",
            ObservationConcept::WorkDesignated { .. } => "WorkDesignated",
            ObservationConcept::RepositoryMembership { .. } => "RepositoryMembership",
            ObservationConcept::WorkGrouped { .. } => "WorkGrouped",
            ObservationConcept::ContinuationSurface { .. } => "ContinuationSurface",
            ObservationConcept::InputActivity { .. } => "InputActivity",
        }
    }

    /// The directly observed primary subject; for a surface, its least
    /// subject.
    pub fn subject(&self) -> (r: &str)
        requires
            concept_well_formed(*self),
        ensures
            r@ == concept_subject(*self),
    {
        match self {
            ObservationConcept::WindowFocusGained { subject } => subject.as_str(),
            ObservationConcept::FileSaved { subject } => subject.as_str(),
            ObservationConcept::URLNavigated { subject } => subject.as_str(),
            ObservationConcept::CommitMade { subject } => subject.as_str(),
            ObservationConcept::WorkDesignated { subject } => subject.as_str(),
            ObservationConcept::RepositoryMembership { member, .. } => member.as_str(),
            ObservationConcept::WorkGrouped { first, .. } => first.as_str(),
            ObservationConcept::InputActivity { subject, .. } => subject.as_str(),
            ObservationConcept::ContinuationSurface { subjects } => {
                let k = least_index(subjects);
                subjects[k].as_str()
            },
        }
    }

    /// The frozen schema associated with this concept.
    pub fn schema(&self) -> (r: ObservationSchema)
        ensures
            (r.spec_name(), r.spec_version()) == concept_schema(*self),
    {
        match self {
            ObservationConcept::WindowFocusGained { .. } => ObservationSchema::window_focus_gained_v3(),
            ObservationConcept::FileSaved { .. } => ObservationSchema::file_saved_v1(),
            ObservationConcept::URLNavigated { .. } => ObservationSchema::url_navigated_v1(),
            ObservationConcept::CommitMade { .. } => ObservationSchema::commit_made_v1(),
            ObservationConcept::WorkDesignated { .. } => ObservationSchema::work_designated_v1(),
            ObservationConcept::RepositoryMembership { .. } => {
                ObservationSchema::repository_membership_v1()
            },
            ObservationConcept::WorkGrouped { .. } => ObservationSchema::work_grouped_v1(),
            ObservationConcept::ContinuationSurface { .. } => {
                ObservationSchema::continuation_surface_v1()
            },
            ObservationConcept::InputActivity { .. } => ObservationSchema::input_activity_v1(),
        }
    }

    /// The canonical Evidence body of this concept.
    pub fn evidence(&self) -> (r: Evidence)
        requires
            concept_well_formed(*self),
        ensures
            fact_models(r.spec_facts()) == concept_facts(*self),
    {
        let mut facts: Vec<ObservedFact> = Vec::new();
        match self {
            ObservationConcept::RepositoryMembership { member, repository } => {
                proof {
                    reveal_strlit("RepositoryMembership");
                    reveal_strlit("Repository");
                }
                push_text_fact(&mut facts, "RepositoryMembership", member);
                push_text_fact(&mut facts, "Repository", repository);
            },
            ObservationConcept::WorkGrouped { first, second } => {
                proof {
                    reveal_strlit("WorkGrouped");
                    reveal_strlit("CoMember");
                }
                push_text_fact(&mut facts, "WorkGrouped", first);
                push_text_fact(&mut facts, "CoMember", second);
            },
            ObservationConcept::InputActivity { subject, keys, clicks, scrolls } => {
                proof {
                    reveal_strlit("InputActivity");
                    reveal_strlit("Keys");
                    reveal_strlit("Clicks");
                    reveal_strlit("Scrolls");
                }
                push_text_fact(&mut facts, "InputActivity", subject);
                facts.push(ObservedFact::canonical("Keys", FactValue::Integer(*keys as i64)));
                facts.push(ObservedFact::canonical("Clicks", FactValue::Integer(*clicks as i64)));
                facts.push(
                    ObservedFact::canonical("Scrolls", FactValue::Integer(*scrolls as i64)),
                );
            },
            ObservationConcept::ContinuationSurface { subjects } => {
                proof {
                    reveal_strlit("ContinuationSurface");
                    reveal_strlit("ContinuationSubject");
                }
                let ordered = sort_strings(subjects);
                let ghost sorted = sorted_texts(views(subjects@));
                assert(views(ordered@).len() == ordered@.len());
                let mut i: usize = 0;
                while i < ordered.len()
                    invariant
                        i <= ordered.len(),
                        views(ordered@) == sorted,
                        "ContinuationSurface"@.len() > 0,
                        !crate::text::is_ws("ContinuationSurface"@[0]),
                        "ContinuationSubject"@.len() > 0,
                        !crate::text::is_ws("ContinuationSubject"@[0]),
                        fact_models(facts@) == surface_facts(sorted).subrange(0, i as int),
                    decreases ordered.len() - i,
                {
                    let ghost before = facts@;
                    if i == 0 {
                        push_text_fact(&mut facts, "ContinuationSurface", &ordered[i]);
                    } else {
                        push_text_fact(&mut facts, "ContinuationSubject", &ordered[i]);
                    }
                    assert(sorted[i as int] == ordered@[i as int]@);
                    assert(fact_models(before).len() == i);
                    assert(facts@.len() == i + 1);
                    assert(facts@.last() == facts@[i as int]);
                    assert(fact_models(facts@) =~= surface_facts(sorted).subrange(
                        0,
                        i as int + 1,
                    )) by {
                        assert forall|j: int| 0 <= j < i implies fact_models(facts@)[j]
                            == fact_models(before)[j] by {
                            assert(facts@[j] == before[j]);
                        }
                    }
                    i = i + 1;
                }
                assert(surface_facts(sorted).subrange(0, ordered.len() as int) =~= surface_facts(
                    sorted,
                ));
            },
            _ => {
                let name = self.name();
                let subject = self.subject();
                proof {
                    reveal_strlit("WindowFocusGained");
                    reveal_strlit("FileSaved");
                    reveal_strlit("URLNavigated");
                    reveal_strlit("CommitMade");
                    reveal_strlit("WorkDesignated");
                }
                facts.push(
                    ObservedFact::canonical(name, FactValue::Text(crate::text::to_owned_string(subject))),
                );
            },
        }
        let r = Evidence::new(facts);
        assert(fact_models(r.spec_facts()) =~= concept_facts(*self));
        r
    }
}

/// The first fact of a concept's evidence carries the concept's subject,
/// as text.
pub proof fn lemma_subject_is_first_fact(c: ObservationConcept)
    requires
        concept_well_formed(c),
    ensures
        concept_facts(c).len() > 0,
        concept_facts(c)[0].1 == FactValueModel::Text(concept_subject(c)),
{
    if let ObservationConcept::ContinuationSurface { subjects } = c {
        let t = views(subjects@);
        crate::sorting::lemma_lex_order_total();
        t.lemma_sort_by_ensures(crate::sorting::lex_order());
        assert(sorted_texts(t).to_multiset() == t.to_multiset());
        assert(sorted_texts(t).len() == t.len()) by {
            broadcast use vstd::seq_lib::group_to_multiset_ensures;
            assert(sorted_texts(t).len() == sorted_texts(t).to_multiset().len());
            assert(t.len() == t.to_multiset().len());
        }
    }
}

/// A surface's subject is its least subject: one of its subjects, at or
/// below every one of them.
pub proof fn lemma_surface_subject_least(c: ObservationConcept)
    requires
        c matches ObservationConcept::ContinuationSurface { subjects } && subjects@.len() > 0,
    ensures
        c matches ObservationConcept::ContinuationSurface { subjects } && views(subjects@).contains(concept_subject(c))
            && forall|j: int| 0 <= j < subjects@.len() ==> lex_le(concept_subject(c), #[trigger] views(subjects@)[j]),
{
    if let ObservationConcept::ContinuationSurface { subjects } = c {
        lemma_least_is_minimum(views(subjects@));
    }
}

} // verus!
