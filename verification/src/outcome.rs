//! Outcomes: the common result format for attempts.

use vstd::prelude::*;

use crate::job_spec::{clone_task_specs, TaskSpec, TaskSpecView};

verus! {

/// Classification of an attempt result.
#[derive(Debug, Clone, Copy, PartialEq, Eq, Hash, Structural)]
pub enum OutcomeKind {
    /// Forward progress happened.
    Success,
    /// Recoverable failure; retry, alternatives or decomposition may help.
    Failure,
    /// Cannot proceed without additional input or prerequisites.
    Blocked,
}

/// The wire name of an outcome kind: SUCCESS, FAILURE or BLOCKED.
pub open spec fn kind_wire(k: OutcomeKind) -> Seq<char> {
    match k {
        OutcomeKind::Success => "SUCCESS"@,
        OutcomeKind::Failure => "FAILURE"@,
        OutcomeKind::Blocked => "BLOCKED"@,
    }
}

/// The outcome kind whose wire name is `s`, if any.
pub open spec fn kind_parse(s: Seq<char>) -> Option<OutcomeKind> {
    if s == kind_wire(OutcomeKind::Success) {
        Some(OutcomeKind::Success)
    } else if s == kind_wire(OutcomeKind::Failure) {
        Some(OutcomeKind::Failure)
    } else if s == kind_wire(OutcomeKind::Blocked) {
        Some(OutcomeKind::Blocked)
    } else {
        None
    }
}

impl OutcomeKind {
    /// Renders the kind for the wire: exactly SUCCESS, FAILURE or BLOCKED.
    pub fn to_wire(self) -> (r: String)
        ensures
            r@ == kind_wire(self),
    {
        match self {
            OutcomeKind::Success => String::from_str("SUCCESS"),
            OutcomeKind::Failure => String::from_str("FAILURE"),
            OutcomeKind::Blocked => String::from_str("BLOCKED"),
        }
    }

    /// Reads a kind back from its wire name.
    pub fn from_wire(s: &str) -> (r: Option<OutcomeKind>)
        ensures
            r == kind_parse(s@),
    {
        let t = String::from_str(s);
        if t == String::from_str("SUCCESS") {
            Some(OutcomeKind::Success)
        } else if t == String::from_str("FAILURE") {
            Some(OutcomeKind::Failure)
        } else if t == String::from_str("BLOCKED") {
            Some(OutcomeKind::Blocked)
        } else {
            None
        }
    }
}

/// Reading a wire name back yields the kind that produced it: the three
/// names are pairwise distinct, so the encoding loses nothing.
pub proof fn lemma_kind_wire_round_trip(k: OutcomeKind)
    ensures
        kind_parse(kind_wire(k)) == Some(k),
{
    reveal_strlit("SUCCESS");
    reveal_strlit("FAILURE");
    reveal_strlit("BLOCKED");
    assert("SUCCESS"@ != "FAILURE"@) by {
        assert("SUCCESS"@[0] == 'S' && "FAILURE"@[0] == 'F');
    }
    assert("SUCCESS"@ != "BLOCKED"@) by {
        assert("SUCCESS"@[0] == 'S' && "BLOCKED"@[0] == 'B');
    }
    assert("FAILURE"@ != "BLOCKED"@) by {
        assert("FAILURE"@[0] == 'F' && "BLOCKED"@[0] == 'B');
    }
}

/// Mathematical image of an [`Artifact`].
pub ghost enum ArtifactView {
    Stdout(Seq<char>),
    Stderr(Seq<char>),
    FilePath(Seq<char>),
    Url(Seq<char>),
    Json(Seq<char>),
}

/// A tagged reference to something produced or observed during execution.
#[derive(Debug)]
pub enum Artifact {
    /// Captured standard output.
    Stdout(String),
    /// Captured standard error.
    Stderr(String),
    /// Path to a file produced or used.
    FilePath(String),
    /// A URL reference.
    Url(String),
    /// An arbitrary structured observation, as JSON text.
    Json(String),
}

impl View for Artifact {
    type V = ArtifactView;

    open spec fn view(&self) -> ArtifactView {
        match self {
            Artifact::Stdout(s) => ArtifactView::Stdout(s@),
            Artifact::Stderr(s) => ArtifactView::Stderr(s@),
            Artifact::FilePath(s) => ArtifactView::FilePath(s@),
            Artifact::Url(s) => ArtifactView::Url(s@),
            Artifact::Json(s) => ArtifactView::Json(s@),
        }
    }
}

impl DeepView for Artifact {
    type V = ArtifactView;

    open spec fn deep_view(&self) -> ArtifactView {
        self.view()
    }
}

impl Artifact {
    /// Copies the artifact; the copy reads the same.
    pub fn duplicate(&self) -> (r: Self)
        ensures
            r@ == self@,
    {
        match self {
            Artifact::Stdout(s) => Artifact::Stdout(s.clone()),
            Artifact::Stderr(s) => Artifact::Stderr(s.clone()),
            Artifact::FilePath(s) => Artifact::FilePath(s.clone()),
            Artifact::Url(s) => Artifact::Url(s.clone()),
            Artifact::Json(s) => Artifact::Json(s.clone()),
        }
    }
}

/// Copies a list of artifacts; the copy reads the same.
pub fn clone_artifacts(v: &Vec<Artifact>) -> (r: Vec<Artifact>)
    ensures
        r.deep_view() == v.deep_view(),
{
    let mut r: Vec<Artifact> = Vec::new();
    let mut i: usize = 0;
    while i < v.len()
        invariant
            i <= v.len(),
            r@.len() == i,
            forall|j: int| 0 <= j < i ==> r@[j].deep_view() == v@[j].deep_view(),
        decreases v.len() - i,
    {
        let x = v[i].duplicate();
        r.push(x);
        i = i + 1;
    }
    proof {
        assert forall|j: int| 0 <= j < r.deep_view().len() implies r.deep_view()[j]
            == v.deep_view()[j] by {
            assert(r@[j].deep_view() == v@[j].deep_view());
        }
        assert(r.deep_view() =~= v.deep_view());
    }
    r
}

/// Copies a list of strings; the copy reads the same.
fn clone_strings(v: &Vec<String>) -> (r: Vec<String>)
    ensures
        r.deep_view() == v.deep_view(),
{
    let mut r: Vec<String> = Vec::new();
    let mut i: usize = 0;
    while i < v.len()
        invariant
            i <= v.len(),
            r@.len() == i,
            forall|j: int| 0 <= j < i ==> r@[j].deep_view() == v@[j].deep_view(),
        decreases v.len() - i,
    {
        let x = v[i].clone();
        r.push(x);
        i = i + 1;
    }
    proof {
        assert forall|j: int| 0 <= j < r.deep_view().len() implies r.deep_view()[j]
            == v.deep_view()[j] by {
            assert(r@[j].deep_view() == v@[j].deep_view());
        }
        assert(r.deep_view() =~= v.deep_view());
    }
    r
}

/// Copies an optional string; the copy reads the same.
fn clone_opt_string(o: &Option<String>) -> (r: Option<String>)
    ensures
        r.deep_view() == o.deep_view(),
{
    match o {
        Some(s) => Some(s.clone()),
        None => None,
    }
}

/// Mathematical image of an [`Outcome`].
pub ghost struct OutcomeView {
    pub kind: OutcomeKind,
    pub artifacts: Seq<ArtifactView>,
    pub reason: Option<Seq<char>>,
    pub retry_hint: Option<Seq<char>>,
    pub alternatives: Seq<Seq<char>>,
    pub child_tasks: Option<Seq<TaskSpecView>>,
}

/// The result of one attempt, as the handler reported it.
#[derive(Debug)]
pub struct Outcome {
    /// The classification: success, failure or blocked.
    pub kind: OutcomeKind,
    /// Observations produced during the attempt.
    pub artifacts: Vec<Artifact>,
    /// Optional human-readable reason.
    pub reason: Option<String>,
    /// Optional hint for the retry policy, as JSON text.
    pub retry_hint: Option<String>,
    /// Optional alternative approaches, as JSON text.
    pub alternatives: Vec<String>,
    /// Optional proposed child tasks (decomposition).
    pub child_tasks: Option<Vec<TaskSpec>>,
}

impl View for Outcome {
    type V = OutcomeView;

    open spec fn view(&self) -> OutcomeView {
        OutcomeView {
            kind: self.kind,
            artifacts: self.artifacts.deep_view(),
            reason: self.reason.deep_view(),
            retry_hint: self.retry_hint.deep_view(),
            alternatives: self.alternatives.deep_view(),
            child_tasks: self.child_tasks.deep_view(),
        }
    }
}

impl Outcome {
    /// A bare success: no artifacts, no reason, no proposed children.
    pub fn success() -> (r: Self)
        ensures
            r@.kind == OutcomeKind::Success,
            r@.artifacts == Seq::<ArtifactView>::empty(),
            r@.reason is None,
            r@.retry_hint is None,
            r@.alternatives == Seq::<Seq<char>>::empty(),
            r@.child_tasks is None,
    {
        let r = Outcome {
            kind: OutcomeKind::Success,
            artifacts: Vec::new(),
            reason: None,
            retry_hint: None,
            alternatives: Vec::new(),
            child_tasks: None,
        };
        proof {
            assert(r@.artifacts =~= Seq::<ArtifactView>::empty());
            assert(r@.alternatives =~= Seq::<Seq<char>>::empty());
        }
        r
    }

    /// A failure with the given reason.
    pub fn failure(reason: String) -> (r: Self)
        ensures
            r@.kind == OutcomeKind::Failure,
            r@.artifacts == Seq::<ArtifactView>::empty(),
            r@.reason == Some(reason@),
            r@.retry_hint is None,
            r@.alternatives == Seq::<Seq<char>>::empty(),
            r@.child_tasks is None,
    {
        let r = Outcome {
            kind: OutcomeKind::Failure,
            artifacts: Vec::new(),
            reason: Some(reason),
            retry_hint: None,
            alternatives: Vec::new(),
            child_tasks: None,
        };
        proof {
            assert(r@.artifacts =~= Seq::<ArtifactView>::empty());
            assert(r@.alternatives =~= Seq::<Seq<char>>::empty());
        }
        r
    }

    /// A blocked outcome with the given reason.
    pub fn blocked(reason: String) -> (r: Self)
        ensures
            r@.kind == OutcomeKind::Blocked,
            r@.artifacts == Seq::<ArtifactView>::empty(),
            r@.reason == Some(reason@),
            r@.retry_hint is None,
            r@.alternatives == Seq::<Seq<char>>::empty(),
            r@.child_tasks is None,
    {
        let r = Outcome {
            kind: OutcomeKind::Blocked,
            artifacts: Vec::new(),
            reason: Some(reason),
            retry_hint: None,
            alternatives: Vec::new(),
            child_tasks: None,
        };
        proof {
            assert(r@.artifacts =~= Seq::<ArtifactView>::empty());
            assert(r@.alternatives =~= Seq::<Seq<char>>::empty());
        }
        r
    }

    /// Appends one artifact.
    pub fn with_artifact(self, artifact: Artifact) -> (r: Self)
        ensures
            r@ == (OutcomeView { artifacts: self@.artifacts.push(artifact@), ..self@ }),
    {
        let mut o = self;
        let ghost prev = o@;
        o.artifacts.push(artifact);
        proof {
            assert(o@.artifacts =~= prev.artifacts.push(artifact@));
            assert(o@ == (OutcomeView { artifacts: prev.artifacts.push(artifact@), ..prev }));
        }
        o
    }

    /// Sets the retry hint.
    pub fn with_retry_hint(self, hint: String) -> (r: Self)
        ensures
            r@ == (OutcomeView { retry_hint: Some(hint@), ..self@ }),
    {
        let mut o = self;
        o.retry_hint = Some(hint);
        o
    }

    /// Appends one alternative.
    pub fn with_alternative(self, alternative: String) -> (r: Self)
        ensures
            r@ == (OutcomeView { alternatives: self@.alternatives.push(alternative@), ..self@ }),
    {
        let mut o = self;
        let ghost prev = o@;
        o.alternatives.push(alternative);
        proof {
            assert(o@.alternatives =~= prev.alternatives.push(alternative@));
            assert(o@ == (OutcomeView { alternatives: prev.alternatives.push(alternative@), ..prev }));
        }
        o
    }

    /// Proposes child tasks (decomposition).
    pub fn with_decompose_hint(self, child_tasks: Vec<TaskSpec>) -> (r: Self)
        ensures
            r@ == (OutcomeView { child_tasks: Some(child_tasks.deep_view()), ..self@ }),
    {
        let mut o = self;
        o.child_tasks = Some(child_tasks);
        o
    }

    /// Copies the outcome; the copy reads the same.
    pub fn duplicate(&self) -> (r: Self)
        ensures
            r@ == self@,
    {
        Outcome {
            kind: self.kind,
            artifacts: clone_artifacts(&self.artifacts),
            reason: clone_opt_string(&self.reason),
            retry_hint: clone_opt_string(&self.retry_hint),
            alternatives: clone_strings(&self.alternatives),
            child_tasks: match &self.child_tasks {
                Some(v) => Some(clone_task_specs(v)),
                None => None,
            },
        }
    }
}

} // verus!
