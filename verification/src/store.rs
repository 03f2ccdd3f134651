//! The rows of the scenario store.

use crate::text::Chars;
use crate::value::Value;
use vstd::prelude::*;

verus! {

/// A stored scenario.
#[derive(Clone, Debug, PartialEq, Eq)]
pub struct ScenarioRow {
    pub id: String,
    pub name: String,
    pub parent_id: Option<String>,
    pub input_json: String,
    pub input_fingerprint: String,
    pub created_at: String,
}

/// What a [`ScenarioRow`] holds.
#[verifier::ext_equal]
pub struct ScenarioRowView {
    pub id: Chars,
    pub name: Chars,
    pub parent_id: Option<Chars>,
    pub input_json: Chars,
    pub input_fingerprint: Chars,
    pub created_at: Chars,
}

impl View for ScenarioRow {
    type V = ScenarioRowView;

    open spec fn view(&self) -> ScenarioRowView {
        ScenarioRowView {
            id: self.id.deep_view(),
            name: self.name.deep_view(),
            parent_id: self.parent_id.deep_view(),
            input_json: self.input_json.deep_view(),
            input_fingerprint: self.input_fingerprint.deep_view(),
            created_at: self.created_at.deep_view(),
        }
    }
}

impl DeepView for ScenarioRow {
    type V = ScenarioRowView;

    open spec fn deep_view(&self) -> ScenarioRowView {
        self@
    }
}

impl Value for ScenarioRow {
    fn copy(&self) -> (r: Self) {
        ScenarioRow {
            id: self.id.copy(),
            name: self.name.copy(),
            parent_id: self.parent_id.copy(),
            input_json: self.input_json.copy(),
            input_fingerprint: self.input_fingerprint.copy(),
            created_at: self.created_at.copy(),
        }
    }

    fn same(&self, other: &Self) -> (r: bool) {
        self.id.same(&other.id)
            && self.name.same(&other.name)
            && self.parent_id.same(&other.parent_id)
            && self.input_json.same(&other.input_json)
            && self.input_fingerprint.same(&other.input_fingerprint)
            && self.created_at.same(&other.created_at)
    }
}

/// A stored run of a scenario.
#[derive(Clone, Debug, PartialEq, Eq)]
pub struct RunRow {
    pub id: i64,
    pub scenario_id: String,
    pub trace_fingerprint: String,
    pub status: String,
    pub result_json: String,
}

/// What a [`RunRow`] holds.
#[verifier::ext_equal]
pub struct RunRowView {
    pub id: i64,
    pub scenario_id: Chars,
    pub trace_fingerprint: Chars,
    pub status: Chars,
    pub result_json: Chars,
}

impl View for RunRow {
    type V = RunRowView;

    open spec fn view(&self) -> RunRowView {
        RunRowView {
            id: self.id,
            scenario_id: self.scenario_id.deep_view(),
            trace_fingerprint: self.trace_fingerprint.deep_view(),
            status: self.status.deep_view(),
            result_json: self.result_json.deep_view(),
        }
    }
}

impl DeepView for RunRow {
    type V = RunRowView;

    open spec fn deep_view(&self) -> RunRowView {
        self@
    }
}

impl Value for RunRow {
    fn copy(&self) -> (r: Self) {
        RunRow {
            id: self.id,
            scenario_id: self.scenario_id.copy(),
            trace_fingerprint: self.trace_fingerprint.copy(),
            status: self.status.copy(),
            result_json: self.result_json.copy(),
        }
    }

    fn same(&self, other: &Self) -> (r: bool) {
        self.id == other.id
            && self.scenario_id.same(&other.scenario_id)
            && self.trace_fingerprint.same(&other.trace_fingerprint)
            && self.status.same(&other.status)
            && self.result_json.same(&other.result_json)
    }
}

} // verus!
