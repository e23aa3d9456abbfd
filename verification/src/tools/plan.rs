//! The agent-maintained task plan.
use crate::error::{Error, ErrorView};
use crate::json::{Json, JsonView};
use crate::tools::schema;
use crate::types::{ToolSpec, ToolSpecView};
use crate::{providers, text, tools};
use vstd::prelude::*;
use vstd::string::*;

verus! {

/// The agent-maintained task plan, rendered as a live checklist in the UI. The tool itself only
/// validates and echoes; the UI picks the steps up from the tool-call events/history.
pub struct UpdatePlanTool;

/// The words for the status of a step.
pub open spec fn status_words() -> Seq<JsonView> {
    seq![
        providers::jstr("pending"@),
        providers::jstr("in_progress"@),
        providers::jstr("done"@),
    ]
}

/// A step, as a parameter.
pub open spec fn step_schema() -> JsonView {
    schema::object_view(
        map![
            "text"@ => schema::described_view("string"@, "Short step description"@),
            "status"@ => schema::choice_view(status_words()),
        ],
        seq![providers::jstr("text"@), providers::jstr("status"@)],
    )
}

impl UpdatePlanTool {
    /// The tool as a provider is told of it.
    pub open spec fn description() -> ToolSpecView {
        ToolSpecView {
            name: "update_plan"@,
            description:
                "Maintain the visible task plan. For multi-step work: call FIRST with your plan (exactly one step in_progress), call again as steps complete, and mark every step done before your final answer. Always pass the FULL step list — it replaces the previous plan."@,
            params_schema: schema::object_view(
                map![
                    "steps"@ => providers::obj(map![
                        "type"@ => providers::jstr("array"@),
                        "items"@ => step_schema(),
                    ]),
                ],
                seq![providers::jstr("steps"@)],
            ),
        }
    }

    pub fn spec(&self) -> (r: ToolSpec)
        ensures
            r@ == UpdatePlanTool::description(),
    {
        let words = Json::array().and(Json::str("pending")).and(Json::str("in_progress")).and(
            Json::str("done"),
        );
        assert(words@->Array_0 =~= status_words());
        let step_props = Json::object().with(
            "text",
            schema::described("string", "Short step description"),
        ).with("status", schema::choice(words));
        let step_required = Json::array().and(Json::str("text")).and(Json::str("status"));
        assert(step_required@->Array_0 =~= seq![
            providers::jstr("text"@),
            providers::jstr("status"@),
        ]);
        let items = schema::object(step_props, step_required);
        let steps = Json::object().with("type", Json::str("array")).with("items", items);
        let props = Json::object().with("steps", steps);
        ToolSpec {
            name: "update_plan".to_owned(),
            description:
                "Maintain the visible task plan. For multi-step work: call FIRST with your plan (exactly one step in_progress), call again as steps complete, and mark every step done before your final answer. Always pass the FULL step list — it replaces the previous plan.".to_owned(),
            params_schema: schema::object(props, Json::array().and(Json::str("steps"))),
        }
    }

    pub fn needs_approval(&self) -> (r: bool)
        ensures
            !r,
    {
        false
    }
}

/// One step of a plan.
pub struct Step {
    pub text: String,
    pub status: String,
}

/// One step of a plan.
pub struct StepView {
    pub text: Seq<char>,
    pub status: Seq<char>,
}

impl Step {
    pub open spec fn view(self) -> StepView {
        StepView { text: self.text@, status: self.status@ }
    }
}

/// What the steps of a list are.
pub open spec fn step_views(v: Seq<Step>) -> Seq<StepView> {
    v.map_values(|s: Step| s@)
}

/// What is wrong with a step, if anything.
pub open spec fn step_error(s: StepView) -> Option<ErrorView> {
    if text::trimmed(s.text).len() == 0 {
        Some(ErrorView::Tool("step text must not be empty"@))
    } else if s.status != "pending"@ && s.status != "in_progress"@ && s.status != "done"@ {
        Some(
            ErrorView::Tool(
                "unknown step status: "@ + s.status + " (use pending | in_progress | done)"@,
            ),
        )
    } else {
        None
    }
}

/// What is wrong with the first bad step, if any is bad.
pub open spec fn first_error(steps: Seq<StepView>) -> Option<ErrorView>
    decreases steps.len(),
{
    if steps.len() == 0 {
        None
    } else {
        match step_error(steps[0]) {
            Some(e) => Some(e),
            None => first_error(steps.drop_first()),
        }
    }
}

/// The report of a plan.
pub open spec fn plan_report(steps: Seq<StepView>) -> Result<Seq<char>, ErrorView> {
    if steps.len() == 0 {
        Err(ErrorView::Tool("steps must not be empty"@))
    } else {
        match first_error(steps) {
            Some(e) => Err(e),
            None => Ok("plan updated: "@ + text::decimal(steps.len()) + " steps"@),
        }
    }
}

fn check_step(s: &Step) -> (r: Option<Error>)
    ensures
        crate::agent::error_view(r) == step_error(s@),
{
    let t = text::trim(s.text.as_str());
    let st = s.status.as_str();
    if t.as_str().is_empty() {
        Some(Error::Tool("step text must not be empty".to_owned()))
    } else if !text::str_eq(st, "pending") && !text::str_eq(st, "in_progress") && !text::str_eq(
        st,
        "done",
    ) {
        Some(
            Error::Tool(
                text::concat3(
                    "unknown step status: ",
                    st,
                    " (use pending | in_progress | done)",
                ),
            ),
        )
    } else {
        None
    }
}

/// Validates a plan, and reports it.
pub fn update_plan(steps: &Vec<Step>) -> (r: Result<String, Error>)
    ensures
        tools::path_view(r) == plan_report(step_views(steps@)),
{
    if steps.len() == 0 {
        return Err(Error::Tool("steps must not be empty".to_owned()));
    }
    let ghost all = step_views(steps@);
    let mut i: usize = 0;
    assert(all.skip(0) =~= all);
    while i < steps.len()
        invariant
            i <= steps.len(),
            all == step_views(steps@),
            all.len() > 0,
            first_error(all) == first_error(all.skip(i as int)),
        decreases steps.len() - i,
    {
        assert(all.skip(i as int)[0] == steps@[i as int]@);
        assert(all.skip(i as int).drop_first() =~= all.skip(i + 1));
        if let Some(e) = check_step(&steps[i]) {
            return Err(e);
        }
        i += 1;
    }
    let n = text::decimal_of(steps.len() as u64);
    Ok(text::concat3("plan updated: ", n.as_str(), " steps"))
}

/// Whether a step of a plan is as it must be: it has a text that is not only whitespace, and a
/// known status.
pub open spec fn step_is_good(s: StepView) -> bool {
    &&& exists|i: int| 0 <= i < s.text.len() && !text::is_white(#[trigger] s.text[i])
    &&& s.status == "pending"@ || s.status == "in_progress"@ || s.status == "done"@
}

/// A plan is taken exactly where it has steps and all are good, and the report tells how many; the
/// refusal of another is that of its first bad step.
pub proof fn plan_is_taken_where_every_step_is_good(steps: Seq<StepView>)
    ensures
        plan_report(steps) is Ok <==> steps.len() > 0 && forall|i: int|
            0 <= i < steps.len() ==> step_is_good(#[trigger] steps[i]),
        plan_report(steps) is Ok ==> plan_report(steps)->Ok_0 == "plan updated: "@ + text::decimal(
            steps.len(),
        ) + " steps"@,
        steps.len() == 0 ==> plan_report(steps) == Err::<Seq<char>, ErrorView>(
            ErrorView::Tool("steps must not be empty"@),
        ),
        forall|i: int|
            0 <= i < steps.len() && !step_is_good(#[trigger] steps[i]) && (forall|j: int|
                0 <= j < i ==> step_is_good(#[trigger] steps[j])) ==> plan_report(steps) == Err::<
                Seq<char>,
                ErrorView,
            >(
                if text::trimmed(steps[i].text).len() == 0 {
                    ErrorView::Tool("step text must not be empty"@)
                } else {
                    ErrorView::Tool(
                        "unknown step status: "@ + steps[i].status
                            + " (use pending | in_progress | done)"@,
                    )
                },
            ),
{
    lemma_first_error(steps);
    assert forall|i: int|
        0 <= i < steps.len() && !step_is_good(#[trigger] steps[i]) && (forall|j: int|
            0 <= j < i ==> step_is_good(#[trigger] steps[j])) implies first_error(steps)
        == step_error(steps[i]) by {
        lemma_first_error_at(steps, i);
    }
    assert forall|i: int| 0 <= i < steps.len() implies step_is_good(#[trigger] steps[i]) == (
    step_error(steps[i]) is None) by {
        lemma_good(steps[i]);
    }
}

proof fn lemma_good(s: StepView)
    ensures
        step_is_good(s) <==> step_error(s) is None,
        !step_is_good(s) ==> step_error(s) == Some(
            if text::trimmed(s.text).len() == 0 {
                ErrorView::Tool("step text must not be empty"@)
            } else {
                ErrorView::Tool(
                    "unknown step status: "@ + s.status + " (use pending | in_progress | done)"@,
                )
            },
        ),
{
    let t = text::trimmed(s.text);
    text::trimming_takes_whitespace_only(s.text);
    let (a, b) = choose|a: Seq<char>, b: Seq<char>| #[trigger]
        (a + t + b) == s.text && text::all_white(a) && text::all_white(b);
    if t.len() > 0 {
        assert(s.text[a.len() as int] == t[0]);
    } else {
        assert forall|i: int| 0 <= i < s.text.len() implies text::is_white(#[trigger] s.text[i]) by {
            if i < a.len() {
                assert(s.text[i] == a[i]);
            } else {
                assert(s.text[i] == b[i - a.len()]);
            }
        }
    }
}

proof fn lemma_first_error(steps: Seq<StepView>)
    ensures
        first_error(steps) is None <==> forall|i: int|
            0 <= i < steps.len() ==> step_is_good(#[trigger] steps[i]),
    decreases steps.len(),
{
    if steps.len() > 0 {
        let t = steps.drop_first();
        lemma_first_error(t);
        lemma_good(steps[0]);
        if first_error(steps) is None {
            assert forall|i: int| 0 <= i < steps.len() implies step_is_good(#[trigger] steps[i]) by {
                if i > 0 {
                    assert(steps[i] == t[i - 1]);
                }
            }
        }
        if forall|i: int| 0 <= i < steps.len() ==> step_is_good(#[trigger] steps[i]) {
            assert forall|i: int| 0 <= i < t.len() implies step_is_good(#[trigger] t[i]) by {
                assert(t[i] == steps[i + 1]);
            }
        }
    }
}

proof fn lemma_first_error_at(steps: Seq<StepView>, i: int)
    requires
        0 <= i < steps.len(),
        !step_is_good(steps[i]),
        forall|j: int| 0 <= j < i ==> step_is_good(#[trigger] steps[j]),
    ensures
        first_error(steps) == step_error(steps[i]),
        step_error(steps[i]) == Some(
            if text::trimmed(steps[i].text).len() == 0 {
                ErrorView::Tool("step text must not be empty"@)
            } else {
                ErrorView::Tool(
                    "unknown step status: "@ + steps[i].status
                        + " (use pending | in_progress | done)"@,
                )
            },
        ),
    decreases steps.len(),
{
    lemma_good(steps[0]);
    lemma_good(steps[i]);
    if i > 0 {
        let t = steps.drop_first();
        assert forall|j: int| 0 <= j < i - 1 implies step_is_good(#[trigger] t[j]) by {
            assert(t[j] == steps[j + 1]);
        }
        assert(t[i - 1] == steps[i]);
        assert(step_is_good(steps[0]));
        lemma_first_error_at(t, i - 1);
    }
}

} // verus!
