//! The command that builds canisters.

use crate::views::views;
use vstd::prelude::*;

verus! {

/// What is said when canisters are only built to check that they build.
pub const CHECK_WARNING: &'static str =
    "Building canisters to check they build ok. Canister IDs might be hard coded.";

/// What is said before canisters are built.
pub const BUILDING: &'static str = "Building canisters...";

/// One thing to do to build the canisters of a pool. The first that fails ends the command.
#[derive(Debug, PartialEq)]
pub enum BuildStep {
    /// Warn with this text.
    Warn(String),
    /// Open the store of canister identifiers.
    OpenIdStore,
    /// Look up the identifier of the canister with this name.
    GetId(String),
    /// Inform with this text.
    Inform(String),
    /// Build the pool, only to check that it builds or not.
    Build { build_mode_check: bool },
}

/// What a [`BuildStep`] says.
pub enum BuildStepView {
    Warn { text: Seq<char> },
    OpenIdStore,
    GetId { canister_name: Seq<char> },
    Inform { text: Seq<char> },
    Build { build_mode_check: bool },
}

impl View for BuildStep {
    type V = BuildStepView;

    open spec fn view(&self) -> BuildStepView {
        match self {
            BuildStep::Warn(text) => BuildStepView::Warn { text: text@ },
            BuildStep::OpenIdStore => BuildStepView::OpenIdStore,
            BuildStep::GetId(canister_name) => BuildStepView::GetId {
                canister_name: canister_name@,
            },
            BuildStep::Inform(text) => BuildStepView::Inform { text: text@ },
            BuildStep::Build { build_mode_check } => BuildStepView::Build {
                build_mode_check: *build_mode_check,
            },
        }
    }
}

/// What comes before canisters are built: a warning if they are only built to check that they
/// build, and else a look at the identifier of each, which fails for a canister that has not been
/// created.
pub open spec fn preparation(build_mode_check: bool, canister_names: Seq<Seq<char>>) -> Seq<
    BuildStepView,
> {
    if build_mode_check {
        seq![BuildStepView::Warn { text: CHECK_WARNING@ }]
    } else {
        seq![BuildStepView::OpenIdStore] + canister_names.map_values(
            |canister_name: Seq<char>| BuildStepView::GetId { canister_name },
        )
    }
}

/// The steps in which a pool of canisters with these names is built.
pub fn build_steps(build_mode_check: bool, canister_names: &Vec<String>) -> (steps: Vec<BuildStep>)
    ensures
        views(steps@) == preparation(build_mode_check, views(canister_names@)) + seq![
            BuildStepView::Inform { text: BUILDING@ },
            BuildStepView::Build { build_mode_check },
        ],
        build_mode_check ==> {
            &&& steps@.len() == 3
            &&& steps@[0] matches BuildStep::Warn(text)
            &&& text@
                == "Building canisters to check they build ok. Canister IDs might be hard coded."@
            &&& steps@[1] matches BuildStep::Inform(text)
            &&& text@ == "Building canisters..."@
            &&& steps@[2] == (BuildStep::Build { build_mode_check: true })
        },
        !build_mode_check ==> {
            &&& steps@.len() == canister_names@.len() + 3
            &&& steps@[0] == BuildStep::OpenIdStore
            &&& forall|i: int|
                0 <= i < canister_names@.len() ==> (#[trigger] steps@[i + 1] matches BuildStep::GetId(
                    canister_name,
                ) && canister_name@ == canister_names@[i]@)
            &&& steps@[steps@.len() - 2] matches BuildStep::Inform(text)
            &&& text@ == "Building canisters..."@
            &&& steps@[steps@.len() - 1] == (BuildStep::Build { build_mode_check: false })
        },
{
    let ghost prepared = preparation(build_mode_check, views(canister_names@));
    let mut steps: Vec<BuildStep> = Vec::new();
    if build_mode_check {
        steps.push(BuildStep::Warn(CHECK_WARNING.to_owned()));
        assert(views(steps@) =~= prepared);
    } else {
        steps.push(BuildStep::OpenIdStore);
        assert(views(steps@) =~= prepared.take(1));
        let n: usize = canister_names.len();
        let mut i: usize = 0;
        while i < n
            invariant
                n == canister_names@.len(),
                i <= n,
                prepared == preparation(false, views(canister_names@)),
                views(steps@) == prepared.take(i + 1),
                steps@.len() == i + 1,
                steps@[0] == BuildStep::OpenIdStore,
                forall|j: int|
                    0 <= j < i ==> (#[trigger] steps@[j + 1] matches BuildStep::GetId(canister_name)
                        && canister_name@ == canister_names@[j]@),
            decreases n - i,
        {
            let ghost before = views(steps@);
            steps.push(BuildStep::GetId(canister_names[i].clone()));
            proof {
                assert(prepared[i + 1] == BuildStepView::GetId {
                    canister_name: views(canister_names@)[i as int],
                });
                assert(views(steps@) =~= before.push(prepared[i + 1]));
                assert(prepared.take(i + 2) =~= prepared.take(i + 1).push(prepared[i + 1]));
            }
            i += 1;
        }
        assert(prepared.take(n + 1) =~= prepared);
    }
    steps.push(BuildStep::Inform(BUILDING.to_owned()));
    steps.push(BuildStep::Build { build_mode_check });
    assert(views(steps@) =~= prepared + seq![
        BuildStepView::Inform { text: BUILDING@ },
        BuildStepView::Build { build_mode_check },
    ]);
    steps
}

/// A check looks no identifier up and opens no store of them, and its steps are the same for any
/// pool: canisters that have not been created can be checked.
pub proof fn lemma_check_needs_no_canisters(
    canister_names: &Vec<String>,
    steps: Vec<BuildStep>,
    other_names: &Vec<String>,
    other_steps: Vec<BuildStep>,
)
    requires
        call_ensures(build_steps, (true, canister_names), steps),
        call_ensures(build_steps, (true, other_names), other_steps),
    ensures
        forall|i: int|
            0 <= i < steps@.len() ==> !(#[trigger] steps@[i] is OpenIdStore) && !(
            steps@[i] is GetId),
        exists|i: int| 0 <= i < steps@.len() && #[trigger] steps@[i] is Warn,
        steps@.len() == other_steps@.len(),
        forall|i: int| 0 <= i < steps@.len() ==> (#[trigger] steps@[i])@ == other_steps@[i]@,
{
    assert(steps@[0] is Warn);
    assert forall|i: int| 0 <= i < steps@.len() implies (#[trigger] steps@[i])@
        == other_steps@[i]@ by {
        assert(i == 0 || i == 1 || i == 2);
    }
}

/// What is built for good is looked up first: whatever step builds the pool, every canister of the
/// pool is looked up before it, and the store is open before that. Nothing else is looked up, and
/// nothing is said of a check.
pub proof fn lemma_every_canister_is_looked_up(
    canister_names: &Vec<String>,
    steps: Vec<BuildStep>,
    build: int,
)
    requires
        call_ensures(build_steps, (false, canister_names), steps),
        0 <= build < steps@.len(),
        steps@[build] is Build,
    ensures
        build == steps@.len() - 1,
        steps@[build] == (BuildStep::Build { build_mode_check: false }),
        forall|n: int|
            0 <= n < canister_names@.len() ==> exists|i: int|
                0 < i < build && (#[trigger] steps@[i] matches BuildStep::GetId(canister_name)
                    && canister_name@ == (#[trigger] canister_names@[n])@),
        forall|i: int|
            0 <= i < steps@.len() ==> (#[trigger] steps@[i] matches BuildStep::GetId(canister_name)
                ==> exists|n: int|
                0 <= n < canister_names@.len() && (#[trigger] canister_names@[n])@
                    == canister_name@),
        steps@[0] is OpenIdStore,
        forall|i: int| 0 <= i < steps@.len() ==> !(#[trigger] steps@[i] is Warn),
{
    let count = canister_names@.len() as int;
    assert forall|i: int| 1 <= i <= count implies (#[trigger] steps@[i] matches BuildStep::GetId(
        canister_name,
    ) && canister_name@ == canister_names@[i - 1]@) by {
        assert(steps@[(i - 1) + 1] is GetId);
    }
    assert forall|n: int| 0 <= n < count implies exists|i: int|
        0 < i < build && (#[trigger] steps@[i] matches BuildStep::GetId(canister_name)
            && canister_name@ == (#[trigger] canister_names@[n])@) by {
        assert(steps@[n + 1] is GetId);
    }
}

/// What a step says is what its fields say.
pub proof fn lemma_build_step_view(step: BuildStep)
    ensures
        match step {
            BuildStep::Warn(text) => step@ == (BuildStepView::Warn { text: text@ }),
            BuildStep::OpenIdStore => step@ == BuildStepView::OpenIdStore,
            BuildStep::GetId(name) => step@ == (BuildStepView::GetId { canister_name: name@ }),
            BuildStep::Inform(text) => step@ == (BuildStepView::Inform { text: text@ }),
            BuildStep::Build { build_mode_check } => step@ == (BuildStepView::Build {
                build_mode_check,
            }),
        },
{
}

} // verus!
