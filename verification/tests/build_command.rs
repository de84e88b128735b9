use dfx::build_command::{build_steps, BuildStep};

#[test]
fn identifiers_are_looked_up_before_canisters_are_built() {
    let names = vec!["backend".to_string(), "frontend".to_string()];
    assert_eq!(
        build_steps(false, &names),
        vec![
            BuildStep::OpenIdStore,
            BuildStep::GetId("backend".to_string()),
            BuildStep::GetId("frontend".to_string()),
            BuildStep::Inform("Building canisters...".to_string()),
            BuildStep::Build { build_mode_check: false },
        ]
    );
}

#[test]
fn a_check_only_warns() {
    let names = vec!["backend".to_string()];
    assert_eq!(
        build_steps(true, &names),
        vec![
            BuildStep::Warn(
                "Building canisters to check they build ok. Canister IDs might be hard coded."
                    .to_string()
            ),
            BuildStep::Inform("Building canisters...".to_string()),
            BuildStep::Build { build_mode_check: true },
        ]
    );
}

#[test]
fn no_canisters_are_built_too() {
    assert_eq!(
        build_steps(false, &vec![]),
        vec![
            BuildStep::OpenIdStore,
            BuildStep::Inform("Building canisters...".to_string()),
            BuildStep::Build { build_mode_check: false },
        ]
    );
}
