use ctrl_cidr::config::App;
use ctrl_cidr::controller_marker;
use ctrl_cidr::scope::{
    AuthMode, effective_regions, plan_assume_scopes, plan_discover_scopes, plan_local_scopes,
    role_arn, select_auth_mode,
};

#[test]
fn fan_out_is_exact_cartesian_product() {
    let roles = vec!["arn:aws:iam::1:role/a".to_string(), "arn:aws:iam::2:role/b".to_string()];
    let regions = vec!["eu-west-1".to_string(), "us-east-1".to_string()];
    let scopes = plan_assume_scopes(&roles, &regions);
    assert_eq!(scopes.len(), 4);
    for (i, role) in roles.iter().enumerate() {
        for (j, region) in regions.iter().enumerate() {
            let task = &scopes[i * regions.len() + j];
            assert_eq!(task.role.as_deref(), Some(role.as_str()));
            assert_eq!(&task.region, region);
        }
    }
}

#[test]
fn local_scopes_use_ambient_identity_per_region() {
    let regions = vec!["eu-west-1".to_string(), "us-east-1".to_string()];
    let scopes = plan_local_scopes(&regions);
    assert_eq!(scopes.len(), 2);
    assert!(scopes.iter().all(|t| t.role.is_none()));
    assert_eq!(scopes[0].region, "eu-west-1");
    assert_eq!(scopes[1].region, "us-east-1");
}

#[test]
fn discover_scopes_synthesize_role_arns() {
    let accounts = vec!["111122223333".to_string(), "444455556666".to_string()];
    let regions = vec!["eu-west-1".to_string()];
    let scopes = plan_discover_scopes(&accounts, "/ops/ingress", &regions);
    assert_eq!(scopes.len(), 2);
    assert_eq!(
        scopes[0].role.as_deref(),
        Some("arn:aws:iam::111122223333:role/ops/ingress")
    );
    assert_eq!(
        scopes[1].role.as_deref(),
        Some("arn:aws:iam::444455556666:role/ops/ingress")
    );
}

#[test]
fn role_arn_is_exact() {
    assert_eq!(role_arn("123456789012", "/x"), "arn:aws:iam::123456789012:role/x");
}

#[test]
fn effective_regions_falls_back_to_ambient() {
    let configured = Some(vec!["eu-west-1".to_string()]);
    assert_eq!(effective_regions(&configured, "us-east-1"), vec!["eu-west-1".to_string()]);
    assert_eq!(effective_regions(&None, "us-east-1"), vec!["us-east-1".to_string()]);
}

#[test]
fn auth_mode_selection_matches_flag_combinations() {
    assert!(matches!(
        select_auth_mode(Some(vec!["r".to_string()]), None, None),
        Some(AuthMode::Assume(_))
    ));
    assert!(matches!(
        select_auth_mode(None, Some("root".to_string()), Some("sub".to_string())),
        Some(AuthMode::Discover(Some(_), _))
    ));
    assert!(matches!(
        select_auth_mode(None, None, Some("sub".to_string())),
        Some(AuthMode::Discover(None, _))
    ));
    assert!(matches!(select_auth_mode(None, None, None), Some(AuthMode::Local)));
    // A root role without a sub-role is contradictory.
    assert!(select_auth_mode(None, Some("root".to_string()), None).is_none());
}

#[test]
fn assemble_derives_tag_keys_and_groups_cidrs() {
    let app = App::assemble(
        vec![
            ("office".to_string(), "10.1.0.0/24".to_string()),
            ("office".to_string(), "10.2.0.0/24".to_string()),
        ],
        None,
        None,
        None,
        None,
        "ingress.controlant.com",
        true,
        false,
        None,
    )
    .unwrap();
    assert_eq!(app.ingress_sources, "ingress.controlant.com/sources");
    assert_eq!(app.ingress_ports, "ingress.controlant.com/ports");
    assert!(app.dry_run);
    assert!(!app.once);
    assert!(app.delete_cidrs.is_empty());
    assert!(matches!(app.auth_mode, AuthMode::Local));
    assert_eq!(
        app.cidrs.get("office").unwrap(),
        vec!["10.1.0.0/24".to_string(), "10.2.0.0/24".to_string()]
    );

    assert!(App::assemble(
        vec![],
        None,
        Some("root".to_string()),
        None,
        None,
        "k",
        false,
        false,
        None,
    )
    .is_none());
}

#[test]
fn marker_names_the_controller() {
    assert_eq!(controller_marker(), "manager:ctrl-cidr");
}
