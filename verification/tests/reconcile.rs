use ctrl_cidr::ingress::{Permission, current_triples, plan_sg_patches, reconcile_security_group};
use ctrl_cidr::merge::{merge_cidr_list, reconcile_cluster};
use ctrl_cidr::registry::{Registry, resolve_sources};

fn registry() -> Registry {
    Registry::new(vec![
        ("office".to_string(), "10.1.0.0/24".to_string()),
        ("vpn".to_string(), "10.2.0.0/24".to_string()),
        ("office".to_string(), "10.3.0.0/24".to_string()),
    ])
}

#[test]
fn registry_groups_repeated_names() {
    let reg = registry();
    assert_eq!(
        reg.get("office").unwrap(),
        vec!["10.1.0.0/24".to_string(), "10.3.0.0/24".to_string()]
    );
    assert_eq!(reg.get("vpn").unwrap(), vec!["10.2.0.0/24".to_string()]);
    assert!(reg.get("absent").is_none());
}

#[test]
fn unknown_group_contributes_nothing_without_error() {
    let reg = registry();
    let resolved = resolve_sources(&reg, "office:unknown:vpn");
    assert_eq!(
        resolved,
        vec![
            "10.1.0.0/24".to_string(),
            "10.3.0.0/24".to_string(),
            "10.2.0.0/24".to_string()
        ]
    );
    assert!(resolve_sources(&reg, "unknown").is_empty());
}

#[test]
fn current_triples_uses_all_ports_sentinel() {
    let perms = vec![
        Permission {
            ip_ranges: vec!["10.1.0.0/24".to_string(), "10.2.0.0/24".to_string()],
            from_port: Some(443),
            ip_protocol: "tcp".to_string(),
        },
        Permission {
            ip_ranges: vec!["10.9.0.0/24".to_string()],
            from_port: None,
            ip_protocol: "-1".to_string(),
        },
    ];
    let cur = current_triples(&perms);
    assert_eq!(cur.len(), 3);
    assert_eq!(cur[0].cidr, "10.1.0.0/24");
    assert_eq!(cur[0].port, 443);
    assert_eq!(cur[0].protocol, "tcp");
    assert_eq!(cur[2].cidr, "10.9.0.0/24");
    assert_eq!(cur[2].port, -1);
    assert_eq!(cur[2].protocol, "-1");
}

#[test]
fn differ_plans_only_missing_prefixes() {
    let sources = vec!["10.1.0.0/24".to_string(), "10.2.0.0/24".to_string()];
    let ports = vec![(443, "tcp".to_string()), (80, "tcp".to_string())];
    let perms = vec![Permission {
        ip_ranges: vec!["10.1.0.0/24".to_string()],
        from_port: Some(443),
        ip_protocol: "tcp".to_string(),
    }];
    let cur = current_triples(&perms);
    let plan = plan_sg_patches(&sources, &ports, &cur);
    assert_eq!(plan.len(), 2);
    assert_eq!(plan[0].port, 443);
    assert_eq!(plan[0].protocol, "tcp");
    assert_eq!(plan[0].cidrs, vec!["10.2.0.0/24".to_string()]);
    assert_eq!(plan[1].port, 80);
    assert_eq!(plan[1].protocol, "tcp");
    assert_eq!(
        plan[1].cidrs,
        vec!["10.1.0.0/24".to_string(), "10.2.0.0/24".to_string()]
    );
}

#[test]
fn differ_protocol_comparison_is_exact() {
    let sources = vec!["10.1.0.0/24".to_string()];
    let ports = vec![(443, "TCP".to_string())];
    let perms = vec![Permission {
        ip_ranges: vec!["10.1.0.0/24".to_string()],
        from_port: Some(443),
        ip_protocol: "tcp".to_string(),
    }];
    let plan = plan_sg_patches(&sources, &ports, &current_triples(&perms));
    assert_eq!(plan.len(), 1);
    assert_eq!(plan[0].protocol, "TCP");
}

#[test]
fn reconcile_sg_converges_after_one_patch() {
    let reg = registry();
    let tags = vec![
        ("ingress.controlant.com/sources".to_string(), "office".to_string()),
        ("ingress.controlant.com/ports".to_string(), "443".to_string()),
    ];
    let perms = vec![];
    let plan = reconcile_security_group(
        &reg,
        &tags,
        "ingress.controlant.com/sources",
        "ingress.controlant.com/ports",
        &perms,
    )
    .unwrap();
    assert_eq!(plan.len(), 1);
    assert_eq!(plan[0].port, 443);
    assert_eq!(
        plan[0].cidrs,
        vec!["10.1.0.0/24".to_string(), "10.3.0.0/24".to_string()]
    );

    // Apply the plan: the provider would now report each granted prefix.
    let perms_after: Vec<Permission> = plan
        .iter()
        .map(|p| Permission {
            ip_ranges: p.cidrs.clone(),
            from_port: Some(p.port),
            ip_protocol: p.protocol.clone(),
        })
        .collect();
    let second = reconcile_security_group(
        &reg,
        &tags,
        "ingress.controlant.com/sources",
        "ingress.controlant.com/ports",
        &perms_after,
    )
    .unwrap();
    assert!(second.is_empty());
}

#[test]
fn reconcile_sg_missing_tag_plans_nothing() {
    let reg = registry();
    let perms = vec![Permission {
        ip_ranges: vec!["10.9.0.0/24".to_string()],
        from_port: Some(22),
        ip_protocol: "tcp".to_string(),
    }];
    let only_sources = vec![("k/sources".to_string(), "office".to_string())];
    assert!(reconcile_security_group(&reg, &only_sources, "k/sources", "k/ports", &perms)
        .unwrap()
        .is_empty());
    let only_ports = vec![("k/ports".to_string(), "443".to_string())];
    assert!(reconcile_security_group(&reg, &only_ports, "k/sources", "k/ports", &perms)
        .unwrap()
        .is_empty());
    let none: Vec<(String, String)> = vec![];
    assert!(reconcile_security_group(&reg, &none, "k/sources", "k/ports", &perms)
        .unwrap()
        .is_empty());
}

#[test]
fn reconcile_sg_bad_ports_tag_fails() {
    let reg = registry();
    let tags = vec![
        ("k/sources".to_string(), "office".to_string()),
        ("k/ports".to_string(), "443:bad".to_string()),
    ];
    assert!(reconcile_security_group(&reg, &tags, "k/sources", "k/ports", &vec![]).is_err());
}

#[test]
fn merge_deduplicates_sorts_and_reports_change() {
    let current = vec!["10.0.0.0/24".to_string()];
    let additions = vec!["10.0.1.0/24".to_string(), "10.0.0.0/24".to_string()];
    let (merged, changed) = merge_cidr_list(&current, &additions);
    assert_eq!(merged, vec!["10.0.0.0/24".to_string(), "10.0.1.0/24".to_string()]);
    assert!(changed);

    let (again, changed_again) = merge_cidr_list(&merged, &additions);
    assert_eq!(again, merged);
    assert!(!changed_again);
}

#[test]
fn merge_never_removes_existing_entries() {
    let current = vec!["10.9.0.0/24".to_string(), "10.0.0.0/24".to_string()];
    let additions = vec!["10.5.0.0/24".to_string()];
    let (merged, changed) = merge_cidr_list(&current, &additions);
    assert!(changed);
    assert_eq!(
        merged,
        vec![
            "10.0.0.0/24".to_string(),
            "10.5.0.0/24".to_string(),
            "10.9.0.0/24".to_string()
        ]
    );
}

#[test]
fn reconcile_cluster_updates_only_on_change() {
    let reg = registry();
    let tags = vec![
        ("k/sources".to_string(), "vpn".to_string()),
        ("k/ports".to_string(), "443".to_string()),
    ];
    let current = vec!["10.0.0.0/24".to_string()];
    let merged = reconcile_cluster(&reg, &tags, "k/sources", "k/ports", &current).unwrap();
    assert_eq!(merged, vec!["10.0.0.0/24".to_string(), "10.2.0.0/24".to_string()]);

    // A second pass over the updated list changes nothing.
    assert!(reconcile_cluster(&reg, &tags, "k/sources", "k/ports", &merged).is_none());

    // A cluster without the sources tag is left alone.
    let untagged: Vec<(String, String)> = vec![("k/ports".to_string(), "443".to_string())];
    assert!(reconcile_cluster(&reg, &untagged, "k/sources", "k/ports", &current).is_none());
}

#[test]
fn reconcile_cluster_missing_ports_tag_is_ignored() {
    // Tag-gating holds for clusters too: a sources tag alone, even one that
    // would add a new prefix, plans no update without the ports tag.
    let reg = registry();
    let tags = vec![("k/sources".to_string(), "vpn".to_string())];
    let current = vec!["10.0.0.0/24".to_string()];
    assert!(reconcile_cluster(&reg, &tags, "k/sources", "k/ports", &current).is_none());

    let none: Vec<(String, String)> = vec![];
    assert!(reconcile_cluster(&reg, &none, "k/sources", "k/ports", &current).is_none());
}

#[test]
fn current_triples_holds_each_triple_once() {
    // The provider may repeat a range; the extracted current state is a set.
    let perms = vec![
        Permission {
            ip_ranges: vec!["10.1.0.0/24".to_string(), "10.1.0.0/24".to_string()],
            from_port: Some(443),
            ip_protocol: "tcp".to_string(),
        },
        Permission {
            ip_ranges: vec!["10.1.0.0/24".to_string()],
            from_port: Some(443),
            ip_protocol: "tcp".to_string(),
        },
    ];
    let cur = current_triples(&perms);
    assert_eq!(cur.len(), 1);
    assert_eq!(cur[0].cidr, "10.1.0.0/24");
    assert_eq!(cur[0].port, 443);
    assert_eq!(cur[0].protocol, "tcp");
}
