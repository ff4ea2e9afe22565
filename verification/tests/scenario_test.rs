use tfdiff::models::ActionType;
use tfdiff::models::PlanMode;
use tfdiff::models::TerraformPlan;
use tfdiff::models::TfValue;
use tfdiff::parser::clean_ansi_codes;
use tfdiff::parser::clean_input;
use tfdiff::parser::clean_prefixes;
use tfdiff::parser::clean_spinner_chars;
use tfdiff::parser::detect_mode;
use tfdiff::parser::extract_summary;
use tfdiff::parser::fix_broken_lines;
use tfdiff::parser::parse_resource_changes;
use tfdiff::parser::parse_terraform_output;
use tfdiff::generate_web_assets;

#[test]
fn test_scenario_plan_only_line() {
    let plan = parse_terraform_output("Plan: 1 to add, 0 to change, 0 to destroy.").unwrap();
    assert_eq!(plan.mode, PlanMode::Plan);
    assert_eq!(plan.summary.add, 1);
    assert_eq!(plan.summary.change, 0);
    assert_eq!(plan.summary.destroy, 0);
    assert_eq!(plan.summary.read, 0);
    assert_eq!(plan.resources.len(), 0);
}

#[test]
fn test_scenario_apply_only_line() {
    let plan =
        parse_terraform_output("Apply complete! Resources: 3 added, 0 changed, 0 destroyed.")
            .unwrap();
    assert_eq!(plan.mode, PlanMode::Apply);
    assert_eq!(plan.summary.add, 3);
    assert_eq!(plan.summary.change, 0);
    assert_eq!(plan.summary.destroy, 0);
}

#[test]
fn test_scenario_create_block_attributes() {
    let input = "# aws_s3_bucket.test will be created\n+ resource \"aws_s3_bucket\" \"test\" {\n+   bucket = \"test-bucket\"\n+   id     = (known after apply)\n  }\nPlan: 1 to add, 0 to change, 0 to destroy.";
    let plan = parse_terraform_output(input).unwrap();
    assert_eq!(plan.resources.len(), 1);
    let r = &plan.resources[0];
    assert_eq!(r.action, ActionType::Create);
    assert_eq!(r.id, "aws_s3_bucket.test");
    let bucket = r.attributes.iter().find(|e| e.0 == "bucket").expect("bucket attribute");
    assert!(matches!(&bucket.1, TfValue::Str(s) if s == "+ \"test-bucket\""));
    let id = r.attributes.iter().find(|e| e.0 == "id").expect("id attribute");
    assert!(matches!(&id.1, TfValue::Str(s) if s == "(known after apply)"));
}

#[test]
fn test_scenario_update_change_record() {
    let lines = vec![
        "# aws_instance.web will be updated in-place",
        "~ resource \"aws_instance\" \"web\" {",
        "~   instance_type = \"t2.micro\" -> \"t3.small\"",
        "  }",
    ];
    let resources = parse_resource_changes(&lines);
    assert_eq!(resources.len(), 1);
    let changes = &resources[0].changes;
    assert_eq!(changes.len(), 1);
    let c = &changes[0];
    assert_eq!(c.path, vec!["instance_type".to_string()]);
    assert!(matches!(&c.before, Some(TfValue::Str(s)) if s == "t2.micro"));
    assert!(matches!(&c.after, Some(TfValue::Str(s)) if s == "t3.small"));
    assert!(!c.sensitive);
    assert!(!c.computed);
}

#[test]
fn test_resource_identity_fields() {
    let lines = vec![
        "# aws_s3_bucket.mybucket will be created",
        "+ resource \"aws_s3_bucket\" \"mybucket\" {",
        "}",
    ];
    let resources = parse_resource_changes(&lines);
    assert_eq!(resources.len(), 1);
    let r = &resources[0];
    assert_eq!(r.action, ActionType::Create);
    assert_eq!(r.id, "aws_s3_bucket.mybucket");
    assert_eq!(r.name, "mybucket");
    assert_eq!(r.res_type, "aws_s3_bucket");
    assert_eq!(r.provider, "aws");
    assert!(!r.applied);
    assert!(r.changes.is_empty());
}

#[test]
fn test_provider_unknown_without_underscore() {
    let lines = vec!["# random.pet will be created", "+ resource \"random\" \"pet\" {", "}"];
    let resources = parse_resource_changes(&lines);
    assert_eq!(resources.len(), 1);
    assert_eq!(resources[0].provider, "unknown");
}

#[test]
fn test_never_fails_on_garbage() {
    let inputs = vec![
        "",
        "a",
        "\u{1b}",
        "\u{1b}[",
        "{{{{}}}}}}",
        "# aws_ will be created",
        "+ resource \"x\" \"y\" {",
        "Plan: x to add",
        "\r\r\r\n\n",
        "⠋⠙⠹ base14-cd",
        "= -> = ->",
    ];
    for input in inputs {
        let plan = parse_terraform_output(input).unwrap();
        assert!(plan.data_sources.is_empty());
        assert!(plan.warnings.is_empty());
    }
}

#[test]
fn test_summary_fidelity_values() {
    let cases: Vec<(u64, u64, u64)> = vec![(0, 0, 0), (1, 2, 3), (10, 999, 5)];
    for (a, c, d) in cases {
        let line = format!("Plan: {} to add, {} to change, {} to destroy.", a, c, d);
        let lines = vec![line.as_str()];
        let summary = extract_summary(&lines).unwrap();
        assert_eq!(summary.add as u64, a);
        assert_eq!(summary.change as u64, c);
        assert_eq!(summary.destroy as u64, d);
        assert_eq!(summary.read, 0);
    }
}

#[test]
fn test_summary_largest_count() {
    let lines = vec!["Plan: 18446744073709551615 to add, 0 to change, 1 to destroy."];
    let summary = extract_summary(&lines).unwrap();
    assert_eq!(summary.add, usize::MAX);
    assert_eq!(summary.destroy, 1);
}

#[test]
fn test_summary_overflowing_count_defaults_to_zero() {
    let lines = vec!["Plan: 99999999999999999999 to add, 1 to change, 2 to destroy."];
    let summary = extract_summary(&lines).unwrap();
    assert_eq!(summary.add, 0);
    assert_eq!(summary.change, 1);
    assert_eq!(summary.destroy, 2);
}

#[test]
fn test_apply_summary_fidelity_values() {
    let cases: Vec<(u64, u64, u64)> = vec![(0, 0, 0), (7, 1, 4)];
    for (a, c, d) in cases {
        let line = format!("Apply complete! Resources: {} added, {} changed, {} destroyed.", a, c, d);
        let lines = vec![line.as_str()];
        let summary = extract_summary(&lines).unwrap();
        assert_eq!(summary.add as u64, a);
        assert_eq!(summary.change as u64, c);
        assert_eq!(summary.destroy as u64, d);
    }
}

#[test]
fn test_ansi_purity_on_partial_sequences() {
    let inputs = vec!["\u{1b}", "\u{1b}[", "\u{1b}[31", "\u{1b}X", "abc\u{1b}[0m\u{1b}", "\u{1b}[0;32mOK\u{1b}[m"];
    for input in inputs {
        let cleaned = clean_ansi_codes(input);
        assert!(!cleaned.contains('\u{1b}'), "escape survived in {:?}", cleaned);
    }
    assert_eq!(clean_ansi_codes("\u{1b}["), "[");
    assert_eq!(clean_ansi_codes("\u{1b}[31"), "[31");
    assert_eq!(clean_ansi_codes("\u{1b}X"), "X");
}

#[test]
fn test_spinner_purity_mixed() {
    let spinners = ['⠋', '⠙', '⠹', '⠸', '⠼', '⠴', '⠦', '⠧', '⠇', '⠏'];
    let input = "⠋a⠙b⠹c⠸d⠼e⠴f⠦g⠧h⠇i⠏j";
    let cleaned = clean_spinner_chars(input);
    for s in spinners {
        assert!(!cleaned.contains(s));
    }
    assert_eq!(cleaned, "abcdefghij");
}

#[test]
fn test_normalize_idempotent_on_sample() {
    let input = "\u{1b}[32m⠙# aws_s3_bucket.a will be created\u{1b}[0m\r\nbase14-aws-x  + resource \"aws_s3_bucket\" \"a\" {\r\n+ bucket = \"b\"\r}\n";
    let once = clean_input(input).unwrap();
    let twice = clean_input(&once).unwrap();
    assert_eq!(once, twice);
}

#[test]
fn test_fix_broken_lines_merges_pair() {
    let input = "# aws_s3_bucket.a (info\n) will be created\nnext";
    let fixed = fix_broken_lines(input);
    assert_eq!(fixed, "# aws_s3_bucket.a (info) will be created\nnext");
}

#[test]
fn test_fix_broken_lines_leaves_complete_headers() {
    let input = "# aws_s3_bucket.a will be created\n) will be created";
    let fixed = fix_broken_lines(input);
    assert_eq!(fixed, input);
}

#[test]
fn test_clean_prefixes_keeps_indentation() {
    assert_eq!(clean_prefixes("base14-aws-x  hello"), "hello");
    assert_eq!(clean_prefixes("   base14-aws-x  hello"), "   hello");
    assert_eq!(clean_prefixes("plain line"), "plain line");
}

#[test]
fn test_detect_mode_first_marker_wins() {
    let lines = vec![
        "Apply complete! Resources: 1 added, 0 changed, 0 destroyed.",
        "Plan: 1 to add, 0 to change, 0 to destroy.",
    ];
    assert_eq!(detect_mode(&lines).unwrap(), PlanMode::Apply);
}

#[test]
fn test_update_value_coercion_integers() {
    let lines = vec![
        "# aws_instance.a will be updated",
        "~ resource \"aws_instance\" \"a\" {",
        "~ count = 1 -> 2",
        "}",
    ];
    let resources = parse_resource_changes(&lines);
    let c = &resources[0].changes[0];
    assert!(matches!(c.before, Some(TfValue::Int(1))));
    assert!(matches!(c.after, Some(TfValue::Int(2))));
}

#[test]
fn test_update_value_coercion_bool_null_float() {
    let lines = vec![
        "# aws_instance.a will be updated",
        "~ resource \"aws_instance\" \"a\" {",
        "~ flag = true -> false",
        "~ x = null -> 1.5",
        "}",
    ];
    let resources = parse_resource_changes(&lines);
    let changes = &resources[0].changes;
    assert_eq!(changes.len(), 2);
    assert!(matches!(changes[0].before, Some(TfValue::Bool(true))));
    assert!(matches!(changes[0].after, Some(TfValue::Bool(false))));
    assert!(matches!(changes[1].before, Some(TfValue::Null)));
    assert!(matches!(&changes[1].after, Some(TfValue::Num(s)) if s == "1.5"));
}

#[test]
fn test_update_value_coercion_arrays() {
    let lines = vec![
        "# aws_instance.a will be updated",
        "~ resource \"aws_instance\" \"a\" {",
        "~ roles = [\"a\"] -> [\"a\", \"b\"]",
        "}",
    ];
    let resources = parse_resource_changes(&lines);
    let c = &resources[0].changes[0];
    match &c.before {
        Some(TfValue::Array(items)) => {
            assert_eq!(items.len(), 1);
            assert!(matches!(&items[0], TfValue::Str(s) if s == "a"));
        }
        other => panic!("expected array, got {:?}", other),
    }
    match &c.after {
        Some(TfValue::Array(items)) => {
            assert_eq!(items.len(), 2);
            assert!(matches!(&items[1], TfValue::Str(s) if s == "b"));
        }
        other => panic!("expected array, got {:?}", other),
    }
}

#[test]
fn test_update_addition_known_after_apply_is_computed() {
    let lines = vec![
        "# aws_instance.a will be updated",
        "~ resource \"aws_instance\" \"a\" {",
        "+ arn = (known after apply)",
        "}",
    ];
    let resources = parse_resource_changes(&lines);
    let c = &resources[0].changes[0];
    assert_eq!(c.path, vec!["arn".to_string()]);
    assert!(c.before.is_none());
    assert!(matches!(&c.after, Some(TfValue::Str(s)) if s == "(known after apply)"));
    assert!(c.computed);
}

#[test]
fn test_update_unmarked_known_after_apply_is_computed() {
    let lines = vec![
        "# aws_instance.a will be updated",
        "~ resource \"aws_instance\" \"a\" {",
        "  id = (known after apply)",
        "}",
    ];
    let resources = parse_resource_changes(&lines);
    let c = &resources[0].changes[0];
    assert_eq!(c.path, vec!["id".to_string()]);
    assert!(c.before.is_none());
    assert!(c.after.is_none());
    assert!(c.computed);
}

#[test]
fn test_update_removal_change() {
    let lines = vec![
        "# aws_instance.a will be updated",
        "~ resource \"aws_instance\" \"a\" {",
        "- old_field = \"gone\"",
        "}",
    ];
    let resources = parse_resource_changes(&lines);
    let c = &resources[0].changes[0];
    assert!(matches!(&c.before, Some(TfValue::Str(s)) if s == "gone"));
    assert!(c.after.is_none());
}

#[test]
fn test_destroy_block_attribute_prefixes() {
    let lines = vec![
        "# aws_security_group.old will be destroyed",
        "- resource \"aws_security_group\" \"old\" {",
        "-   id = \"sg-1\"",
        "  }",
    ];
    let resources = parse_resource_changes(&lines);
    let id = resources[0].attributes.iter().find(|e| e.0 == "id").expect("id attribute");
    assert!(matches!(&id.1, TfValue::Str(s) if s == "- \"sg-1\""));
}

#[test]
fn test_flat_arrow_collapses_to_display_text() {
    let lines = vec![
        "# aws_security_group.old will be destroyed",
        "- resource \"aws_security_group\" \"old\" {",
        "~ kind = \"a\" -> \"b\"",
        "  }",
    ];
    let resources = parse_resource_changes(&lines);
    let kind = resources[0].attributes.iter().find(|e| e.0 == "kind").expect("kind attribute");
    assert!(matches!(&kind.1, TfValue::Str(s) if s == "\"a\" → \"b\""));
}

#[test]
fn test_repeated_attribute_keys_keep_one_entry() {
    let lines = vec![
        "# aws_s3_bucket.a will be created",
        "+ resource \"aws_s3_bucket\" \"a\" {",
        "+ tag = \"x\"",
        "+ tag = \"y\"",
        "  }",
    ];
    let resources = parse_resource_changes(&lines);
    let attrs = &resources[0].attributes;
    assert_eq!(attrs.iter().filter(|e| e.0 == "tag").count(), 1);
    let tag = attrs.iter().find(|e| e.0 == "tag").unwrap();
    assert!(matches!(&tag.1, TfValue::Str(s) if s == "+ \"y\""));
}

#[test]
fn test_nested_block_lines_are_consumed_silently() {
    let lines = vec![
        "# aws_instance.a will be created",
        "+ resource \"aws_instance\" \"a\" {",
        "+ tags = {",
        "+   \"Name\" = \"x\"",
        "  }",
        "+ ami = \"ami-1\"",
        "  }",
    ];
    let resources = parse_resource_changes(&lines);
    let attrs = &resources[0].attributes;
    assert!(attrs.iter().any(|e| e.0 == "tags"));
    assert!(attrs.iter().any(|e| e.0 == "ami"));
    assert!(!attrs.iter().any(|e| e.0 == "\"Name\""));
}

#[test]
fn test_unterminated_block_is_flushed() {
    let lines = vec![
        "# aws_s3_bucket.a will be created",
        "+ resource \"aws_s3_bucket\" \"a\" {",
        "+ bucket = \"b\"",
    ];
    let resources = parse_resource_changes(&lines);
    assert_eq!(resources.len(), 1);
    assert!(resources[0].attributes.iter().any(|e| e.0 == "bucket"));
}

#[test]
fn test_default_plan_is_empty() {
    let plan = TerraformPlan::default();
    assert_eq!(plan.mode, PlanMode::Plan);
    assert_eq!(plan.summary.add, 0);
    assert_eq!(plan.summary.change, 0);
    assert_eq!(plan.summary.destroy, 0);
    assert_eq!(plan.summary.read, 0);
    assert!(plan.resources.is_empty());
    assert!(plan.data_sources.is_empty());
    assert!(plan.warnings.is_empty());
    assert!(plan.metadata.terraform_version.is_none());
}

#[test]
fn test_web_assets_shell() {
    let assets = generate_web_assets();
    assert!(assets.contains("<!DOCTYPE html>"));
    assert!(assets.contains("</html>"));
}
