use da_core::{extract_family_info, group_families, looks_like_variant};

#[test]
fn test_extract_family_base() {
    let (family, suffix) = extract_family_info("abi_base");
    assert_eq!(family, "abi_base");
    assert_eq!(suffix, None);
}

#[test]
fn test_extract_family_with_suffix() {
    let (family, suffix) = extract_family_info("abi_base_kcc");
    assert_eq!(family, "abi_base");
    assert_eq!(suffix, Some("kcc".to_string()));
}

#[test]
fn test_extract_family_achievements() {
    let (family, suffix) = extract_family_info("achievements_ep1");
    assert_eq!(family, "achievements");
    assert_eq!(suffix, Some("ep1".to_string()));
}

#[test]
fn test_extract_family_unknown_suffix() {
    // Unknown suffix should be treated as part of the base name
    let (family, suffix) = extract_family_info("some_table_xyz");
    assert_eq!(family, "some_table_xyz");
    assert_eq!(suffix, None);
}

#[test]
fn test_looks_like_variant() {
    assert!(looks_like_variant("base_kcc"));
    assert!(looks_like_variant("something_ep1"));
    assert!(!looks_like_variant("no_suffix_here_toolong"));
    assert!(!looks_like_variant("single"));
}

#[test]
fn extract_longer_tags() {
    assert_eq!(extract_family_info("x_vala"), ("x".to_string(), Some("vala".to_string())));
    assert_eq!(extract_family_info("x_val"), ("x".to_string(), Some("val".to_string())));
    assert_eq!(extract_family_info("ai_abilities_cond_str"), ("ai_abilities_cond".to_string(), Some("str".to_string())));
    assert_eq!(extract_family_info("kcc"), ("kcc".to_string(), None));
    assert_eq!(extract_family_info("_kcc"), ("".to_string(), Some("kcc".to_string())));
}

#[test]
fn looks_like_variant_edges() {
    assert!(looks_like_variant("a_b2"));
    assert!(!looks_like_variant("a_b"));
    assert!(looks_like_variant("a_abcde"));
    assert!(!looks_like_variant("a_ab-c"));
    assert!(!looks_like_variant("a_"));
}

fn entry(path: &str, stem: &str) -> (String, String) {
    (path.to_string(), stem.to_string())
}

#[test]
fn grouping_sorts_families_and_members() {
    let files = vec![
        entry("r/zeta.csv", "zeta"),
        entry("r/abi_base_kcc.csv", "abi_base_kcc"),
        entry("r/abi_base_ep1.csv", "abi_base_ep1"),
        entry("s/abi_base.csv", "abi_base"),
        entry("r/abi_base.csv", "abi_base"),
        entry("r/other_xyz.csv", "other_xyz"),
    ];
    let result = group_families(vec!["r".to_string(), "s".to_string()], files);
    assert_eq!(result.total_files, 6);
    assert_eq!(result.roots, vec!["r".to_string(), "s".to_string()]);
    assert_eq!(result.family_names(), vec!["abi_base", "other_xyz", "zeta"]);
    let abi = result.find_family("abi_base").unwrap();
    let paths: Vec<&str> = abi.members.iter().map(|m| m.path.as_str()).collect();
    assert_eq!(paths, vec!["r/abi_base.csv", "s/abi_base.csv", "r/abi_base_ep1.csv", "r/abi_base_kcc.csv"]);
    assert_eq!(abi.base_file().unwrap().path, "r/abi_base.csv");
    let tags: Vec<Option<String>> = abi.variants().iter().map(|m| m.suffix.clone()).collect();
    assert_eq!(tags, vec![Some("ep1".to_string()), Some("kcc".to_string())]);
    assert!(result.find_family("missing").is_none());
}

#[test]
fn grouping_of_no_files() {
    let result = group_families(vec![], vec![]);
    assert_eq!(result.total_files, 0);
    assert!(result.families.is_empty());
}

#[test]
fn base_files_order_by_path_components() {
    let files = vec![
        entry("x/a-b/t.csv", "t"),
        entry("x/a/t.csv", "t"),
        entry("x/a/t_kcc.csv", "t_kcc"),
    ];
    let result = group_families(vec!["x".to_string()], files);
    let t = result.find_family("t").unwrap();
    let paths: Vec<&str> = t.members.iter().map(|m| m.path.as_str()).collect();
    assert_eq!(paths, vec!["x/a/t.csv", "x/a-b/t.csv", "x/a/t_kcc.csv"]);
}
