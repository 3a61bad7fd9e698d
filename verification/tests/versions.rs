use compat_matrix::versions::{
    compared_text, get_major_versions, is_higher, major_before, operator, stable_version_of, Operator, sort_desc, sort_versions, stable_major_of, stands_before, stands_before_given,
    validate_version, SortOrder, SemVer,
};

fn strings(items: &[&str]) -> Vec<String> {
    items.iter().map(|s| s.to_string()).collect()
}

#[test]
fn test_get_major_versions() {
    let versions: Vec<String> = vec![
        "v3.5.1".to_owned(),
        "v4.1.2".to_owned(),
        "v5.5.1-rc.0".to_owned(),
        "v5.4.5".to_owned(),
        "v3.9.0".to_owned(),
    ];
    let result = get_major_versions(&versions);

    let expected = vec!["v5.4.5", "v4.1.2", "v3.9.0"];
    assert_eq!(&result, &expected)
}

#[test]
fn major_versions_of_its_own_result() {
    let versions = strings(&["v3.5.1", "v4.1.2", "v5.5.1-rc.0", "v5.4.5", "v3.9.0", "latest", "2.0.0", "2.1"]);
    let once = get_major_versions(&versions);
    let twice = get_major_versions(&once);
    assert_eq!(once, twice);
    assert_eq!(once, strings(&["v5.4.5", "v4.1.2", "v3.9.0", "2.0.0"]));
}

#[test]
fn major_versions_of_nothing() {
    assert_eq!(get_major_versions(&Vec::new()), Vec::<String>::new());
}

#[test]
fn major_versions_pass_over_what_is_no_stable_version() {
    let versions = strings(&["latest", "1.2", "1.2.3-beta", "01.2.3", "1.2.3+build7", "v", ""]);
    assert_eq!(get_major_versions(&versions), strings(&["1.2.3+build7"]));
}

#[test]
fn major_versions_keep_one_tag_per_major() {
    let versions = strings(&["1.0.0", "1.0.1", "2.0.0", "1.2.0", "2.0.0"]);
    assert_eq!(get_major_versions(&versions), strings(&["2.0.0", "1.2.0"]));
}

#[test]
fn parts_compare_as_numbers() {
    let versions = strings(&["9.0.0", "10.0.0"]);
    assert_eq!(get_major_versions(&versions), strings(&["10.0.0", "9.0.0"]));
    assert!(stands_before("10", "9", SortOrder::DescendingTags));
    assert!(!stands_before("9", "10", SortOrder::DescendingTags));
    assert!(stands_before("9", "10", SortOrder::Ascending));
}

#[test]
fn equal_versions_keep_their_order() {
    assert!(!stands_before("1.0", "1.0.0", SortOrder::DescendingTags));
    assert!(!stands_before("1.0.0", "1.0", SortOrder::DescendingTags));
    assert_eq!(sort_versions(&strings(&["1.0", "2", "1.0.0"]), SortOrder::DescendingTags), strings(&["2", "1.0", "1.0.0"]));
    assert_eq!(sort_versions(&strings(&["1.0.0", "2", "1.0"]), SortOrder::Ascending), strings(&["1.0.0", "1.0", "2"]));
}

#[test]
fn what_is_no_version_comes_last() {
    assert!(!stands_before("stable", "1.0.0", SortOrder::DescendingTags));
    assert!(stands_before("1.0.0", "stable", SortOrder::DescendingTags));
    assert!(!stands_before("stable", "latest", SortOrder::DescendingTags));
    assert!(!stands_before("latest", "stable", SortOrder::DescendingTags));
    let sorted = sort_versions(&strings(&["1.0.0", "stable", "2.0.0", "latest", "1.5.0"]), SortOrder::DescendingTags);
    assert_eq!(sorted, strings(&["2.0.0", "1.5.0", "1.0.0", "stable", "latest"]));
    let sorted = sort_versions(&strings(&["5.0", "latest", "4.4", "edge", "10.0"]), SortOrder::Ascending);
    assert_eq!(sorted, strings(&["4.4", "5.0", "10.0", "latest", "edge"]));
}

#[test]
fn sort_desc_in_place() {
    let mut versions = strings(&["1.2.3", "1.10.0", "1.9.9", "0.1"]);
    sort_desc(&mut versions);
    assert_eq!(versions, strings(&["1.10.0", "1.9.9", "1.2.3", "0.1"]));
    let again = sort_versions(&versions, SortOrder::DescendingTags);
    assert_eq!(again, versions);
}

#[test]
fn stable_major_of_tags() {
    assert_eq!(stable_major_of("v5.4.5"), Some(5));
    assert_eq!(stable_major_of("5.4.5"), Some(5));
    assert_eq!(stable_major_of("v5.5.1-rc.0"), None);
    assert_eq!(stable_major_of("vv5.4.5"), None);
    assert_eq!(stable_major_of("V5.4.5"), None);
    assert_eq!(stable_major_of("5.4"), None);
    assert_eq!(stable_major_of(""), None);
    assert_eq!(stable_major_of("18446744073709551615.0.0"), Some(u64::MAX));
}

#[test]
fn semantic_versions() {
    let v = SemVer::parse("1.2.3-alpha.1+build").unwrap();
    assert_eq!(v, SemVer { major: 1, minor: 2, patch: 3, pre: "alpha.1".to_string() });
    assert!(!v.is_stable());
    assert_eq!(validate_version(v), None);
    let v = SemVer::parse("10.20.30").unwrap();
    assert!(v.is_stable());
    assert_eq!(validate_version(v.clone()), Some(v));
    assert_eq!(SemVer::parse("1.2"), None);
    assert_eq!(SemVer::parse("v1.2.3"), None);
}

#[test]
fn before_only_one_way() {
    for first in [true, false] {
        for second in [true, false] {
            assert!(stands_before_given(Some(true), Some(false), first, second));
            assert!(!stands_before_given(Some(true), Some(true), first, second));
            assert!(!stands_before_given(Some(false), Some(true), first, second));
            assert!(!stands_before_given(Some(false), Some(false), first, second));
        }
        assert!(stands_before_given(Some(true), None, first, false));
        assert!(!stands_before_given(Some(true), None, first, true));
        assert!(!stands_before_given(None, Some(true), first, true));
        assert!(!stands_before_given(Some(false), None, first, false));
    }
    assert!(stands_before_given(None, None, true, false));
    assert!(stands_before_given(None, Some(false), true, true));
    assert!(!stands_before_given(None, None, false, true));
    assert!(!stands_before_given(None, None, false, false));
    assert!(!stands_before_given(None, None, true, true));
}

#[test]
fn the_highest_tag_of_a_line_is_kept() {
    assert_eq!(get_major_versions(&strings(&["1.0.0", "latest", "1.2.0"])), strings(&["1.2.0"]));
    assert_eq!(get_major_versions(&strings(&["1.0.0", "latest", "1.5.0"])), strings(&["1.5.0"]));
    assert_eq!(get_major_versions(&strings(&["1.0.0", "1.5.0", "latest"])), strings(&["1.5.0"]));
    assert_eq!(get_major_versions(&strings(&["1.2.3", "nightly", "1.2.10", "stable", "1.2.4"])), strings(&["1.2.10"]));
    let versions = strings(&["2.0.0", "1.0.0", "edge", "2.0.1", "1.9.0", "rc", "3.0.0-beta", "1.10.0"]);
    assert_eq!(get_major_versions(&versions), strings(&["2.0.1", "1.10.0"]));
    assert_eq!(
        sort_versions(&strings(&["1.0.0", "latest", "1.5.0"]), SortOrder::DescendingTags),
        strings(&["1.5.0", "1.0.0", "latest"])
    );
}

#[test]
fn of_equal_tags_the_first_is_kept() {
    assert_eq!(get_major_versions(&strings(&["v1.0.0", "1.0.0"])), strings(&["v1.0.0"]));
    assert_eq!(get_major_versions(&strings(&["1.0.0", "v1.0.0"])), strings(&["1.0.0"]));
    assert_eq!(get_major_versions(&strings(&["1.0.0+a", "x", "1.0.0+b", "1.0.0"])).len(), 1);
}

#[test]
fn numbers_of_stable_tags() {
    assert_eq!(stable_version_of("v5.4.5"), Some((5, 4, 5)));
    assert_eq!(stable_version_of("10.20.30+build.7"), Some((10, 20, 30)));
    assert_eq!(stable_version_of("v5.5.1-rc.0"), None);
    assert_eq!(stable_version_of("latest"), None);
    assert_eq!(stable_version_of("1.2"), None);
    assert!(is_higher((1, 2, 10), (1, 2, 9)));
    assert!(is_higher((1, 3, 0), (1, 2, 9)));
    assert!(is_higher((2, 0, 0), (1, 99, 99)));
    assert!(!is_higher((1, 2, 3), (1, 2, 3)));
    assert!(!is_higher((1, 2, 3), (1, 2, 4)));
    assert!(!is_higher((1, 2, 3), (1, 3, 0)));
    assert!(!is_higher((1, 9, 9), (2, 0, 0)));
}

#[test]
fn tags_compare_without_their_leading_v() {
    let versions = strings(&["v9.0.0", "v10.0.0", "v8.1.0"]);
    assert_eq!(get_major_versions(&versions), strings(&["v10.0.0", "v9.0.0", "v8.1.0"]));
    let versions = strings(&["9.0.0", "v10.0.0", "v8.1.0", "11.2.0", "v11.10.0"]);
    assert_eq!(get_major_versions(&versions), strings(&["v11.10.0", "v10.0.0", "9.0.0", "v8.1.0"]));
    assert!(stands_before("v10.0.0", "v9.0.0", SortOrder::DescendingTags));
    assert!(stands_before("v10.0.0", "9.0.0", SortOrder::DescendingTags));
    assert!(!stands_before("v1.0.0", "1.0.0", SortOrder::DescendingTags));
    assert!(!stands_before("1.0.0", "v1.0.0", SortOrder::DescendingTags));
}

#[test]
fn texts_in_ascending_order() {
    assert!(stands_before("9", "10", SortOrder::Ascending));
    assert_eq!(
        sort_versions(&strings(&["5.0", "4.4", "10.0", "4.10"]), SortOrder::Ascending),
        strings(&["4.4", "4.10", "5.0", "10.0"])
    );
}

#[test]
fn what_an_order_compares() {
    assert_eq!(compared_text("v1.2.3", SortOrder::DescendingTags), "1.2.3");
    assert_eq!(compared_text("vv1.2.3", SortOrder::DescendingTags), "v1.2.3");
    assert_eq!(compared_text("1.2.3", SortOrder::DescendingTags), "1.2.3");
    assert_eq!(compared_text("", SortOrder::DescendingTags), "");
    assert_eq!(compared_text("v1.2.3", SortOrder::Ascending), "v1.2.3");
    assert_eq!(operator(SortOrder::Ascending), Operator::Le);
    assert_eq!(operator(SortOrder::DescendingTags), Operator::Ge);
}

#[test]
fn major_lines_descend_whatever_the_tags_hold() {
    assert_eq!(
        get_major_versions(&strings(&["5.0.0", "99999999999.0.0", "6.1.0"])),
        strings(&["99999999999.0.0", "6.1.0", "5.0.0"])
    );
    assert_eq!(
        get_major_versions(&strings(&["1.0.0+x", "3.0.0+a", "2.0.0"])),
        strings(&["3.0.0+a", "2.0.0", "1.0.0+x"])
    );
    let mixed = strings(&["v2.0.0", "10.1.0", "latest", "v10.2.0", "9.9.9", "2.0.1-rc", "0.1.0"]);
    assert_eq!(get_major_versions(&mixed), strings(&["v10.2.0", "9.9.9", "v2.0.0", "0.1.0"]));
}

#[test]
fn tags_in_the_order_of_their_major_lines() {
    assert!(major_before(Some(2), Some(1)));
    assert!(!major_before(Some(1), Some(1)));
    assert!(!major_before(Some(1), Some(2)));
    assert!(!major_before(None, Some(2)));
    assert!(major_before(Some(2), None));
    assert!(!major_before(None, None));
    assert!(stands_before("v3.0.0", "2.9.9", SortOrder::DescendingMajors));
    assert!(!stands_before("3.1.0", "3.0.0", SortOrder::DescendingMajors));
    assert!(stands_before("3.0.0", "latest", SortOrder::DescendingMajors));
    assert!(!stands_before("latest", "3.0.0", SortOrder::DescendingMajors));
    assert_eq!(
        sort_versions(&strings(&["1.5.0", "3.0.0", "x", "4.0.0", "1.9.0", "2.0.0-rc", "9.0.0"]), SortOrder::DescendingMajors),
        strings(&["9.0.0", "4.0.0", "3.0.0", "1.5.0", "1.9.0", "x", "2.0.0-rc"])
    );
    assert_eq!(
        sort_versions(&strings(&["1.5.0", "3.0.0", "4.0.0", "1.9.0", "9.0.0"]), SortOrder::DescendingMajors),
        strings(&["9.0.0", "4.0.0", "3.0.0", "1.5.0", "1.9.0"])
    );
    assert_eq!(operator(SortOrder::DescendingMajors), Operator::Ge);
    assert_eq!(compared_text("v1.2.3", SortOrder::DescendingMajors), "v1.2.3");
}
