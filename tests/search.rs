use std::cmp::Ordering;
use storage_core::search::{
    compare_decimals, compare_keys, compare_sort_values, compare_strings, contains,
    evaluate_condition, find, starts_with, Decimal, SearchCondition, SearchCriteria, SearchOp,
    SearchRow, SearchValue, SortField, SortValue,
};

fn dec(m: i128, s: u32) -> Decimal {
    Decimal::new(m, s).unwrap()
}

fn text(s: &str) -> Option<SortValue> {
    Some(SortValue::String(s.to_string()))
}

fn cond(op: SearchOp, value: SearchValue) -> SearchCondition {
    SearchCondition { field: "f".to_string(), operator: op, value }
}

#[test]
fn decimals_compare_by_value() {
    assert_eq!(compare_decimals(&dec(10, 1), &dec(100, 2)), Ordering::Equal);
    assert_eq!(compare_decimals(&dec(15, 1), &dec(125, 2)), Ordering::Greater);
    assert_eq!(compare_decimals(&dec(-5, 1), &dec(-1, 2)), Ordering::Less);
    assert!(Decimal::new(1, 29).is_none());
    assert!(Decimal::new(1i128 << 96, 0).is_none());
    assert_eq!(dec(-7, 3).mantissa(), -7);
    assert_eq!(dec(-7, 3).scale(), 3);
}

#[test]
fn strings_compare_and_match() {
    assert_eq!(compare_strings("apple", "banana"), Ordering::Less);
    assert_eq!(compare_strings("b", "apple"), Ordering::Greater);
    assert_eq!(compare_strings("ab", "ab"), Ordering::Equal);
    assert_eq!(compare_strings("ab", "abc"), Ordering::Less);
    assert!(starts_with("hello", "he"));
    assert!(!starts_with("he", "hello"));
    assert!(contains("hello", "ll"));
    assert!(contains("hello", ""));
    assert!(!contains("hello", "lo!"));
}

#[test]
fn values_of_different_variants_compare_equal() {
    assert_eq!(
        compare_sort_values(&SortValue::Int(1), &SortValue::String("a".to_string())),
        Ordering::Equal
    );
    assert_eq!(compare_sort_values(&SortValue::Int(1), &SortValue::Int(2)), Ordering::Less);
}

#[test]
fn condition_operators() {
    let name = text("alice");
    assert!(evaluate_condition(&name, &cond(SearchOp::Eq, SearchValue::String("alice".into()))));
    assert!(evaluate_condition(&name, &cond(SearchOp::StartsWith, SearchValue::String("al".into()))));
    assert!(evaluate_condition(&name, &cond(SearchOp::Contains, SearchValue::String("ic".into()))));
    assert!(evaluate_condition(
        &name,
        &cond(SearchOp::In, SearchValue::Array(vec!["bob".into(), "alice".into()]))
    ));
    assert!(!evaluate_condition(&name, &cond(SearchOp::In, SearchValue::Array(vec!["bob".into()]))));
    let age = Some(SortValue::Int(30));
    assert!(evaluate_condition(&age, &cond(SearchOp::Gte, SearchValue::Int(30))));
    assert!(evaluate_condition(&age, &cond(SearchOp::Gt, SearchValue::Int(29))));
    assert!(!evaluate_condition(&age, &cond(SearchOp::Lt, SearchValue::Int(30))));
    assert!(evaluate_condition(&age, &cond(SearchOp::Lte, SearchValue::Int(31))));
    let price = Some(SortValue::Decimal(dec(150, 2)));
    assert!(evaluate_condition(&price, &cond(SearchOp::Eq, SearchValue::Decimal(dec(15, 1)))));
}

#[test]
fn type_mismatch_fails_the_condition() {
    let age = Some(SortValue::Int(30));
    assert!(!evaluate_condition(&age, &cond(SearchOp::Eq, SearchValue::String("30".into()))));
    assert!(!evaluate_condition(&age, &cond(SearchOp::Eq, SearchValue::Bool(true))));
    assert!(!evaluate_condition(&age, &cond(SearchOp::Contains, SearchValue::Int(3))));
    assert!(!evaluate_condition(&None, &cond(SearchOp::Eq, SearchValue::Int(30))));
}

#[test]
fn criteria_builders() {
    let mut c = SearchCriteria::new();
    assert!(c.conditions.is_empty() && c.sort_fields.is_none() && c.limit.is_none());
    c.add_condition("age", SearchOp::Gt, SearchValue::Int(3));
    c.add_sort("name", true);
    c.add_sort("age", false);
    c.add_limit(5);
    c.add_limit(9);
    assert_eq!(c.conditions.len(), 1);
    assert_eq!(c.conditions[0].field, "age");
    let sorts = c.sort_fields.as_ref().unwrap();
    assert_eq!(sorts.len(), 2);
    assert_eq!(sorts[0].field, "name");
    assert!(!sorts[1].ascending);
    assert_eq!(c.limit, Some(5));
}

fn row(age: i64, name: &str) -> SearchRow {
    SearchRow {
        conditions: vec![Some(SortValue::Int(age))],
        sort_keys: vec![text(name), Some(SortValue::Int(age))],
    }
}

#[test]
fn find_filters_sorts_and_limits() {
    let rows = vec![row(40, "carol"), row(20, "bob"), row(35, "alice"), row(50, "alice"), row(10, "dan")];
    let mut c = SearchCriteria::new();
    c.add_condition("age", SearchOp::Gte, SearchValue::Int(20));
    assert_eq!(find(&c, &rows), vec![0, 1, 2, 3]);
    c.add_sort("name", true);
    c.add_sort("age", false);
    assert_eq!(find(&c, &rows), vec![3, 2, 1, 0]);
    c.add_limit(2);
    assert_eq!(find(&c, &rows), vec![3, 2]);
    let all = find(&SearchCriteria::new(), &rows);
    assert_eq!(all, vec![0, 1, 2, 3, 4]);
}

#[test]
fn sort_is_stable_on_equal_keys() {
    let rows = vec![row(1, "x"), row(2, "x"), row(3, "a")];
    let mut c = SearchCriteria::new();
    c.add_sort("name", true);
    assert_eq!(find(&c, &rows), vec![2, 0, 1]);
    let fields = vec![SortField { field: "name".into(), ascending: true }];
    assert_eq!(compare_keys(&rows[0].sort_keys, &rows[1].sort_keys, &fields), Ordering::Equal);
}

#[test]
fn missing_sort_values_do_not_decide() {
    let rows = vec![
        SearchRow { conditions: vec![], sort_keys: vec![None, Some(SortValue::Int(2))] },
        SearchRow { conditions: vec![], sort_keys: vec![text("a"), Some(SortValue::Int(1))] },
    ];
    let mut c = SearchCriteria::new();
    c.add_sort("name", true);
    c.add_sort("rank", true);
    assert_eq!(find(&c, &rows), vec![1, 0]);
}
