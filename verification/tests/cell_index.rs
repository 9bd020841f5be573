//! Tests of the grid coordinates: checked stepping and the base-26 column
//! names.

use lang::cell_index::{name_from_index, Col, Row};

#[test]
fn column_names() {
    assert_eq!(name_from_index(0), "A");
    assert_eq!(name_from_index(25), "Z");
    assert_eq!(name_from_index(26), "AA");
    assert_eq!(name_from_index(701), "ZZ");
    assert_eq!(name_from_index(702), "AAA");
    assert_eq!(name_from_index(1), "B");
    assert_eq!(name_from_index(27), "AB");
}

#[test]
fn column_name_matches_free_function() {
    let col = Col::first().checked_add(26).unwrap();
    assert_eq!(col.name(), "AA");
    assert_eq!(Col::first().name(), "A");
}

#[test]
fn column_stepping() {
    let first = Col::first();
    assert_eq!(first.get(), 0);
    assert!(first.checked_sub(1).is_none());
    let right = first.checked_add(5).unwrap();
    assert_eq!(right.get(), 5);
    assert_eq!(right.checked_sub(5).unwrap().get(), 0);
    let max = first.checked_add(u128::MAX).unwrap();
    assert!(max.checked_add(1).is_none());
}

#[test]
fn row_stepping() {
    let first = Row::first();
    assert_eq!(first.get(), 1);
    assert!(first.checked_sub(1).is_none(), "rows count from one");
    let down = first.checked_add(9).unwrap();
    assert_eq!(down.get(), 10);
    assert_eq!(down.checked_sub(9).unwrap().get(), 1);
    assert!(down.checked_sub(10).is_none());
    assert!(first.checked_add(u128::MAX).is_none());
}

#[test]
fn row_names() {
    assert_eq!(Row::first().name(), "1");
    assert_eq!(Row::first().checked_add(9).unwrap().name(), "10");
    assert_eq!(Row::first().checked_add(122).unwrap().name(), "123");
}
