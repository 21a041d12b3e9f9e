//! Combining wrappers: the last-write-wins and summing monoids.

use today::config::AppPaths;
use today::monoid::{Last, Monoid, Sum};
use today::semigroup::Semigroup;

#[test]
fn combine_with_into() {
    let x = Last::<i32>::empty()
        .combine(Last::from_value(53))
        .combine(Last(None))
        .combine(Last::from_value(42));

    assert_eq!(x.0, Some(42));
}

#[test]
fn sum_test() {
    let nums = vec![10, 24, 3, 7, 42];
    let sum = nums
        .into_iter()
        .fold(Sum::<i32>::empty(), |acc, x| acc.combine(Sum::from_value(x)));

    assert_eq!(sum.0, 86);
}

#[test]
fn monoid_option_sum() {
    let sum = Option::<Sum<i32>>::empty()
        .combine(Some(Sum::from_value(10)))
        .combine(None)
        .combine(Some(Sum::from_value(5)))
        .combine(Some(Sum::from_value(7)))
        .combine(None)
        .combine(Some(Sum::from_value(42)))
        .combine(None);

    assert_eq!(sum.unwrap().0, 64);
}

#[test]
fn monoid_option_combine_macro() {
    let sum: Option<Sum<i32>> = Option::<Sum<i32>>::empty()
        .combine(Some(Sum::from_value(10)))
        .combine(None)
        .combine(Some(Sum::from_value(5)))
        .combine(Some(Sum::from_value(7)))
        .combine(None)
        .combine(Some(Sum::from_value(42)))
        .combine(None);

    assert_eq!(sum.unwrap().0, 64);
}

#[test]
fn monoid_combine_macro() {
    let x = Last::from_value(53)
        .combine(Last(None))
        .combine(Last::from_value(42))
        .combine(Last(None));

    assert_eq!(x.0, Some(42));
}

#[test]
fn last_to_option_conversion() {
    let last = Last::from_value(42);
    let res: Option<i32> = last.into_option();

    assert_eq!(res, Some(42));
}

#[test]
fn semigroup_option_sum() {
    let sum = None
        .combine(Some(Sum::from_value(10)))
        .combine(None)
        .combine(Some(Sum::from_value(5)))
        .combine(Some(Sum::from_value(7)))
        .combine(None)
        .combine(Some(Sum::from_value(42)))
        .combine(None);

    assert_eq!(sum.unwrap().0, 64);
}

#[test]
fn semigroup_option_combine_macro() {
    let sum: Option<Sum<i32>> = None
        .combine(Some(Sum::from_value(10)))
        .combine(None)
        .combine(Some(Sum::from_value(5)))
        .combine(Some(Sum::from_value(7)))
        .combine(None)
        .combine(Some(Sum::from_value(42)))
        .combine(None);

    assert_eq!(sum.unwrap().0, 64);
}

#[test]
fn semigroup_combine_macro() {
    let x = Last::from_value(53)
        .combine(Last(None))
        .combine(Last::from_value(42))
        .combine(Last(None));

    assert_eq!(x.0, Some(42));
}

#[test]
fn option_combine_mixes_sides() {
    assert_eq!(Some(5u32).combine(Some(7)), Some(12));
    assert_eq!(Some(5u32).combine(None), Some(5));
    assert_eq!(None.combine(Some(7u32)), Some(7));
    assert_eq!(None::<u32>.combine(None), None);
}

#[test]
fn bool_combines_by_or() {
    assert!(true.combine(false));
    assert!(!false.combine(false));
}

#[test]
fn app_paths_merge_last_writer_wins() {
    let defaults = AppPaths {
        config: Some("/etc/today".to_owned()),
        data: Some("/var/today".to_owned()),
        detached: None,
    };
    let overrides = AppPaths {
        config: None,
        data: Some("/home/user/today".to_owned()),
        detached: Some(true),
    };
    let built = AppPaths::empty().combine(defaults).combine(overrides).build();
    assert_eq!(built.config, "/etc/today");
    assert_eq!(built.data, "/home/user/today");
    assert!(built.detached);

    let round = built.unbuild();
    assert_eq!(round.data.as_deref(), Some("/home/user/today"));

    let bare = AppPaths::empty().build();
    assert_eq!(bare.config, "");
    assert!(!bare.detached);
}
