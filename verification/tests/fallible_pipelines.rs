use orx_parallel::runner::{fold_chunk_results, fold_vec};
use orx_parallel::{par, IntoPar, ParallelDrainableOverSlice, Parallelizable, Reduce};
use std::cell::{Cell, RefCell};
use std::num::{IntErrorKind, ParseIntError};

fn safe_div(a: u32, b: u32) -> Result<u32, char> {
    match b {
        0 => Err('!'),
        b => Ok(a / b),
    }
}

fn numbers_as_strings(will_fail: bool) -> Vec<String> {
    let mut inputs: Vec<_> = (0..100).map(|x: u32| x.to_string()).collect();
    if will_fail {
        inputs.insert(50, "x".to_string());
    }
    inputs
}

#[test]
fn fallible_map_collect() {
    let a: Vec<Result<u32, char>> = vec![Ok(1), Ok(2), Ok(3)];
    let b = a.into_par().into_fallible_result().map(|x| 2 * x).collect();
    assert_eq!(b, Ok(vec![2, 4, 6]));

    let a: Vec<Result<u32, char>> = vec![Ok(1), Err('x'), Ok(3)];
    let b = a.into_par().into_fallible_result().map(|x| 2 * x).collect();
    assert_eq!(b, Err('x'));
}

#[test]
fn fallible_filter_sum() {
    let a: Vec<Result<u32, char>> = vec![Ok(1), Ok(2), Ok(3)];
    let b = a.into_par().into_fallible_result().filter(|x| x % 2 == 1).sum();
    assert_eq!(b, Ok(1 + 3));

    let a: Vec<Result<u32, char>> = vec![Ok(1), Err('x'), Ok(3)];
    let b = a.into_par().into_fallible_result().filter(|x| x % 2 == 1).sum();
    assert_eq!(b, Err('x'));
}

#[test]
fn fallible_reduce_safe_div() {
    let inputs: Vec<u32> = (1..10).collect();
    let reduced = inputs.into_par().map(|x| safe_div(100, x)).into_fallible_result().reduce(|acc, e| acc + e);
    assert_eq!(reduced, Ok(Some(281)));

    let inputs: Vec<u32> = (1..1).collect();
    let reduced = inputs.into_par().map(|x| safe_div(100, x)).into_fallible_result().reduce(|acc, e| acc + e);
    assert_eq!(reduced, Ok(None));

    let inputs: Vec<u32> = (0..10).collect();
    let reduced = inputs.into_par().map(|x| safe_div(100, x)).into_fallible_result().reduce(|acc, e| acc + e);
    assert_eq!(reduced, Err('!'));
}

#[test]
fn fallible_sum_safe_div() {
    let inputs: Vec<u32> = (1..10).collect();
    let sum = inputs.into_par().map(|x| safe_div(100, x)).into_fallible_result().sum();
    assert_eq!(sum, Ok(281));

    let inputs: Vec<u32> = (1..1).collect();
    let sum = inputs.into_par().map(|x| safe_div(100, x)).into_fallible_result().sum();
    assert_eq!(sum, Ok(0));

    let inputs: Vec<u32> = (0..10).collect();
    let sum = inputs.into_par().map(|x| safe_div(100, x)).into_fallible_result().sum();
    assert_eq!(sum, Err('!'));
}

#[test]
fn fallible_all() {
    let parse = |x: &str| x.parse::<i32>();
    let result = vec!["1", "2", "3"].into_par().map(parse).into_fallible_result().all(|x| *x > 0);
    assert_eq!(result, Ok(true));
    let result = vec!["1", "2", "3"].into_par().map(parse).into_fallible_result().all(|x| *x > 1);
    assert_eq!(result, Ok(false));
    let result = Vec::<&str>::new().into_par().map(parse).into_fallible_result().all(|x| *x > 1);
    assert_eq!(result, Ok(true));
    let result = vec!["1", "x!", "3"].into_par().map(parse).into_fallible_result().all(|x| *x > 0);
    assert!(result.is_err());
}

#[test]
fn fallible_any() {
    let parse = |x: &str| x.parse::<i32>();
    let result = vec!["1", "2", "3"].into_par().map(parse).into_fallible_result().any(|x| *x > 1);
    assert_eq!(result, Ok(true));
    let result = vec!["1", "2", "3"].into_par().map(parse).into_fallible_result().any(|x| *x > 3);
    assert_eq!(result, Ok(false));
    let result = Vec::<&str>::new().into_par().map(parse).into_fallible_result().any(|x| *x > 1);
    assert_eq!(result, Ok(false));
    let result = vec!["1", "x!", "3"].into_par().map(parse).into_fallible_result().any(|x| *x > 5);
    assert!(result.is_err());
}

#[test]
fn fallible_count() {
    let parse = |x: &str| x.parse::<i32>();
    let result = vec!["1", "2", "3"].into_par().map(parse).into_fallible_result().filter(|x| *x >= 2).count();
    assert_eq!(result, Ok(2));
    let result = vec!["x!", "2", "3"].into_par().map(parse).into_fallible_result().filter(|x| *x >= 2).count();
    assert!(result.is_err());
}

#[test]
fn fallible_first_and_find() {
    let a: Vec<Result<i32, char>> = vec![];
    assert_eq!(a.par().copied().into_fallible_result().first(), Ok(None));

    let a: Vec<Result<i32, char>> = vec![Ok(1), Ok(2), Ok(3)];
    assert_eq!(a.par().copied().into_fallible_result().first(), Ok(Some(1)));

    let a: Vec<Result<i32, char>> = vec![Ok(1), Err('x'), Ok(3)];
    let result = a.par().copied().into_fallible_result().first();
    assert!(result == Ok(Some(1)) || result == Err('x'));

    let a: Vec<Result<i32, char>> = vec![];
    assert_eq!(a.par().copied().into_fallible_result().find(|x| *x > 2), Ok(None));

    let a: Vec<Result<i32, char>> = vec![Ok(1), Ok(2), Ok(3)];
    assert_eq!(a.par().copied().into_fallible_result().find(|x| *x > 2), Ok(Some(3)));

    let a: Vec<Result<i32, char>> = vec![Ok(1), Err('x'), Ok(3)];
    let result = a.par().copied().into_fallible_result().find(|x| *x > 2);
    assert!(result == Ok(Some(3)) || result == Err('x'));
}

#[test]
fn fallible_max_and_min() {
    let a: Vec<Result<i32, char>> = vec![Ok(1), Ok(2), Ok(3)];
    assert_eq!(a.par().copied().into_fallible_result().max(), Ok(Some(3)));
    assert_eq!(a.par().copied().into_fallible_result().min(), Ok(Some(1)));

    let b: Vec<Result<i32, char>> = vec![];
    assert_eq!(b.par().copied().into_fallible_result().max(), Ok(None));
    assert_eq!(b.par().copied().into_fallible_result().min(), Ok(None));

    let c: Vec<Result<i32, char>> = vec![Ok(1), Ok(2), Err('x')];
    assert_eq!(c.par().copied().into_fallible_result().max(), Err('x'));
    assert_eq!(c.par().copied().into_fallible_result().min(), Err('x'));
}

#[test]
fn fallible_parse_collect() {
    let expected_results: [Result<Vec<u32>, IntErrorKind>; 2] =
        [Ok((0..100).collect::<Vec<_>>()), Err(IntErrorKind::InvalidDigit)];
    for expected in expected_results {
        let inputs = numbers_as_strings(expected.is_err());
        let results = inputs.par().map(|x| x.parse::<u32>());
        let result: Result<Vec<u32>, ParseIntError> = results.into_fallible_result().collect();
        assert_eq!(&expected, &result.map_err(|x| x.kind().clone()));
    }
}

#[test]
fn fallible_parse_sum_and_max() {
    for will_fail in [false, true] {
        let inputs = numbers_as_strings(will_fail);
        let result = inputs.par().map(|x| x.parse::<u32>()).into_fallible_result().sum();
        match will_fail {
            true => assert!(result.is_err()),
            false => assert_eq!(result, Ok(4950)),
        }
        let result = inputs.par().map(|x| x.parse::<u32>()).into_fallible_result().max();
        match will_fail {
            true => assert!(result.is_err()),
            false => assert_eq!(result, Ok(Some(99))),
        }
    }
}

#[test]
fn fallible_transformations_on_success_path() {
    for will_fail in [false, true] {
        let inputs = numbers_as_strings(will_fail);
        let result = inputs
            .par()
            .map(|x| x.parse::<u32>())
            .into_fallible_result()
            .filter(|x| x % 2 == 1)
            .map(|x| 3 * x)
            .filter_map(|x| (x % 10 != 0).then_some(x))
            .flat_map(|x| vec![x.to_string(), (10 * x).to_string()])
            .map(|x| x.len())
            .sum();
        match will_fail {
            true => assert!(result.is_err()),
            false => assert_eq!(result, Ok(312)),
        }
    }
}

#[test]
fn fallible_reports_first_failure_in_input_order() {
    let a: Vec<Result<u32, char>> = vec![Ok(1), Err('a'), Ok(2), Err('b')];
    for chunk in [0usize, 1, 3] {
        for threads in [0usize, 1, 4] {
            let r = par(a.clone()).num_threads(threads).chunk_size(chunk).into_fallible_result().collect();
            assert_eq!(r, Err('a'));
        }
    }
    let r = par(a.clone()).into_fallible_result().filter(|x| *x > 5).count();
    assert_eq!(r, Err('a'));
}

#[test]
fn fallible_stops_at_first_failure() {
    let calls = Cell::new(0usize);
    let a: Vec<u32> = vec![1, 0, 2, 3];
    let r = a
        .into_par()
        .map(|x| safe_div(10, x))
        .into_fallible_result()
        .inspect(|_| calls.set(calls.get() + 1))
        .collect();
    assert_eq!(r, Err('!'));
    assert_eq!(calls.get(), 1);
}

#[test]
fn fallible_for_each() {
    let seen = RefCell::new(Vec::new());
    let r = vec!["0", "1", "2", "3", "4"]
        .into_par()
        .map(|x| x.parse::<i32>())
        .into_fallible_result()
        .map(|x| x * 2 + 1)
        .for_each(|x| seen.borrow_mut().push(x));
    assert_eq!(r, Ok(()));
    assert_eq!(*seen.borrow(), vec![1, 3, 5, 7, 9]);

    let seen = RefCell::new(Vec::new());
    let r = vec!["0", "1", "2", "x!", "4"]
        .into_par()
        .map(|x| x.parse::<i32>())
        .into_fallible_result()
        .map(|x| x * 2 + 1)
        .for_each(|x| seen.borrow_mut().push(x));
    assert!(r.is_err());
    assert_eq!(*seen.borrow(), vec![1, 3, 5]);
}

#[test]
fn fallible_into_regular_par_keeps_results() {
    let a: Vec<Result<u32, char>> = vec![Ok(1), Err('x'), Ok(3)];
    let regular = par(a).into_fallible().map(|x| x + 10).into_regular_par().collect_vec();
    assert_eq!(regular, vec![Ok(11), Err('x'), Ok(13)]);
}

fn parse_qty_and_price(row: &str) -> Option<(u64, u64)> {
    let mut parts = row.split(',');
    let qty = parts.next()?.parse::<u64>().ok()?;
    let unit_price = parts.next()?.parse::<u64>().ok()?;
    Some((qty, unit_price))
}

fn total_price(rows: &Vec<&str>) -> Option<u64> {
    rows.par()
        .map(|row| parse_qty_and_price(row))
        .into_optional()
        .filter(|(qty, _)| *qty >= 2)
        .map(|(qty, unit_price)| qty * unit_price)
        .sum()
}

#[test]
fn optional_total_price() {
    assert_eq!(total_price(&vec!["1,2300", "4,499", "5,1100"]), Some(7496));
    assert_eq!(total_price(&vec!["1,2300", "4,???", "5,1100"]), None);
}

#[test]
fn optional_parse_collect() {
    for will_fail in [false, true] {
        let inputs = numbers_as_strings(will_fail);
        let result = inputs.par().map(|x| x.parse::<u32>().ok()).into_fallible_option().collect();
        match will_fail {
            true => assert_eq!(result, None),
            false => assert_eq!(result, Some((0..100).collect::<Vec<u32>>())),
        }
    }
}

#[test]
fn optional_sum_max_and_transformations() {
    for will_fail in [false, true] {
        let inputs = numbers_as_strings(will_fail);
        let sum = inputs.par().map(|x| x.parse::<u32>().ok()).into_fallible_option().sum();
        let max = inputs.par().map(|x| x.parse::<u32>().ok()).into_fallible_option().max();
        let lens = inputs
            .par()
            .map(|x| x.parse::<u32>().ok())
            .into_fallible_option()
            .filter(|x| x % 2 == 1)
            .map(|x| 3 * x)
            .filter_map(|x| (x % 10 != 0).then_some(x))
            .flat_map(|x| vec![x.to_string(), (10 * x).to_string()])
            .map(|x| x.len())
            .sum();
        match will_fail {
            true => {
                assert_eq!(sum, None);
                assert_eq!(max, None);
                assert_eq!(lens, None);
            }
            false => {
                assert_eq!(sum, Some(4950));
                assert_eq!(max, Some(Some(99)));
                assert_eq!(lens, Some(312));
            }
        }
    }
}

#[test]
fn optional_searches_and_counts() {
    let a: Vec<Option<i32>> = vec![Some(1), Some(2), Some(3)];
    assert_eq!(a.par().copied().into_fallible_option().first(), Some(Some(1)));
    assert_eq!(a.par().copied().into_fallible_option().find(|x| *x > 1), Some(Some(2)));
    assert_eq!(a.par().copied().into_fallible_option().any(|x| *x > 2), Some(true));
    assert_eq!(a.par().copied().into_fallible_option().all(|x| *x > 2), Some(false));
    assert_eq!(a.par().copied().into_fallible_option().count(), Some(3));
    assert_eq!(a.par().copied().into_fallible_option().min(), Some(Some(1)));
    assert_eq!(a.par().copied().into_fallible_option().reduce(|x, y| x * y), Some(Some(6)));
    assert_eq!(a.par().copied().into_fallible_option().for_each(|_| ()), Some(()));

    let b: Vec<Option<i32>> = vec![None, Some(2)];
    assert_eq!(b.par().copied().into_fallible_option().first(), None);
    assert_eq!(b.par().copied().into_fallible_option().count(), None);
    assert_eq!(b.par().copied().into_fallible_option().all(|x| *x > 0), None);
    assert_eq!(b.par().copied().into_fallible_option().for_each(|_| ()), None);

    let c: Vec<Option<i32>> = vec![];
    assert_eq!(c.par().copied().into_fallible_option().first(), Some(None));
    assert_eq!(c.par().copied().into_fallible_option().all(|x| *x > 0), Some(true));
    assert_eq!(c.par().copied().into_fallible_option().any(|x| *x > 0), Some(false));
}

#[test]
fn optional_with_parameters() {
    let a: Vec<Option<u32>> = vec![Some(4), Some(5), Some(6)];
    let r = a.par().copied().into_fallible_option().num_threads(4).chunk_size(2).inspect(|_| ()).collect();
    assert_eq!(r, Some(vec![4, 5, 6]));
}

#[test]
fn copied_and_cloned() {
    let numbers = vec![1, 2, 3, 4];
    let sum = numbers.par().copied().sum();
    let product = numbers.par().copied().fold(|| 1, |x, y| x * y);
    assert_eq!(sum, 10);
    assert_eq!(product, 24);

    fn warn(mut name: String) -> String {
        name.push('!');
        name
    }
    let names = vec![String::from("john"), String::from("doe")];
    let new_names = names.par().cloned().map(warn).collect_vec();
    assert_eq!(new_names, vec![String::from("john!"), String::from("doe!")]);
}

#[test]
fn par_all() {
    let mut a = vec![1, 2, 3];
    assert!(a.par().all(|x| **x > 0));
    assert!(!a.par().all(|x| **x > 2));
    a.clear();
    assert!(a.par().all(|x| **x > 2));
}

#[test]
fn fallible_success_same_under_params() {
    let a: Vec<Result<u32, char>> = (0..50).map(Ok).collect();
    let expected: Vec<u32> = (0..50).filter(|x| x % 3 == 0).map(|x| x + 1).collect();
    for chunk in [0usize, 1, 7, 64] {
        for threads in [0usize, 1, 3] {
            let r = par(a.clone())
                .num_threads(threads)
                .chunk_size(chunk)
                .into_fallible_result()
                .filter(|x| x % 3 == 0)
                .map(|x| x + 1)
                .collect();
            assert_eq!(r, Ok(expected.clone()));
        }
    }
}

#[test]
fn fallible_min_max_by() {
    let a: Vec<Result<i32, char>> = vec![Ok(3), Ok(-7), Ok(5)];
    assert_eq!(a.par().copied().into_fallible_result().min_by(|x, y| x.cmp(y)), Ok(Some(-7)));
    assert_eq!(a.par().copied().into_fallible_result().max_by(|x, y| x.cmp(y)), Ok(Some(5)));
    assert_eq!(a.par().copied().into_fallible_result().min_by_key(|x| x.abs()), Ok(Some(3)));
    assert_eq!(a.par().copied().into_fallible_result().max_by_key(|x| x.abs()), Ok(Some(-7)));

    let b: Vec<Result<i32, char>> = vec![Ok(3), Err('e'), Ok(5)];
    assert_eq!(b.par().copied().into_fallible_result().min_by(|x, y| x.cmp(y)), Err('e'));
    assert_eq!(b.par().copied().into_fallible_result().max_by_key(|x| x.abs()), Err('e'));

    let c: Vec<Option<i32>> = vec![Some(3), Some(-7)];
    assert_eq!(c.par().copied().into_fallible_option().max_by_key(|x| x.abs()), Some(Some(-7)));
    assert_eq!(c.par().copied().into_fallible_option().min_by(|x, y| x.cmp(y)), Some(Some(-7)));
    let d: Vec<Option<i32>> = vec![Some(3), None];
    assert_eq!(d.par().copied().into_fallible_option().max_by(|x, y| x.cmp(y)), None);
    assert_eq!(d.par().copied().into_fallible_option().min_by_key(|x| x.abs()), None);
}

#[test]
fn fallible_collect_into_appends() {
    let a: Vec<Result<u32, char>> = vec![Ok(1), Ok(2)];
    let r = par(a).into_fallible_result().map(|x| x * 10).collect_into(vec![7]);
    assert_eq!(r, Ok(vec![7, 10, 20]));

    let b: Vec<Result<u32, char>> = vec![Ok(1), Err('z')];
    let r = par(b).into_fallible_result().collect_into(vec![7]);
    assert_eq!(r, Err('z'));

    let c: Vec<Option<u32>> = vec![Some(3), Some(4)];
    let r = par(c).into_fallible_option().collect_into(vec![1, 2]);
    assert_eq!(r, Some(vec![1, 2, 3, 4]));

    let d: Vec<Option<u32>> = vec![Some(3), None];
    let r = par(d).into_optional().collect_into(vec![1, 2]);
    assert_eq!(r, None);
}

#[test]
fn optional_for_each_stops_at_first_none() {
    let seen = RefCell::new(Vec::new());
    let a: Vec<Option<u32>> = vec![Some(1), Some(2), None, Some(4)];
    let r = par(a).into_fallible_option().map(|x| x * 10).for_each(|x| seen.borrow_mut().push(x));
    assert_eq!(r, None);
    assert_eq!(*seen.borrow(), vec![10, 20]);
}

#[test]
fn par_drain_removes_range() {
    let mut v = vec![1, 2, 3];
    let u = v.par_drain(1..3).num_threads(2).collect();
    assert_eq!(v, vec![1]);
    assert_eq!(u, vec![2, 3]);

    let mut w = vec![4, 5, 6, 7];
    let x = w.par_drain(0..4).map(|a| a * 2).collect();
    assert_eq!(w, Vec::<i32>::new());
    assert_eq!(x, vec![8, 10, 12, 14]);

    let mut y = vec![1, 2, 3, 4];
    let z = y.par_drain(1..3).collect();
    assert_eq!(y, vec![1, 4]);
    assert_eq!(z, vec![2, 3]);
}

#[test]
fn chunk_results_combine_in_order() {
    let parts: Vec<Option<String>> = vec![Some("ab".to_string()), None, Some("c".to_string()), Some("de".to_string())];
    let r = fold_chunk_results(parts, |a, b| a + &b);
    assert_eq!(r, Some("abcde".to_string()));

    let chunks: Vec<Vec<u32>> = vec![vec![1, 2], vec![], vec![3, 4, 5]];
    let parts: Vec<Option<u32>> = chunks.into_iter().map(|c| fold_vec(c, |a, b| a + b)).collect();
    let whole = fold_vec(vec![1u32, 2, 3, 4, 5], |a, b| a + b);
    assert_eq!(fold_chunk_results(parts, |a, b| a + b), whole);
    assert_eq!(whole, Some(15));

    let none: Vec<Option<u32>> = vec![None, None];
    assert_eq!(fold_chunk_results(none, |a, b| a + b), None);
}

#[test]
fn range_and_slice_inputs() {
    let r = (0..1025usize).into_par().map(|x| x * 2).num_threads(4).chunk_size(64).collect();
    assert_eq!(r, (0..1025).map(|x| x * 2).collect::<Vec<_>>());
    let offset: Vec<usize> = vec![9; 13];
    let r = (3..8usize).into_par().filter(|x| x % 2 == 1).collect_into(offset.clone());
    let mut expected = offset;
    expected.extend([3, 5, 7]);
    assert_eq!(r, expected);
    assert_eq!((5..5usize).into_par().count(), 0);

    let v = vec![10u32, 20, 30, 40];
    let s: &[u32] = &v[1..3];
    let r = s.par().copied().collect();
    assert_eq!(r, vec![20, 30]);
}
