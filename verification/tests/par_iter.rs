use orx_parallel::{
    par, ChunkSize, Fallible, IntoPar, NumThreads, Parallelizable, ParallelizableCollection,
    Params, Reduce,
};

fn input(n: usize, elem: impl Fn(usize) -> String) -> Vec<String> {
    let mut vec = Vec::with_capacity(n + 17);
    for i in 0..n {
        vec.push(elem(i));
    }
    vec
}

fn range(begin: usize, end: usize) -> Vec<usize> {
    (begin..end).collect()
}

fn firstfac(x: usize) -> usize {
    if x % 2 == 0 {
        return 2;
    };
    for n in (1..).map(|m| 2 * m + 1).take_while(|m| m * m <= x) {
        if x % n == 0 {
            return n;
        };
    }
    x
}

fn is_prime(n: &usize) -> bool {
    match n {
        0 | 1 => false,
        _ => firstfac(*n) == *n,
    }
}

#[test]
fn parallelizable() {
    fn take<'a>(a: &'a impl Parallelizable<String>) {
        let _ = a.par();
    }
    let input = input(7, |x| (x + 10).to_string());
    take(&input);
}

#[test]
fn parallelizable_collection() {
    fn take(a: &impl ParallelizableCollection<String>) {
        let _ = a.par();
    }
    let input = input(7, |x| (x + 10).to_string());
    take(&input);
}

#[test]
fn par_by_reference_keeps_elements() {
    let input = input(5, |x| (x + 10).to_string());
    let refs = Parallelizable::par(&input).collect_vec();
    assert_eq!(refs.len(), 5);
    assert_eq!(refs[0], "10");
    assert_eq!(refs[4], "14");
}

#[test]
fn reduce_sums_or_is_none() {
    let reduced = range(1, 10).into_par().reduce(|acc, e| acc + e);
    assert_eq!(reduced, Some(45));

    let reduced = range(1, 10).into_par().filter(|x| *x > 10).reduce(|acc, e| acc + e);
    assert_eq!(reduced, None);
}

#[test]
fn fold_returns_identity_when_empty() {
    let fold = range(1, 10).into_par().fold(|| 0, |acc, e| acc + e);
    assert_eq!(fold, 45);

    let fold = range(1, 10).into_par().filter(|x| *x > 10).fold(|| 1, |acc, e| acc * e);
    assert_eq!(fold, 1);
}

#[test]
fn sum_of_outputs() {
    let sum = range(1, 10).into_par().sum();
    assert_eq!(sum, 45);

    let sum = range(1, 10).into_par().filter(|x| *x > 10).sum();
    assert_eq!(sum, 0);
}

#[test]
fn min_and_max() {
    let min = range(1, 10).into_par().filter(|x| *x > 6).min();
    assert_eq!(min, Some(7));
    let min = range(1, 10).into_par().filter(|x| *x > 10).min();
    assert_eq!(min, None);

    let max = range(1, 10).into_par().filter(|x| *x < 6).max();
    assert_eq!(max, Some(5));
    let max = range(1, 10).into_par().filter(|x| *x > 10).max();
    assert_eq!(max, None);
}

fn names() -> Vec<String> {
    ["john", "doe", "adams", "jones", "grumpy"].map(String::from).into_iter().collect()
}

#[test]
fn min_by_and_max_by() {
    let names = names();
    let min = Parallelizable::par(&names).min_by(|a, b| a.len().cmp(&b.len()));
    assert_eq!(min.map(|x| x.as_ref()), Some("doe"));
    let min = Parallelizable::par(&names).filter(|x| x.starts_with('x')).min_by(|a, b| a.len().cmp(&b.len()));
    assert_eq!(min, None);

    let max = Parallelizable::par(&names).max_by(|a, b| a.len().cmp(&b.len()));
    assert_eq!(max.map(|x| x.as_ref()), Some("grumpy"));
    let max = Parallelizable::par(&names).filter(|x| x.starts_with('x')).max_by(|a, b| a.len().cmp(&b.len()));
    assert_eq!(max, None);
}

#[test]
fn min_by_key_and_max_by_key() {
    let names = names();
    let min = Parallelizable::par(&names).min_by_key(|x| x.len());
    assert_eq!(min.map(|x| x.as_ref()), Some("doe"));
    let min = Parallelizable::par(&names).filter(|x| x.starts_with('x')).min_by_key(|x| x.len());
    assert_eq!(min, None);

    let max = Parallelizable::par(&names).max_by_key(|x| x.len());
    assert_eq!(max.map(|x| x.as_ref()), Some("grumpy"));
    let max = Parallelizable::par(&names).filter(|x| x.starts_with('x')).max_by_key(|x| x.len());
    assert_eq!(max, None);
}

#[test]
fn first_with_index_of_prime() {
    let first_prime = range(21, 100).into_par().filter(is_prime).first_with_index();
    assert_eq!(first_prime, Some((2, 23)));

    let first_prime = range(24, 28).into_par().filter(is_prime).first_with_index();
    assert_eq!(first_prime, None);
}

#[test]
fn find_with_index_of_prime() {
    let first_prime = range(21, 100).into_par().find_with_index(is_prime);
    assert_eq!(first_prime, Some((2, 23)));

    let first_prime = range(24, 28).into_par().find_with_index(is_prime);
    assert_eq!(first_prime, None);
}

#[test]
fn find_first_any() {
    assert_eq!(range(0, 10).into_par().map(|x| x * 3).find(|x| *x > 10), Some(12));
    assert_eq!(range(0, 10).into_par().map(|x| x * 3).first(), Some(0));
    assert!(range(0, 10).into_par().any(|x| *x == 9));
    assert!(!range(0, 10).into_par().any(|x| *x == 10));
}

#[test]
fn fallible_values() {
    let success = Some(42);
    assert!(success.has_value());
    assert_eq!(success.value(), 42);

    let success: Result<_, String> = Ok(42);
    assert!(success.has_value());
    assert_eq!(success.value(), 42);

    let fail: Option<char> = None;
    assert!(!fail.has_value());

    let fail: Result<char, String> = Err("failed".to_string());
    assert!(!fail.has_value());
    assert_eq!(Fallible::into_option(fail), None);
    assert_eq!(Fallible::into_option(Some(3)), Some(3));
}

#[test]
fn num_threads_and_chunk_size_conversions() {
    assert_eq!(NumThreads::from(0), NumThreads::Auto);
    assert!(matches!(NumThreads::from(4), NumThreads::Max(n) if n.get() == 4));
    assert!(NumThreads::sequential().is_sequential());
    assert!(NumThreads::from(1).is_sequential());
    assert!(!NumThreads::from(2).is_sequential());
    assert!(!NumThreads::Auto.is_sequential());

    assert_eq!(ChunkSize::from(0), ChunkSize::Auto);
    assert!(matches!(ChunkSize::from(64), ChunkSize::Exact(n) if n.get() == 64));
}

#[test]
fn params_new_and_with() {
    let p = Params::new(1, 0, orx_parallel::CollectOrdering::Arbitrary);
    assert!(p.is_sequential());
    assert_eq!(p.chunk_size, ChunkSize::Auto);
    let p = p.with_num_threads(8).with_chunk_size(16);
    assert!(!p.is_sequential());
    assert!(matches!(p.chunk_size, ChunkSize::Exact(n) if n.get() == 16));
    assert_eq!(p.collect_ordering, orx_parallel::CollectOrdering::Arbitrary);
    assert_eq!(Params::default().collect_ordering, orx_parallel::CollectOrdering::Ordered);
}

fn offset() -> Vec<String> {
    vec!["x".to_string(); 13]
}

#[test]
fn map_collect_into_keeps_order_for_all_settings() {
    for n in [0usize, 1, 37, 125] {
        for nt in [1usize, 2, 4] {
            for chunk in [1usize, 64, 1024] {
                let data = input(n, |x| (x + 10).to_string());
                let mut expected = offset();
                expected.extend(data.iter().cloned().map(|x| format!("{}!", x)));
                let output = data
                    .into_par()
                    .num_threads(nt)
                    .chunk_size(chunk)
                    .map(|x| format!("{}!", x))
                    .collect_into(offset());
                assert_eq!(output, expected);
            }
        }
    }
}

#[test]
fn filter_flat_map_collect_keeps_order() {
    for nt in [1usize, 3] {
        for chunk in [1usize, 5, 100] {
            let out = range(0, 50)
                .into_par()
                .num_threads(nt)
                .chunk_size(chunk)
                .filter(|x| x % 3 == 0)
                .flat_map(|x| vec![x, x + 1000])
                .collect_vec();
            let expected: Vec<usize> = (0..50).filter(|x| x % 3 == 0).flat_map(|x| vec![x, x + 1000]).collect();
            assert_eq!(out, expected);
        }
    }
}

#[test]
fn collect_scheduled_is_in_input_order() {
    let schedule = vec![3usize, 0, 2, 1, 99];
    let out = range(0, 20).into_par().filter_map(|x| if x % 2 == 0 { Some(x * 10) } else { None }).collect_scheduled(4, &schedule);
    assert_eq!(out, vec![0, 20, 40, 60, 80, 100, 120, 140, 160, 180]);

    let schedule = vec![2usize, 1, 0];
    let out = range(0, 7).into_par().flat_map(|x| vec![x; x % 3]).collect_scheduled(3, &schedule);
    assert_eq!(out, vec![1, 2, 2, 4, 5, 5]);
}

#[test]
fn count_outputs() {
    assert_eq!(range(0, 100).into_par().filter(|x| x % 10 == 0).count(), 10);
    assert_eq!(range(0, 10).into_par().flat_map(|x| vec![x; 3]).count(), 30);
    assert_eq!(par(Vec::<u8>::new()).count(), 0);
}

#[test]
fn filter_map_with_results() {
    let out = range(0, 6)
        .into_par()
        .filter_map(|x| if x % 2 == 1 { Ok(x) } else { Err("even") })
        .collect_vec();
    assert_eq!(out, vec![1, 3, 5]);
}

#[test]
fn inspect_keeps_outputs() {
    let out = range(0, 4).into_par().inspect(|x| assert!(*x < 4)).map(|x| x + 1).collect();
    assert_eq!(out, vec![1, 2, 3, 4]);
}
