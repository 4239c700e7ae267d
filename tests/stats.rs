use filestats::stats::{Bucket, Histogram};

#[test]
fn can_add_samples() {
    let mut hist = Histogram::new(&[10, 20, 30]);

    hist.add(5);
    hist.add(7);
    hist.add(20);
    hist.add(15);
    hist.add(21);
    hist.add(25);
    hist.add(40);

    assert_eq!(hist.count(), 7);
    assert_eq!(hist.sum(), 133);

    let expected_buckets = vec![
        Bucket {
            count: 2,
            sum: 7 + 5,
            ceiling: 10,
        },
        Bucket {
            count: 2,
            sum: 35,
            ceiling: 20,
        },
        Bucket {
            count: 2,
            sum: 46,
            ceiling: 30,
        },
        Bucket {
            count: 1,
            sum: 40,
            ceiling: u64::MAX,
        },
    ];

    assert_eq!(hist.buckets(), expected_buckets);
}

#[test]
fn can_deal_with_u64_max_as_top_bucket() {
    let hist = Histogram::new(&vec![10, u64::MAX]);

    let expected_buckets = vec![
        Bucket {
            count: 0,
            sum: 0,
            ceiling: 10,
        },
        Bucket {
            count: 0,
            sum: 0,
            ceiling: u64::MAX,
        },
    ];

    assert_eq!(hist.buckets(), expected_buckets);
}

#[test]
fn new_histogram_is_empty() {
    let hist = Histogram::new(&[]);
    assert_eq!(hist.count(), 0);
    assert_eq!(hist.sum(), 0);
    assert_eq!(
        hist.buckets(),
        vec![Bucket {
            count: 0,
            sum: 0,
            ceiling: u64::MAX,
        }]
    );
}

#[test]
fn limits_keep_their_order() {
    let hist = Histogram::new(&[30, 10]);
    let ceilings: Vec<u64> = hist.buckets().iter().map(|b| b.ceiling).collect();
    assert_eq!(ceilings, vec![30, 10, u64::MAX]);
}

#[test]
fn sample_goes_to_first_fitting_bucket() {
    let mut hist = Histogram::new(&[30, 10]);
    hist.add(5).add(31);
    assert_eq!(hist.buckets()[0].count, 1);
    assert_eq!(hist.buckets()[1].count, 0);
    assert_eq!(hist.buckets()[2].count, 1);
    assert_eq!(hist.buckets()[2].sum, 31);
}

#[test]
fn sample_equal_to_ceiling_stays_in_bucket() {
    let mut hist = Histogram::new(&[10]);
    hist.add(10);
    hist.add(u64::MAX - 10);
    assert_eq!(hist.buckets()[0].count, 1);
    assert_eq!(hist.buckets()[1].count, 1);
    assert_eq!(hist.sum(), u64::MAX);
}

#[test]
fn mode_is_fullest_bucket() {
    let mut hist = Histogram::new(&[10, 20]);
    hist.add(15).add(16).add(1);
    let mode = hist.mode().unwrap();
    assert_eq!(mode.ceiling, 20);
    assert_eq!(mode.count, 2);
}

#[test]
fn mode_prefers_last_of_equal_buckets() {
    let mut hist = Histogram::new(&[10, 20]);
    hist.add(1).add(15);
    assert_eq!(hist.mode().unwrap().ceiling, 20);
    let empty = Histogram::new(&[10, 20]);
    assert_eq!(empty.mode().unwrap().ceiling, u64::MAX);
}
