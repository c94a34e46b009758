use curate::batch::build_batches;
use curate::dataset::Group;
use curate::error::FilterError;
use curate::split::Tagged;

fn run_of(key: &str, records: Vec<u32>) -> Vec<Tagged<u32>> {
    records.into_iter().map(|record| Tagged { key: key.to_string(), record }).collect()
}

fn batch(key: &str, records: Vec<u32>) -> Group<u32> {
    Group { key: key.to_string(), records }
}

#[test]
fn batches_hold_consecutive_records_and_the_last_may_be_smaller() {
    let got = build_batches(run_of("g", vec![1, 2, 3, 4, 5, 6, 7]), 3);
    assert_eq!(
        got,
        Ok(vec![batch("g", vec![1, 2, 3]), batch("g", vec![4, 5, 6]), batch("g", vec![7])])
    );
}

#[test]
fn batch_size_one_gives_one_record_each() {
    let got = build_batches(run_of("g", vec![1, 2, 3]), 1);
    assert_eq!(got, Ok(vec![batch("g", vec![1]), batch("g", vec![2]), batch("g", vec![3])]));
}

#[test]
fn batch_size_of_the_record_count_gives_one_batch() {
    let got = build_batches(run_of("g", vec![1, 2, 3]), 3);
    assert_eq!(got, Ok(vec![batch("g", vec![1, 2, 3])]));
}

#[test]
fn batch_size_above_the_record_count_gives_one_batch() {
    let got = build_batches(run_of("g", vec![1, 2, 3]), 12);
    assert_eq!(got, Ok(vec![batch("g", vec![1, 2, 3])]));
}

#[test]
fn batch_size_that_divides_the_count_leaves_no_short_batch() {
    let got = build_batches(run_of("g", vec![1, 2, 3, 4]), 2);
    assert_eq!(got, Ok(vec![batch("g", vec![1, 2]), batch("g", vec![3, 4])]));
}

#[test]
fn batch_size_zero_is_refused() {
    assert_eq!(build_batches(run_of("g", vec![1, 2, 3]), 0), Err(FilterError::InvalidBatchSize));
}

#[test]
fn batch_size_zero_is_refused_even_without_records() {
    assert_eq!(build_batches(Vec::<Tagged<u32>>::new(), 0), Err(FilterError::InvalidBatchSize));
}

#[test]
fn no_records_give_no_batches() {
    assert_eq!(build_batches(Vec::<Tagged<u32>>::new(), 4), Ok(vec![]));
}

#[test]
fn a_batch_ends_where_the_key_changes() {
    let mut tagged = run_of("g", vec![1, 2, 3]);
    tagged.extend(run_of("h", vec![4, 5, 6, 7]));
    tagged.extend(run_of("g", vec![8]));
    let got = build_batches(tagged, 2);
    assert_eq!(
        got,
        Ok(vec![
            batch("g", vec![1, 2]),
            batch("g", vec![3]),
            batch("h", vec![4, 5]),
            batch("h", vec![6, 7]),
            batch("g", vec![8]),
        ])
    );
}

#[test]
fn batching_is_the_same_each_time() {
    let first = build_batches(run_of("g", vec![5, 4, 3, 2, 1]), 2);
    let second = build_batches(run_of("g", vec![5, 4, 3, 2, 1]), 2);
    assert_eq!(first, second);
}

#[test]
fn batches_of_one_key_are_the_chunks_of_the_records() {
    for count in 0..9u32 {
        for size in 1..11usize {
            let records: Vec<u32> = (0..count).collect();
            let want: Vec<Group<u32>> =
                records.chunks(size).map(|chunk| batch("g", chunk.to_vec())).collect();
            assert_eq!(build_batches(run_of("g", records), size), Ok(want));
        }
    }
}

#[test]
fn batches_laid_end_to_end_are_the_records() {
    let mut tagged = run_of("a", vec![1, 2, 3, 4, 5]);
    tagged.extend(run_of("b", vec![6]));
    tagged.extend(run_of("c", vec![7, 8, 9, 10]));
    for size in 1..7usize {
        let batches = build_batches(tagged.clone(), size).unwrap();
        let mut laid_out: Vec<Tagged<u32>> = Vec::new();
        for b in &batches {
            assert!(!b.records.is_empty() && b.records.len() <= size);
            laid_out.extend(run_of(&b.key, b.records.clone()));
        }
        assert_eq!(laid_out, tagged);
        for pair in batches.windows(2) {
            assert!(pair[0].records.len() == size || pair[0].key != pair[1].key);
        }
    }
}
