use tree_graph::sample::DistinctSample;

#[test]
fn a_number_is_taken_once() {
    let mut sample = DistinctSample::new(3);
    assert!(sample.wants_more());
    assert!(sample.offer(7));
    assert!(!sample.offer(7));
    assert!(sample.offer(2));
    assert!(sample.wants_more());
    assert!(!sample.offer(2));
    assert!(sample.offer(9));
    assert!(!sample.wants_more());
    assert_eq!(sample.into_values(), vec![7, 2, 9]);
}

#[test]
fn a_full_sample_takes_nothing() {
    let mut sample = DistinctSample::new(1);
    assert!(sample.offer(4));
    assert!(!sample.offer(5));
    assert!(!sample.wants_more());
    assert_eq!(sample.into_values(), vec![4]);

    let mut none = DistinctSample::new(0);
    assert!(!none.wants_more());
    assert!(!none.offer(1));
    assert_eq!(none.into_values(), Vec::<usize>::new());
}

#[test]
fn rp() {
    let mut sample = DistinctSample::new(10);
    while sample.wants_more() {
        let rd: f32 = rand::random();
        let next_num = (rd * 50 as f32) as usize;
        sample.offer(next_num);
    }
    let values = sample.into_values();
    println!("{:?}", values);
    assert_eq!(values.len(), 10);
    for i in 0..values.len() {
        assert!(values[i] <= 50);
        for j in 0..i {
            assert_ne!(values[i], values[j]);
        }
    }
}
