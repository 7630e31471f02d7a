use datacenter_simulator::collective::{Layout, Reduction};
use datacenter_simulator::model::Error;
use datacenter_simulator::worker::Start;

#[test]
fn each_rank_gets_its_own_buffer_and_the_request_output() {
    let id = vec![7u8; 128];
    let layout = Layout::AllGather;
    let s = Start::for_rank(&layout, &vec![2, 2, 2], &vec![true, true, true], 3, 1, &id).unwrap();
    assert_eq!(s.unique_id, id);
    assert_eq!(s.input_len, 2);
    assert_eq!(s.output_count, 6);
    s.validate(3).unwrap();
    let layout = Layout::ReduceScatter { reduction: Reduction::Sum };
    let s = Start::for_rank(&layout, &vec![4, 4], &vec![true, true], 2, 0, &id).unwrap();
    assert_eq!(s.output_count, 2);
    s.validate(2).unwrap();
    assert!(Start::for_rank(&layout, &vec![3, 3], &vec![true, true], 2, 0, &id).is_err());
}

#[test]
fn broadcast_non_roots_start_from_zeros() {
    let layout = Layout::Broadcast { root: 0 };
    let s = Start::for_rank(&layout, &vec![5], &vec![true], 2, 1, &vec![1]).unwrap();
    assert_eq!((s.input_len, s.input_finite, s.output_count), (5, true, 5));
    s.validate(2).unwrap();
    assert!(matches!(
        Start::for_rank(&layout, &vec![5], &vec![false], 2, 0, &vec![1]),
        Err(Error::Invalid(_))
    ));
}

#[test]
fn workers_refuse_inconsistent_or_oversized_starts() {
    let start = |operation, input_len, input_finite, output_count| Start {
        unique_id: Vec::new(),
        operation,
        input_len,
        input_finite,
        output_count,
    };
    assert!(start(Layout::AllGather, 2, true, 5).validate(3).is_err());
    assert!(start(Layout::AllGather, 2, true, 6).validate(3).is_ok());
    assert!(start(Layout::AllReduce { reduction: Reduction::Max }, 2_097_153, true, 2_097_153)
        .validate(1)
        .is_err());
    assert!(start(Layout::AllReduce { reduction: Reduction::Max }, 4, false, 4).validate(1).is_err());
    assert!(start(Layout::Broadcast { root: 5 }, 4, true, 4).validate(2).is_err());
    assert!(start(Layout::ReduceScatter { reduction: Reduction::Min }, 5, true, 2).validate(2).is_err());
    assert!(start(Layout::AllReduce { reduction: Reduction::Sum }, 0, true, 8_388_609).validate(1).is_err());
}
