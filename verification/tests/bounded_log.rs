use datacenter_simulator::bounded_log::{limit, marker, step, LogState};

/// Feeds `total` bytes in chunks of 8192 through the decisions, as a drain would.
fn drain(total: usize, limit: usize) -> Vec<u8> {
    let mut result = Vec::new();
    let mut state = LogState { retained: 0, truncated: false };
    let mut left = total;
    while left > 0 {
        let count = left.min(8192);
        let (next, action) = step(state, count, limit);
        result.extend(std::iter::repeat(b'x').take(action.keep));
        if action.marker {
            result.extend(marker());
        }
        state = next;
        left -= count;
    }
    result
}

#[test]
fn noisy_child_output_is_drained_with_a_bounded_file_and_marker() {
    let result = drain(100_000, 1024);
    assert_eq!(result.len(), 1024);
    assert!(result.ends_with(&marker()));
}

#[test]
fn quiet_output_is_kept_whole_without_marker() {
    let result = drain(5000, 1024 * 1024);
    assert_eq!(result.len(), 5000);
    assert!(!result.ends_with(&marker()));
    assert_eq!(limit(), 16 * 1024 * 1024);
    assert_eq!(marker().len(), 65);
}

#[test]
fn the_marker_is_written_once() {
    let (s, a) = step(LogState { retained: 0, truncated: false }, 100, 70);
    assert_eq!((a.keep, a.marker), (5, true));
    let (s, a) = step(s, 100, 70);
    assert_eq!((a.keep, a.marker), (0, false));
    assert!(s.truncated);
    assert_eq!(s.retained, 5);
}
