use farms_stream_map::{assert_is_terminated, AdvanceStep, FarmIndex, FarmsAddRemoveStreamMap};

/// A simulated operation: it reports `Pending` for `polls_left` polls, then yields `value`.
#[derive(Debug)]
struct Op {
    value: u32,
    polls_left: u32,
}

fn op(value: u32) -> Op {
    Op { value, polls_left: 0 }
}

fn slow_op(value: u32, polls_left: u32) -> Op {
    Op { value, polls_left }
}

/// Drives one advance: polls active operations in the order the map gives, and
/// returns the first result, `None` at the end of the sequence, or `Err(())`
/// when the pass suspends.
fn advance(map: &mut FarmsAddRemoveStreamMap<Op>) -> Result<Option<u32>, ()> {
    let mut step = map.first_step();
    loop {
        match step {
            AdvanceStep::Terminated => return Ok(None),
            AdvanceStep::Pending => return Err(()),
            AdvanceStep::Poll(farm_index) => {
                let current = map.active_op_mut(farm_index);
                if current.polls_left == 0 {
                    let done = map.complete(farm_index);
                    return Ok(Some(done.value));
                }
                current.polls_left -= 1;
                step = map.step_after_pending(farm_index);
            }
        }
    }
}

/// Advances until a result comes or the sequence ends, as an executor would after
/// each wake-up.
fn next_item(map: &mut FarmsAddRemoveStreamMap<Op>) -> Option<u32> {
    loop {
        if let Ok(item) = advance(map) {
            return item;
        }
    }
}

#[test]
fn test_stream_map_default() {
    let stream_map = FarmsAddRemoveStreamMap::<()>::default();
    assert!(assert_is_terminated(&stream_map));
}

#[test]
fn test_stream_map_push() {
    let mut stream_map = FarmsAddRemoveStreamMap::default();

    let farm_index = 1;
    let fut = Box::pin(async {});
    stream_map.push(farm_index, fut);
    assert!(stream_map.farms_to_add_remove.is_empty());
    assert!(stream_map.in_progress.contains_key(&farm_index));
    assert!(!stream_map.is_terminated());
}

#[test]
fn test_stream_map_poll_next_entry() {
    let mut stream_map = FarmsAddRemoveStreamMap::default();

    stream_map.push(0, op(0));

    let poll_result = advance(&mut stream_map);
    assert!(poll_result.is_ok());
    assert!(assert_is_terminated(&stream_map));
}

#[test]
fn test_stream_map_stream() {
    let mut stream_map = FarmsAddRemoveStreamMap::default();

    stream_map.push(0, op(0x00));

    let next_item_value = next_item(&mut stream_map);
    assert_eq!(next_item_value, Some(0x00));
    assert!(assert_is_terminated(&stream_map));

    let fut11 = op(0x11);
    let fut12 = op(0x12);
    let fut13 = op(0x13);
    // Reports pending three times, so that fut22 is polled last.
    let fut21 = slow_op(0x21, 3);
    let fut22 = op(0x22);

    stream_map.push(1, fut11);
    stream_map.push(1, fut12);
    assert!(!stream_map.is_terminated());
    assert_eq!(stream_map.in_progress.len(), 1);
    assert!(stream_map.in_progress.contains_key(&1));
    assert_eq!(stream_map.farms_to_add_remove.len(), 1);

    stream_map.push(2, fut21);
    assert_eq!(stream_map.in_progress.len(), 2);
    assert!(stream_map.in_progress.contains_key(&2));
    assert_eq!(stream_map.farms_to_add_remove.len(), 1);

    stream_map.push(2, fut22);
    assert_eq!(stream_map.in_progress.len(), 2);
    assert_eq!(stream_map.farms_to_add_remove.len(), 2);
    assert_eq!(stream_map.farms_to_add_remove[&2].len(), 1);

    stream_map.push(1, fut13);
    assert!(!stream_map.is_terminated());
    assert!(stream_map.in_progress.contains_key(&1));
    assert_eq!(stream_map.in_progress.len(), 2);
    assert_eq!(stream_map.farms_to_add_remove[&1].len(), 2);

    let next_item_value = next_item(&mut stream_map);
    assert!(!stream_map.is_terminated());
    assert_eq!(next_item_value.unwrap(), 0x11);
    assert!(stream_map.in_progress.contains_key(&1));
    assert!(stream_map.in_progress.contains_key(&2));
    assert_eq!(stream_map.in_progress.len(), 2);
    assert_eq!(stream_map.farms_to_add_remove[&1].len(), 1);

    let next_item_value = next_item(&mut stream_map);
    assert!(!stream_map.is_terminated());
    assert_eq!(next_item_value.unwrap(), 0x12);
    assert_eq!(stream_map.in_progress.len(), 2);
    assert!(stream_map.in_progress.contains_key(&1));
    assert!(stream_map.in_progress.contains_key(&2));
    assert!(!stream_map.farms_to_add_remove.contains_key(&1));

    let next_item_value = next_item(&mut stream_map);
    assert!(!stream_map.is_terminated());
    assert_eq!(next_item_value.unwrap(), 0x13);
    assert_eq!(stream_map.in_progress.len(), 1);
    assert!(!stream_map.in_progress.contains_key(&1));
    assert!(stream_map.in_progress.contains_key(&2));
    assert!(!stream_map.farms_to_add_remove.contains_key(&1));
    assert_eq!(stream_map.farms_to_add_remove[&2].len(), 1);

    let next_item_value = next_item(&mut stream_map);
    assert!(!stream_map.is_terminated());
    assert_eq!(next_item_value.unwrap(), 0x21);
    assert_eq!(stream_map.in_progress.len(), 1);
    assert!(!stream_map.in_progress.contains_key(&1));
    assert!(stream_map.in_progress.contains_key(&2));
    assert!(!stream_map.farms_to_add_remove.contains_key(&1));
    assert!(!stream_map.farms_to_add_remove.contains_key(&2));

    let next_item_value = next_item(&mut stream_map);
    assert_eq!(next_item_value, Some(0x22));
    assert!(assert_is_terminated(&stream_map));
}

#[test]
fn new_map_is_idle() {
    let stream_map: FarmsAddRemoveStreamMap<Op> = FarmsAddRemoveStreamMap::new();
    assert!(stream_map.in_progress.is_empty());
    assert!(stream_map.farms_to_add_remove.is_empty());
    assert!(stream_map.is_terminated());
    assert!(assert_is_terminated(&stream_map));
    assert_eq!(stream_map.first_step(), AdvanceStep::Terminated);
}

#[test]
fn push_to_unseen_key_activates_at_once() {
    let mut stream_map = FarmsAddRemoveStreamMap::new();
    stream_map.push(7, op(1));
    stream_map.push(3, op(2));
    assert_eq!(stream_map.in_progress.len(), 2);
    assert_eq!(stream_map.in_progress[&7].value, 1);
    assert_eq!(stream_map.in_progress[&3].value, 2);
    assert!(stream_map.farms_to_add_remove.is_empty());
    assert!(!assert_is_terminated(&stream_map));
}

#[test]
fn push_to_busy_key_queues_behind() {
    let mut stream_map = FarmsAddRemoveStreamMap::new();
    stream_map.push(5, op(1));
    stream_map.push(5, op(2));
    stream_map.push(5, op(3));
    assert_eq!(stream_map.in_progress.len(), 1);
    assert_eq!(stream_map.in_progress[&5].value, 1);
    let queued: Vec<u32> = stream_map.farms_to_add_remove[&5].iter().map(|o| o.value).collect();
    assert_eq!(queued, vec![2, 3]);
}

#[test]
fn results_per_key_come_in_pushed_order() {
    let mut stream_map = FarmsAddRemoveStreamMap::new();
    for value in 0..6u32 {
        stream_map.push(4, op(value));
    }
    let mut results = Vec::new();
    while let Some(value) = next_item(&mut stream_map) {
        assert!(stream_map.in_progress.len() <= 1);
        results.push(value);
    }
    assert_eq!(results, vec![0, 1, 2, 3, 4, 5]);
    assert!(assert_is_terminated(&stream_map));
}

#[test]
fn one_result_per_advance_from_lowest_ready_key() {
    let mut stream_map = FarmsAddRemoveStreamMap::new();
    stream_map.push(9, op(90));
    stream_map.push(2, slow_op(20, 5));
    stream_map.push(6, op(60));
    assert_eq!(advance(&mut stream_map), Ok(Some(60)));
    assert_eq!(stream_map.in_progress.len(), 2);
    assert!(stream_map.in_progress.contains_key(&9));
    assert!(stream_map.in_progress.contains_key(&2));
    assert_eq!(advance(&mut stream_map), Ok(Some(90)));
    assert_eq!(stream_map.in_progress.len(), 1);
}

#[test]
fn pass_suspends_when_nothing_is_ready() {
    let mut stream_map = FarmsAddRemoveStreamMap::new();
    stream_map.push(1, slow_op(10, 1));
    stream_map.push(2, slow_op(20, 1));
    assert_eq!(stream_map.first_step(), AdvanceStep::Poll(1));
    assert_eq!(stream_map.step_after_pending(1), AdvanceStep::Poll(2));
    assert_eq!(stream_map.step_after_pending(2), AdvanceStep::Pending);
    assert_eq!(advance(&mut stream_map), Err(()));
    assert_eq!(stream_map.in_progress.len(), 2);
    assert_eq!(advance(&mut stream_map), Ok(Some(10)));
}

#[test]
fn steps_cover_key_range_edges() {
    let mut stream_map = FarmsAddRemoveStreamMap::new();
    stream_map.push(FarmIndex::MAX, op(1));
    stream_map.push(0, op(2));
    assert_eq!(stream_map.first_step(), AdvanceStep::Poll(0));
    assert_eq!(stream_map.step_after_pending(0), AdvanceStep::Poll(FarmIndex::MAX));
    assert_eq!(stream_map.step_after_pending(FarmIndex::MAX), AdvanceStep::Pending);
}

#[test]
fn completion_promotes_front_of_queue() {
    let mut stream_map = FarmsAddRemoveStreamMap::new();
    stream_map.push(3, op(1));
    stream_map.push(3, op(2));
    stream_map.push(3, op(3));
    let done = stream_map.complete(3);
    assert_eq!(done.value, 1);
    assert_eq!(stream_map.in_progress[&3].value, 2);
    assert_eq!(stream_map.farms_to_add_remove[&3].len(), 1);
    let done = stream_map.complete(3);
    assert_eq!(done.value, 2);
    assert_eq!(stream_map.in_progress[&3].value, 3);
    assert!(!stream_map.farms_to_add_remove.contains_key(&3));
    let done = stream_map.complete(3);
    assert_eq!(done.value, 3);
    assert!(assert_is_terminated(&stream_map));
}

#[test]
fn active_op_mut_changes_only_that_operation() {
    let mut stream_map = FarmsAddRemoveStreamMap::new();
    stream_map.push(1, op(1));
    stream_map.push(1, op(2));
    stream_map.push(8, op(3));
    stream_map.active_op_mut(1).value = 11;
    assert_eq!(stream_map.in_progress[&1].value, 11);
    assert_eq!(stream_map.in_progress[&8].value, 3);
    assert_eq!(stream_map.farms_to_add_remove[&1][0].value, 2);
}

#[test]
fn full_drain_returns_to_idle() {
    let mut stream_map = FarmsAddRemoveStreamMap::new();
    stream_map.push(2, op(21));
    stream_map.push(1, op(11));
    stream_map.push(2, op(22));
    stream_map.push(1, op(12));
    stream_map.push(0, op(1));
    let mut results = Vec::new();
    for _ in 0..5 {
        results.push(advance(&mut stream_map).unwrap().unwrap());
    }
    assert_eq!(results, vec![1, 11, 12, 21, 22]);
    assert!(assert_is_terminated(&stream_map));
    assert_eq!(advance(&mut stream_map), Ok(None));
}

#[test]
fn idle_is_not_permanent() {
    let mut stream_map = FarmsAddRemoveStreamMap::new();
    stream_map.push(0, op(5));
    assert_eq!(next_item(&mut stream_map), Some(5));
    assert_eq!(next_item(&mut stream_map), None);
    assert!(stream_map.is_terminated());
    stream_map.push(0, op(6));
    assert!(!stream_map.is_terminated());
    assert_eq!(next_item(&mut stream_map), Some(6));
    assert_eq!(next_item(&mut stream_map), None);
    assert!(stream_map.is_terminated());
}

#[test]
fn two_keys_three_results_scenario() {
    const A: FarmIndex = 1;
    const B: FarmIndex = 2;
    let mut stream_map = FarmsAddRemoveStreamMap::new();
    stream_map.push(A, "x1");
    stream_map.push(A, "x2");
    stream_map.push(B, "y");
    let mut results = Vec::new();
    for _ in 0..3 {
        let step = stream_map.first_step();
        match step {
            AdvanceStep::Poll(farm_index) => results.push(stream_map.complete(farm_index)),
            other => panic!("unexpected step {:?}", other),
        }
    }
    let x1 = results.iter().position(|r| *r == "x1").unwrap();
    let x2 = results.iter().position(|r| *r == "x2").unwrap();
    assert!(results.contains(&"y"));
    assert!(x1 < x2);
    assert_eq!(results.len(), 3);
    assert!(assert_is_terminated(&stream_map));
}
