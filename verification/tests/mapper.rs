use fdupe::mapper::{after_pull, Work};

/// A pool of `workers` workers that take their turns in the order `schedule`,
/// round and round, until every one has left.
fn run(items: Vec<u32>, workers: usize, schedule: &[usize], f: fn(u32) -> u64) -> Vec<u64> {
    let mut source = items.into_iter();
    let mut in_hand: Vec<Option<u32>> = vec![None; workers];
    let mut gone = vec![false; workers];
    let mut delivered = Vec::new();
    let mut turn = 0;
    while gone.iter().any(|left| !left) {
        let who = schedule[turn % schedule.len()] % workers;
        turn += 1;
        if gone[who] {
            continue;
        }
        match in_hand[who].take() {
            Some(item) => delivered.push(f(item)),
            None => match after_pull(source.next()) {
                Work::Compute(item) => in_hand[who] = Some(item),
                Work::Leave => gone[who] = true,
            },
        }
    }
    delivered
}

fn square(item: u32) -> u64 {
    (item as u64) * (item as u64)
}

#[test]
fn worker_computes_what_it_pulled_and_leaves_on_nothing() {
    assert!(matches!(after_pull(Some(7)), Work::Compute(7)));
    assert!(matches!(after_pull(None::<u32>), Work::Leave));
}

#[test]
fn one_worker_delivers_in_order() {
    let items: Vec<u32> = (1..=10).collect();
    let expected: Vec<u64> = items.iter().map(|item| square(*item)).collect();
    assert_eq!(run(items, 1, &[0], square), expected);
}

#[test]
fn many_workers_deliver_every_result_once() {
    let items: Vec<u32> = (1..=25).collect();
    let mut expected: Vec<u64> = items.iter().map(|item| square(*item)).collect();
    expected.sort();
    for schedule in [vec![0, 1, 2], vec![2, 2, 1, 0, 0, 0, 1], vec![0, 1, 1, 1, 2, 0]] {
        let mut delivered = run(items.clone(), 3, &schedule, square);
        assert_eq!(delivered.len(), 25);
        delivered.sort();
        assert_eq!(delivered, expected);
    }
}

#[test]
fn results_may_come_out_of_order() {
    // worker 0 pulls 1, worker 1 pulls 2 and delivers first
    let delivered = run(vec![1, 2], 2, &[0, 1, 1, 0, 0, 1], square);
    assert_eq!(delivered, vec![4, 1]);
}

#[test]
fn no_items_give_no_results() {
    assert_eq!(run(Vec::new(), 4, &[0, 1, 2, 3], square), Vec::<u64>::new());
}
