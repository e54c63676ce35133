use network_partitions::errors::CoreError;
use network_partitions::random_vector::{permutation_from_draws, random_permutation};
use network_partitions::work_queue::FullNetworkWorkQueue;
use rand::SeedableRng;
use rand_xorshift::XorShiftRng;

#[test]
fn test_determinism() {
    let mut rng1: XorShiftRng = XorShiftRng::seed_from_u64(1234);
    let mut rng2: XorShiftRng = XorShiftRng::seed_from_u64(1234);
    let order_1: FullNetworkWorkQueue =
        FullNetworkWorkQueue::items_in_random_order(100000, &mut rng1);
    let order_2: FullNetworkWorkQueue =
        FullNetworkWorkQueue::items_in_random_order(100000, &mut rng2);
    assert_eq!(order_1, order_2);
}

#[test]
fn random_permutation_is_a_shuffled_permutation() {
    let mut rng: XorShiftRng = XorShiftRng::seed_from_u64(1234);
    let permutation = random_permutation(50, &mut rng);
    let mut sorted = permutation.clone();
    sorted.sort();
    assert_eq!(sorted, (0..50).collect::<Vec<usize>>());
    assert_ne!(permutation, (0..50).collect::<Vec<usize>>());
}

#[test]
fn random_permutation_repeats_for_a_seed() {
    let mut rng1: XorShiftRng = XorShiftRng::seed_from_u64(7);
    let mut rng2: XorShiftRng = XorShiftRng::seed_from_u64(7);
    assert_eq!(random_permutation(20, &mut rng1), random_permutation(20, &mut rng2));
    assert_eq!(random_permutation(0, &mut rng1), Vec::<usize>::new());
}

#[test]
fn work_queue_pops_every_node_once() {
    let mut rng: XorShiftRng = XorShiftRng::seed_from_u64(1234);
    let mut queue = FullNetworkWorkQueue::items_in_random_order(10, &mut rng);
    assert_eq!(queue.len(), 10);
    let mut seen: Vec<usize> = Vec::new();
    while !queue.is_empty() {
        seen.push(queue.pop_front().unwrap());
    }
    seen.sort();
    assert_eq!(seen, (0..10).collect::<Vec<usize>>());
    assert_eq!(queue.pop_front(), Err(CoreError::QueueError));
}

#[test]
fn work_queue_pushes_only_stable_nodes() {
    let mut queue = FullNetworkWorkQueue::new();
    assert!(queue.is_empty());
    assert!(queue.push_back(3));
    assert!(!queue.push_back(3));
    assert_eq!(queue.len(), 1);
    assert!(queue.push_back(1));
    assert_eq!(queue.len(), 2);
    assert_eq!(queue.pop_front(), Ok(3));
    queue.push_back(3);
    assert_eq!(queue.pop_front(), Ok(1));
    assert_eq!(queue.pop_front(), Ok(3));
    assert_eq!(queue.pop_front(), Err(CoreError::QueueError));
}

#[test]
fn permutation_from_draws_swaps_in_turn() {
    // [0,1,2,3] -> swap 0,2 -> [2,1,0,3] -> swap 1,1 -> same -> swap 2,3 -> [2,1,3,0] -> swap 3,0 -> [0,1,3,2]
    let draws: Vec<usize> = vec![2, 1, 3, 0];
    assert_eq!(permutation_from_draws(4, &draws), vec![0, 1, 3, 2]);
    assert_eq!(permutation_from_draws(0, &Vec::new()), Vec::<usize>::new());
}
