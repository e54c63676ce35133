use network_partitions::errors::CoreError;
use network_partitions::identifier::Identifier;
use network_partitions::safe_vectors::SafeVectors;

#[test]
fn identifier_hands_out_ids_in_order_of_first_sight() {
    let mut identifier = Identifier::new();
    assert_eq!(identifier.identify(40), 0);
    assert_eq!(identifier.identify(7), 1);
    assert_eq!(identifier.identify(40), 0);
    assert_eq!(identifier.identify(12), 2);
    assert_eq!(identifier.identity_map(), vec![40, 7, 12]);
    let (ids, labels) = identifier.finish();
    assert_eq!(labels, vec![40, 7, 12]);
    assert_eq!(ids.get(&7), Some(&1));
    assert_eq!(ids.len(), 3);
    assert_eq!(identifier.identity_map(), Vec::<usize>::new());
    assert_eq!(identifier.identify(7), 0);
    identifier.clear();
    assert_eq!(identifier.identity_map(), Vec::<usize>::new());
}

#[test]
fn safe_vectors_check_bounds() {
    let values: Vec<usize> = vec![5, 6];
    assert!(values.is_safe_access(1));
    assert!(!values.is_safe_access(2));
    assert!(values.is_valid_range(2));
    assert!(!values.is_valid_range(3));
    assert_eq!(values.get_or_err(1, CoreError::QueueError), Ok(6));
    assert_eq!(
        values.get_or_err(2, CoreError::InternalNetworkIndexingError),
        Err(CoreError::InternalNetworkIndexingError)
    );
}
