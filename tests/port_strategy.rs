use port_strategy::input::{PortRange, ScanOrder};
use port_strategy::port_strategy::PortStrategy;

#[test]
fn serial_strategy_with_range() {
    let range = PortRange {
        ranges: vec![(1, 100)],
    };
    let strategy = PortStrategy::pick(&Some(range), None, ScanOrder::Serial);
    let result = strategy.order();
    let expected_range = (1..=100).into_iter().collect::<Vec<u16>>();
    assert_eq!(expected_range, result);
}

#[test]
fn random_strategy_with_range() {
    let range = PortRange {
        ranges: vec![(1, 100)],
    };
    let strategy = PortStrategy::pick(&Some(range), None, ScanOrder::Random);
    let mut result = strategy.order();
    let expected_range = (1..=100).into_iter().collect::<Vec<u16>>();
    assert_ne!(expected_range, result);

    result.sort_unstable();
    assert_eq!(expected_range, result);
}

#[test]
fn serial_strategy_with_ports() {
    let strategy = PortStrategy::pick(&None, Some(vec![80, 443]), ScanOrder::Serial);
    let result = strategy.order();
    assert_eq!(vec![80, 443], result);
}

#[test]
fn random_strategy_with_ports() {
    let strategy = PortStrategy::pick(&None, Some((1..10).collect()), ScanOrder::Random);
    let mut result = strategy.order();
    let expected_range = (1..10).into_iter().collect::<Vec<u16>>();
    assert_ne!(expected_range, result);

    result.sort_unstable();
    assert_eq!(expected_range, result);
}

#[test]
fn serial_ranges_concatenate_in_given_order() {
    let range = PortRange {
        ranges: vec![(5, 7), (1, 2)],
    };
    let strategy = PortStrategy::pick(&Some(range), None, ScanOrder::Serial);
    assert_eq!(vec![5, 6, 7, 1, 2], strategy.order());
}

#[test]
fn overlapping_ranges_are_not_merged() {
    let range = PortRange {
        ranges: vec![(1, 3), (2, 4)],
    };
    let serial = PortStrategy::pick(&Some(range), None, ScanOrder::Serial);
    assert_eq!(vec![1, 2, 3, 2, 3, 4], serial.order());

    let range = PortRange {
        ranges: vec![(1, 3), (2, 4)],
    };
    let random = PortStrategy::pick(&Some(range), None, ScanOrder::Random);
    let mut result = random.order();
    result.sort_unstable();
    assert_eq!(vec![1, 2, 2, 3, 3, 4], result);
}

#[test]
fn random_ranges_cover_every_range() {
    let range = PortRange {
        ranges: vec![(1000, 1009), (20, 24)],
    };
    let strategy = PortStrategy::pick(&Some(range), None, ScanOrder::Random);
    let mut result = strategy.order();
    result.sort_unstable();
    let mut expected: Vec<u16> = (20..=24).collect();
    expected.extend(1000..=1009);
    assert_eq!(expected, result);
}

#[test]
fn single_port_range_in_either_order() {
    for order in [ScanOrder::Serial, ScanOrder::Random] {
        let range = PortRange {
            ranges: vec![(8080, 8080)],
        };
        let strategy = PortStrategy::pick(&Some(range), None, order);
        assert_eq!(vec![8080], strategy.order());
    }
}

#[test]
fn explicit_list_wins_over_ranges() {
    let range = PortRange {
        ranges: vec![(1, 100)],
    };
    let strategy = PortStrategy::pick(&Some(range), Some(vec![22, 21]), ScanOrder::Serial);
    assert_eq!(vec![22, 21], strategy.order());
}

#[test]
fn single_listed_port_in_random_order() {
    let strategy = PortStrategy::pick(&None, Some(vec![443]), ScanOrder::Random);
    assert_eq!(vec![443], strategy.order());
}

#[test]
fn empty_list_stays_empty() {
    let strategy = PortStrategy::pick(&None, Some(vec![]), ScanOrder::Random);
    assert_eq!(Vec::<u16>::new(), strategy.order());
}

#[test]
fn highest_port_range_edges() {
    let range = PortRange {
        ranges: vec![(65534, 65535)],
    };
    let serial = PortStrategy::pick(&Some(range), None, ScanOrder::Serial);
    assert_eq!(vec![65534, 65535], serial.order());

    let range = PortRange {
        ranges: vec![(65535, 65535)],
    };
    let random = PortStrategy::pick(&Some(range), None, ScanOrder::Random);
    assert_eq!(vec![65535], random.order());
}

#[test]
fn whole_port_domain_in_random_order() {
    let range = PortRange {
        ranges: vec![(0, 65535)],
    };
    let strategy = PortStrategy::pick(&Some(range), None, ScanOrder::Random);
    let mut result = strategy.order();
    assert_eq!(65536, result.len());
    result.sort_unstable();
    let expected: Vec<u16> = (0..=65535).collect();
    assert_eq!(expected, result);
}
