use fire_detection::cluster::{
    cluster_sensors, compare_severity, sort_clusters_by_severity, Cluster, Sensor,
    SeverityOrdering,
};
use fire_detection::communication::FireAlert;
use fire_detection::fire_detection::{FireDetection, SensorCluster};

// Readings are fixed-point centi-units: 70.25 degrees is 7025.
fn sensor(id: u32, floor: u32, room: u32, temperature: u32, smoke_level: u32) -> Sensor {
    Sensor { id, x: 100, y: 100, floor, room, temperature, smoke_level }
}

#[test]
fn test_cluster_sensors() {
    let sensors = vec![
        sensor(1, 1, 101, 7000, 80),
        sensor(2, 1, 101, 7500, 90),
        sensor(3, 1, 102, 6500, 70),
    ];

    let clusters = cluster_sensors(sensors);

    assert_eq!(clusters.len(), 2); // one cluster for room 101 and one for room 102
    assert_eq!(clusters[0].sensors.len(), 2); // room 101 holds 2 sensors
    assert_eq!(clusters[1].sensors.len(), 1); // room 102 holds 1 sensor
}

#[test]
fn test_is_affected() {
    let sensors = vec![sensor(1, 1, 101, 10000, 120), sensor(2, 1, 101, 9500, 110)];

    let mut cluster = Cluster::new(1, 101);
    for s in sensors {
        cluster.add_sensor(s);
    }

    assert!(cluster.is_affected(9000, 100)); // averaged (97.50, 1.15) vs (90.00, 1.00)
}

#[test]
fn cluster_sensors_empty_input() {
    let clusters = cluster_sensors(Vec::new());
    assert!(clusters.is_empty());
}

#[test]
fn cluster_sensors_keys_and_order() {
    let sensors = vec![
        sensor(1, 2, 201, 5000, 10),
        sensor(2, 1, 101, 5100, 20),
        sensor(3, 2, 201, 5200, 30),
        sensor(4, 1, 101, 5300, 40),
        sensor(5, 3, 301, 5400, 50),
    ];
    let clusters = cluster_sensors(sensors);
    assert_eq!(clusters.len(), 3);
    // clusters appear in order of first appearance of their key
    assert_eq!((clusters[0].floor, clusters[0].room), (2, 201));
    assert_eq!((clusters[1].floor, clusters[1].room), (1, 101));
    assert_eq!((clusters[2].floor, clusters[2].room), (3, 301));
    // sensors keep input order within their cluster
    assert_eq!(clusters[0].sensors[0].id, 1);
    assert_eq!(clusters[0].sensors[1].id, 3);
    assert_eq!(clusters[1].sensors[0].id, 2);
    assert_eq!(clusters[1].sensors[1].id, 4);
    assert_eq!(clusters[2].sensors[0].id, 5);
}

#[test]
fn average_data_exact_totals() {
    let mut cluster = Cluster::new(1, 101);
    cluster.add_sensor(sensor(1, 1, 101, 7000, 80));
    cluster.add_sensor(sensor(2, 1, 101, 7500, 90));
    let (avg_temp, avg_smoke) = cluster.average_data();
    // the exact mean 72.50 is carried as the rational 14500/2
    assert_eq!(avg_temp.total, 14500);
    assert_eq!(avg_temp.count, 2);
    assert_eq!(avg_smoke.total, 170);
    assert_eq!(avg_smoke.count, 2);
}

#[test]
fn is_affected_below_thresholds() {
    // averaged (70.00, 0.50) against thresholds (90.00, 1.00)
    let mut cluster = Cluster::new(1, 101);
    cluster.add_sensor(sensor(1, 1, 101, 7000, 50));
    assert!(!cluster.is_affected(9000, 100));
}

#[test]
fn is_affected_needs_both_metrics() {
    // temperature reaches its threshold, smoke falls short: not affected
    let mut hot = Cluster::new(1, 101);
    hot.add_sensor(sensor(1, 1, 101, 9000, 50));
    assert!(!hot.is_affected(9000, 100));
    // smoke reaches its threshold, temperature falls short: not affected
    let mut smoky = Cluster::new(1, 101);
    smoky.add_sensor(sensor(2, 1, 101, 7000, 100));
    assert!(!smoky.is_affected(9000, 100));
    // both exactly at their thresholds: affected (inclusive rule)
    let mut both = Cluster::new(1, 101);
    both.add_sensor(sensor(3, 1, 101, 9000, 100));
    assert!(both.is_affected(9000, 100));
}

#[test]
fn detect_fire_strict_inequality() {
    let detection = FireDetection::new(5000, 300);
    // exact equality on both metrics does not trip
    assert!(!detection.detect_fire(5000, 300));
    // either metric alone trips when strictly above
    assert!(detection.detect_fire(5001, 0));
    assert!(detection.detect_fire(0, 301));
    assert!(!detection.detect_fire(4999, 299));
}

#[test]
fn compare_severity_three_ways() {
    let mut hot = Cluster::new(1, 101);
    hot.add_sensor(sensor(1, 1, 101, 9000, 100));
    let mut cool = Cluster::new(1, 102);
    cool.add_sensor(sensor(2, 1, 102, 7000, 100));
    assert_eq!(compare_severity(&hot, &cool), SeverityOrdering::Precedes);
    assert_eq!(compare_severity(&cool, &hot), SeverityOrdering::Follows);

    // equal averaged temperature: averaged smoke breaks the tie
    let mut smoky = Cluster::new(1, 103);
    smoky.add_sensor(sensor(3, 1, 103, 7000, 200));
    assert_eq!(compare_severity(&smoky, &cool), SeverityOrdering::Precedes);

    // averages compare as exact rationals across different counts:
    // 9000/1 ties 18000/2
    let mut pair = Cluster::new(2, 201);
    pair.add_sensor(sensor(4, 2, 201, 9000, 100));
    pair.add_sensor(sensor(5, 2, 201, 9000, 100));
    assert_eq!(compare_severity(&hot, &pair), SeverityOrdering::Ties);
}

#[test]
fn sort_clusters_descending_severity() {
    let sensors = vec![
        sensor(1, 1, 101, 6000, 50),
        sensor(2, 1, 102, 9000, 120),
        sensor(3, 1, 103, 7500, 80),
    ];
    let mut clusters = cluster_sensors(sensors);
    sort_clusters_by_severity(&mut clusters);
    assert_eq!(clusters[0].room, 102);
    assert_eq!(clusters[1].room, 103);
    assert_eq!(clusters[2].room, 101);
}

#[test]
fn sort_keeps_tied_clusters_in_input_order() {
    // two clusters with exactly equal averaged metrics keep their
    // relative order; a hotter one still moves ahead of both
    let sensors = vec![
        sensor(1, 1, 101, 7000, 80),
        sensor(2, 1, 102, 7000, 80),
        sensor(3, 2, 201, 8000, 90),
    ];
    let mut clusters = cluster_sensors(sensors);
    sort_clusters_by_severity(&mut clusters);
    assert_eq!(clusters[0].room, 201);
    assert_eq!(clusters[1].room, 101);
    assert_eq!(clusters[2].room, 102);
}

#[test]
fn location_index_lookup() {
    let index = SensorCluster::new();
    let rooms = index.find_cluster("Floor 1").expect("Floor 1 is in the index");
    assert_eq!(rooms.len(), 2);
    assert_eq!(rooms[0], "Room A");
    assert_eq!(rooms[1], "Room B");
    assert!(index.find_cluster("Floor 3").is_none());
    assert!(index.find_cluster("").is_none());
}

#[test]
fn identify_affected_cluster_copies_rooms() {
    let detection = FireDetection::new(5000, 300);
    let index = SensorCluster::new();
    let rooms = detection
        .identify_affected_cluster("Floor 2", &index)
        .expect("Floor 2 is in the index");
    assert_eq!(rooms, vec!["Room C".to_string(), "Room D".to_string()]);
    assert!(detection.identify_affected_cluster("Basement", &index).is_none());
}

#[test]
fn alert_to_json_exact_text() {
    let alert = FireAlert {
        location: "Room A, Floor 1".to_string(),
        temperature: 7025,
        smoke_level: 300,
        cluster: vec!["Room A".to_string(), "Room B".to_string()],
    };
    assert_eq!(
        alert.to_json(),
        "{\"location\":\"Room A, Floor 1\",\"temperature\":70.25,\"smoke_level\":300,\
         \"cluster\":[\"Room A\",\"Room B\"]}"
    );
}

#[test]
fn alert_to_json_escapes_and_edges() {
    let alert = FireAlert {
        location: "lab \"B\"\\\n".to_string(),
        temperature: 5,
        smoke_level: 0,
        cluster: Vec::new(),
    };
    assert_eq!(
        alert.to_json(),
        "{\"location\":\"lab \\\"B\\\"\\\\\\u000a\",\"temperature\":0.05,\
         \"smoke_level\":0,\"cluster\":[]}"
    );
}

#[test]
fn aggregation_at_largest_readings() {
    // summation and threshold comparison stay exact at the largest
    // representable readings
    let mut cluster = Cluster::new(9, 901);
    cluster.add_sensor(sensor(1, 9, 901, u32::MAX, u32::MAX));
    cluster.add_sensor(sensor(2, 9, 901, u32::MAX, u32::MAX));
    let (avg_temp, avg_smoke) = cluster.average_data();
    assert_eq!(avg_temp.total, 2 * (u32::MAX as u128));
    assert_eq!(avg_smoke.total, 2 * (u32::MAX as u128));
    assert!(cluster.is_affected(u32::MAX, u32::MAX));
}
