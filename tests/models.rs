use decert::models::{sensor_names, Sensor, SensorJson, Sensors, Task};

fn sensor(kind: &str, name: &str) -> Sensor {
    Sensor { sensor_type: kind.to_string(), sensor_name: name.to_string() }
}

#[test]
fn from_name_takes_the_first_match() {
    let map = vec![sensor("temp", "T"), sensor("gyro", "G"), sensor("other", "T")];
    assert_eq!(Sensor::from_name("T", &map), sensor("temp", "T"));
    assert_eq!(Sensor::from_name("G", &map), sensor("gyro", "G"));
}

#[test]
fn task_resolves_its_resources() {
    let map = vec![sensor("temp", "T"), sensor("gyro", "G")];
    let t = Task::new("read".to_string(), 5, vec!["G".to_string(), "T".to_string()], None, Some(vec!["x".to_string()]), &map);
    assert_eq!(t.fn_identifier, "read");
    assert_eq!(t.call_time_ms, 5);
    assert_eq!(t.args, vec![sensor("gyro", "G"), sensor("temp", "T")]);
    assert_eq!(t.requires, Some(vec!["x".to_string()]));
    assert_eq!(t.satisfies, None);
}

#[test]
fn registry_names_in_order() {
    let json = SensorJson {
        sensors: vec![
            Sensors { name: "A".to_string(), from: "0".to_string(), to: "1".to_string() },
            Sensors { name: "B".to_string(), from: "0".to_string(), to: "1".to_string() },
        ],
        ports: vec![],
    };
    assert_eq!(sensor_names(&json), vec!["A", "B"]);
}
