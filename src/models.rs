use vstd::prelude::*;

verus! {

/// A resource as the resource registry describes it: its kind and its name.
#[derive(Debug, Clone, PartialEq, Eq)]
pub struct Sensor {
    pub sensor_type: String,
    pub sensor_name: String,
}

/// A task whose resources are resolved to their registry entries.
#[derive(Debug, Clone, PartialEq, Eq)]
pub struct Task {
    pub fn_identifier: String,
    pub call_time_ms: u64,
    pub args: Vec<Sensor>,
    pub satisfies: Option<Vec<String>>,
    pub requires: Option<Vec<String>>,
}

/// One unit and its tasks.
#[derive(Debug)]
pub struct OBCInfo {
    pub cpu_id: u32,
    pub tasks: Vec<Task>,
}

/// All units.
#[derive(Debug)]
pub struct Topology {
    pub cpus: Vec<OBCInfo>,
}

/// One entry of the resource registry file: a resource's name and its value range.
#[derive(Debug, Clone)]
pub struct Sensors {
    pub name: String,
    pub from: String,
    pub to: String,
}

/// The resource registry file: its resources, in registry order, and its ports.
#[derive(Debug, Clone)]
pub struct SensorJson {
    pub sensors: Vec<Sensors>,
    pub ports: Vec<String>,
}

/// Some sensor in `sensors` is named `name`.
pub open spec fn has_sensor(sensors: Seq<Sensor>, name: Seq<char>) -> bool {
    exists|i: int| 0 <= i < sensors.len() && sensors[i].sensor_name@ == name
}

/// `s` is the first sensor in `sensors` named `name`.
pub open spec fn first_sensor(sensors: Seq<Sensor>, name: Seq<char>, s: Sensor) -> bool {
    exists|i: int|
        0 <= i < sensors.len() && sensors[i].sensor_name@ == name && s.sensor_name@ == sensors[i].sensor_name@
            && s.sensor_type@ == sensors[i].sensor_type@ && forall|j: int| 0 <= j < i ==> #[trigger] sensors[j].sensor_name@ != name
}

/// The registry's resource names, in registry order: slot `i` is resource `i`.
pub fn sensor_names(json: &SensorJson) -> (r: Vec<String>)
    ensures
        r@.len() == json.sensors@.len(),
        forall|i: int| 0 <= i < r@.len() ==> #[trigger] r@[i]@ == json.sensors@[i].name@,
{
    let mut r: Vec<String> = Vec::new();
    let mut i: usize = 0;
    while i < json.sensors.len()
        invariant
            i <= json.sensors@.len(),
            r@.len() == i,
            forall|j: int| 0 <= j < i ==> #[trigger] r@[j]@ == json.sensors@[j].name@,
        decreases json.sensors@.len() - i,
    {
        r.push(json.sensors[i].name.clone());
        i = i + 1;
    }
    r
}

impl Sensor {
    /// The first sensor of `sensors_map` named `name`.
    pub fn from_name(name: &str, sensors_map: &Vec<Sensor>) -> (r: Sensor)
        requires
            has_sensor(sensors_map@, name@),
        ensures
            first_sensor(sensors_map@, name@, r),
    {
        let wanted: String = name.to_owned();
        let mut i: usize = 0;
        while i < sensors_map.len()
            invariant
                i <= sensors_map@.len(),
                wanted@ == name@,
                has_sensor(sensors_map@, name@),
                forall|j: int| 0 <= j < i ==> #[trigger] sensors_map@[j].sensor_name@ != name@,
            decreases sensors_map@.len() - i,
        {
            if sensors_map[i].sensor_name == wanted {
                let s = &sensors_map[i];
                let r = Sensor { sensor_type: s.sensor_type.clone(), sensor_name: s.sensor_name.clone() };
                assert(0 <= i < sensors_map@.len() && sensors_map@[i as int].sensor_name@ == name@
                    && r.sensor_name@ == sensors_map@[i as int].sensor_name@ && r.sensor_type@
                    == sensors_map@[i as int].sensor_type@);
                return r;
            }
            i = i + 1;
        }
        proof {
            let k = choose|k: int| 0 <= k < sensors_map@.len() && sensors_map@[k].sensor_name@ == name@;
            assert(sensors_map@[k].sensor_name@ != name@);
        }
        Sensor { sensor_type: String::new(), sensor_name: String::new() }
    }
}

impl Task {
    /// A task whose resources are the first sensors of `sensors_map` with the names in
    /// `args`, in the same order.
    pub fn new(
        fn_identifier: String,
        call_time_ms: u64,
        args: Vec<String>,
        satisfies: Option<Vec<String>>,
        reqs: Option<Vec<String>>,
        sensors_map: &Vec<Sensor>,
    ) -> (r: Self)
        requires
            forall|k: int| 0 <= k < args@.len() ==> has_sensor(sensors_map@, #[trigger] args@[k]@),
        ensures
            r.fn_identifier == fn_identifier,
            r.call_time_ms == call_time_ms,
            r.satisfies == satisfies,
            r.requires == reqs,
            r.args@.len() == args@.len(),
            forall|k: int| 0 <= k < args@.len() ==> first_sensor(sensors_map@, args@[k]@, #[trigger] r.args@[k]),
    {
        let mut resolved_args: Vec<Sensor> = Vec::new();
        let mut k: usize = 0;
        while k < args.len()
            invariant
                k <= args@.len(),
                resolved_args@.len() == k,
                forall|i: int| 0 <= i < args@.len() ==> has_sensor(sensors_map@, #[trigger] args@[i]@),
                forall|i: int| 0 <= i < k ==> first_sensor(sensors_map@, args@[i]@, #[trigger] resolved_args@[i]),
            decreases args@.len() - k,
        {
            resolved_args.push(Sensor::from_name(args[k].as_str(), sensors_map));
            k = k + 1;
        }
        Task { fn_identifier, call_time_ms, args: resolved_args, satisfies, requires: reqs }
    }
}

} // verus!
