//! The instantaneous alarm rule and the static location index used to
//! name the rooms of an affected floor.

use vstd::prelude::*;
use vstd::string::*;

verus! {

/// Character-by-character string equality, decided over the views.
fn str_eq(a: &str, b: &str) -> (r: bool)
    ensures
        r == (a@ == b@),
{
    let a_len = a.unicode_len();
    let b_len = b.unicode_len();
    if a_len != b_len {
        return false;
    }
    let mut i: usize = 0;
    while i < a_len
        invariant
            i <= a_len,
            a_len == a@.len(),
            a_len == b@.len(),
            forall|q: int| 0 <= q < i ==> a@[q] == b@[q],
        decreases a_len - i,
    {
        if a.get_char(i) != b.get_char(i) {
            return false;
        }
        i = i + 1;
    }
    proof {
        assert(a@ =~= b@);
    }
    true
}

/// An element-exact copy of a room-label list.
fn clone_rooms(rooms: &Vec<String>) -> (r: Vec<String>)
    ensures
        r@ == rooms@,
{
    let mut out: Vec<String> = Vec::new();
    let mut i: usize = 0;
    while i < rooms.len()
        invariant
            i <= rooms@.len(),
            out@ == rooms@.take(i as int),
        decreases rooms@.len() - i,
    {
        out.push(rooms[i].clone());
        proof {
            assert(out@ =~= rooms@.take(i as int + 1));
        }
        i = i + 1;
    }
    proof {
        assert(rooms@.take(rooms@.len() as int) =~= rooms@);
    }
    out
}

/// One row of the location index: a floor label and the pre-declared
/// room labels of that floor.
pub struct LocationEntry {
    pub location: String,
    pub rooms: Vec<String>,
}

/// The static location index supplied at startup: floor labels mapped
/// to the ordered room labels used when naming affected areas in an
/// alert payload.
pub struct SensorCluster {
    pub clusters: Vec<LocationEntry>,
}

impl SensorCluster {
    /// Floor labels are pairwise distinct, so a lookup hits at most
    /// one row.
    pub open spec fn wf(self) -> bool {
        forall|i: int, j: int|
            0 <= i < j < self.clusters@.len() ==> #[trigger] self.clusters@[i].location@
                != #[trigger] self.clusters@[j].location@
    }

    /// The built-in two-floor building plan.
    pub fn new() -> (index: SensorCluster)
        ensures
            index.wf(),
            index.clusters@.len() == 2,
            index.clusters@[0].location@ == "Floor 1"@,
            index.clusters@[0].rooms@.len() == 2,
            index.clusters@[0].rooms@[0]@ == "Room A"@,
            index.clusters@[0].rooms@[1]@ == "Room B"@,
            index.clusters@[1].location@ == "Floor 2"@,
            index.clusters@[1].rooms@.len() == 2,
            index.clusters@[1].rooms@[0]@ == "Room C"@,
            index.clusters@[1].rooms@[1]@ == "Room D"@,
    {
        proof {
            reveal_strlit("Floor 1");
            reveal_strlit("Floor 2");
        }
        let mut first_rooms: Vec<String> = Vec::new();
        first_rooms.push(String::from_str("Room A"));
        first_rooms.push(String::from_str("Room B"));
        let mut second_rooms: Vec<String> = Vec::new();
        second_rooms.push(String::from_str("Room C"));
        second_rooms.push(String::from_str("Room D"));
        let mut clusters: Vec<LocationEntry> = Vec::new();
        clusters.push(LocationEntry { location: String::from_str("Floor 1"), rooms: first_rooms });
        clusters.push(LocationEntry { location: String::from_str("Floor 2"), rooms: second_rooms });
        proof {
            assert("Floor 1"@[6] == '1');
            assert("Floor 2"@[6] == '2');
        }
        SensorCluster { clusters }
    }

    /// Looks the floor label up in the index: the room labels of the
    /// row carrying that label, or nothing when the label is absent.
    pub fn find_cluster(&self, location: &str) -> (r: Option<&Vec<String>>)
        ensures
            match r {
                Some(rooms) => exists|i: int|
                    0 <= i < self.clusters@.len() && #[trigger] self.clusters@[i].location@
                        == location@ && rooms@ == self.clusters@[i].rooms@,
                None => forall|i: int|
                    0 <= i < self.clusters@.len() ==> #[trigger] self.clusters@[i].location@
                        != location@,
            },
    {
        let mut i: usize = 0;
        while i < self.clusters.len()
            invariant
                i <= self.clusters@.len(),
                forall|q: int|
                    0 <= q < i ==> #[trigger] self.clusters@[q].location@ != location@,
            decreases self.clusters@.len() - i,
        {
            if str_eq(self.clusters[i].location.as_str(), location) {
                return Some(&self.clusters[i].rooms);
            }
            i = i + 1;
        }
        None
    }
}

/// Caller-supplied alarm configuration: the instantaneous trip
/// thresholds. Temperature is in centi-degrees; smoke is the raw
/// integer count the smoke sensor yields.
pub struct FireDetection {
    pub temperature_threshold: u32,
    pub smoke_threshold: u16,
}

impl FireDetection {
    pub fn new(temperature_threshold: u32, smoke_threshold: u16) -> (d: FireDetection)
        ensures
            d.temperature_threshold == temperature_threshold,
            d.smoke_threshold == smoke_threshold,
    {
        FireDetection { temperature_threshold, smoke_threshold }
    }

    /// Instantaneous alarm rule: one sensor's current readings trip the
    /// alarm when either metric strictly exceeds its threshold; exact
    /// equality does not trip.
    pub fn detect_fire(&self, temperature: u32, smoke_level: u16) -> (alarm: bool)
        ensures
            alarm == (temperature > self.temperature_threshold
                || smoke_level > self.smoke_threshold),
    {
        temperature > self.temperature_threshold || smoke_level > self.smoke_threshold
    }

    /// Names the rooms of the floor whose label tripped the alarm: a
    /// copy of that floor's room-label list from the index, or nothing
    /// when the label is not in the index.
    pub fn identify_affected_cluster(&self, location: &str, cluster: &SensorCluster) -> (r: Option<
        Vec<String>,
    >)
        ensures
            match r {
                Some(rooms) => exists|i: int|
                    0 <= i < cluster.clusters@.len() && #[trigger] cluster.clusters@[i].location@
                        == location@ && rooms@ == cluster.clusters@[i].rooms@,
                None => forall|i: int|
                    0 <= i < cluster.clusters@.len() ==> #[trigger] cluster.clusters@[i].location@
                        != location@,
            },
    {
        match cluster.find_cluster(location) {
            Some(rooms) => Some(clone_rooms(rooms)),
            None => None,
        }
    }
}

} // verus!
