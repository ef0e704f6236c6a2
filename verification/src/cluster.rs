//! Spatial clustering of sensor records by (floor, room), exact
//! per-cluster aggregation, the confirmed-affected rule, and severity
//! ranking of clusters.

use vstd::prelude::*;

verus! {

/// Immutable per-cycle snapshot of one sensor: identity, location and
/// readings. Coordinates and readings are fixed-point integers in
/// centi-units (hundredths of a degree / hundredths of a smoke unit).
#[derive(Clone, Copy)]
pub struct Sensor {
    pub id: u32,
    /// X coordinate, centi-units.
    pub x: i64,
    /// Y coordinate, centi-units.
    pub y: i64,
    /// Floor number in the building.
    pub floor: u32,
    /// Room number.
    pub room: u32,
    /// Temperature, centi-degrees.
    pub temperature: u32,
    /// Smoke level, centi-units.
    pub smoke_level: u32,
}

/// The grouping key of a sensor: its (floor, room) location.
pub open spec fn sensor_key(s: Sensor) -> (u32, u32) {
    (s.floor, s.room)
}

/// Whether a sensor lies in the given (floor, room) location.
pub open spec fn key_matches(s: Sensor, floor: u32, room: u32) -> bool {
    s.floor == floor && s.room == room
}

/// Sum of the temperatures of a sequence of sensors.
pub open spec fn temp_total(s: Seq<Sensor>) -> int
    decreases s.len(),
{
    if s.len() == 0 {
        0
    } else {
        temp_total(s.drop_last()) + s.last().temperature
    }
}

/// Sum of the smoke levels of a sequence of sensors.
pub open spec fn smoke_total(s: Seq<Sensor>) -> int
    decreases s.len(),
{
    if s.len() == 0 {
        0
    } else {
        smoke_total(s.drop_last()) + s.last().smoke_level
    }
}

/// Both totals are non-negative and bounded by count times the largest
/// reading a sensor can carry.
pub proof fn lemma_totals_bound(s: Seq<Sensor>)
    ensures
        0 <= temp_total(s) <= s.len() * 0xffff_ffff,
        0 <= smoke_total(s) <= s.len() * 0xffff_ffff,
    decreases s.len(),
{
    if s.len() > 0 {
        lemma_totals_bound(s.drop_last());
    }
}

/// The sub-sequence of `s` (in order) lying in the given location.
pub open spec fn filter_by_key(s: Seq<Sensor>, floor: u32, room: u32) -> Seq<Sensor>
    decreases s.len(),
{
    if s.len() == 0 {
        Seq::empty()
    } else {
        let rest = filter_by_key(s.drop_last(), floor, room);
        if key_matches(s.last(), floor, room) {
            rest.push(s.last())
        } else {
            rest
        }
    }
}

/// The distinct (floor, room) keys of `s`, in order of first appearance.
pub open spec fn first_keys(s: Seq<Sensor>) -> Seq<(u32, u32)>
    decreases s.len(),
{
    if s.len() == 0 {
        Seq::empty()
    } else {
        let rest = first_keys(s.drop_last());
        if rest.contains(sensor_key(s.last())) {
            rest
        } else {
            rest.push(sensor_key(s.last()))
        }
    }
}

/// The set of distinct (floor, room) keys present in `s`.
pub open spec fn key_set(s: Seq<Sensor>) -> Set<(u32, u32)> {
    Set::new(|k: (u32, u32)| exists|j: int| 0 <= j < s.len() && sensor_key(#[trigger] s[j]) == k)
}

/// Filtering keeps exactly the members that lie in the location.
pub proof fn lemma_filter_members(s: Seq<Sensor>, floor: u32, room: u32)
    ensures
        forall|x: Sensor| #[trigger] filter_by_key(s, floor, room).contains(x) ==> s.contains(x)
            && key_matches(x, floor, room),
        forall|x: Sensor|
            s.contains(x) && key_matches(x, floor, room) ==> filter_by_key(
                s,
                floor,
                room,
            ).contains(x),
    decreases s.len(),
{
    if s.len() > 0 {
        let d = s.drop_last();
        let rest = filter_by_key(d, floor, room);
        lemma_filter_members(d, floor, room);
        assert forall|x: Sensor| #[trigger] filter_by_key(s, floor, room).contains(x) implies s
            .contains(x) && key_matches(x, floor, room) by {
            let f = filter_by_key(s, floor, room);
            let i = choose|i: int| 0 <= i < f.len() && f[i] == x;
            if key_matches(s.last(), floor, room) && i == rest.len() {
                assert(x == s.last());
                assert(s[s.len() - 1] == x);
            } else {
                assert(rest[i] == x);
                assert(rest.contains(x));
                let j = choose|j: int| 0 <= j < d.len() && d[j] == x;
                assert(s[j] == x);
            }
        }
        assert forall|x: Sensor| s.contains(x) && key_matches(x, floor, room) implies filter_by_key(
            s,
            floor,
            room,
        ).contains(x) by {
            let j = choose|j: int| 0 <= j < s.len() && s[j] == x;
            if j < s.len() - 1 {
                assert(d[j] == x);
                assert(d.contains(x));
                let i = choose|i: int| 0 <= i < rest.len() && rest[i] == x;
                assert(filter_by_key(s, floor, room)[i] == x);
            } else {
                assert(x == s.last());
                let f = filter_by_key(s, floor, room);
                assert(f[f.len() - 1] == x);
            }
        }
    }
}

/// A sequence with no sensor in the location filters to nothing.
pub proof fn lemma_filter_of_keyless(s: Seq<Sensor>, floor: u32, room: u32)
    requires
        forall|i: int| 0 <= i < s.len() ==> !key_matches(#[trigger] s[i], floor, room),
    ensures
        filter_by_key(s, floor, room) == Seq::<Sensor>::empty(),
    decreases s.len(),
{
    if s.len() > 0 {
        assert(!key_matches(s[s.len() - 1], floor, room));
        lemma_filter_of_keyless(s.drop_last(), floor, room);
    }
}

/// Extending the input by the sensor at index `i` extends its own
/// location's filtered sub-sequence and leaves every other location's
/// untouched.
pub proof fn lemma_filter_take_step(s: Seq<Sensor>, i: int, floor: u32, room: u32)
    requires
        0 <= i < s.len(),
    ensures
        key_matches(s[i], floor, room) ==> filter_by_key(s.take(i + 1), floor, room)
            == filter_by_key(s.take(i), floor, room).push(s[i]),
        !key_matches(s[i], floor, room) ==> filter_by_key(s.take(i + 1), floor, room)
            == filter_by_key(s.take(i), floor, room),
{
    assert(s.take(i + 1).drop_last() =~= s.take(i));
    assert(s.take(i + 1).last() == s[i]);
}

/// Extending the input by the sensor at index `i` appends its key to
/// the first-appearance key list exactly when the key is new.
pub proof fn lemma_first_keys_take_step(s: Seq<Sensor>, i: int)
    requires
        0 <= i < s.len(),
    ensures
        first_keys(s.take(i)).contains(sensor_key(s[i])) ==> first_keys(s.take(i + 1))
            == first_keys(s.take(i)),
        !first_keys(s.take(i)).contains(sensor_key(s[i])) ==> first_keys(s.take(i + 1))
            == first_keys(s.take(i)).push(sensor_key(s[i])),
{
    assert(s.take(i + 1).drop_last() =~= s.take(i));
    assert(s.take(i + 1).last() == s[i]);
}

/// The first-appearance key list holds exactly the keys of the input.
pub proof fn lemma_first_keys_complete(s: Seq<Sensor>)
    ensures
        forall|k: (u32, u32)| #[trigger] first_keys(s).contains(k) <==> exists|j: int|
            0 <= j < s.len() && sensor_key(#[trigger] s[j]) == k,
    decreases s.len(),
{
    if s.len() > 0 {
        let d = s.drop_last();
        let rest = first_keys(d);
        lemma_first_keys_complete(d);
        assert forall|k: (u32, u32)| #[trigger] first_keys(s).contains(k) implies exists|j: int|
            0 <= j < s.len() && sensor_key(#[trigger] s[j]) == k by {
            let f = first_keys(s);
            let i = choose|i: int| 0 <= i < f.len() && f[i] == k;
            if i < rest.len() {
                assert(rest.contains(k));
                let j = choose|j: int| 0 <= j < d.len() && sensor_key(d[j]) == k;
                assert(sensor_key(s[j]) == k);
            } else {
                assert(k == sensor_key(s.last()));
                assert(sensor_key(s[s.len() - 1]) == k);
            }
        }
        assert forall|k: (u32, u32)| (exists|j: int|
            0 <= j < s.len() && sensor_key(#[trigger] s[j]) == k) implies #[trigger] first_keys(
            s,
        ).contains(k) by {
            let j = choose|j: int| 0 <= j < s.len() && sensor_key(s[j]) == k;
            if j < s.len() - 1 {
                assert(sensor_key(d[j]) == k);
                assert(rest.contains(k));
                let i = choose|i: int| 0 <= i < rest.len() && rest[i] == k;
                assert(first_keys(s)[i] == k);
            } else {
                assert(k == sensor_key(s.last()));
                if rest.contains(k) {
                    let i = choose|i: int| 0 <= i < rest.len() && rest[i] == k;
                    assert(first_keys(s)[i] == k);
                } else {
                    let f = first_keys(s);
                    assert(f[f.len() - 1] == k);
                }
            }
        }
    }
}

/// No key appears twice in the first-appearance key list.
pub proof fn lemma_first_keys_no_dup(s: Seq<Sensor>)
    ensures
        first_keys(s).no_duplicates(),
    decreases s.len(),
{
    if s.len() > 0 {
        let rest = first_keys(s.drop_last());
        lemma_first_keys_no_dup(s.drop_last());
        if !rest.contains(sensor_key(s.last())) {
            assert forall|i: int, j: int|
                0 <= i < first_keys(s).len() && 0 <= j < first_keys(s).len() && i != j implies
                first_keys(s)[i] != first_keys(s)[j] by {
                if i < rest.len() && j == rest.len() {
                    assert(rest.contains(rest[i]));
                } else if j < rest.len() && i == rest.len() {
                    assert(rest.contains(rest[j]));
                }
            }
        }
    }
}

/// There are as many first-appearance keys as distinct keys.
pub proof fn lemma_first_keys_count(s: Seq<Sensor>)
    ensures
        first_keys(s).len() == key_set(s).len(),
        key_set(s).finite(),
{
    broadcast use vstd::set::group_set_axioms;

    lemma_first_keys_no_dup(s);
    lemma_first_keys_complete(s);
    assert(first_keys(s).to_set() =~= key_set(s));
    first_keys(s).unique_seq_to_set();
}

/// A transient grouping of the sensor records that share one
/// (floor, room) location, built fresh each detection cycle.
#[derive(Clone)]
pub struct Cluster {
    pub sensors: Vec<Sensor>,
    pub floor: u32,
    pub room: u32,
}

/// The grouping key of a cluster.
pub open spec fn cluster_key(c: Cluster) -> (u32, u32) {
    (c.floor, c.room)
}

impl Cluster {
    /// Every member sensor lies in the cluster's own location.
    pub open spec fn wf(self) -> bool {
        forall|i: int|
            0 <= i < self.sensors@.len() ==> key_matches(
                self.sensors@[i],
                self.floor,
                self.room,
            )
    }

    pub fn new(floor: u32, room: u32) -> (c: Cluster)
        ensures
            c.floor == floor,
            c.room == room,
            c.sensors@ == Seq::<Sensor>::empty(),
            c.wf(),
    {
        Cluster { sensors: Vec::new(), floor, room }
    }

    pub fn add_sensor(&mut self, sensor: Sensor)
        ensures
            final(self).sensors@ == old(self).sensors@.push(sensor),
            final(self).floor == old(self).floor,
            final(self).room == old(self).room,
    {
        self.sensors.push(sensor);
    }

    /// Exact per-cluster aggregation: the arithmetic means of
    /// temperature and smoke level over the member sensors, each as
    /// the exact rational (total, count). The cluster must be
    /// non-empty; the Cluster Builder never produces an empty one.
    pub fn average_data(&self) -> (r: (AvgReading, AvgReading))
        requires
            self.sensors@.len() > 0,
        ensures
            r.0.total == temp_total(self.sensors@),
            r.0.count == self.sensors@.len(),
            r.1.total == smoke_total(self.sensors@),
            r.1.count == self.sensors@.len(),
    {
        let n = self.sensors.len();
        let mut temp_acc: u128 = 0;
        let mut smoke_acc: u128 = 0;
        let mut i: usize = 0;
        while i < n
            invariant
                i <= n,
                n == self.sensors@.len(),
                temp_acc == temp_total(self.sensors@.take(i as int)),
                smoke_acc == smoke_total(self.sensors@.take(i as int)),
            decreases n - i,
        {
            proof {
                lemma_totals_bound(self.sensors@.take(i as int));
                lemma_total_take_step(self.sensors@, i as int);
            }
            temp_acc = temp_acc + self.sensors[i].temperature as u128;
            smoke_acc = smoke_acc + self.sensors[i].smoke_level as u128;
            i = i + 1;
        }
        proof {
            assert(self.sensors@.take(n as int) =~= self.sensors@);
        }
        (AvgReading { total: temp_acc, count: n }, AvgReading { total: smoke_acc, count: n })
    }

    /// Confirmed-cluster rule: the location is affected iff both
    /// averaged metrics are at or above their thresholds (inclusive,
    /// conjunctive). The contract states `average >= threshold`
    /// multiplied through by the positive sensor count, which keeps it
    /// exact. Thresholds are in centi-units.
    pub fn is_affected(&self, temp_threshold: u32, smoke_threshold: u32) -> (r: bool)
        requires
            self.sensors@.len() > 0,
        ensures
            r == (temp_total(self.sensors@) >= (temp_threshold as int) * (self.sensors@.len()
                as int) && smoke_total(self.sensors@) >= (smoke_threshold as int) * (
            self.sensors@.len() as int)),
    {
        let (avg_temp, avg_smoke) = self.average_data();
        avg_temp.at_least(temp_threshold) && avg_smoke.at_least(smoke_threshold)
    }
}

/// The exact arithmetic mean of one metric over a cluster, kept as the
/// rational total/count instead of a rounded quotient. `count` is the
/// number of sensors and is positive for every cluster the builder
/// produces.
#[derive(Clone, Copy)]
pub struct AvgReading {
    pub total: u128,
    pub count: usize,
}

impl AvgReading {
    /// Whether the mean total/count is at least `threshold`, decided
    /// exactly: total/count >= t iff total >= t * count when count > 0.
    pub fn at_least(&self, threshold: u32) -> (r: bool)
        requires
            self.count > 0,
        ensures
            r == (self.total as int >= (threshold as int) * (self.count as int)),
    {
        proof {
            assert((threshold as int) * (self.count as int) <= 0xffff_ffff * 0xffff_ffff_ffff_ffff)
                by (nonlinear_arith)
                requires
                    0 <= threshold as int <= 0xffff_ffff,
                    0 <= self.count as int <= 0xffff_ffff_ffff_ffff,
            ;
        }
        self.total >= (threshold as u128) * (self.count as u128)
    }
}

/// Splitting off the sensor at index `i` splits the running totals.
pub proof fn lemma_total_take_step(s: Seq<Sensor>, i: int)
    requires
        0 <= i < s.len(),
    ensures
        temp_total(s.take(i + 1)) == temp_total(s.take(i)) + s[i].temperature,
        smoke_total(s.take(i + 1)) == smoke_total(s.take(i)) + s[i].smoke_level,
{
    assert(s.take(i + 1).drop_last() =~= s.take(i));
    assert(s.take(i + 1).last() == s[i]);
}

/// n1/d1 < n2/d2, for positive denominators, stated by
/// cross-multiplication over the integers.
pub open spec fn frac_lt(n1: int, d1: int, n2: int, d2: int) -> bool {
    n1 * d2 < n2 * d1
}

/// n1/d1 == n2/d2, for positive denominators, stated by
/// cross-multiplication over the integers.
pub open spec fn frac_eq(n1: int, d1: int, n2: int, d2: int) -> bool {
    n1 * d2 == n2 * d1
}

/// Comparing fractions with non-negative numerators and positive
/// denominators reduces to comparing (quotient, remainder) pairs under
/// Euclidean division, which an implementation can do without the
/// large cross products.
proof fn lemma_frac_cmp_parts(n1: int, d1: int, n2: int, d2: int)
    requires
        n1 >= 0,
        n2 >= 0,
        d1 > 0,
        d2 > 0,
    ensures
        frac_lt(n1, d1, n2, d2) <==> (n1 / d1 < n2 / d2 || (n1 / d1 == n2 / d2 && (n1 % d1) * d2
            < (n2 % d2) * d1)),
{
    let q1 = n1 / d1;
    let r1 = n1 % d1;
    let q2 = n2 / d2;
    let r2 = n2 % d2;
    vstd::arithmetic::div_mod::lemma_fundamental_div_mod(n1, d1);
    vstd::arithmetic::div_mod::lemma_fundamental_div_mod(n2, d2);
    vstd::arithmetic::div_mod::lemma_mod_bound(n1, d1);
    vstd::arithmetic::div_mod::lemma_mod_bound(n2, d2);
    if q1 < q2 {
        assert(n1 * d2 < n2 * d1) by (nonlinear_arith)
            requires
                n1 == d1 * q1 + r1,
                n2 == d2 * q2 + r2,
                0 <= r1 < d1,
                0 <= r2 < d2,
                d1 > 0,
                d2 > 0,
                q1 < q2,
        ;
    } else if q1 > q2 {
        assert(n2 * d1 < n1 * d2) by (nonlinear_arith)
            requires
                n1 == d1 * q1 + r1,
                n2 == d2 * q2 + r2,
                0 <= r1 < d1,
                0 <= r2 < d2,
                d1 > 0,
                d2 > 0,
                q2 < q1,
        ;
    } else {
        assert((n1 * d2 < n2 * d1) <==> (r1 * d2 < r2 * d1)) by (nonlinear_arith)
            requires
                n1 == d1 * q1 + r1,
                n2 == d2 * q2 + r2,
                q1 == q2,
        ;
    }
}

/// Strict fraction order is transitive.
pub proof fn lemma_frac_lt_trans(n1: int, d1: int, n2: int, d2: int, n3: int, d3: int)
    requires
        d1 > 0,
        d2 > 0,
        d3 > 0,
        frac_lt(n1, d1, n2, d2),
        frac_lt(n2, d2, n3, d3),
    ensures
        frac_lt(n1, d1, n3, d3),
{
    assert(n1 * d3 < n3 * d1) by (nonlinear_arith)
        requires
            n1 * d2 < n2 * d1,
            n2 * d3 < n3 * d2,
            d1 > 0,
            d2 > 0,
            d3 > 0,
    ;
}

/// A strict fraction order composed with an exact tie stays strict.
pub proof fn lemma_frac_lt_eq_trans(n1: int, d1: int, n2: int, d2: int, n3: int, d3: int)
    requires
        d1 > 0,
        d2 > 0,
        d3 > 0,
        frac_lt(n1, d1, n2, d2),
        frac_eq(n2, d2, n3, d3),
    ensures
        frac_lt(n1, d1, n3, d3),
{
    assert(n1 * d3 < n3 * d1) by (nonlinear_arith)
        requires
            n1 * d2 < n2 * d1,
            n2 * d3 == n3 * d2,
            d1 > 0,
            d2 > 0,
            d3 > 0,
    ;
}

/// An exact tie composed with a strict fraction order stays strict.
pub proof fn lemma_frac_eq_lt_trans(n1: int, d1: int, n2: int, d2: int, n3: int, d3: int)
    requires
        d1 > 0,
        d2 > 0,
        d3 > 0,
        frac_eq(n1, d1, n2, d2),
        frac_lt(n2, d2, n3, d3),
    ensures
        frac_lt(n1, d1, n3, d3),
{
    assert(n1 * d3 < n3 * d1) by (nonlinear_arith)
        requires
            n1 * d2 == n2 * d1,
            n2 * d3 < n3 * d2,
            d1 > 0,
            d2 > 0,
            d3 > 0,
    ;
}

/// Exact fraction ties are transitive.
pub proof fn lemma_frac_eq_trans(n1: int, d1: int, n2: int, d2: int, n3: int, d3: int)
    requires
        d1 > 0,
        d2 > 0,
        d3 > 0,
        frac_eq(n1, d1, n2, d2),
        frac_eq(n2, d2, n3, d3),
    ensures
        frac_eq(n1, d1, n3, d3),
{
    assert(n1 * d3 == n3 * d1) by (nonlinear_arith)
        requires
            n1 * d2 == n2 * d1,
            n2 * d3 == n3 * d2,
            d1 > 0,
            d2 > 0,
            d3 > 0,
    ;
}

/// Three-way outcome of the severity comparison of two clusters:
/// the first ranks before, ties with, or ranks after the second.
#[derive(Clone, Copy, PartialEq, Eq, Structural, Debug)]
pub enum SeverityOrdering {
    Precedes,
    Ties,
    Follows,
}

/// Cluster `a` strictly precedes cluster `b` in the dispatch ranking:
/// a strictly higher averaged temperature, or an exactly equal averaged
/// temperature with a strictly higher averaged smoke level.
pub open spec fn sev_before(a: Cluster, b: Cluster) -> bool {
    let an = a.sensors@.len() as int;
    let bn = b.sensors@.len() as int;
    frac_lt(temp_total(b.sensors@), bn, temp_total(a.sensors@), an) || (frac_eq(
        temp_total(a.sensors@),
        an,
        temp_total(b.sensors@),
        bn,
    ) && frac_lt(smoke_total(b.sensors@), bn, smoke_total(a.sensors@), an))
}

/// Both averaged metrics of the two clusters tie exactly.
pub open spec fn sev_ties(a: Cluster, b: Cluster) -> bool {
    let an = a.sensors@.len() as int;
    let bn = b.sensors@.len() as int;
    frac_eq(temp_total(a.sensors@), an, temp_total(b.sensors@), bn) && frac_eq(
        smoke_total(a.sensors@),
        an,
        smoke_total(b.sensors@),
        bn,
    )
}

/// Three-way comparison of two exact fractions with positive
/// denominators no wider than a machine word, via Euclidean
/// (quotient, remainder) pairs so that no product overflows.
/// `Precedes` means the first fraction is the larger one.
fn frac_cmp(n1: u128, d1: usize, n2: u128, d2: usize) -> (r: SeverityOrdering)
    requires
        d1 > 0,
        d2 > 0,
    ensures
        (r == SeverityOrdering::Precedes) == frac_lt(n2 as int, d2 as int, n1 as int, d1 as int),
        (r == SeverityOrdering::Ties) == frac_eq(n1 as int, d1 as int, n2 as int, d2 as int),
        (r == SeverityOrdering::Follows) == frac_lt(n1 as int, d1 as int, n2 as int, d2 as int),
{
    let q1: u128 = n1 / (d1 as u128);
    let r1: u128 = n1 % (d1 as u128);
    let q2: u128 = n2 / (d2 as u128);
    let r2: u128 = n2 % (d2 as u128);
    proof {
        lemma_frac_cmp_parts(n1 as int, d1 as int, n2 as int, d2 as int);
        lemma_frac_cmp_parts(n2 as int, d2 as int, n1 as int, d1 as int);
    }
    if q1 > q2 {
        SeverityOrdering::Precedes
    } else if q1 < q2 {
        SeverityOrdering::Follows
    } else {
        proof {
            assert((r1 as int) * (d2 as int) <= 0xffff_ffff_ffff_ffff * 0xffff_ffff_ffff_ffff)
                by (nonlinear_arith)
                requires
                    0 <= r1 as int <= 0xffff_ffff_ffff_ffff,
                    0 <= d2 as int <= 0xffff_ffff_ffff_ffff,
            ;
            assert((r2 as int) * (d1 as int) <= 0xffff_ffff_ffff_ffff * 0xffff_ffff_ffff_ffff)
                by (nonlinear_arith)
                requires
                    0 <= r2 as int <= 0xffff_ffff_ffff_ffff,
                    0 <= d1 as int <= 0xffff_ffff_ffff_ffff,
            ;
        }
        let x: u128 = r1 * (d2 as u128);
        let y: u128 = r2 * (d1 as u128);
        if x > y {
            SeverityOrdering::Precedes
        } else if x < y {
            SeverityOrdering::Follows
        } else {
            SeverityOrdering::Ties
        }
    }
}

/// Three-way severity comparison of two non-empty clusters, descending:
/// `Precedes` iff `a` ranks strictly before `b`, `Ties` iff both
/// averaged metrics tie exactly, `Follows` iff `b` ranks strictly
/// before `a`. Exactly one of the three holds.
pub fn compare_severity(a: &Cluster, b: &Cluster) -> (r: SeverityOrdering)
    requires
        a.sensors@.len() > 0,
        b.sensors@.len() > 0,
    ensures
        (r == SeverityOrdering::Precedes) == sev_before(*a, *b),
        (r == SeverityOrdering::Ties) == sev_ties(*a, *b),
        (r == SeverityOrdering::Follows) == sev_before(*b, *a),
{
    let (a_temp, a_smoke) = a.average_data();
    let (b_temp, b_smoke) = b.average_data();
    let by_temp = frac_cmp(a_temp.total, a_temp.count, b_temp.total, b_temp.count);
    match by_temp {
        SeverityOrdering::Precedes => SeverityOrdering::Precedes,
        SeverityOrdering::Follows => SeverityOrdering::Follows,
        SeverityOrdering::Ties => frac_cmp(
            a_smoke.total,
            a_smoke.count,
            b_smoke.total,
            b_smoke.count,
        ),
    }
}

/// The index of the cluster holding the given location, if one exists.
fn find_cluster_index(clusters: &Vec<Cluster>, floor: u32, room: u32) -> (r: Option<usize>)
    ensures
        match r {
            Some(j) => j < clusters@.len() && clusters@[j as int].floor == floor
                && clusters@[j as int].room == room,
            None => forall|i: int|
                0 <= i < clusters@.len() ==> !(#[trigger] clusters@[i].floor == floor
                    && clusters@[i].room == room),
        },
{
    let mut j: usize = 0;
    while j < clusters.len()
        invariant
            j <= clusters@.len(),
            forall|i: int|
                0 <= i < j ==> !(#[trigger] clusters@[i].floor == floor && clusters@[i].room
                    == room),
        decreases clusters@.len() - j,
    {
        if clusters[j].floor == floor && clusters[j].room == room {
            return Some(j);
        }
        j = j + 1;
    }
    None
}

/// Cluster Builder: partitions the sensor records into clusters keyed
/// by (floor, room). Each sensor is assigned to the cluster of its own
/// location; clusters appear in order of first appearance of their key
/// and hold their sensors in input order. The output partitions the
/// input: every sensor lands in exactly one cluster, and there are
/// exactly as many clusters as distinct (floor, room) keys.
#[verifier::rlimit(50)]
#[verifier::spinoff_prover]
pub fn cluster_sensors(sensors: Vec<Sensor>) -> (clusters: Vec<Cluster>)
    ensures
        clusters@.len() == first_keys(sensors@).len(),
        clusters@.len() == key_set(sensors@).len(),
        forall|i: int|
            0 <= i < clusters@.len() ==> #[trigger] cluster_key(clusters@[i]) == first_keys(
                sensors@,
            )[i],
        forall|i: int|
            0 <= i < clusters@.len() ==> #[trigger] clusters@[i].sensors@ == filter_by_key(
                sensors@,
                clusters@[i].floor,
                clusters@[i].room,
            ),
        forall|i: int|
            0 <= i < clusters@.len() ==> #[trigger] clusters@[i].wf()
                && clusters@[i].sensors@.len() > 0,
        forall|i: int| 0 <= i < clusters@.len() ==> (#[trigger] clusters@[i]).sensors@.len() > 0,
        forall|k: int|
            #![trigger sensors@[k]]
            0 <= k < sensors@.len() ==> exists|i: int|
                0 <= i < clusters@.len() && clusters@[i].sensors@.contains(sensors@[k]),
        forall|k: int, i1: int, i2: int|
            #![trigger clusters@[i1].sensors@.contains(sensors@[k]), clusters@[i2].sensors@.contains(sensors@[k])]
            0 <= k < sensors@.len() && 0 <= i1 < clusters@.len() && 0 <= i2 < clusters@.len()
                && clusters@[i1].sensors@.contains(sensors@[k])
                && clusters@[i2].sensors@.contains(sensors@[k]) ==> i1 == i2,
{
    let n = sensors.len();
    let mut clusters: Vec<Cluster> = Vec::new();
    let mut idx: usize = 0;
    while idx < n
        invariant
            idx <= n,
            n == sensors@.len(),
            clusters@.len() == first_keys(sensors@.take(idx as int)).len(),
            forall|i: int|
                0 <= i < clusters@.len() ==> #[trigger] cluster_key(clusters@[i]) == first_keys(
                    sensors@.take(idx as int),
                )[i],
            forall|i: int|
                0 <= i < clusters@.len() ==> #[trigger] clusters@[i].sensors@ == filter_by_key(
                    sensors@.take(idx as int),
                    clusters@[i].floor,
                    clusters@[i].room,
                ),
            forall|i: int|
                0 <= i < clusters@.len() ==> ((#[trigger] clusters@[i]).wf()
                    && clusters@[i].sensors@.len() > 0),
        decreases n - idx,
    {
        let s = sensors[idx];
        let ghost pre_take = sensors@.take(idx as int);
        proof {
            lemma_first_keys_take_step(sensors@, idx as int);
            lemma_first_keys_no_dup(pre_take);
        }
        match find_cluster_index(&clusters, s.floor, s.room) {
            Some(j) => {
                let ghost old_clusters = clusters@;
                let mut c = clusters.remove(j);
                c.add_sensor(s);
                let ghost updated = c;
                clusters.insert(j, c);
                proof {
                    assert(clusters@ =~= old_clusters.update(j as int, updated));
                    // the matched key is already among the first keys
                    assert(cluster_key(old_clusters[j as int]) == first_keys(pre_take)[j as int]);
                    assert(first_keys(pre_take)[j as int] == sensor_key(s));
                    assert(first_keys(pre_take).contains(sensor_key(s)));
                    assert forall|i: int| 0 <= i < clusters@.len() implies #[trigger] clusters@[i].sensors@
                        == filter_by_key(
                        sensors@.take(idx as int + 1),
                        clusters@[i].floor,
                        clusters@[i].room,
                    ) by {
                        lemma_filter_take_step(
                            sensors@,
                            idx as int,
                            clusters@[i].floor,
                            clusters@[i].room,
                        );
                        if i != j {
                            // distinct first keys: only cluster j's key matches
                            assert(cluster_key(old_clusters[i]) == first_keys(pre_take)[i]);
                            assert(first_keys(pre_take)[i] != first_keys(pre_take)[j as int]);
                            assert(!key_matches(s, clusters@[i].floor, clusters@[i].room));
                        }
                    }
                    assert forall|i: int| 0 <= i < clusters@.len() implies ((
                    #[trigger] clusters@[i]).wf() && clusters@[i].sensors@.len() > 0) by {
                        if i == j {
                            assert(old_clusters[i].wf());
                            assert forall|q: int| 0 <= q < updated.sensors@.len() implies key_matches(
                                updated.sensors@[q],
                                updated.floor,
                                updated.room,
                            ) by {
                                if q < updated.sensors@.len() - 1 {
                                    assert(key_matches(
                                        old_clusters[i].sensors@[q],
                                        old_clusters[i].floor,
                                        old_clusters[i].room,
                                    ));
                                }
                            }
                        } else {
                            assert(old_clusters[i].wf());
                        }
                    }
                }
            },
            None => {
                let mut c = Cluster::new(s.floor, s.room);
                c.add_sensor(s);
                clusters.push(c);
                proof {
                    let ghost k = sensor_key(s);
                    // the key is new: no cluster holds it, so no first key is it
                    assert(!first_keys(pre_take).contains(k)) by {
                        if first_keys(pre_take).contains(k) {
                            let i = choose|i: int|
                                0 <= i < first_keys(pre_take).len() && first_keys(pre_take)[i]
                                    == k;
                            assert(cluster_key(clusters@.drop_last()[i]) == k);
                        }
                    }
                    // and no earlier sensor lies in it either
                    lemma_first_keys_complete(pre_take);
                    assert forall|i: int| 0 <= i < pre_take.len() implies !key_matches(
                        #[trigger] pre_take[i],
                        s.floor,
                        s.room,
                    ) by {
                        if key_matches(pre_take[i], s.floor, s.room) {
                            assert(sensor_key(pre_take[i]) == k);
                        }
                    }
                    lemma_filter_of_keyless(pre_take, s.floor, s.room);
                    assert forall|i: int| 0 <= i < clusters@.len() implies #[trigger] clusters@[i].sensors@
                        == filter_by_key(
                        sensors@.take(idx as int + 1),
                        clusters@[i].floor,
                        clusters@[i].room,
                    ) by {
                        lemma_filter_take_step(
                            sensors@,
                            idx as int,
                            clusters@[i].floor,
                            clusters@[i].room,
                        );
                        if i + 1 == clusters@.len() {
                            assert(clusters@[i].sensors@ =~= Seq::<Sensor>::empty().push(s));
                        } else {
                            assert(cluster_key(clusters@[i]) == first_keys(pre_take)[i]);
                            if key_matches(s, clusters@[i].floor, clusters@[i].room) {
                                assert(first_keys(pre_take)[i] == k);
                                assert(first_keys(pre_take).contains(k));
                            }
                        }
                    }
                    assert forall|i: int| 0 <= i < clusters@.len() implies ((
                    #[trigger] clusters@[i]).wf() && clusters@[i].sensors@.len() > 0) by {
                        if i + 1 == clusters@.len() {
                            assert(clusters@[i].sensors@ == Seq::<Sensor>::empty().push(s));
                            assert(clusters@[i].floor == s.floor && clusters@[i].room == s.room);
                        } else {
                            assert(clusters@.drop_last()[i].wf());
                        }
                    }
                }
            },
        }
        idx = idx + 1;
    }
    proof {
        assert(sensors@.take(n as int) =~= sensors@);
        assert forall|i: int| 0 <= i < clusters@.len() implies #[trigger] clusters@[i].wf()
            && clusters@[i].sensors@.len() > 0 by {
            assert((clusters@[i]).wf() && clusters@[i].sensors@.len() > 0);
        }
        lemma_first_keys_count(sensors@);
        lemma_first_keys_no_dup(sensors@);
        lemma_first_keys_complete(sensors@);
        // every sensor lands in the cluster of its own key
        assert forall|k: int| #![trigger sensors@[k]] 0 <= k < sensors@.len() implies exists|i: int|
            0 <= i < clusters@.len() && clusters@[i].sensors@.contains(sensors@[k]) by {
            let x = sensors@[k];
            assert(sensors@.contains(x));
            assert(first_keys(sensors@).contains(sensor_key(x)));
            let i = choose|i: int|
                0 <= i < first_keys(sensors@).len() && first_keys(sensors@)[i] == sensor_key(x);
            assert(cluster_key(clusters@[i]) == sensor_key(x));
            lemma_filter_members(sensors@, clusters@[i].floor, clusters@[i].room);
            assert(key_matches(x, clusters@[i].floor, clusters@[i].room));
            assert(clusters@[i].sensors@.contains(x));
        }
        // and in no more than one cluster
        assert forall|k: int, i1: int, i2: int|
            0 <= k < sensors@.len() && 0 <= i1 < clusters@.len() && 0 <= i2 < clusters@.len()
                && #[trigger] clusters@[i1].sensors@.contains(sensors@[k])
                && #[trigger] clusters@[i2].sensors@.contains(sensors@[k]) implies i1 == i2 by {
            let x = sensors@[k];
            lemma_filter_members(sensors@, clusters@[i1].floor, clusters@[i1].room);
            lemma_filter_members(sensors@, clusters@[i2].floor, clusters@[i2].room);
            assert(key_matches(x, clusters@[i1].floor, clusters@[i1].room));
            assert(key_matches(x, clusters@[i2].floor, clusters@[i2].room));
            assert(first_keys(sensors@)[i1] == cluster_key(clusters@[i1]));
            assert(first_keys(sensors@)[i2] == cluster_key(clusters@[i2]));
            assert(cluster_key(clusters@[i1]) == cluster_key(clusters@[i2]));
        }
    }
    clusters
}

/// Strict severity precedence is transitive over non-empty clusters.
pub proof fn lemma_sev_before_trans(a: Cluster, b: Cluster, c: Cluster)
    requires
        a.sensors@.len() > 0,
        b.sensors@.len() > 0,
        c.sensors@.len() > 0,
        sev_before(a, b),
        sev_before(b, c),
    ensures
        sev_before(a, c),
{
    let an = a.sensors@.len() as int;
    let bn = b.sensors@.len() as int;
    let cn = c.sensors@.len() as int;
    let at = temp_total(a.sensors@);
    let bt = temp_total(b.sensors@);
    let ct = temp_total(c.sensors@);
    let a_s = smoke_total(a.sensors@);
    let b_s = smoke_total(b.sensors@);
    let c_s = smoke_total(c.sensors@);
    if frac_lt(bt, bn, at, an) {
        if frac_lt(ct, cn, bt, bn) {
            lemma_frac_lt_trans(ct, cn, bt, bn, at, an);
        } else {
            lemma_frac_eq_lt_trans(ct, cn, bt, bn, at, an);
        }
    } else {
        if frac_lt(ct, cn, bt, bn) {
            lemma_frac_lt_eq_trans(ct, cn, bt, bn, at, an);
        } else {
            lemma_frac_eq_trans(at, an, bt, bn, ct, cn);
            lemma_frac_lt_trans(c_s, cn, b_s, bn, a_s, an);
        }
    }
}

/// Exact ties respect strict precedence: a cluster tying with `a`
/// strictly precedes whatever `a` strictly precedes.
pub proof fn lemma_sev_ties_before(a: Cluster, b: Cluster, c: Cluster)
    requires
        a.sensors@.len() > 0,
        b.sensors@.len() > 0,
        c.sensors@.len() > 0,
        sev_ties(a, b),
        sev_before(a, c),
    ensures
        sev_before(b, c),
{
    let an = a.sensors@.len() as int;
    let bn = b.sensors@.len() as int;
    let cn = c.sensors@.len() as int;
    let at = temp_total(a.sensors@);
    let bt = temp_total(b.sensors@);
    let ct = temp_total(c.sensors@);
    let a_s = smoke_total(a.sensors@);
    let b_s = smoke_total(b.sensors@);
    let c_s = smoke_total(c.sensors@);
    if frac_lt(ct, cn, at, an) {
        lemma_frac_lt_eq_trans(ct, cn, at, an, bt, bn);
    } else {
        lemma_frac_eq_trans(bt, bn, at, an, ct, cn);
        lemma_frac_lt_eq_trans(c_s, cn, a_s, an, b_s, bn);
    }
}

/// Ranking at exact ties: when two clusters' averaged temperature and
/// averaged smoke both tie exactly, neither strictly precedes the
/// other, so a ranking pass has no cause to reorder them.
pub proof fn lemma_ranking_ties(a: Cluster, b: Cluster)
    requires
        a.sensors@.len() > 0,
        b.sensors@.len() > 0,
        sev_ties(a, b),
    ensures
        !sev_before(a, b),
        !sev_before(b, a),
{
}

/// The severity order is total: of two non-empty clusters, either one
/// strictly precedes the other or both averaged metrics tie exactly,
/// and these three outcomes exclude one another.
pub proof fn lemma_sev_totality(a: Cluster, b: Cluster)
    requires
        a.sensors@.len() > 0,
        b.sensors@.len() > 0,
    ensures
        sev_before(a, b) || sev_before(b, a) || sev_ties(a, b),
        !(sev_before(a, b) && sev_before(b, a)),
        !(sev_before(a, b) && sev_ties(a, b)),
        !(sev_before(b, a) && sev_ties(a, b)),
{
}

/// Where a cluster belongs in an already ranked vector: the count of
/// leading clusters that the new one does not strictly precede. A
/// cluster that ties with ranked ones therefore lands after them,
/// which keeps insertion stable.
fn insertion_point(ranked: &Vec<Cluster>, c: &Cluster) -> (j: usize)
    requires
        c.sensors@.len() > 0,
        forall|i: int| 0 <= i < ranked@.len() ==> ranked@[i].sensors@.len() > 0,
    ensures
        j <= ranked@.len(),
        forall|i: int| 0 <= i < j ==> !sev_before(*c, ranked@[i]),
        j < ranked@.len() ==> sev_before(*c, ranked@[j as int]),
{
    let mut j: usize = 0;
    while j < ranked.len()
        invariant
            j <= ranked@.len(),
            c.sensors@.len() > 0,
            forall|i: int| 0 <= i < ranked@.len() ==> ranked@[i].sensors@.len() > 0,
            forall|i: int| 0 <= i < j ==> !sev_before(*c, ranked@[i]),
        decreases ranked@.len() - j,
    {
        let r = compare_severity(c, &ranked[j]);
        if matches!(r, SeverityOrdering::Precedes) {
            return j;
        }
        j = j + 1;
    }
    j
}

/// `ranked` rearranges `orig` along the index map `perm`, and clusters
/// whose averaged metrics tie exactly keep their input relative
/// order.
pub open spec fn stable_reordering(orig: Seq<Cluster>, ranked: Seq<Cluster>, perm: Seq<int>) -> bool {
    &&& perm.len() == ranked.len()
    &&& ranked.len() == orig.len()
    &&& forall|i: int| 0 <= i < perm.len() ==> 0 <= #[trigger] perm[i] < orig.len()
    &&& forall|i: int, j: int|
        0 <= i < j < perm.len() ==> #[trigger] perm[i] != #[trigger] perm[j]
    &&& forall|i: int| 0 <= i < perm.len() ==> ranked[i] == orig[#[trigger] perm[i]]
    &&& forall|i: int, j: int|
        0 <= i < j < ranked.len() && #[trigger] sev_ties(ranked[i], ranked[j]) ==> perm[i]
            < perm[j]
}

/// Severity ranking for dispatch prioritization: reorders the clusters
/// into descending severity (averaged temperature first, averaged
/// smoke as tie-break), keeping exactly the clusters it was given.
/// The ranking is stable: a permutation witnesses that clusters whose
/// averaged metrics tie exactly keep their input order.
pub fn sort_clusters_by_severity(clusters: &mut Vec<Cluster>)
    requires
        forall|i: int| 0 <= i < old(clusters)@.len() ==> old(clusters)@[i].sensors@.len() > 0,
    ensures
        final(clusters)@.to_multiset() == old(clusters)@.to_multiset(),
        final(clusters)@.len() == old(clusters)@.len(),
        forall|i: int, j: int|
            0 <= i < j < final(clusters)@.len() ==> !sev_before(
                final(clusters)@[j],
                final(clusters)@[i],
            ),
        forall|i: int| 0 <= i < final(clusters)@.len() ==> final(clusters)@[i].sensors@.len() > 0,
        exists|perm: Seq<int>| stable_reordering(old(clusters)@, final(clusters)@, perm),
{
    broadcast use vstd::seq_lib::group_to_multiset_ensures;

    let ghost orig = clusters@;
    let ghost mut perm: Seq<int> = Seq::empty();
    proof {
        assert(orig.skip(0) =~= orig);
    }
    let mut ranked: Vec<Cluster> = Vec::new();
    while clusters.len() > 0
        invariant
            ranked@.to_multiset().add(clusters@.to_multiset()) == orig.to_multiset(),
            ranked@.len() + clusters@.len() == orig.len(),
            clusters@ == orig.skip(orig.len() - clusters@.len()),
            stable_reordering(orig.take(orig.len() - clusters@.len()), ranked@, perm),
            forall|i: int| 0 <= i < clusters@.len() ==> clusters@[i].sensors@.len() > 0,
            forall|i: int| 0 <= i < ranked@.len() ==> ranked@[i].sensors@.len() > 0,
            forall|i: int, j: int|
                0 <= i < j < ranked@.len() ==> !sev_before(ranked@[j], ranked@[i]),
        decreases clusters@.len(),
    {
        let ghost pre = clusters@;
        let ghost done: int = orig.len() - pre.len();
        let c = clusters.remove(0);
        let j = insertion_point(&ranked, &c);
        let ghost before_insert = ranked@;
        let ghost old_perm = perm;
        proof {
            perm = perm.insert(j as int, done);
        }
        ranked.insert(j, c);
        proof {
            broadcast use vstd::multiset::group_multiset_axioms;

            assert(pre.contains(c));
            vstd::seq_lib::to_multiset_contains(pre, c);
            assert(pre.to_multiset().count(c) >= 1);
            vstd::seq_lib::to_multiset_remove(pre, 0);
            vstd::seq_lib::to_multiset_insert(before_insert, j as int, c);
            assert(clusters@.to_multiset() == pre.to_multiset().remove(c));
            assert(ranked@.to_multiset() == before_insert.to_multiset().insert(c));
            assert(ranked@.to_multiset().add(clusters@.to_multiset()) =~= orig.to_multiset());
            assert(c == orig[done]);
            assert(clusters@ =~= orig.skip(done + 1));
            let post = ranked@;
            assert forall|i1: int, i2: int| 0 <= i1 < i2 < post.len() implies !sev_before(
                post[i2],
                post[i1],
            ) by {
                if i1 < j && i2 == j {
                    // the new cluster against a ranked predecessor
                    assert(!sev_before(c, before_insert[i1]));
                } else if i1 == j && i2 > j {
                    // the new cluster against ranked successors: it
                    // strictly precedes the first of them, which the
                    // rest do not strictly precede
                    assert(sev_before(c, before_insert[j as int]));
                    if sev_before(post[i2], c) {
                        lemma_sev_before_trans(post[i2], c, before_insert[j as int]);
                        assert(!sev_before(before_insert[i2 - 1], before_insert[j as int]));
                        assert(false);
                    }
                }
            }
            // the permutation stays injective, in range, and
            // order-preserving on exact ties
            let prefix = orig.take(done + 1);
            assert(prefix[done] == c);
            assert forall|i: int| 0 <= i < perm.len() implies post[i] == prefix[#[trigger] perm[i]] by {
                if i < j {
                    assert(post[i] == before_insert[i] && perm[i] == old_perm[i]);
                } else if i == j {
                    assert(post[i] == c && perm[i] == done);
                } else {
                    assert(post[i] == before_insert[i - 1] && perm[i] == old_perm[i - 1]);
                }
            }
            assert forall|i1: int, i2: int|
                0 <= i1 < i2 < post.len() && #[trigger] sev_ties(post[i1], post[i2]) implies
                perm[i1] < perm[i2] by {
                if i2 < j {
                    assert(perm[i1] == old_perm[i1] && perm[i2] == old_perm[i2]);
                } else if i1 < j && i2 == j {
                    // everything already ranked came from earlier input
                    assert(perm[i1] == old_perm[i1] && old_perm[i1] < done);
                } else if i1 < j && i2 > j {
                    assert(perm[i1] == old_perm[i1] && perm[i2] == old_perm[i2 - 1]);
                } else if i1 == j {
                    // a cluster tying with the inserted one cannot sit
                    // after it: the inserted one strictly precedes the
                    // cluster at its insertion point, so by congruence
                    // the tying cluster would precede it too, against
                    // the ranked order
                    assert(sev_before(c, before_insert[j as int]));
                    assert(sev_ties(c, before_insert[i2 - 1]));
                    if i2 - 1 > j {
                        lemma_sev_ties_before(
                            c,
                            before_insert[i2 - 1],
                            before_insert[j as int],
                        );
                        assert(!sev_before(before_insert[i2 - 1], before_insert[j as int]));
                        assert(false);
                    } else {
                        assert(sev_ties(c, before_insert[j as int]));
                        assert(false);
                    }
                } else {
                    assert(perm[i1] == old_perm[i1 - 1] && perm[i2] == old_perm[i2 - 1]);
                }
            }
            assert(stable_reordering(prefix, post, perm));
        }
    }
    proof {
        assert(orig.take(orig.len() - clusters@.len()) =~= orig);
        assert(stable_reordering(orig, ranked@, perm));
    }
    *clusters = ranked;
}

} // verus!
