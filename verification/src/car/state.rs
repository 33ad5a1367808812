//! What the sensors last said.

use vstd::prelude::*;
use vstd::string::*;

use crate::car::lidar::{comparable, in_arc, return_at, LidarCloud, LidarPoint};
use crate::perception::corridor::nearest_upto;
use crate::scalar::{Single, SINGLE_MAX};

verus! {

/// A fault flag for each sensor.
#[derive(Clone, Copy, Debug)]
pub struct SensorHealth {
    pub lidar: bool,
    pub imu: bool,
    pub sonar: [bool; 3],
}

/// The text of a flag.
pub open spec fn flag_text(flag: bool) -> Seq<char> {
    if flag {
        "true"@
    } else {
        "false"@
    }
}

fn append_flag(text: &mut String, flag: bool)
    ensures
        final(text)@ == old(text)@ + flag_text(flag),
{
    if flag {
        text.append("true");
    } else {
        text.append("false");
    }
}

impl Default for SensorHealth {
    fn default() -> (out: Self)
        ensures
            out == (SensorHealth { lidar: false, imu: false, sonar: [false, false, false] }),
    {
        SensorHealth::new()
    }
}

impl SensorHealth {
    /// All sensors are well.
    pub fn new() -> (out: Self)
        ensures
            out == (SensorHealth { lidar: false, imu: false, sonar: [false, false, false] }),
    {
        SensorHealth { lidar: false, imu: false, sonar: [false, false, false] }
    }

    /// Whether any sensor has a fault.
    pub fn any_fault(&self) -> (out: bool)
        ensures
            out == (self.lidar || self.imu || self.sonar[0] || self.sonar[1] || self.sonar[2]),
    {
        self.lidar || self.imu || self.sonar[0] || self.sonar[1] || self.sonar[2]
    }

    /// The flags as a line of text.
    pub fn describe(&self) -> (out: String)
        ensures
            out@ == "lidar="@ + flag_text(self.lidar) + ", imu="@ + flag_text(self.imu)
                + ", sonar=["@ + flag_text(self.sonar[0]) + ","@ + flag_text(self.sonar[1]) + ","@
                + flag_text(self.sonar[2]) + "]"@,
    {
        let mut text = "lidar=".to_owned();
        append_flag(&mut text, self.lidar);
        text.append(", imu=");
        append_flag(&mut text, self.imu);
        text.append(", sonar=[");
        append_flag(&mut text, self.sonar[0]);
        text.append(",");
        append_flag(&mut text, self.sonar[1]);
        text.append(",");
        append_flag(&mut text, self.sonar[2]);
        text.append("]");
        text
    }
}

/// A twelfth of a turn: half the arc that counts as ahead.
pub const FRONT_CONE_RAD: u32 = 0x3F06_0A92;

/// The bearings of some returns.
pub open spec fn bearings(points: Seq<LidarPoint>) -> Seq<Single> {
    Seq::new(points.len(), |i: int| points[i].angle_rad)
}

/// The return lies within a twelfth of a turn to either side, nearer than a
/// threshold.
pub open spec fn near_ahead(p: LidarPoint, threshold_m: Single) -> bool {
    &&& p.angle_rad.at_most(Single { bits: FRONT_CONE_RAD })
    &&& p.angle_rad.negated().at_most(Single { bits: FRONT_CONE_RAD })
    &&& p.dist_m.less(threshold_m)
}

proof fn lemma_front_is_ahead(points: Seq<LidarPoint>, n: int)
    requires
        0 <= n <= points.len(),
    ensures
        crate::car::lidar::nearest_upto(
            points,
            in_arc(bearings(points), Single { bits: FRONT_CONE_RAD }),
            n,
        ) matches Some(b) ==> 0 <= b < n && points[b].angle_rad.at_most(
            Single { bits: FRONT_CONE_RAD },
        ) && points[b].angle_rad.negated().at_most(Single { bits: FRONT_CONE_RAD }),
    decreases n,
{
    if n > 0 {
        lemma_front_is_ahead(points, n - 1);
    }
}

proof fn lemma_nearest_is_one(ranges: Seq<Single>, limit: Single, n: int)
    requires
        0 <= n <= ranges.len(),
        !limit.nan(),
    ensures
        nearest_upto(ranges, limit, n) == limit || exists|i: int|
            0 <= i < n && #[trigger] ranges[i] == nearest_upto(ranges, limit, n),
    decreases n,
{
    if n > 0 {
        lemma_nearest_is_one(ranges, limit, n - 1);
        lemma_nearest_is_a_number(ranges, limit, n - 1);
        let before = nearest_upto(ranges, limit, n - 1);
        if ranges[n - 1].less(before) {
            assert(ranges[n - 1] == nearest_upto(ranges, limit, n));
        } else if before != limit {
            let i = choose|i: int| 0 <= i < n - 1 && #[trigger] ranges[i] == before;
            assert(ranges[i] == nearest_upto(ranges, limit, n));
        }
    }
}

/// The nearest return ahead.
pub open spec fn front_return(points: Seq<LidarPoint>) -> Option<LidarPoint> {
    return_at(
        points,
        crate::car::lidar::nearest_upto(
            points,
            in_arc(bearings(points), Single { bits: FRONT_CONE_RAD }),
            points.len() as int,
        ),
    )
}

/// The ranges of the three sonars; the largest number means that nothing is
/// near.
#[derive(Clone, Debug)]
pub struct SonarRanges {
    pub ranges_m: Vec<Single>,
}

impl SonarRanges {
    /// There is a range for each sonar.
    pub open spec fn wf(self) -> bool {
        self.ranges_m@.len() == 3
    }

    /// Nothing is near.
    pub fn new() -> (out: Self)
        ensures
            out.wf(),
            forall|i: int|
                0 <= i < 3 ==> #[trigger] out.ranges_m@[i] == (Single { bits: SINGLE_MAX }),
    {
        let far = Single { bits: SINGLE_MAX };
        let mut ranges_m: Vec<Single> = Vec::new();
        ranges_m.push(far);
        ranges_m.push(far);
        ranges_m.push(far);
        SonarRanges { ranges_m }
    }

    /// Keeps the range of a sonar.
    pub fn update_sonar(&mut self, slot: usize, dist_m: Single)
        requires
            old(self).wf(),
            slot < 3,
        ensures
            final(self).wf(),
            final(self).ranges_m@ == old(self).ranges_m@.update(slot as int, dist_m),
    {
        self.ranges_m.set(slot, dist_m);
    }

    /// The nearest range of all sonars.
    pub fn sonar_min(&self) -> (out: Single)
        requires
            self.wf(),
        ensures
            out == nearest_upto(self.ranges_m@, Single { bits: SINGLE_MAX }, 3),
    {
        crate::perception::corridor::nearest_distance(&self.ranges_m, Single { bits: SINGLE_MAX })
    }
}

/// What the inertial sensor read.
#[derive(Clone, Copy, Debug, PartialEq, Eq, Structural)]
pub struct ImuSample {
    pub ax: Single,
    pub ay: Single,
    pub az: Single,
    pub gx: Single,
    pub gy: Single,
    pub gz: Single,
    pub timestamp_us: u64,
}

/// What the inertial sensor is taken to have read before its first sample.
pub open spec fn no_sample() -> ImuSample {
    ImuSample {
        ax: Single { bits: 0 },
        ay: Single { bits: 0 },
        az: Single { bits: 0 },
        gx: Single { bits: 0 },
        gy: Single { bits: 0 },
        gz: Single { bits: 0 },
        timestamp_us: 0,
    }
}

impl Default for ImuSample {
    fn default() -> (out: Self)
        ensures
            out == no_sample(),
    {
        let zero = Single::zero();
        ImuSample { ax: zero, ay: zero, az: zero, gx: zero, gy: zero, gz: zero, timestamp_us: 0 }
    }
}

/// What a tick works with.
#[derive(Debug)]
pub struct SensorSnapshot {
    pub lidar: LidarCloud,
    pub imu: ImuSample,
    pub sonar: SonarRanges,
    /// Any sensor has a fault.
    pub sensor_fault: bool,
}

impl SensorSnapshot {
    /// The nearest range of all sonars.
    pub fn sonar_min(&self) -> (out: Single)
        requires
            self.sonar.wf(),
        ensures
            out == nearest_upto(self.sonar.ranges_m@, Single { bits: SINGLE_MAX }, 3),
    {
        self.sonar.sonar_min()
    }

    proof fn lemma_obstacles(&self, threshold_m: Single)
        requires
            self.sonar.wf(),
        ensures
            ({
                let nearest = nearest_upto(self.sonar.ranges_m@, Single { bits: SINGLE_MAX }, 3);
                &&& nearest.less(threshold_m) ==> (exists|i: int|
                    0 <= i < 3 && (#[trigger] self.sonar.ranges_m@[i]).less(threshold_m)) || (
                Single { bits: SINGLE_MAX }).less(threshold_m)
                &&& forall|i: int|
                    0 <= i < 3 && (#[trigger] self.sonar.ranges_m@[i]).less(threshold_m)
                        ==> nearest.less(threshold_m)
            }),
            (front_return(self.lidar.points@) matches Some(p) && p.dist_m.less(threshold_m))
                ==> exists|k: int|
                0 <= k < self.lidar.points@.len() && #[trigger] near_ahead(
                    self.lidar.points@[k],
                    threshold_m,
                ),
            comparable(
                self.lidar.points@,
                in_arc(bearings(self.lidar.points@), Single { bits: FRONT_CONE_RAD }),
            ) ==> forall|k: int|
                0 <= k < self.lidar.points@.len() && #[trigger] near_ahead(
                    self.lidar.points@[k],
                    threshold_m,
                ) ==> (front_return(self.lidar.points@) matches Some(p) && p.dist_m.less(
                    threshold_m,
                )),
    {
        let ranges = self.sonar.ranges_m@;
        let limit = Single { bits: SINGLE_MAX };
        assert forall|i: int| 0 <= i < 3 && (#[trigger] ranges[i]).less(
            threshold_m,
        ) implies nearest_upto(ranges, limit, 3).less(threshold_m) by {
            law_nearest_sonar_is_nearest(ranges, limit, 3, i);
        }
        lemma_nearest_is_one(ranges, limit, 3);
        if nearest_upto(ranges, limit, 3) != limit {
            let i = choose|i: int|
                0 <= i < 3 && #[trigger] ranges[i] == nearest_upto(ranges, limit, 3);
            assert(nearest_upto(ranges, limit, 3).less(threshold_m) ==> ranges[i].less(
                threshold_m,
            ));
        }
        let points = self.lidar.points@;
        let offsets = bearings(points);
        let cone = Single { bits: FRONT_CONE_RAD };
        let flags = in_arc(offsets, cone);
        let n = points.len() as int;
        lemma_front_is_ahead(points, n);
        if let Some(b) = crate::car::lidar::nearest_upto(points, flags, n) {
            assert(front_return(points) == Some(points[b]));
            assert(points[b].dist_m.less(threshold_m) ==> near_ahead(points[b], threshold_m));
        }
        if comparable(points, flags) {
            assert forall|k: int| 0 <= k < n && #[trigger] near_ahead(
                points[k],
                threshold_m,
            ) implies (front_return(points) matches Some(p) && p.dist_m.less(threshold_m)) by {
                crate::car::lidar::law_nearest_in_arc_is_in_the_arc(points, offsets, cone, k);
                let b = crate::car::lidar::nearest_upto(points, flags, n)->0;
                if b != k {
                    assert(flags[b] && flags[k]);
                }
            }
        }
    }

    /// Whether a sonar, or the scan within a twelfth of a turn to either side,
    /// shows an obstacle that is too near. The scan is looked at only where no
    /// sonar shows one.
    pub fn obstacle_closer_than(&self, threshold_m: Single) -> (out: bool)
        requires
            self.sonar.wf(),
            nearest_upto(self.sonar.ranges_m@, Single { bits: SINGLE_MAX }, 3).less(threshold_m)
                || comparable(
                self.lidar.points@,
                in_arc(bearings(self.lidar.points@), Single { bits: FRONT_CONE_RAD }),
            ),
        ensures
            out == (nearest_upto(self.sonar.ranges_m@, Single { bits: SINGLE_MAX }, 3).less(threshold_m)
                || match front_return(self.lidar.points@) {
                Some(p) => p.dist_m.less(threshold_m),
                None => false,
            }),
            out ==> (exists|i: int|
                0 <= i < 3 && (#[trigger] self.sonar.ranges_m@[i]).less(threshold_m)) || (Single {
                bits: SINGLE_MAX,
            }).less(threshold_m) || exists|k: int|
                0 <= k < self.lidar.points@.len() && #[trigger] near_ahead(
                    self.lidar.points@[k],
                    threshold_m,
                ),
            forall|i: int|
                0 <= i < 3 && (#[trigger] self.sonar.ranges_m@[i]).less(threshold_m) ==> out,
            comparable(
                self.lidar.points@,
                in_arc(bearings(self.lidar.points@), Single { bits: FRONT_CONE_RAD }),
            ) ==> forall|k: int|
                0 <= k < self.lidar.points@.len() && #[trigger] near_ahead(
                    self.lidar.points@[k],
                    threshold_m,
                ) ==> out,
    {
        proof {
            self.lemma_obstacles(threshold_m);
        }
        if self.sonar_min().lt(threshold_m) {
            return true;
        }
        let mut offsets: Vec<Single> = Vec::new();
        let mut k: usize = 0;
        while k < self.lidar.points.len()
            invariant
                k <= self.lidar.points@.len(),
                offsets@ == bearings(self.lidar.points@).take(k as int),
            decreases self.lidar.points@.len() - k,
        {
            offsets.push(self.lidar.points[k].angle_rad);
            k = k + 1;
        }
        assert(offsets@ == bearings(self.lidar.points@));
        match self.lidar.nearest_in_arc(&offsets, Single { bits: FRONT_CONE_RAD }) {
            Some(p) => p.dist_m.lt(threshold_m),
            None => false,
        }
    }
}

/// The latest readings.
#[derive(Debug)]
pub struct SharedState {
    pub lidar: LidarCloud,
    pub imu: ImuSample,
    pub sonar: SonarRanges,
    pub sensor_health: SensorHealth,
    pub shutdown: bool,
}

/// What is told to the shared state.
pub enum SensorUpdate {
    Lidar(LidarCloud),
    Imu(ImuSample),
    Sonar { slot: usize, dist_m: Single },
    ImuFault(bool),
    Shutdown,
}

/// A state differs from another by one update, and by nothing else.
pub open spec fn updated(before: SharedState, after: SharedState, update: SensorUpdate) -> bool {
    &&& update matches SensorUpdate::Sonar { slot, .. } ==> slot < 3
    &&& after.lidar == match update {
        SensorUpdate::Lidar(cloud) => cloud,
        _ => before.lidar,
    }
    &&& after.imu == match update {
        SensorUpdate::Imu(sample) => sample,
        _ => before.imu,
    }
    &&& after.sonar.ranges_m@ == match update {
        SensorUpdate::Sonar { slot, dist_m } => before.sonar.ranges_m@.update(slot as int, dist_m),
        _ => before.sonar.ranges_m@,
    }
    &&& after.sensor_health == match update {
        SensorUpdate::ImuFault(fault) => SensorHealth { imu: fault, ..before.sensor_health },
        _ => before.sensor_health,
    }
    &&& after.shutdown == (before.shutdown || update is Shutdown)
}

impl SharedState {
    /// There is a range for each sonar.
    pub open spec fn wf(self) -> bool {
        self.sonar.wf()
    }

    /// Nothing has been told.
    pub open spec fn fresh(self) -> bool {
        &&& self.lidar.points@.len() == 0
        &&& self.lidar.timestamp_us == 0
        &&& self.imu == no_sample()
        &&& self.sonar.ranges_m@ == Seq::new(3, |i: int| Single { bits: SINGLE_MAX })
        &&& self.sensor_health == (SensorHealth {
            lidar: false,
            imu: false,
            sonar: [false, false, false],
        })
        &&& !self.shutdown
    }

    /// Nothing has been told.
    pub fn new() -> (out: Self)
        ensures
            out.wf(),
            out.fresh(),
    {
        let sonar = SonarRanges::new();
        assert(sonar.ranges_m@ =~= Seq::new(3, |i: int| Single { bits: SINGLE_MAX }));
        SharedState {
            lidar: LidarCloud::empty(),
            imu: ImuSample::default(),
            sonar,
            sensor_health: SensorHealth::new(),
            shutdown: false,
        }
    }

    /// Keeps a scan.
    pub fn update_lidar(&mut self, cloud: LidarCloud)
        requires
            old(self).wf(),
        ensures
            final(self).wf(),
            updated(*old(self), *final(self), SensorUpdate::Lidar(cloud)),
    {
        self.lidar = cloud;
    }

    /// Keeps a sample of the inertial sensor.
    pub fn update_imu(&mut self, sample: ImuSample)
        requires
            old(self).wf(),
        ensures
            final(self).wf(),
            updated(*old(self), *final(self), SensorUpdate::Imu(sample)),
    {
        self.imu = sample;
    }

    /// Keeps the range of a sonar.
    pub fn update_sonar(&mut self, slot: usize, dist_m: Single)
        requires
            old(self).wf(),
            slot < 3,
        ensures
            final(self).wf(),
            updated(*old(self), *final(self), SensorUpdate::Sonar { slot, dist_m }),
    {
        self.sonar.update_sonar(slot, dist_m);
    }

    /// Raises or lowers the fault flag of the inertial sensor.
    pub fn set_imu_fault(&mut self, fault: bool)
        requires
            old(self).wf(),
        ensures
            final(self).wf(),
            updated(*old(self), *final(self), SensorUpdate::ImuFault(fault)),
    {
        self.sensor_health.imu = fault;
    }

    /// Tells all parts to end.
    pub fn set_shutdown(&mut self)
        requires
            old(self).wf(),
        ensures
            final(self).wf(),
            updated(*old(self), *final(self), SensorUpdate::Shutdown),
    {
        self.shutdown = true;
    }

    /// Whether all parts are to end.
    pub fn is_shutdown(&self) -> (out: bool)
        ensures
            out == self.shutdown,
    {
        self.shutdown
    }

    /// What a tick works with: the latest readings, and whether any sensor has a
    /// fault.
    pub fn snapshot(&self) -> (out: SensorSnapshot)
        requires
            self.wf(),
        ensures
            out.lidar.same_as(self.lidar),
            out.imu == self.imu,
            out.sonar.wf(),
            out.sonar.ranges_m@ == self.sonar.ranges_m@,
            out.sensor_fault == (self.sensor_health.lidar || self.sensor_health.imu
                || self.sensor_health.sonar[0] || self.sensor_health.sonar[1]
                || self.sensor_health.sonar[2]),
    {
        let mut sonar = SonarRanges::new();
        sonar.update_sonar(0, self.sonar.ranges_m[0]);
        sonar.update_sonar(1, self.sonar.ranges_m[1]);
        sonar.update_sonar(2, self.sonar.ranges_m[2]);
        assert(sonar.ranges_m@ =~= self.sonar.ranges_m@);
        SensorSnapshot {
            lidar: self.lidar.copied(),
            imu: self.imu,
            sonar,
            sensor_fault: self.sensor_health.any_fault(),
        }
    }
}

/// The last scan among the first `n` updates, or what there was before.
pub open spec fn last_scan(first: LidarCloud, updates: Seq<SensorUpdate>, n: int) -> LidarCloud
    decreases n,
{
    if n <= 0 {
        first
    } else {
        match updates[n - 1] {
            SensorUpdate::Lidar(cloud) => cloud,
            _ => last_scan(first, updates, n - 1),
        }
    }
}

/// The last sample among the first `n` updates, or what there was before.
pub open spec fn last_sample(first: ImuSample, updates: Seq<SensorUpdate>, n: int) -> ImuSample
    decreases n,
{
    if n <= 0 {
        first
    } else {
        match updates[n - 1] {
            SensorUpdate::Imu(sample) => sample,
            _ => last_sample(first, updates, n - 1),
        }
    }
}

/// The last range of a sonar among the first `n` updates, or what there was
/// before.
pub open spec fn last_range(
    first: Single,
    updates: Seq<SensorUpdate>,
    slot: int,
    n: int,
) -> Single
    decreases n,
{
    if n <= 0 {
        first
    } else {
        match updates[n - 1] {
            SensorUpdate::Sonar { slot: s, dist_m } if s == slot => dist_m,
            _ => last_range(first, updates, slot, n - 1),
        }
    }
}

/// Update number `k` leads from one state to the next.
pub open spec fn updated_at(
    states: Seq<SharedState>,
    updates: Seq<SensorUpdate>,
    k: int,
) -> bool {
    updated(states[k], states[k + 1], updates[k])
}

/// A snapshot holds what each sensor told last, in whatever order the sensors
/// told it: the scan, the sample and the range of every sonar. A sonar that has
/// told nothing reads as far as can be.
pub proof fn law_snapshot_is_the_latest(
    states: Seq<SharedState>,
    updates: Seq<SensorUpdate>,
    n: int,
    slot: int,
)
    requires
        states.len() == updates.len() + 1,
        states[0].fresh(),
        forall|k: int| 0 <= k < updates.len() ==> #[trigger] updated_at(states, updates, k),
        0 <= n <= updates.len(),
        0 <= slot < 3,
    ensures
        states[n].wf(),
        states[n].lidar == last_scan(states[0].lidar, updates, n),
        states[n].imu == last_sample(no_sample(), updates, n),
        states[n].sonar.ranges_m@[slot] == last_range(
            Single { bits: SINGLE_MAX },
            updates,
            slot,
            n,
        ),
    decreases n,
{
    if n > 0 {
        law_snapshot_is_the_latest(states, updates, n - 1, slot);
        assert(updated_at(states, updates, n - 1));
    }
}

/// A range that was reported is what the nearest range is taken from: no sonar
/// reads less than the nearest range says.
pub proof fn law_nearest_sonar_is_nearest(ranges: Seq<Single>, limit: Single, n: int, k: int)
    requires
        0 <= k < n <= ranges.len(),
        !ranges[k].nan(),
        !limit.nan(),
    ensures
        !ranges[k].less(nearest_upto(ranges, limit, n)),
        !nearest_upto(ranges, limit, n).nan(),
    decreases n,
{
    if k < n - 1 {
        law_nearest_sonar_is_nearest(ranges, limit, n - 1, k);
    } else {
        lemma_nearest_is_a_number(ranges, limit, n - 1);
    }
}

proof fn lemma_nearest_is_a_number(ranges: Seq<Single>, limit: Single, n: int)
    requires
        0 <= n <= ranges.len(),
        !limit.nan(),
    ensures
        !nearest_upto(ranges, limit, n).nan(),
    decreases n,
{
    if n > 0 {
        lemma_nearest_is_a_number(ranges, limit, n - 1);
    }
}

/// What is told once stays told: a shutdown is final, and the fault flag of the
/// inertial sensor is the last one told. No reading touches another sensor's.
pub proof fn law_updates_touch_their_own(before: SharedState, after: SharedState, update: SensorUpdate)
    requires
        updated(before, after, update),
    ensures
        before.shutdown ==> after.shutdown,
        update is Shutdown ==> after.shutdown,
        !(update is Shutdown) ==> after.shutdown == before.shutdown,
        update matches SensorUpdate::ImuFault(fault) ==> after.sensor_health.imu == fault,
        !(update is ImuFault) ==> after.sensor_health == before.sensor_health,
        after.sensor_health.lidar == before.sensor_health.lidar,
        update matches SensorUpdate::Imu(sample) ==> after.imu == sample,
        !(update is Imu) ==> after.imu == before.imu,
        update matches SensorUpdate::Lidar(cloud) ==> after.lidar == cloud,
        !(update is Lidar) ==> after.lidar == before.lidar,
        !(update is Sonar) ==> after.sonar.ranges_m@ == before.sonar.ranges_m@,
        before.wf() ==> (update matches SensorUpdate::Sonar { slot, dist_m }
            ==> after.sonar.ranges_m@[slot as int] == dist_m && forall|i: int|
            0 <= i < 3 && i != slot ==> #[trigger] after.sonar.ranges_m@[i]
                == before.sonar.ranges_m@[i]),
{
}

} // verus!
