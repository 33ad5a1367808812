//! State estimation: when measurements are used, and what is said of the result.

use vstd::prelude::*;

use crate::mapping::Pose2;
use crate::scalar::{Single, SINGLE_HALF, SINGLE_ONE};

verus! {

/// The longest step of the inertial prediction, in microseconds.
pub const MAX_STEP_US: u64 = 250_000;

/// The time since the last sample; none before the first.
pub open spec fn elapsed_us(last_us: u64, now_us: u64) -> int {
    if last_us == 0 || now_us < last_us {
        0
    } else {
        now_us - last_us
    }
}

fn elapsed(last_us: u64, now_us: u64) -> (out: u64)
    ensures
        out == elapsed_us(last_us, now_us),
{
    if last_us == 0 {
        0
    } else {
        now_us.saturating_sub(last_us)
    }
}

/// What can be set about the filter.
#[derive(Clone, Copy, Debug)]
pub struct EkfParams {
    pub q_accel: Single,
    pub q_gyro: Single,
    pub q_bias_accel: Single,
    pub q_bias_gyro: Single,
    pub r_pos: Single,
    pub r_yaw: Single,
    pub r_zero_vy: Single,
    pub pose_gate: Single,
}

/// 0.8.
pub const DEFAULT_Q_ACCEL: u32 = 0x3F4C_CCCD;

/// 0.1.
pub const DEFAULT_Q_GYRO: u32 = 0x3DCC_CCCD;

/// 0.01.
pub const DEFAULT_Q_BIAS_ACCEL: u32 = 0x3C23_D70A;

/// 0.001.
pub const DEFAULT_Q_BIAS_GYRO: u32 = 0x3A83_126F;

/// 0.08.
pub const DEFAULT_R_POS: u32 = 0x3DA3_D70A;

/// 0.04.
pub const DEFAULT_R_YAW: u32 = 0x3D23_D70A;

/// 0.3.
pub const DEFAULT_R_ZERO_VY: u32 = 0x3E99_999A;

/// 16.
pub const DEFAULT_POSE_GATE: u32 = 0x4180_0000;

impl Default for EkfParams {
    fn default() -> (out: Self)
        ensures
            out == (EkfParams {
                q_accel: Single { bits: DEFAULT_Q_ACCEL },
                q_gyro: Single { bits: DEFAULT_Q_GYRO },
                q_bias_accel: Single { bits: DEFAULT_Q_BIAS_ACCEL },
                q_bias_gyro: Single { bits: DEFAULT_Q_BIAS_GYRO },
                r_pos: Single { bits: DEFAULT_R_POS },
                r_yaw: Single { bits: DEFAULT_R_YAW },
                r_zero_vy: Single { bits: DEFAULT_R_ZERO_VY },
                pose_gate: Single { bits: DEFAULT_POSE_GATE },
            }),
    {
        EkfParams {
            q_accel: Single { bits: DEFAULT_Q_ACCEL },
            q_gyro: Single { bits: DEFAULT_Q_GYRO },
            q_bias_accel: Single { bits: DEFAULT_Q_BIAS_ACCEL },
            q_bias_gyro: Single { bits: DEFAULT_Q_BIAS_GYRO },
            r_pos: Single { bits: DEFAULT_R_POS },
            r_yaw: Single { bits: DEFAULT_R_YAW },
            r_zero_vy: Single { bits: DEFAULT_R_ZERO_VY },
            pose_gate: Single { bits: DEFAULT_POSE_GATE },
        }
    }
}

/// What an inertial sample does to the filter.
#[derive(Clone, Copy, Debug, PartialEq, Eq, Structural)]
pub enum ImuStep {
    /// It starts the filter at the origin.
    Start,
    /// It only moves the clock: no time has passed, or too much.
    Skip,
    /// It moves the state by so many microseconds.
    Predict { dt_us: u64 },
}

/// What a pose measurement does to the filter.
#[derive(Clone, Copy, Debug, PartialEq, Eq, Structural)]
pub enum PoseUpdate {
    /// The uncertainty cannot be weighed: nothing is changed.
    Singular,
    /// The measurement is an outlier: nothing is changed.
    Rejected,
    /// The state is corrected.
    Accepted,
}

/// 0.000000000001, below which a determinant counts as zero.
pub const SINGULAR_DETERMINANT: u32 = 0x2B8C_BCCC;

/// What the filter says of the car: its pose, its velocity, and the biases of the
/// inertial sensor.
#[derive(Clone, Copy, Debug, PartialEq, Eq, Structural)]
pub struct FilterState {
    pub pose: Pose2,
    pub vx: Single,
    pub vy: Single,
    pub bias_ax: Single,
    pub bias_ay: Single,
    pub bias_gz: Single,
}

/// The origin.
pub open spec fn origin() -> Pose2 {
    Pose2 { x: Single { bits: 0 }, y: Single { bits: 0 }, yaw: Single { bits: 0 } }
}

/// A car at rest at the origin, and a sensor without biases.
pub open spec fn at_origin() -> FilterState {
    FilterState {
        pose: origin(),
        vx: Single { bits: 0 },
        vy: Single { bits: 0 },
        bias_ax: Single { bits: 0 },
        bias_ay: Single { bits: 0 },
        bias_gz: Single { bits: 0 },
    }
}

/// A pose measurement as it is weighed: the determinant of its uncertainty, its
/// normalised innovation, the largest innovation that is accepted divided by its
/// own, one minus its own divided by the largest, and the state as it would be
/// corrected.
#[derive(Clone, Copy, Debug)]
pub struct WeighedPose {
    pub determinant: Single,
    pub nis: Single,
    pub limit_by_nis: Single,
    pub margin: Single,
    pub corrected: FilterState,
}

/// The filter apart from its covariance.
#[derive(Clone, Copy, Debug)]
pub struct Ekf {
    pub params: EkfParams,
    pub x: FilterState,
    pub initialized: bool,
    /// The turning rate of the last prediction, without its bias.
    pub last_yaw_rate: Single,
    pub last_nis: Single,
    pub confidence: Single,
    pub last_timestamp_us: u64,
}

/// The number within zero and one.
pub open spec fn share(v: Single) -> Single {
    v.clamped(Single { bits: 0 }, Single { bits: SINGLE_ONE })
}

impl Ekf {
    /// A filter that knows nothing.
    pub open spec fn blank(params: EkfParams) -> Ekf {
        Ekf {
            params,
            x: at_origin(),
            initialized: false,
            last_yaw_rate: Single { bits: 0 },
            last_nis: Single { bits: 0 },
            confidence: Single { bits: 0 },
            last_timestamp_us: 0,
        }
    }

    /// The filter placed at a pose: at rest there, sure of it, and with the
    /// biases that it had.
    pub open spec fn placed(self, pose: Pose2) -> Ekf {
        Ekf {
            x: FilterState {
                pose,
                vx: Single { bits: 0 },
                vy: Single { bits: 0 },
                ..self.x
            },
            initialized: true,
            confidence: Single { bits: SINGLE_ONE },
            ..self
        }
    }

    /// A filter that knows nothing.
    pub fn new(params: EkfParams) -> (out: Self)
        ensures
            out == Ekf::blank(params),
    {
        let zero = Single::zero();
        Ekf {
            params,
            x: FilterState {
                pose: Pose2 { x: zero, y: zero, yaw: zero },
                vx: zero,
                vy: zero,
                bias_ax: zero,
                bias_ay: zero,
                bias_gz: zero,
            },
            initialized: false,
            last_yaw_rate: zero,
            last_nis: zero,
            confidence: zero,
            last_timestamp_us: 0,
        }
    }

    /// Starts the filter at a known pose.
    pub fn initialize(&mut self, pose: Pose2)
        ensures
            *final(self) == old(self).placed(pose),
    {
        self.x.pose = pose;
        self.x.vx = Single::zero();
        self.x.vy = Single::zero();
        self.initialized = true;
        self.confidence = Single { bits: SINGLE_ONE };
    }

    /// Starts the filter anew at a known pose and time.
    pub fn reset(&mut self, pose: Pose2, timestamp_us: u64)
        ensures
            *final(self) == (Ekf {
                last_timestamp_us: timestamp_us,
                ..Ekf::blank(old(self).params).placed(pose)
            }),
    {
        *self = Ekf::new(self.params);
        self.initialize(pose);
        self.last_timestamp_us = timestamp_us;
    }

    /// The pose of the car.
    pub fn pose(&self) -> (out: Pose2)
        ensures
            out == self.x.pose,
    {
        self.x.pose
    }

    /// The biases of the two accelerations.
    pub fn accel_bias(&self) -> (out: (Single, Single))
        ensures
            out == (self.x.bias_ax, self.x.bias_ay),
    {
        (self.x.bias_ax, self.x.bias_ay)
    }

    /// The bias of the turning rate.
    pub fn gyro_bias(&self) -> (out: Single)
        ensures
            out == self.x.bias_gz,
    {
        self.x.bias_gz
    }

    /// Whether the filter was started.
    pub fn is_initialized(&self) -> (out: bool)
        ensures
            out == self.initialized,
    {
        self.initialized
    }

    /// How sure the last pose measurement left the filter.
    pub fn confidence(&self) -> (out: Single)
        ensures
            out == self.confidence,
    {
        self.confidence
    }

    /// The normalised innovation of the last pose measurement.
    pub fn last_nis(&self) -> (out: Single)
        ensures
            out == self.last_nis,
    {
        self.last_nis
    }

    /// What a sample at a time does.
    pub open spec fn step_for(self, timestamp_us: u64) -> ImuStep {
        let dt = elapsed_us(self.last_timestamp_us, timestamp_us);
        if !self.initialized {
            ImuStep::Start
        } else if 0 < dt <= MAX_STEP_US {
            ImuStep::Predict { dt_us: dt as u64 }
        } else {
            ImuStep::Skip
        }
    }

    /// The filter after a sample at a time.
    pub open spec fn sampled(self, timestamp_us: u64) -> Ekf {
        Ekf {
            last_timestamp_us: timestamp_us,
            ..if self.initialized {
                self
            } else {
                self.placed(origin())
            }
        }
    }

    /// Takes in an inertial sample.
    pub fn predict_imu(&mut self, timestamp_us: u64) -> (out: ImuStep)
        ensures
            out == old(self).step_for(timestamp_us),
            *final(self) == old(self).sampled(timestamp_us),
    {
        if !self.initialized {
            let zero = Single::zero();
            self.initialize(Pose2 { x: zero, y: zero, yaw: zero });
            self.last_timestamp_us = timestamp_us;
            return ImuStep::Start;
        }
        let dt_us: u64 = elapsed(self.last_timestamp_us, timestamp_us);
        self.last_timestamp_us = timestamp_us;
        if dt_us == 0 || dt_us > MAX_STEP_US {
            return ImuStep::Skip;
        }
        ImuStep::Predict { dt_us }
    }

    /// Keeps a predicted pose and velocity, and the turning rate that they were
    /// predicted with. The biases stay.
    pub fn predict(&mut self, pose: Pose2, vx: Single, vy: Single, yaw_rate: Single)
        ensures
            *final(self) == (Ekf {
                x: FilterState { pose, vx, vy, ..old(self).x },
                last_yaw_rate: yaw_rate,
                ..*old(self)
            }),
    {
        self.x.pose = pose;
        self.x.vx = vx;
        self.x.vy = vy;
        self.last_yaw_rate = yaw_rate;
    }

    /// What becomes of a pose measurement.
    pub open spec fn judged(self, determinant: Single, nis: Single) -> PoseUpdate {
        if determinant.absolute().less(Single { bits: SINGULAR_DETERMINANT }) {
            PoseUpdate::Singular
        } else if self.params.pose_gate.less(nis) || !nis.finite() {
            PoseUpdate::Rejected
        } else {
            PoseUpdate::Accepted
        }
    }

    /// The filter after a pose measurement. One that cannot be weighed takes all
    /// confidence; an outlier leaves less the further it is out, half at most;
    /// one that is accepted leaves more the further it is in.
    pub open spec fn measured(self, m: WeighedPose) -> Ekf {
        match self.judged(m.determinant, m.nis) {
            PoseUpdate::Singular => Ekf { confidence: Single { bits: 0 }, ..self },
            PoseUpdate::Rejected => Ekf {
                confidence: share(m.limit_by_nis).halved(),
                last_nis: m.nis,
                ..self
            },
            PoseUpdate::Accepted => Ekf {
                confidence: share(m.margin),
                last_nis: m.nis,
                x: m.corrected,
                ..self
            },
        }
    }

    /// Takes in a pose measurement: keeps the corrected state if it is accepted,
    /// and the one before if it is not.
    pub fn correct_pose(&mut self, m: &WeighedPose) -> (out: PoseUpdate)
        ensures
            out == old(self).judged(m.determinant, m.nis),
            *final(self) == old(self).measured(*m),
            !(out is Accepted) ==> final(self).x == old(self).x && final(self).last_yaw_rate
                == old(self).last_yaw_rate,
            out is Rejected && !m.limit_by_nis.nan() ==> (Single { bits: 0 }).at_most(
                final(self).confidence,
            ) && final(self).confidence.at_most(Single { bits: SINGLE_HALF }),
            out is Accepted && !m.margin.nan() ==> (Single { bits: 0 }).at_most(
                final(self).confidence,
            ) && final(self).confidence.at_most(Single { bits: SINGLE_ONE }),
    {
        let zero = Single::zero();
        let one = Single { bits: SINGLE_ONE };
        if m.determinant.abs().lt(Single { bits: SINGULAR_DETERMINANT }) {
            self.confidence = zero;
            return PoseUpdate::Singular;
        }
        self.last_nis = m.nis;
        if m.nis.gt(self.params.pose_gate) || !m.nis.is_finite() {
            self.confidence = m.limit_by_nis.clamp(zero, one).half();
            return PoseUpdate::Rejected;
        }
        self.confidence = m.margin.clamp(zero, one);
        self.x = m.corrected;
        PoseUpdate::Accepted
    }

    /// Takes in that the car does not slip sideways, given the spread of its speed
    /// sideways and the state as it would be corrected. Without a spread nothing
    /// is changed.
    pub fn correct_zero_vy(&mut self, spread: Single, corrected: FilterState) -> (out: bool)
        ensures
            out == !spread.at_most(Single { bits: 0 }),
            *final(self) == if out {
                Ekf { x: corrected, ..*old(self) }
            } else {
                *old(self)
            },
    {
        if spread.le(Single::zero()) {
            return false;
        }
        self.x = corrected;
        true
    }
}

/// The filter after the first `n` of some measurements.
pub open spec fn measured_upto(f: Ekf, measurements: Seq<WeighedPose>, n: int) -> Ekf
    decreases n,
{
    if n <= 0 {
        f
    } else {
        measured_upto(f, measurements, n - 1).measured(measurements[n - 1])
    }
}

/// Outliers move nothing: whatever measurements come, as long as none is accepted
/// the pose, the motion and the biases stay what they were.
pub proof fn law_outliers_move_nothing(f: Ekf, measurements: Seq<WeighedPose>, n: int)
    requires
        0 <= n <= measurements.len(),
        forall|k: int|
            0 <= k < n ==> !(f.judged(
                (#[trigger] measurements[k]).determinant,
                measurements[k].nis,
            ) is Accepted),
    ensures
        measured_upto(f, measurements, n).x == f.x,
        measured_upto(f, measurements, n).last_yaw_rate == f.last_yaw_rate,
        measured_upto(f, measurements, n).params == f.params,
    decreases n,
{
    if n > 0 {
        law_outliers_move_nothing(f, measurements, n - 1);
        assert(!(f.judged(measurements[n - 1].determinant, measurements[n - 1].nis) is Accepted));
    }
}

/// The filter after the first `n` of some samples.
pub open spec fn filter_upto(f: Ekf, stamps: Seq<u64>, n: int) -> Ekf
    decreases n,
{
    if n <= 0 {
        f
    } else {
        filter_upto(f, stamps, n - 1).sampled(stamps[n - 1])
    }
}

/// The time that the first `n` of some samples are predicted over.
pub open spec fn predicted_upto(f: Ekf, stamps: Seq<u64>, n: int) -> int
    decreases n,
{
    if n <= 0 {
        0
    } else {
        predicted_upto(f, stamps, n - 1) + match filter_upto(f, stamps, n - 1).step_for(
            stamps[n - 1],
        ) {
            ImuStep::Predict { dt_us } => dt_us as int,
            _ => 0int,
        }
    }
}

/// Samples come in order and without gaps too long to be predicted over, from a
/// time on.
pub open spec fn steady(from_us: u64, stamps: Seq<u64>) -> bool {
    forall|i: int|
        0 <= i < stamps.len() ==> {
            let before = if i == 0 {
                from_us
            } else {
                stamps[i - 1]
            };
            before <= #[trigger] stamps[i] && stamps[i] - before <= MAX_STEP_US
        }
}

proof fn lemma_steps_upto(f: Ekf, stamps: Seq<u64>, n: int)
    requires
        f.initialized,
        f.last_timestamp_us > 0,
        steady(f.last_timestamp_us, stamps),
        0 <= n <= stamps.len(),
    ensures
        filter_upto(f, stamps, n).initialized,
        filter_upto(f, stamps, n).last_timestamp_us == if n == 0 {
            f.last_timestamp_us
        } else {
            stamps[n - 1]
        },
        filter_upto(f, stamps, n).last_timestamp_us >= f.last_timestamp_us,
        predicted_upto(f, stamps, n) == filter_upto(f, stamps, n).last_timestamp_us
            - f.last_timestamp_us,
    decreases n,
{
    if n > 0 {
        lemma_steps_upto(f, stamps, n - 1);
        assert(stamps[n - 1] >= 0);
    }
}

/// Over samples in order and without long gaps no time is lost: the steps that
/// are predicted add up to the time between the start and the last sample.
pub proof fn law_steps_add_up(f: Ekf, stamps: Seq<u64>)
    requires
        f.initialized,
        f.last_timestamp_us > 0,
        stamps.len() > 0,
        steady(f.last_timestamp_us, stamps),
    ensures
        predicted_upto(f, stamps, stamps.len() as int) == stamps.last() - f.last_timestamp_us,
{
    lemma_steps_upto(f, stamps, stamps.len() as int);
}

/// A jump in time is never predicted over.
pub proof fn law_time_jumps_are_skipped(f: Ekf, now_us: u64)
    requires
        f.initialized,
        now_us < f.last_timestamp_us || now_us - f.last_timestamp_us > MAX_STEP_US,
    ensures
        f.step_for(now_us) is Skip,
{
}

/// 25, the variance of a coordinate beyond which the filter has diverged.
pub const MAX_POSITION_VARIANCE: u32 = 0x41C8_0000;

/// 4, the variance of the heading beyond which the filter has diverged.
pub const MAX_HEADING_VARIANCE: u32 = 0x4080_0000;

/// Every number of a list is finite.
pub open spec fn all_finite(values: Seq<Single>) -> bool {
    forall|i: int| 0 <= i < values.len() ==> (#[trigger] values[i]).finite()
}

fn finite_all(values: &Vec<Single>) -> (out: bool)
    ensures
        out == all_finite(values@),
{
    let mut k: usize = 0;
    while k < values.len()
        invariant
            k <= values@.len(),
            forall|i: int| 0 <= i < k ==> (#[trigger] values@[i]).finite(),
        decreases values@.len() - k,
    {
        if !values[k].is_finite() {
            assert(!values@[k as int].finite());
            return false;
        }
        k = k + 1;
    }
    true
}

/// Whether a prediction moves the state: some time has passed.
pub fn takes_time(dt_s: Single) -> (out: bool)
    ensures
        out == !dt_s.at_most(Single { bits: 0 }),
{
    !dt_s.le(Single::zero())
}

/// Whether the filter has diverged, by its state, its covariance and the
/// variances of the two coordinates and the heading.
pub fn has_diverged(
    state: &Vec<Single>,
    covariance: &Vec<Single>,
    var_x: Single,
    var_y: Single,
    var_yaw: Single,
) -> (out: bool)
    ensures
        out == (!all_finite(state@) || !all_finite(covariance@) || (Single {
            bits: MAX_POSITION_VARIANCE,
        }).less(var_x) || (Single { bits: MAX_POSITION_VARIANCE }).less(var_y) || (Single {
            bits: MAX_HEADING_VARIANCE,
        }).less(var_yaw)),
{
    !finite_all(state) || !finite_all(covariance) || var_x.gt(
        Single { bits: MAX_POSITION_VARIANCE },
    ) || var_y.gt(Single { bits: MAX_POSITION_VARIANCE }) || var_yaw.gt(
        Single { bits: MAX_HEADING_VARIANCE },
    )
}

/// An estimator that only integrates the inertial sensor.
#[derive(Clone, Copy, Debug)]
pub struct DeadReckonEstimator {
    pub pose: Pose2,
    pub vx: Single,
    pub vy: Single,
    pub yaw_rate: Single,
    pub last_timestamp_us: u64,
    pub confidence: Single,
}

impl Default for DeadReckonEstimator {
    fn default() -> (out: Self)
        ensures
            out == DeadReckonEstimator::rested(
                Pose2 { x: Single { bits: 0 }, y: Single { bits: 0 }, yaw: Single { bits: 0 } },
                0,
                Single { bits: 0 },
            ),
    {
        DeadReckonEstimator {
            pose: Pose2 { x: Single::zero(), y: Single::zero(), yaw: Single::zero() },
            vx: Single::zero(),
            vy: Single::zero(),
            yaw_rate: Single::zero(),
            last_timestamp_us: 0,
            confidence: Single::zero(),
        }
    }
}

impl DeadReckonEstimator {
    /// The estimator at rest in a pose.
    pub open spec fn rested(pose: Pose2, timestamp_us: u64, confidence: Single) -> Self {
        DeadReckonEstimator {
            pose,
            vx: Single { bits: 0 },
            vy: Single { bits: 0 },
            yaw_rate: Single { bits: 0 },
            last_timestamp_us: timestamp_us,
            confidence,
        }
    }

    /// Starts anew at a known pose and time.
    pub fn reset(&mut self, pose: Pose2, timestamp_us: u64)
        ensures
            *final(self) == DeadReckonEstimator::rested(
                pose,
                timestamp_us,
                Single { bits: SINGLE_ONE },
            ),
    {
        self.pose = pose;
        self.vx = Single::zero();
        self.vy = Single::zero();
        self.yaw_rate = Single::zero();
        self.last_timestamp_us = timestamp_us;
        self.confidence = Single { bits: SINGLE_ONE };
    }

    /// Moves the clock to a sample; gives the time to integrate over, unless it
    /// is too long.
    pub fn begin_sample(&mut self, timestamp_us: u64) -> (out: Option<u64>)
        ensures
            ({
                let dt = elapsed_us(old(self).last_timestamp_us, timestamp_us);
                out == if dt <= MAX_STEP_US {
                    Some(dt as u64)
                } else {
                    None
                }
            }),
            *final(self) == (DeadReckonEstimator { last_timestamp_us: timestamp_us, ..*old(self) }),
    {
        let dt_us: u64 = elapsed(self.last_timestamp_us, timestamp_us);
        self.last_timestamp_us = timestamp_us;
        if dt_us > MAX_STEP_US {
            return None;
        }
        Some(dt_us)
    }

    /// Keeps the integrated pose and speeds.
    pub fn end_sample(&mut self, pose: Pose2, vx: Single, vy: Single, yaw_rate: Single)
        ensures
            *final(self) == (DeadReckonEstimator {
                pose,
                vx,
                vy,
                yaw_rate,
                last_timestamp_us: old(self).last_timestamp_us,
                confidence: Single { bits: SINGLE_ONE },
            }),
    {
        self.pose = pose;
        self.vx = vx;
        self.vy = vy;
        self.yaw_rate = yaw_rate;
        self.confidence = Single { bits: SINGLE_ONE };
    }

    /// Takes over a measured pose; it is always accepted.
    pub fn correct_pose(&mut self, pose: Pose2, quality: Single) -> (out: bool)
        ensures
            out,
            *final(self) == (DeadReckonEstimator {
                pose,
                confidence: quality.clamped(Single { bits: 0 }, Single { bits: SINGLE_ONE }),
                ..*old(self)
            }),
    {
        self.pose = pose;
        self.confidence = quality.clamp(Single::zero(), Single { bits: SINGLE_ONE });
        true
    }
}

/// A pose measurement is accepted exactly when its uncertainty can be weighed and
/// its innovation is a number within the limit. Then the filter takes over the
/// corrected state as a whole.
pub proof fn law_good_measurements_are_taken_over(f: Ekf, m: WeighedPose)
    requires
        !f.params.pose_gate.nan(),
        !m.determinant.nan(),
    ensures
        f.judged(m.determinant, m.nis) is Accepted <==> {
            &&& !(m.determinant.less(Single { bits: SINGULAR_DETERMINANT })
                && m.determinant.negated().less(Single { bits: SINGULAR_DETERMINANT }))
            &&& m.nis.finite()
            &&& m.nis.at_most(f.params.pose_gate)
        },
        f.judged(m.determinant, m.nis) is Accepted ==> f.measured(m).x == m.corrected && f.measured(
            m,
        ).last_nis == m.nis,
        f.judged(m.determinant, m.nis) is Rejected ==> f.measured(m).x == f.x && f.measured(
            m,
        ).last_nis == m.nis,
        f.judged(m.determinant, m.nis) is Singular ==> f.measured(m).x == f.x && f.measured(
            m,
        ).last_nis == f.last_nis && f.measured(m).confidence == (Single { bits: 0 }),
        f.measured(m).params == f.params,
        f.measured(m).initialized == f.initialized,
        f.measured(m).last_timestamp_us == f.last_timestamp_us,
        f.measured(m).last_yaw_rate == f.last_yaw_rate,
{
}

/// The further in, the more sure: of two measurements that are accepted, the one
/// with more margin leaves at least as much confidence. One with no margin leaves
/// none, one with all of it leaves the filter sure.
pub proof fn law_confidence_grows_with_the_margin(f: Ekf, a: WeighedPose, b: WeighedPose)
    requires
        f.judged(a.determinant, a.nis) is Accepted,
        f.judged(b.determinant, b.nis) is Accepted,
        a.margin.at_most(b.margin),
    ensures
        f.measured(a).confidence.at_most(f.measured(b).confidence),
        (Single { bits: 0 }).at_most(a.margin) && a.margin.at_most(Single { bits: SINGLE_ONE })
            ==> f.measured(a).confidence == a.margin,
        a.margin.less(Single { bits: 0 }) ==> f.measured(a).confidence == (Single { bits: 0 }),
        (Single { bits: SINGLE_ONE }).less(a.margin) ==> f.measured(a).confidence == (Single {
            bits: SINGLE_ONE,
        }),
{
}

/// The further out, the less sure: of two outliers, the one whose limit is the
/// greater part of its innovation leaves at least as much confidence; half at
/// most.
pub proof fn law_outliers_leave_little_confidence(f: Ekf, a: WeighedPose, b: WeighedPose)
    requires
        f.judged(a.determinant, a.nis) is Rejected,
        f.judged(b.determinant, b.nis) is Rejected,
        a.limit_by_nis.at_most(b.limit_by_nis),
    ensures
        f.measured(a).confidence.at_most(f.measured(b).confidence),
        f.measured(b).confidence.at_most(Single { bits: SINGLE_HALF }),
        (Single { bits: 0 }).at_most(f.measured(a).confidence),
        (Single { bits: SINGLE_ONE }).at_most(b.limit_by_nis) ==> f.measured(b).confidence == (
        Single { bits: SINGLE_HALF }),
{
    let x = share(a.limit_by_nis);
    let y = share(b.limit_by_nis);
    assert((Single { bits: 0 }).at_most(x) && x.at_most(y) && y.at_most(
        Single { bits: SINGLE_ONE },
    ));
    lemma_halves_keep_order(x, y);
    lemma_halves_keep_order(y, Single { bits: SINGLE_ONE });
    assert((Single { bits: SINGLE_ONE }).halved() == (Single { bits: SINGLE_HALF }));
    assert(f.measured(a).confidence == x.halved());
    assert(f.measured(b).confidence == y.halved());
    if (Single { bits: SINGLE_ONE }).at_most(b.limit_by_nis) {
        assert(y == (Single { bits: SINGLE_ONE }));
    }
}

proof fn lemma_halves_keep_order(x: Single, y: Single)
    requires
        (Single { bits: 0 }).at_most(x),
        x.at_most(y),
        y.finite(),
    ensures
        x.halved().at_most(y.halved()),
        (Single { bits: 0 }).at_most(x.halved()),
        y.halved().finite(),
{
    let m = x.magnitude();
    let n = y.magnitude();
    assert(m <= n);
    if n < 2 * crate::scalar::SINGLE_EXPONENT_STEP {
        assert(y.halved().magnitude() == if n % 4 == 3 {
            n / 2 + 1
        } else {
            n / 2
        });
    } else {
        assert(y.halved().magnitude() == n - crate::scalar::SINGLE_EXPONENT_STEP);
    }
    if m < 2 * crate::scalar::SINGLE_EXPONENT_STEP {
        assert(x.halved().magnitude() == if m % 4 == 3 {
            m / 2 + 1
        } else {
            m / 2
        });
    } else {
        assert(x.halved().magnitude() == m - crate::scalar::SINGLE_EXPONENT_STEP);
    }
}

/// A sample moves nothing by itself: it sets the clock, and places a filter that
/// was not started at the origin, at rest, sure of it, with the biases it had. A
/// filter that was started keeps all it says.
pub proof fn law_samples_set_the_clock(f: Ekf, timestamp_us: u64)
    ensures
        f.sampled(timestamp_us).last_timestamp_us == timestamp_us,
        f.sampled(timestamp_us).initialized,
        f.sampled(timestamp_us).params == f.params,
        f.initialized ==> f.sampled(timestamp_us).x == f.x && f.sampled(timestamp_us).confidence
            == f.confidence && f.step_for(timestamp_us) != ImuStep::Start,
        !f.initialized ==> {
            let g = f.sampled(timestamp_us);
            &&& f.step_for(timestamp_us) is Start
            &&& g.x.pose.x.bits == 0 && g.x.pose.y.bits == 0 && g.x.pose.yaw.bits == 0
            &&& g.x.vx.bits == 0 && g.x.vy.bits == 0
            &&& g.x.bias_ax == f.x.bias_ax && g.x.bias_ay == f.x.bias_ay && g.x.bias_gz
                == f.x.bias_gz
            &&& g.confidence == (Single { bits: SINGLE_ONE })
        },
{
}

/// Between two samples of a started filter that are some time apart, but not too
/// long, exactly that time is predicted over.
pub proof fn law_time_between_samples_is_predicted(f: Ekf, now_us: u64)
    requires
        f.initialized,
        f.last_timestamp_us > 0,
        f.last_timestamp_us < now_us <= f.last_timestamp_us + MAX_STEP_US,
    ensures
        f.step_for(now_us) == (ImuStep::Predict { dt_us: (now_us - f.last_timestamp_us) as u64 }),
{
}

/// A filter that is placed is at the pose, at rest, sure of it; one that knows
/// nothing is sure of nothing and has no biases.
pub proof fn law_placed_filter_is_at_the_pose(f: Ekf, pose: Pose2)
    ensures
        f.placed(pose).x.pose == pose,
        f.placed(pose).x.vx.bits == 0,
        f.placed(pose).x.vy.bits == 0,
        f.placed(pose).x.bias_ax == f.x.bias_ax,
        f.placed(pose).x.bias_ay == f.x.bias_ay,
        f.placed(pose).x.bias_gz == f.x.bias_gz,
        f.placed(pose).initialized,
        f.placed(pose).confidence == (Single { bits: SINGLE_ONE }),
        f.placed(pose).params == f.params,
        f.placed(pose).last_timestamp_us == f.last_timestamp_us,
        !Ekf::blank(f.params).initialized,
        Ekf::blank(f.params).confidence.bits == 0,
        Ekf::blank(f.params).x.bias_ax.bits == 0,
        Ekf::blank(f.params).x.bias_ay.bits == 0,
        Ekf::blank(f.params).x.bias_gz.bits == 0,
        Ekf::blank(f.params).last_timestamp_us == 0,
{
}

/// The time between two samples leads from the one to the other; before the first
/// sample, and where the clock went back, there is none.
pub proof fn law_elapsed_leads_to_now(last_us: u64, now_us: u64)
    ensures
        0 < last_us <= now_us ==> last_us + elapsed_us(last_us, now_us) == now_us,
        now_us < last_us ==> elapsed_us(last_us, now_us) == 0,
        elapsed_us(0, now_us) == 0,
{
}

} // verus!
