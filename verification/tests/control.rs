#![allow(dead_code)]

use std::f32::consts::{PI, TAU};

use nfe::control::{
    corridor_status, curvature_cap_applies, deadband_inverse, error_cap_applies, is_driven,
    is_saturated, limited, obstacle_cap_applies, raceline_status, raw_target_speed,
    ControllerStatus, Pid, PidParams, SpeedCaps, SpeedParams, SpeedPlanner, SpeedStep,
};
use nfe::estimation::{
    has_diverged, takes_time, DeadReckonEstimator, Ekf, EkfParams, FilterState, ImuStep,
    PoseUpdate, WeighedPose, MAX_STEP_US,
};
use nfe::mapping::Pose2;
use nfe::perception::CorridorEstimate;
use nfe::scalar::{Point2, Single};

const N: usize = 8;
const X: usize = 0;
const Y: usize = 1;
const YAW: usize = 2;
const VX: usize = 3;
const VY: usize = 4;
const BAX: usize = 5;
const BAY: usize = 6;
const BGZ: usize = 7;

type Mat8 = [[f32; N]; N];

fn s(x: f32) -> Single {
    Single::new(x.to_bits())
}

fn f(x: Single) -> f32 {
    f32::from_bits(x.bits)
}

fn singles(values: &[f32]) -> Vec<Single> {
    values.iter().map(|v| s(*v)).collect()
}

#[derive(Clone, Copy, Debug, Default, PartialEq)]
struct Pt {
    x: f32,
    y: f32,
}

impl Pt {
    fn new(x: f32, y: f32) -> Self {
        Self { x, y }
    }

    fn dist(&self, other: &Pt) -> f32 {
        (self.x - other.x).hypot(self.y - other.y)
    }

    fn bits(self) -> Point2 {
        Point2 {
            x: s(self.x),
            y: s(self.y),
        }
    }

    fn of(p: Point2) -> Self {
        Self::new(f(p.x), f(p.y))
    }
}

#[derive(Clone, Copy, Debug, Default, PartialEq)]
struct Pose {
    x: f32,
    y: f32,
    yaw: f32,
}

impl Pose {
    fn new(x: f32, y: f32, yaw: f32) -> Self {
        Self { x, y, yaw }
    }

    fn point(&self) -> Pt {
        Pt::new(self.x, self.y)
    }

    fn transform_point(&self, p: &Pt) -> Pt {
        let (sin, cos) = self.yaw.sin_cos();
        Pt::new(
            self.x + cos * p.x - sin * p.y,
            self.y + sin * p.x + cos * p.y,
        )
    }

    fn bits(self) -> Pose2 {
        Pose2 {
            x: s(self.x),
            y: s(self.y),
            yaw: s(self.yaw),
        }
    }

    fn of(p: Pose2) -> Self {
        Self::new(f(p.x), f(p.y), f(p.yaw))
    }
}

/// The angle brought into the half-open turn around zero.
fn wrap_angle(angle: f32) -> f32 {
    (angle + PI).rem_euclid(TAU) - PI
}

/// A command held to a limit, as the library holds it; a limit below zero is a
/// fault of the settings.
fn held(command: f32, limit: f32) -> f32 {
    if !(-limit <= limit) {
        panic!("a limit on either side of zero cannot be negative");
    }
    f(limited(s(command), s(limit)))
}

fn or_zero(value: f32) -> f32 {
    f(s(value).finite_or_zero())
}

/// What the controllers hand to the actuators.
#[derive(Clone, Copy, Debug)]
struct ControlOutput {
    steering_rad: f32,
    throttle: f32,
    target_speed_ms: f32,
    status: ControllerStatus,
}

impl ControlOutput {
    fn none(status: ControllerStatus) -> Self {
        Self {
            steering_rad: 0.0,
            throttle: 0.0,
            target_speed_ms: 0.0,
            status,
        }
    }
}

#[derive(Clone, Copy, Debug)]
struct LqrParams {
    k_lateral: f32,
    k_lateral_rate: f32,
    k_heading: f32,
    k_yaw_rate: f32,
    max_steering_rad: f32,
}

impl Default for LqrParams {
    fn default() -> Self {
        Self {
            k_lateral: 0.80,
            k_lateral_rate: 0.30,
            k_heading: 1.20,
            k_yaw_rate: 0.40,
            max_steering_rad: 0.70,
        }
    }
}

#[derive(Clone, Copy, Debug, Default)]
struct LqrState {
    lateral_error_m: f32,
    lateral_rate_m_s: f32,
    heading_error_rad: f32,
    yaw_rate_rad_s: f32,
}

fn lqr_steering(params: &LqrParams, state: LqrState) -> f32 {
    held(
        params.k_lateral * state.lateral_error_m
            + params.k_lateral_rate * state.lateral_rate_m_s
            + params.k_heading * state.heading_error_rad
            + params.k_yaw_rate * state.yaw_rate_rad_s,
        params.max_steering_rad,
    )
}

#[derive(Clone, Copy, Debug)]
struct StanleyParams {
    k_cross_track: f32,
    softening_speed_ms: f32,
    max_steering_rad: f32,
}

impl Default for StanleyParams {
    fn default() -> Self {
        Self {
            k_cross_track: 2.5,
            softening_speed_ms: 1.0,
            max_steering_rad: 0.38,
        }
    }
}

fn stanley_steering(
    params: &StanleyParams,
    speed_ms: f32,
    lateral_error_m: f32,
    heading_error_rad: f32,
) -> f32 {
    let cross = (params.k_cross_track * lateral_error_m)
        .atan2(speed_ms.abs() + params.softening_speed_ms);
    held(heading_error_rad + cross, params.max_steering_rad)
}

/// The throttle that brings an error down.
fn pid_throttle(pid: &mut Pid, error: f32, dt_s: f32) -> f32 {
    let fits = |limit: Single| -f(limit) <= f(limit);
    if !fits(pid.params.windup_limit) || !fits(pid.params.max_throttle) {
        panic!("a limit on either side of zero cannot be negative");
    }
    let Some(base) = pid.integral_base(s(error), s(dt_s)) else {
        return 0.0;
    };
    let derivative = (error - f(pid.prev_error)) / dt_s;
    let integral = f(pid.integrate(s(error), s(f(base) + error * dt_s)));
    let params = pid.params;
    let command = f(params.kp) * error + f(params.ki) * integral + f(params.kd) * derivative;
    f(pid.throttle(s(command)))
}

fn error_speed_cap(v_max: f32, gain: Single, error: f32) -> f32 {
    if error_cap_applies(gain, s(error)) {
        v_max / (1.0 + f(gain) * error)
    } else {
        v_max
    }
}

fn speed_caps(params: &SpeedParams, c: &CorridorEstimate, curvature_m_inv: f32) -> SpeedCaps {
    let v_max = f(params.v_max).max(0.0);
    let heading = f(c.heading_error_rad);
    let curvature = if curvature_cap_applies(params.a_lat_max_ms2, s(curvature_m_inv)) {
        (f(params.a_lat_max_ms2) / curvature_m_inv.abs())
            .sqrt()
            .min(v_max)
    } else {
        v_max
    };
    let obstacle = if obstacle_cap_applies(c.nearest_obstacle_m) {
        let slowdown = f(params.obstacle_slowdown_m).max(f32::EPSILON);
        v_max * (f(c.nearest_obstacle_m) / slowdown).clamp(0.0, 1.0)
    } else {
        v_max
    };
    SpeedCaps {
        heading: s(error_speed_cap(v_max, params.k_heading, heading.powi(2))),
        lateral: s(error_speed_cap(
            v_max,
            params.k_lateral,
            f(c.lateral_error_m).abs(),
        )),
        curvature: s(curvature),
        obstacle: s(obstacle),
        confidence: s(v_max * f(c.confidence).clamp(0.1, 1.0)),
    }
}

/// The speed aimed at in a tick.
fn target_speed(
    planner: &mut SpeedPlanner,
    corridor: Option<&CorridorEstimate>,
    curvature_m_inv: f32,
    dt_s: f32,
) -> f32 {
    let Some(c) = corridor else {
        planner.reset();
        return 0.0;
    };
    let caps = speed_caps(&planner.params, c, curvature_m_inv);
    let raw = raw_target_speed(&planner.params, &caps);
    match planner.begin_step(raw, s(dt_s)) {
        SpeedStep::Jump { target } => f(target),
        SpeedStep::Move {
            from,
            target,
            rate_ms2,
        } => {
            let most = f(rate_ms2) * dt_s;
            let change = f(target) - f(from);
            let moved = f(from) + change.min(most).max(-most);
            f(planner.end_step(from, s(most), s(moved)))
        }
    }
}

#[derive(Clone, Copy, Debug)]
struct LateralParams {
    natural_frequency_rad_s: f32,
    damping_ratio: f32,
    min_speed_ms: f32,
    max_feedback_accel_ms2: f32,
    max_curvature_command_m_inv: f32,
}

impl Default for LateralParams {
    fn default() -> Self {
        Self {
            natural_frequency_rad_s: 2.0,
            damping_ratio: 0.53,
            min_speed_ms: 0.5,
            max_feedback_accel_ms2: 8.0,
            max_curvature_command_m_inv: 20.0,
        }
    }
}

#[derive(Clone, Copy, Debug, Default)]
struct LateralInput {
    lateral_error_m: f32,
    heading_error_rad: f32,
    speed_ms: f32,
    reference_curvature_m_inv: f32,
}

#[derive(Clone, Copy, Debug)]
struct LateralOutput {
    lateral_rate_m_s: f32,
    raw_feedback_accel_ms2: f32,
    clamped_feedback_accel_ms2: f32,
    feedback_accel_ms2: f32,
    low_speed_feedback_scale: f32,
    feedforward_accel_ms2: f32,
    curvature_command_m_inv: f32,
    feedback_saturated: bool,
    curvature_saturated: bool,
}

/// The bend that brings the car back to its path.
fn lateral(input: &LateralInput, params: &LateralParams) -> LateralOutput {
    let speed = or_zero(input.speed_ms).max(0.0);
    let min_speed = params.min_speed_ms.max(1.0e-3);
    let for_curvature = speed.max(min_speed);
    let heading = wrap_angle(or_zero(input.heading_error_rad));
    let error = or_zero(input.lateral_error_m);
    let curvature = or_zero(input.reference_curvature_m_inv);
    let omega = params.natural_frequency_rad_s.max(0.0);
    let damping = params.damping_ratio.max(0.0);
    let rate = speed * heading.sin();
    let raw = -omega * omega * error - 2.0 * damping * omega * rate;
    let clamped = held(raw, params.max_feedback_accel_ms2.max(0.0));
    let scale = (speed / min_speed).clamp(0.0, 1.0).powi(2);
    let feedback = clamped * scale;
    let raw_command = curvature + feedback / (for_curvature * for_curvature);
    let command = held(raw_command, params.max_curvature_command_m_inv.max(0.0));
    LateralOutput {
        lateral_rate_m_s: rate,
        raw_feedback_accel_ms2: raw,
        clamped_feedback_accel_ms2: clamped,
        feedback_accel_ms2: feedback,
        low_speed_feedback_scale: scale,
        feedforward_accel_ms2: speed * speed * curvature,
        curvature_command_m_inv: command,
        feedback_saturated: is_saturated(s(clamped - raw)),
        curvature_saturated: is_saturated(s(command - raw_command)),
    }
}

#[derive(Clone, Copy, Debug)]
struct SteeringParams {
    wheelbase_m: f32,
    yaw_rate_p_gain_s: f32,
    min_feedback_speed_ms: f32,
    max_steering_rad: f32,
}

impl Default for SteeringParams {
    fn default() -> Self {
        Self {
            wheelbase_m: 0.21,
            yaw_rate_p_gain_s: 0.08,
            min_feedback_speed_ms: 0.5,
            max_steering_rad: 0.70,
        }
    }
}

#[derive(Clone, Copy, Debug)]
struct SteeringOutput {
    target_yaw_rate_rad_s: f32,
    feedback_scale: f32,
    feedforward_steering_rad: f32,
    feedback_steering_rad: f32,
    steering_rad: f32,
    saturated: bool,
}

/// The steering that drives a bend.
fn steering(
    curvature_m_inv: f32,
    speed_ms: f32,
    yaw_rate_rad_s: f32,
    params: &SteeringParams,
) -> SteeringOutput {
    let curvature = or_zero(curvature_m_inv);
    let speed = or_zero(speed_ms).max(0.0);
    let target = speed * curvature;
    let scale = (speed / params.min_feedback_speed_ms.max(1.0e-3)).clamp(0.0, 1.0);
    let feedforward = (params.wheelbase_m.max(1.0e-3) * curvature).atan();
    let feedback = params.yaw_rate_p_gain_s.max(0.0) * (target - or_zero(yaw_rate_rad_s)) * scale;
    let raw = feedforward + feedback;
    let steering_rad = held(raw, params.max_steering_rad.max(0.0));
    SteeringOutput {
        target_yaw_rate_rad_s: target,
        feedback_scale: scale,
        feedforward_steering_rad: feedforward,
        feedback_steering_rad: feedback,
        steering_rad,
        saturated: is_saturated(s(steering_rad - raw)),
    }
}

#[derive(Clone, Copy, Debug)]
struct ForceParams {
    mass_kg: f32,
    motor_gain_ms2: f32,
    brake_gain: f32,
    drag_k: f32,
    k_speed_ms2_per_ms: f32,
    max_accel_ms2: f32,
    max_brake_ms2: f32,
    motor_deadband: f32,
    max_throttle: f32,
}

impl Default for ForceParams {
    fn default() -> Self {
        Self {
            mass_kg: 1.52,
            motor_gain_ms2: 20.0,
            brake_gain: 1.4,
            drag_k: 0.5,
            k_speed_ms2_per_ms: 4.0,
            max_accel_ms2: 12.0,
            max_brake_ms2: 16.0,
            motor_deadband: 0.05,
            max_throttle: 1.0,
        }
    }
}

#[derive(Clone, Copy, Debug)]
struct ForceOutput {
    target_accel_ms2: f32,
    drag_comp_accel_ms2: f32,
    target_force_n: f32,
    throttle: f32,
    accel_saturated: bool,
    throttle_saturated: bool,
}

/// The throttle that reaches a speed.
fn longitudinal(
    target_speed_ms: f32,
    current_speed_ms: f32,
    feedforward_accel_ms2: f32,
    params: &ForceParams,
) -> ForceOutput {
    let current = or_zero(current_speed_ms).max(0.0);
    let error = or_zero(target_speed_ms).max(0.0) - current;
    let raw = or_zero(feedforward_accel_ms2) + params.k_speed_ms2_per_ms.max(0.0) * error;
    let target = f(s(raw).clamp(
        s(-params.max_brake_ms2.max(0.0)),
        s(params.max_accel_ms2.max(0.0)),
    ));
    let drag = params.drag_k.max(0.0) * current * current;
    let tractive = target + drag;
    let gain = params.motor_gain_ms2.max(1.0e-3);
    let effective = if is_driven(s(tractive)) {
        tractive / gain
    } else {
        tractive / (gain * params.brake_gain.max(1.0e-3))
    };
    let deadband = params.motor_deadband.clamp(0.0, 0.99);
    let lifted = effective.signum() * (deadband + (1.0 - deadband) * effective.abs());
    let raw_throttle = f(deadband_inverse(s(effective), s(lifted)));
    let throttle = held(raw_throttle, params.max_throttle.clamp(0.0, 1.0));
    ForceOutput {
        target_accel_ms2: target,
        drag_comp_accel_ms2: drag,
        target_force_n: params.mass_kg.max(0.0) * target,
        throttle,
        accel_saturated: is_saturated(s(target - raw)),
        throttle_saturated: is_saturated(s(throttle - raw_throttle)),
    }
}

/// Where the car is relative to the race line, and what the line asks of it.
#[derive(Clone, Copy, Debug)]
struct RaceReference {
    lateral_error_m: f32,
    heading_error_rad: f32,
    curvature: f32,
    speed_ms: f32,
    accel_x_ms2: f32,
    confidence: f32,
}

/// The car follows the race line.
#[derive(Clone, Copy, Debug, Default)]
struct RaceLineController {
    lateral: LateralParams,
    steering: SteeringParams,
    longitudinal: ForceParams,
}

impl RaceLineController {
    fn compute(
        &self,
        reference: Option<&RaceReference>,
        speed_ms: f32,
        yaw_rate_rad_s: f32,
    ) -> ControlOutput {
        let status = raceline_status(reference.map(|r| s(r.confidence)));
        let Some(r) = reference else {
            return ControlOutput::none(status);
        };
        let bend = lateral(
            &LateralInput {
                lateral_error_m: r.lateral_error_m,
                heading_error_rad: wrap_angle(-r.heading_error_rad),
                speed_ms,
                reference_curvature_m_inv: r.curvature,
            },
            &self.lateral,
        );
        let wheel = steering(
            bend.curvature_command_m_inv,
            speed_ms,
            yaw_rate_rad_s,
            &self.steering,
        );
        let force = longitudinal(r.speed_ms, speed_ms, r.accel_x_ms2, &self.longitudinal);
        ControlOutput {
            steering_rad: wheel.steering_rad,
            throttle: force.throttle,
            target_speed_ms: r.speed_ms,
            status,
        }
    }
}

/// An inertial sample in the frame of the car.
#[derive(Clone, Copy, Debug, Default)]
struct ImuSample {
    ax: f32,
    ay: f32,
    az: f32,
    gx: f32,
    gy: f32,
    gz: f32,
    timestamp_us: u64,
}

/// What is known of the car's motion.
#[derive(Clone, Copy, Debug, Default)]
struct StateEstimate {
    pose: Pose,
    speed_ms: f32,
    yaw_rate_rad_s: f32,
    confidence: f32,
    consistency: f32,
    diverged: bool,
    timestamp_us: u64,
}

fn identity() -> Mat8 {
    let mut m = [[0.0f32; N]; N];
    for (i, row) in m.iter_mut().enumerate() {
        row[i] = 1.0;
    }
    m
}

fn matmul(a: &Mat8, b: &Mat8) -> Mat8 {
    let mut out = [[0.0f32; N]; N];
    for i in 0..N {
        for k in 0..N {
            if a[i][k] != 0.0 {
                for j in 0..N {
                    out[i][j] += a[i][k] * b[k][j];
                }
            }
        }
    }
    out
}

fn transposed(m: &Mat8) -> Mat8 {
    let mut out = [[0.0f32; N]; N];
    for i in 0..N {
        for j in 0..N {
            out[i][j] = m[j][i];
        }
    }
    out
}

fn symmetrize(m: &mut Mat8) {
    for i in 0..N {
        for j in (i + 1)..N {
            let mean = 0.5 * (m[i][j] + m[j][i]);
            m[i][j] = mean;
            m[j][i] = mean;
        }
    }
}

fn determinant3(m: &[[f32; 3]; 3]) -> f32 {
    m[0][0] * (m[1][1] * m[2][2] - m[1][2] * m[2][1])
        - m[0][1] * (m[1][0] * m[2][2] - m[1][2] * m[2][0])
        + m[0][2] * (m[1][0] * m[2][1] - m[1][1] * m[2][0])
}

fn inverse3(m: &[[f32; 3]; 3], determinant: f32) -> [[f32; 3]; 3] {
    let inv = 1.0 / determinant;
    let [[a, b, c], [d, e, g], [h, i, j]] = *m;
    [
        [
            (e * j - g * i) * inv,
            (c * i - b * j) * inv,
            (b * g - c * e) * inv,
        ],
        [
            (g * h - d * j) * inv,
            (a * j - c * h) * inv,
            (c * d - a * g) * inv,
        ],
        [
            (d * i - e * h) * inv,
            (b * h - a * i) * inv,
            (a * e - b * d) * inv,
        ],
    ]
}

/// A filter for pose, speed and the biases of the inertial sensor.
struct Filter {
    state: Ekf,
    p: Mat8,
}

impl Filter {
    fn new(params: EkfParams) -> Self {
        let mut p = [[0.0f32; N]; N];
        let start = [0.01, 0.01, 0.01, 0.5, 0.5, 0.1, 0.1, 0.01];
        for (i, variance) in start.into_iter().enumerate() {
            p[i][i] = variance;
        }
        Self {
            state: Ekf::new(params),
            p,
        }
    }

    fn x(&self) -> [f32; N] {
        let x = &self.state.x;
        [x.pose.x, x.pose.y, x.pose.yaw, x.vx, x.vy, x.bias_ax, x.bias_ay, x.bias_gz].map(f)
    }

    fn bits(x: [f32; N]) -> FilterState {
        FilterState {
            pose: Pose::new(x[X], x[Y], x[YAW]).bits(),
            vx: s(x[VX]),
            vy: s(x[VY]),
            bias_ax: s(x[BAX]),
            bias_ay: s(x[BAY]),
            bias_gz: s(x[BGZ]),
        }
    }

    fn initialize(&mut self, pose: Pose) {
        self.state.initialize(pose.bits());
    }

    fn reset(&mut self, pose: Pose, timestamp_us: u64) {
        *self = Self::new(self.state.params);
        self.state.reset(pose.bits(), timestamp_us);
    }

    fn pose(&self) -> Pose {
        Pose::of(self.state.pose())
    }

    fn speed(&self) -> f32 {
        f(self.state.x.vx).hypot(f(self.state.x.vy))
    }

    fn predict(&mut self, ax: f32, ay: f32, gz: f32, dt: f32) {
        if !takes_time(s(dt)) {
            return;
        }
        let x = self.x();
        let yaw = x[YAW];
        let (sin, cos) = yaw.sin_cos();
        let (vx, vy) = (x[VX], x[VY]);
        let turn = gz - x[BGZ];
        let pose = Pose::new(
            x[X] + (vx * cos - vy * sin) * dt,
            x[Y] + (vx * sin + vy * cos) * dt,
            wrap_angle(yaw + turn * dt),
        );
        self.state.predict(
            pose.bits(),
            s(vx + (ax - x[BAX]) * dt),
            s(vy + (ay - x[BAY]) * dt),
            s(turn),
        );
        let mut jacobian = identity();
        jacobian[X][YAW] = (-vx * sin - vy * cos) * dt;
        jacobian[X][VX] = cos * dt;
        jacobian[X][VY] = -sin * dt;
        jacobian[Y][YAW] = (vx * cos - vy * sin) * dt;
        jacobian[Y][VX] = sin * dt;
        jacobian[Y][VY] = cos * dt;
        jacobian[YAW][BGZ] = -dt;
        jacobian[VX][BAX] = -dt;
        jacobian[VY][BAY] = -dt;
        let params = self.state.params;
        let noise = |q| f(q) * f(q) * dt;
        let accel = noise(params.q_accel);
        let bias = noise(params.q_bias_accel);
        let added = [
            accel * dt * dt,
            accel * dt * dt,
            noise(params.q_gyro),
            accel,
            accel,
            bias,
            bias,
            noise(params.q_bias_gyro),
        ];
        self.p = matmul(&matmul(&jacobian, &self.p), &transposed(&jacobian));
        for (i, q) in added.into_iter().enumerate() {
            self.p[i][i] += q;
        }
        symmetrize(&mut self.p);
    }

    fn predict_imu(&mut self, sample: ImuSample) {
        match self.state.predict_imu(sample.timestamp_us) {
            ImuStep::Start | ImuStep::Skip => {}
            ImuStep::Predict { dt_us } => {
                self.predict(sample.ax, sample.ay, sample.gz, dt_us as f32 * 1e-6)
            }
        }
    }

    fn correct_pose(&mut self, pose: Pose, quality: f32) -> bool {
        let mut x = self.x();
        let innovation = [
            pose.x - x[X],
            pose.y - x[Y],
            wrap_angle(pose.yaw - x[YAW]),
        ];
        let params = self.state.params;
        let quality = quality.clamp(0.05, 1.0);
        let position = f(params.r_pos) * f(params.r_pos) / quality;
        let heading = f(params.r_yaw) * f(params.r_yaw) / quality;
        let mut spread = [[0.0f32; 3]; 3];
        for (a, row) in spread.iter_mut().enumerate() {
            for (b, cell) in row.iter_mut().enumerate() {
                *cell = self.p[a][b];
            }
        }
        spread[0][0] += position;
        spread[1][1] += position;
        spread[2][2] += heading;
        let determinant = determinant3(&spread);
        let inverse = inverse3(&spread, determinant);
        let weighted =
            |row: &[f32; 3]| (0..3).map(|b| row[b] * innovation[b]).sum::<f32>();
        let nis: f32 = (0..3).map(|a| innovation[a] * weighted(&inverse[a])).sum();
        let gate = f(params.pose_gate);
        let mut keep = identity();
        let mut gains = [[0.0f32; 3]; N];
        for i in 0..N {
            for b in 0..3 {
                gains[i][b] = (0..3).map(|j| self.p[i][j] * inverse[j][b]).sum();
                keep[i][b] -= gains[i][b];
            }
            x[i] += weighted(&gains[i]);
        }
        x[YAW] = wrap_angle(x[YAW]);
        let update = self.state.correct_pose(&WeighedPose {
            determinant: s(determinant),
            nis: s(nis),
            limit_by_nis: s(gate / nis),
            margin: s(1.0 - nis / gate),
            corrected: Self::bits(x),
        });
        if update != PoseUpdate::Accepted {
            return false;
        }
        self.p = matmul(&keep, &self.p);
        symmetrize(&mut self.p);
        true
    }

    /// Pulls the speed sideways towards zero.
    fn correct_zero_vy(&mut self) {
        let noise = f(self.state.params.r_zero_vy);
        let spread = self.p[VY][VY] + noise * noise;
        let mut x = self.x();
        let innovation = -x[VY];
        let mut keep = identity();
        for i in 0..N {
            let gain = self.p[i][VY] / spread;
            x[i] += gain * innovation;
            keep[i][VY] -= gain;
        }
        if !self.state.correct_zero_vy(s(spread), Self::bits(x)) {
            return;
        }
        self.p = matmul(&keep, &self.p);
        symmetrize(&mut self.p);
    }

    fn estimate(&self) -> StateEstimate {
        let x = self.x().iter().map(|v| s(*v)).collect();
        let p = self.p.iter().flatten().map(|v| s(*v)).collect();
        StateEstimate {
            pose: self.pose(),
            speed_ms: self.speed(),
            yaw_rate_rad_s: f(self.state.last_yaw_rate),
            confidence: f(self.state.confidence()),
            consistency: f(self.state.last_nis()),
            diverged: has_diverged(
                &x,
                &p,
                s(self.p[X][X]),
                s(self.p[Y][Y]),
                s(self.p[YAW][YAW]),
            ),
            timestamp_us: self.state.last_timestamp_us,
        }
    }
}

/// Integrates a sample where the clock of the estimator allows it.
fn reckon(state: &mut DeadReckonEstimator, sample: ImuSample) {
    let Some(dt_us) = state.begin_sample(sample.timestamp_us) else {
        return;
    };
    let dt = dt_us as f32 * 1e-6;
    let pose = Pose::of(state.pose);
    let (vx, vy) = (f(state.vx), f(state.vy));
    let (sin, cos) = pose.yaw.sin_cos();
    let moved = Pose::new(
        pose.x + (vx * cos - vy * sin) * dt,
        pose.y + (vx * sin + vy * cos) * dt,
        wrap_angle(pose.yaw + sample.gz * dt),
    );
    state.end_sample(
        moved.bits(),
        s(vx + sample.ax * dt),
        s(vy + sample.ay * dt),
        s(sample.gz),
    );
}

// Steering.

#[test]
fn zero_state_outputs_zero() {
    assert_eq!(lqr_steering(&LqrParams::default(), LqrState::default()), 0.0);
}

#[test]
fn clamps_to_limit() {
    let out = lqr_steering(
        &LqrParams::default(),
        LqrState {
            lateral_error_m: 100.0,
            lateral_rate_m_s: 0.0,
            heading_error_rad: 0.0,
            yaw_rate_rad_s: 0.0,
        },
    );
    assert!(out <= LqrParams::default().max_steering_rad);
}

#[test]
fn higher_speed_reduce_crosstrack() {
    let params = StanleyParams::default();
    let out1 = stanley_steering(&params, 1.0, 0.3, 0.3);
    let out2 = stanley_steering(&params, 5.0, 0.3, 0.3);
    println!("{} out1, {} out2", out1, out2);
    assert!(out1 >= out2);
}

#[test]
fn track_to_the_left_positive_steering() {
    let out = stanley_steering(&StanleyParams::default(), 1.0, 1.0, 1.0);
    assert!(out >= 0.0);
}

#[test]
fn track_to_the_right_positive_steering() {
    let out = stanley_steering(&StanleyParams::default(), 1.0, -1.0, -1.0);
    assert!(out <= 0.0);
}

#[test]
fn limits_only_limit() {
    assert_eq!(f(limited(s(0.9), s(0.7))), 0.7);
    assert_eq!(f(limited(s(-0.9), s(0.7))), -0.7);
    assert_eq!(f(limited(s(0.3), s(0.7))), 0.3);
    assert_eq!(f(limited(s(0.3), s(-0.0))), 0.0);
    assert!(f(limited(s(f32::NAN), s(0.7))).is_nan());
}

// Speed.

#[test]
fn resets_integral_on_sign_change() {
    let mut pid = Pid::new(PidParams::default());
    let _ = pid_throttle(&mut pid, 1.0, 0.1);
    let _ = pid_throttle(&mut pid, 1.0, 0.1);
    let before = f(pid.integral);
    let _ = pid_throttle(&mut pid, -1.0, 0.1);
    assert!(f(pid.integral).abs() < before.abs());
}

#[test]
fn pid_holds_its_sum_and_its_throttle() {
    let mut pid = Pid::new(PidParams::default());
    assert_eq!(f(pid.params.kp), 1.5);
    assert_eq!(f(pid.params.ki), 0.05);
    assert_eq!(f(pid.params.kd), 0.2);
    assert_eq!(pid.integral_base(s(1.0), s(0.0)), None);
    assert_eq!(pid_throttle(&mut pid, 1.0, 0.0), 0.0);
    assert_eq!(f(pid.integrate(s(1.0), s(9.0))), 0.5);
    assert_eq!(pid.integral_base(s(2.0), s(0.1)), Some(s(0.5)));
    assert_eq!(pid.integral_base(s(-2.0), s(0.1)), Some(s(0.0)));
    assert_eq!(f(pid.throttle(s(-7.0))), -1.0);
    pid.reset();
    assert_eq!((f(pid.integral), f(pid.prev_error)), (0.0, 0.0));
}

fn open_corridor() -> CorridorEstimate {
    CorridorEstimate {
        lateral_error_m: s(0.0),
        lateral_rate_m_s: s(0.0),
        heading_error_rad: s(0.0),
        nearest_obstacle_m: s(f32::INFINITY),
        confidence: s(1.0),
    }
}

fn unrestricted_params() -> SpeedParams {
    SpeedParams {
        v_max: s(5.0),
        v_min: s(0.0),
        k_heading: s(0.0),
        k_lateral: s(0.0),
        obstacle_slowdown_m: s(3.0),
        a_lat_max_ms2: s(4.0),
        accel_limit_ms2: s(100.0),
        decel_limit_ms2: s(100.0),
    }
}

#[test]
fn curvature_caps_speed_from_lateral_accel() {
    let mut planner = SpeedPlanner::new(unrestricted_params());

    let target = target_speed(&mut planner, Some(&open_corridor()), 2.0, 1.0);

    assert!((target - 2.0_f32.sqrt()).abs() < 1.0e-4, "target={target}");
}

#[test]
fn infinite_obstacle_distance_does_not_slow() {
    let mut planner = SpeedPlanner::new(unrestricted_params());

    let target = target_speed(&mut planner, Some(&open_corridor()), 0.0, 1.0);

    assert!((target - 5.0).abs() < 1.0e-4, "target={target}");
}

#[test]
fn finite_obstacle_distance_can_stop_below_creep_speed() {
    let mut planner = SpeedPlanner::new(SpeedParams {
        v_min: s(0.5),
        ..unrestricted_params()
    });
    let c = CorridorEstimate {
        nearest_obstacle_m: s(0.0),
        ..open_corridor()
    };

    let target = target_speed(&mut planner, Some(&c), 0.0, 1.0);

    assert_eq!(target, 0.0);
}

#[test]
fn target_speed_is_accel_limited() {
    let mut planner = SpeedPlanner::new(SpeedParams {
        accel_limit_ms2: s(1.0),
        ..unrestricted_params()
    });

    let target = target_speed(&mut planner, Some(&open_corridor()), 0.0, 0.1);

    assert!((target - 0.1).abs() < 1.0e-6, "target={target}");
}

#[test]
fn speed_caps_apply_to_real_errors_only() {
    assert!(error_cap_applies(s(2.0), s(0.1)));
    assert!(!error_cap_applies(s(0.0), s(0.1)));
    assert!(!error_cap_applies(s(2.0), s(0.0)));
    assert!(!error_cap_applies(s(2.0), s(f32::INFINITY)));
    assert!(curvature_cap_applies(s(3.0), s(-0.5)));
    assert!(!curvature_cap_applies(s(3.0), s(1.0e-4)));
    assert!(!curvature_cap_applies(s(0.0), s(0.5)));
    assert!(obstacle_cap_applies(s(1.0)));
    assert!(!obstacle_cap_applies(s(f32::INFINITY)));
}

#[test]
fn target_respects_all_caps() {
    let params = SpeedParams::default();
    assert_eq!(f(params.v_max), 1.8);
    assert_eq!(f(params.v_min), 0.35);
    assert_eq!(f(params.obstacle_slowdown_m), 3.0);
    assert_eq!(f(params.accel_limit_ms2), 1.5);
    assert_eq!(f(params.decel_limit_ms2), 5.0);
    let caps = |heading: f32, obstacle: f32, confidence: f32| SpeedCaps {
        heading: s(heading),
        lateral: s(1.8),
        curvature: s(1.8),
        obstacle: s(obstacle),
        confidence: s(confidence),
    };
    assert_eq!(f(raw_target_speed(&params, &caps(0.1, 1.8, 1.8))), 0.35);
    assert_eq!(f(raw_target_speed(&params, &caps(0.0, 1.8, 1.8))), 0.0);
    assert_eq!(f(raw_target_speed(&params, &caps(1.0, 0.2, 1.8))), 0.2);
    assert_eq!(f(raw_target_speed(&params, &caps(1.0, 1.8, 0.5))), 0.5);
    let still = SpeedParams {
        v_max: s(-1.0),
        ..params
    };
    assert_eq!(f(raw_target_speed(&still, &caps(1.0, 1.8, 0.5))), 0.0);
}

#[test]
fn speeds_jump_without_time_and_move_with_it() {
    let mut planner = SpeedPlanner::new(SpeedParams::default());
    assert!(matches!(
        planner.begin_step(s(1.0), s(0.0)),
        SpeedStep::Jump { target } if f(target) == 1.0
    ));
    assert_eq!(f(planner.prev_target_speed_ms), 1.0);
    assert!(matches!(
        planner.begin_step(s(0.5), s(0.1)),
        SpeedStep::Move { from, target, rate_ms2 }
            if f(from) == 1.0 && f(target) == 0.5 && f(rate_ms2) == 5.0
    ));
    assert_eq!(f(planner.end_step(s(1.0), s(0.0), s(9.0))), 1.0);
    assert_eq!(f(planner.end_step(s(1.0), s(0.5), s(0.5))), 0.5);
    assert_eq!(target_speed(&mut planner, None, 0.0, 0.1), 0.0);
    assert_eq!(f(planner.prev_target_speed_ms), 0.0);
}

#[test]
fn statuses_go_by_confidence() {
    assert_eq!(corridor_status(None), ControllerStatus::Unavailable);
    assert_eq!(corridor_status(Some(s(0.3))), ControllerStatus::Degraded);
    assert_eq!(corridor_status(Some(s(0.31))), ControllerStatus::Nominal);
    assert_eq!(raceline_status(Some(s(0.5))), ControllerStatus::Degraded);
    assert_eq!(raceline_status(Some(s(0.51))), ControllerStatus::Nominal);
}

// The race line.

fn reference(lateral_error_m: f32, heading_error_rad: f32, curvature: f32) -> RaceReference {
    RaceReference {
        lateral_error_m,
        heading_error_rad,
        curvature,
        speed_ms: 2.0,
        accel_x_ms2: 0.0,
        confidence: 1.0,
    }
}

#[test]
fn missing_reference_is_unavailable() {
    let out = RaceLineController::default().compute(None, 0.0, 0.0);

    assert_eq!(out.status, ControllerStatus::Unavailable);
}

#[test]
fn positive_path_relative_lateral_error_steers_right() {
    let out = RaceLineController::default().compute(Some(&reference(0.5, 0.0, 0.0)), 2.0, 0.0);

    assert!(out.steering_rad < 0.0, "{out:?}");
}

#[test]
fn reference_curvature_feeds_through_when_centered() {
    let out = RaceLineController::default().compute(Some(&reference(0.0, 0.0, 0.5)), 2.0, 0.0);

    assert!(out.steering_rad > 0.0, "{out:?}");
}

#[test]
fn velocity_profile_acceleration_feeds_throttle() {
    let mut r = reference(0.0, 0.0, 0.0);
    r.speed_ms = 2.0;
    r.accel_x_ms2 = 4.0;
    let out = RaceLineController::default().compute(Some(&r), 2.0, 0.0);

    assert!(out.throttle > 0.0, "{out:?}");
}

fn wide_lateral() -> LateralParams {
    LateralParams {
        max_feedback_accel_ms2: 100.0,
        max_curvature_command_m_inv: 100.0,
        ..LateralParams::default()
    }
}

#[test]
fn centered_vehicle_preserves_reference_curvature() {
    let out = lateral(
        &LateralInput {
            speed_ms: 3.0,
            reference_curvature_m_inv: 0.4,
            ..Default::default()
        },
        &wide_lateral(),
    );

    assert!(
        (out.curvature_command_m_inv - 0.4).abs() < 1.0e-6,
        "{out:?}"
    );
    assert!((out.feedforward_accel_ms2 - 3.6).abs() < 1.0e-6, "{out:?}");
    assert_eq!(out.feedback_accel_ms2, 0.0);
}

#[test]
fn positive_lateral_error_commands_rightward_curvature_correction() {
    let out = lateral(
        &LateralInput {
            lateral_error_m: 0.5,
            speed_ms: 2.0,
            ..Default::default()
        },
        &wide_lateral(),
    );

    assert!(out.feedback_accel_ms2 < 0.0, "{out:?}");
    assert!(out.curvature_command_m_inv < 0.0, "{out:?}");
}

#[test]
fn heading_error_reconstructs_lateral_rate() {
    let out = lateral(
        &LateralInput {
            heading_error_rad: 0.1,
            speed_ms: 4.0,
            ..Default::default()
        },
        &wide_lateral(),
    );

    assert!(
        (out.lateral_rate_m_s - 4.0 * 0.1_f32.sin()).abs() < 1.0e-6,
        "{out:?}"
    );
    assert!(out.feedback_accel_ms2 < 0.0, "{out:?}");
}

#[test]
fn gain_scheduling_reduces_curvature_correction_at_higher_speed() {
    let at = |speed_ms: f32| {
        lateral(
            &LateralInput {
                lateral_error_m: 0.2,
                speed_ms,
                ..Default::default()
            },
            &wide_lateral(),
        )
    };
    let slow = at(1.0);
    let fast = at(4.0);

    assert!(
        fast.curvature_command_m_inv.abs() < slow.curvature_command_m_inv.abs(),
        "slow={slow:?} fast={fast:?}"
    );
    assert!((fast.feedback_accel_ms2 - slow.feedback_accel_ms2).abs() < 1.0e-6);
}

#[test]
fn feedback_and_curvature_limits_are_reported() {
    let out = lateral(
        &LateralInput {
            lateral_error_m: 10.0,
            speed_ms: 1.0,
            ..Default::default()
        },
        &LateralParams {
            max_feedback_accel_ms2: 1.0,
            max_curvature_command_m_inv: 0.5,
            ..LateralParams::default()
        },
    );

    assert_eq!(out.clamped_feedback_accel_ms2, -1.0);
    assert_eq!(out.feedback_accel_ms2, -1.0);
    assert_eq!(out.curvature_command_m_inv, -0.5);
    assert!(out.feedback_saturated);
    assert!(out.curvature_saturated);
}

#[test]
fn stopped_vehicle_suppresses_lateral_feedback_curvature() {
    let out = lateral(
        &LateralInput {
            lateral_error_m: 0.5,
            speed_ms: 0.0,
            ..Default::default()
        },
        &wide_lateral(),
    );

    assert!(out.raw_feedback_accel_ms2 < 0.0, "{out:?}");
    assert!(out.clamped_feedback_accel_ms2 < 0.0, "{out:?}");
    assert_eq!(out.low_speed_feedback_scale, 0.0);
    assert_eq!(out.feedback_accel_ms2, 0.0);
    assert_eq!(out.curvature_command_m_inv, 0.0);
}

fn second_order_step_error(d0: f32, omega: f32, damping: f32, t: f32) -> f32 {
    let omega_d = omega * (1.0 - damping * damping).sqrt();
    let envelope = (-damping * omega * t).exp();
    let phase = omega_d * t;
    d0 * envelope * (phase.cos() + damping / (1.0 - damping * damping).sqrt() * phase.sin())
}

#[test]
fn closed_loop_step_response_matches_second_order_shape() {
    let params = wide_lateral();
    let dt = 0.001_f32;
    let speed = 5.0_f32;
    let initial_d = 0.5_f32;
    let mut d = initial_d;
    let mut d_dot = 0.0;
    let mut samples = Vec::new();
    let sample_times = [0.5, 1.0, 2.0, 3.0, 4.0];
    let mut next_sample = 0;
    let steps = (4.0_f32 / dt) as usize;
    for step in 0..=steps {
        let t = step as f32 * dt;
        if next_sample < sample_times.len() && t >= sample_times[next_sample] {
            samples.push((t, d));
            next_sample += 1;
        }
        let heading_error = (d_dot / speed).clamp(-0.99, 0.99).asin();
        let out = lateral(
            &LateralInput {
                lateral_error_m: d,
                heading_error_rad: heading_error,
                speed_ms: speed,
                ..Default::default()
            },
            &params,
        );
        d_dot += out.feedback_accel_ms2 * dt;
        d += d_dot * dt;
    }

    for (t, actual) in samples {
        let expected = second_order_step_error(
            initial_d,
            params.natural_frequency_rad_s,
            params.damping_ratio,
            t,
        );
        assert!(
            (actual - expected).abs() < 0.01,
            "t={t} actual={actual} expected={expected}"
        );
    }
    assert!(d.abs() < 0.03, "d={d} d_dot={d_dot}");
}

#[test]
fn zero_error_and_zero_feedforward_coasts_at_zero_speed() {
    let out = longitudinal(0.0, 0.0, 0.0, &ForceParams::default());

    assert_eq!(out.throttle, 0.0);
    assert_eq!(out.target_force_n, 0.0);
}

#[test]
fn acceleration_feedforward_maps_to_positive_throttle() {
    let params = ForceParams {
        motor_gain_ms2: 20.0,
        motor_deadband: 0.0,
        drag_k: 0.0,
        k_speed_ms2_per_ms: 0.0,
        ..Default::default()
    };
    let out = longitudinal(2.0, 2.0, 4.0, &params);

    assert!((out.throttle - 0.2).abs() < 1.0e-6, "{out:?}");
    assert!((out.target_force_n - 1.52 * 4.0).abs() < 1.0e-6, "{out:?}");
}

#[test]
fn steady_speed_compensates_drag() {
    let params = ForceParams {
        motor_gain_ms2: 20.0,
        motor_deadband: 0.0,
        drag_k: 0.5,
        k_speed_ms2_per_ms: 0.0,
        ..Default::default()
    };
    let out = longitudinal(4.0, 4.0, 0.0, &params);

    assert!((out.drag_comp_accel_ms2 - 8.0).abs() < 1.0e-6, "{out:?}");
    assert!((out.throttle - 0.4).abs() < 1.0e-6, "{out:?}");
}

#[test]
fn overspeed_commands_braking() {
    let params = ForceParams {
        motor_gain_ms2: 20.0,
        brake_gain: 2.0,
        motor_deadband: 0.0,
        drag_k: 0.0,
        k_speed_ms2_per_ms: 4.0,
        ..Default::default()
    };
    let out = longitudinal(2.0, 3.0, 0.0, &params);

    assert!(out.target_accel_ms2 < 0.0, "{out:?}");
    assert!(out.throttle < 0.0, "{out:?}");
    assert!((out.throttle + 0.1).abs() < 1.0e-6, "{out:?}");
}

#[test]
fn acceleration_limit_reports_saturation() {
    let params = ForceParams {
        max_accel_ms2: 1.0,
        motor_deadband: 0.0,
        ..Default::default()
    };
    let out = longitudinal(10.0, 0.0, 20.0, &params);

    assert_eq!(out.target_accel_ms2, 1.0);
    assert!(out.accel_saturated);
}

#[test]
fn geometric_feedforward_matches_bicycle_curvature() {
    let params = SteeringParams {
        yaw_rate_p_gain_s: 0.0,
        wheelbase_m: 0.21,
        ..Default::default()
    };
    let out = steering(2.0, 3.0, 0.0, &params);

    assert!((out.feedforward_steering_rad - (0.21_f32 * 2.0).atan()).abs() < 1.0e-6);
    assert_eq!(out.steering_rad, out.feedforward_steering_rad);
    assert_eq!(out.target_yaw_rate_rad_s, 6.0);
}

#[test]
fn yaw_rate_p_feedback_reduces_tracking_error() {
    let params = SteeringParams {
        yaw_rate_p_gain_s: 0.1,
        ..Default::default()
    };
    let nominal = steering(1.0, 3.0, 3.0, &params);
    let understeer = steering(1.0, 3.0, 2.0, &params);

    assert!(understeer.steering_rad > nominal.steering_rad);
    assert!(understeer.feedback_steering_rad > 0.0);
}

#[test]
fn stopped_vehicle_keeps_feedforward_but_suppresses_yaw_feedback() {
    let params = SteeringParams {
        yaw_rate_p_gain_s: 0.5,
        ..Default::default()
    };
    let out = steering(1.0, 0.0, -10.0, &params);

    assert_eq!(out.feedback_scale, 0.0);
    assert_eq!(out.feedback_steering_rad, 0.0);
    assert!((out.steering_rad - out.feedforward_steering_rad).abs() < 1.0e-6);
}

#[test]
fn steering_limit_reports_saturation() {
    let params = SteeringParams {
        max_steering_rad: 0.2,
        ..Default::default()
    };
    let out = steering(100.0, 5.0, 0.0, &params);

    assert_eq!(out.steering_rad, 0.2);
    assert!(out.saturated);
}

// Estimation.

#[test]
fn straight_drive_predicts_forward() {
    let mut ekf = Filter::new(EkfParams::default());
    ekf.initialize(Pose::new(0.0, 0.0, 0.0));
    for _ in 0..100 {
        ekf.predict(1.0, 0.0, 0.0, 0.01);
    }
    assert!((ekf.speed() - 1.0).abs() < 0.05, "speed={}", ekf.speed());
    let p = ekf.pose();
    assert!((p.x - 0.5).abs() < 0.05, "x={}", p.x);
    assert!(p.y.abs() < 1e-3, "y drift={}", p.y);
}

#[test]
fn gyro_bias_is_observable_from_pose_yaw() {
    let mut ekf = Filter::new(EkfParams::default());
    ekf.initialize(Pose::new(0.0, 0.0, 0.0));
    for _ in 0..400 {
        ekf.predict(0.0, 0.0, 0.1, 0.01);
        let p = ekf.pose();
        ekf.correct_pose(Pose::new(p.x, p.y, 0.0), 1.0);
    }
    assert!(
        (f(ekf.state.gyro_bias()) - 0.1).abs() < 0.05,
        "gyro bias not recovered: {}",
        f(ekf.state.gyro_bias())
    );
}

#[test]
fn outlier_pose_is_gated_out() {
    let mut ekf = Filter::new(EkfParams::default());
    ekf.initialize(Pose::new(0.0, 0.0, 0.0));
    ekf.predict(0.0, 0.0, 0.0, 0.01);
    let accepted = ekf.correct_pose(Pose::new(10.0, 10.0, 3.0), 1.0);
    assert!(!accepted, "huge jump should be gated");
    assert!(ekf.pose().x.abs() < 0.5, "state moved despite gate");
    assert!(f(ekf.state.confidence()) < 0.6);
}

#[test]
fn covariance_stays_finite_and_symmetric() {
    let mut ekf = Filter::new(EkfParams::default());
    ekf.initialize(Pose::new(0.0, 0.0, 0.0));
    for k in 0..500 {
        ekf.predict(0.3, 0.05, 0.02, 0.01);
        if k % 5 == 0 {
            let p = ekf.pose();
            ekf.correct_pose(p, 0.8);
        }
        ekf.correct_zero_vy();
    }
    for i in 0..N {
        for j in 0..N {
            assert!(ekf.p[i][j].is_finite(), "P has non-finite entry");
            assert!((ekf.p[i][j] - ekf.p[j][i]).abs() < 1e-3, "P asymmetric");
        }
    }
    assert!(!ekf.estimate().diverged);
}

#[test]
fn zero_vy_pseudo_measurement_reduces_lateral_velocity() {
    let mut ekf = Filter::new(EkfParams::default());
    ekf.initialize(Pose::new(0.0, 0.0, 0.0));
    for _ in 0..50 {
        ekf.predict(0.0, 0.5, 0.0, 0.01);
    }
    let vy_before = f(ekf.state.x.vy).abs();
    for _ in 0..50 {
        ekf.correct_zero_vy();
    }
    let vy_after = f(ekf.state.x.vy).abs();
    assert!(
        vy_after < vy_before,
        "zero-vy should shrink vy: {vy_before}->{vy_after}"
    );
}

#[test]
fn filter_and_reckoning_agree_without_measurements() {
    let start = Pose::new(1.0, -2.0, 0.1);
    let mut ekf = Filter::new(EkfParams::default());
    ekf.reset(start, 1_000);
    let mut reckoned = DeadReckonEstimator::default();
    reckoned.reset(start.bits(), 1_000);
    for (k, ax) in [0.5, 0.5, 0.0].into_iter().enumerate() {
        let sample = ImuSample {
            ax,
            gz: 0.1,
            timestamp_us: 101_000 + 100_000 * k as u64,
            ..Default::default()
        };
        ekf.predict_imu(sample);
        reckon(&mut reckoned, sample);
    }
    let out = ekf.estimate();
    let pose = Pose::of(reckoned.pose);
    assert!((out.pose.x - pose.x).abs() <= 1e-6);
    assert!((out.pose.y - pose.y).abs() <= 1e-6);
    assert!((out.pose.yaw - pose.yaw).abs() <= 1e-6);
    assert!((out.speed_ms - f(reckoned.vx).hypot(f(reckoned.vy))).abs() <= 1e-6);
    assert!((out.yaw_rate_rad_s - f(reckoned.yaw_rate)).abs() <= 1e-6);
    assert_eq!(out.timestamp_us, 301_000);
    assert_eq!(reckoned.last_timestamp_us, 301_000);
}

#[test]
fn step_limit_agrees_with_seconds() {
    for us in 249_000..251_000u64 {
        let dt = us as f32 * 1e-6;
        assert_eq!((0.0..=0.25).contains(&dt), us <= MAX_STEP_US, "us={us}");
    }
}

#[test]
fn time_jumps_are_skipped() {
    let mut state = Ekf::new(EkfParams::default());
    assert!(!state.is_initialized());
    assert!(matches!(state.predict_imu(5), ImuStep::Start));
    assert!(state.is_initialized());
    assert_eq!(f(state.confidence()), 1.0);
    assert!(matches!(
        state.predict_imu(105),
        ImuStep::Predict { dt_us: 100 }
    ));
    assert!(matches!(state.predict_imu(105), ImuStep::Skip));
    assert!(matches!(state.predict_imu(90), ImuStep::Skip));
    assert!(matches!(
        state.predict_imu(250_090),
        ImuStep::Predict { dt_us: 250_000 }
    ));
    assert!(matches!(state.predict_imu(500_091), ImuStep::Skip));
    state.reset(Pose::default().bits(), 0);
    assert!(matches!(state.predict_imu(77), ImuStep::Skip));
}

#[test]
fn measurements_are_judged_by_spread_and_gate() {
    let mut state = Ekf::new(EkfParams::default());
    assert_eq!(f(state.params.q_accel), 0.8);
    assert_eq!(f(state.params.q_gyro), 0.1);
    assert_eq!(f(state.params.q_bias_accel), 0.01);
    assert_eq!(f(state.params.q_bias_gyro), 0.001);
    assert_eq!(f(state.params.r_pos), 0.08);
    assert_eq!(f(state.params.r_yaw), 0.04);
    assert_eq!(f(state.params.r_zero_vy), 0.3);
    assert_eq!(f(state.params.pose_gate), 16.0);
    let weighed = |state: &Ekf, determinant: f32, nis: f32| WeighedPose {
        determinant: s(determinant),
        nis: s(nis),
        limit_by_nis: s(16.0 / nis),
        margin: s(1.0 - nis / 16.0),
        corrected: FilterState {
            vx: s(nis),
            bias_gz: s(0.5),
            ..state.x
        },
    };
    state.reset(Pose::new(1.0, 2.0, 0.5).bits(), 5);
    let m = weighed(&state, 1.0, 4.0);
    assert!(matches!(state.correct_pose(&m), PoseUpdate::Accepted));
    assert_eq!((f(state.confidence()), f(state.last_nis())), (0.75, 4.0));
    assert_eq!(state.x, m.corrected);
    assert_eq!((state.pose(), f(state.gyro_bias())), (Pose::new(1.0, 2.0, 0.5).bits(), 0.5));
    assert_eq!(state.accel_bias(), (s(0.0), s(0.0)));
    let before = state.x;
    let m = weighed(&state, 1.0, 32.0);
    assert!(matches!(state.correct_pose(&m), PoseUpdate::Rejected));
    assert_eq!((f(state.confidence()), f(state.last_nis())), (0.25, 32.0));
    let m = weighed(&state, -1.0e-13, 1.0);
    assert!(matches!(state.correct_pose(&m), PoseUpdate::Singular));
    assert_eq!((f(state.confidence()), f(state.last_nis())), (0.0, 32.0));
    let m = weighed(&state, 1.0, f32::NAN);
    assert!(matches!(state.correct_pose(&m), PoseUpdate::Rejected));
    let m = weighed(&state, 1.0, f32::INFINITY);
    assert!(matches!(state.correct_pose(&m), PoseUpdate::Rejected));
    assert_eq!(f(state.confidence()), 0.0);
    assert_eq!(state.x, before);
    let m = weighed(&state, 1.0, 16.0);
    assert!(matches!(state.correct_pose(&m), PoseUpdate::Accepted));
    assert_eq!(f(state.confidence()), 0.0);
}

#[test]
fn halves_are_those_of_the_machine() {
    let mut bits: u32 = 1;
    while bits < 0x7F80_0000 {
        for near in [bits - 1, bits, bits + 1, bits + 2, bits + 3] {
            for signed in [near, near | 0x8000_0000] {
                let number = Single { bits: signed };
                assert_eq!(number.half(), s(f(number) * 0.5), "{signed:#x}");
            }
        }
        bits += 0x0001_2345;
    }
    assert_eq!(f(s(f32::INFINITY).half()), f32::INFINITY);
    assert!(f(s(f32::NAN).half()).is_nan());
}

#[test]
fn divergence_shows_in_state_or_spread() {
    let good = singles(&[0.0, 1.0]);
    let bad = singles(&[0.0, f32::NAN]);
    let diverged = |x: &Vec<Single>, p: &Vec<Single>, a: f32, b: f32, c: f32| {
        has_diverged(x, p, s(a), s(b), s(c))
    };
    assert!(!diverged(&good, &good, 25.0, 25.0, 4.0));
    assert!(diverged(&bad, &good, 1.0, 1.0, 1.0));
    assert!(diverged(&good, &bad, 1.0, 1.0, 1.0));
    assert!(diverged(&good, &good, 25.1, 1.0, 1.0));
    assert!(diverged(&good, &good, 1.0, 25.1, 1.0));
    assert!(diverged(&good, &good, 1.0, 1.0, 4.1));
}

#[test]
fn reckoning_takes_over_measured_poses() {
    let mut state = DeadReckonEstimator::default();
    let pose: Pose2 = Pose::new(1.0, 2.0, 3.0).bits();
    assert!(state.correct_pose(pose, s(1.5)));
    assert_eq!(state.pose, pose);
    assert_eq!(f(state.confidence), 1.0);
    assert_eq!(state.begin_sample(9), Some(0));
    assert_eq!(state.begin_sample(20), Some(11));
    assert_eq!(state.begin_sample(300_000), None);
    assert_eq!(state.begin_sample(300_001), Some(1));
}

#[test]
fn predicted_steps_add_up() {
    let mut state = Ekf::new(EkfParams::default());
    state.reset(Pose::default().bits(), 1_000);
    let mut total = 0;
    for now in [3_000, 3_000, 7_500, 257_500] {
        if let ImuStep::Predict { dt_us } = state.predict_imu(now) {
            total += dt_us;
        }
    }
    assert_eq!(total, 256_500);
}

#[test]
fn negligible_effects_need_no_throttle() {
    assert_eq!(f(deadband_inverse(s(1.0e-6), s(0.3))), 0.0);
    assert_eq!(f(deadband_inverse(s(-2.0e-6), s(-0.3))), -0.3);
    assert!(is_driven(s(-0.0)) && !is_driven(s(-0.1)) && !is_driven(s(f32::NAN)));
    assert!(!is_saturated(s(1.0e-6)) && is_saturated(s(-2.0e-6)));
}

#[test]
fn filters_need_time_and_spread() {
    assert!(takes_time(s(0.01)) && !takes_time(s(0.0)) && takes_time(s(f32::NAN)));
    let mut state = Ekf::new(EkfParams::default());
    let corrected = FilterState { vy: s(0.25), ..state.x };
    assert!(!state.correct_zero_vy(s(-1.0), corrected));
    assert_eq!(f(state.x.vy), 0.0);
    assert!(state.correct_zero_vy(s(0.01), corrected));
    assert_eq!(state.x, corrected);
    state.initialize(Pose::new(1.0, 0.0, 0.0).bits());
    assert_eq!(f(state.x.vy), 0.0);
}
