//! Velocity profiles: checks, the order of the passes and their end.

use vstd::prelude::*;

use crate::scalar::Single;

verus! {

/// Limits of the vehicle and of the profile.
#[derive(Clone, Copy, Debug)]
pub struct VelocityProfileParams {
    pub top_speed_ms: Single,
    pub lateral_accel_limit_ms2: Single,
    pub accel_limit_ms2: Single,
    pub brake_limit_ms2: Single,
    pub curvature_epsilon_m_inv: Single,
    pub closed_passes: usize,
}

/// 6.32.
pub const DEFAULT_TOP_SPEED_MS: u32 = 0x40CA_3D71;

/// 8.
pub const DEFAULT_LATERAL_ACCEL_MS2: u32 = 0x4100_0000;

/// 4.
pub const DEFAULT_ACCEL_MS2: u32 = 0x4080_0000;

/// 8.
pub const DEFAULT_BRAKE_MS2: u32 = 0x4100_0000;

/// 1e-4.
pub const DEFAULT_CURVATURE_EPSILON: u32 = 0x38D1_B717;

/// 1e-4, the change in speed up to which a profile has settled.
pub const CONVERGENCE_TOLERANCE_MS: u32 = 0x38D1_B717;

impl Default for VelocityProfileParams {
    fn default() -> (out: Self)
        ensures
            out == (VelocityProfileParams {
                top_speed_ms: Single { bits: DEFAULT_TOP_SPEED_MS },
                lateral_accel_limit_ms2: Single { bits: DEFAULT_LATERAL_ACCEL_MS2 },
                accel_limit_ms2: Single { bits: DEFAULT_ACCEL_MS2 },
                brake_limit_ms2: Single { bits: DEFAULT_BRAKE_MS2 },
                curvature_epsilon_m_inv: Single { bits: DEFAULT_CURVATURE_EPSILON },
                closed_passes: 8,
            }),
    {
        VelocityProfileParams {
            top_speed_ms: Single { bits: DEFAULT_TOP_SPEED_MS },
            lateral_accel_limit_ms2: Single { bits: DEFAULT_LATERAL_ACCEL_MS2 },
            accel_limit_ms2: Single { bits: DEFAULT_ACCEL_MS2 },
            brake_limit_ms2: Single { bits: DEFAULT_BRAKE_MS2 },
            curvature_epsilon_m_inv: Single { bits: DEFAULT_CURVATURE_EPSILON },
            closed_passes: 8,
        }
    }
}

/// How a profile came about.
#[derive(Clone, Copy, Debug)]
pub struct VelocityProfileDiagnostics {
    pub passes_run: usize,
    pub converged: bool,
    pub max_delta_ms: Single,
}

/// Speeds and accelerations along a path.
#[derive(Debug)]
pub struct VelocityProfile {
    pub speed_ms: Vec<Single>,
    pub accel_x_ms2: Vec<Single>,
    pub diagnostics: VelocityProfileDiagnostics,
}

/// Why there is no profile.
#[derive(Clone, Copy, Debug, PartialEq, Eq, Structural)]
pub enum VelocityProfileError {
    TooFewSamples,
    DimensionMismatch,
    NonFiniteInput,
    NonPositiveSegment { index: usize, length_m: Single },
    InvalidParameters,
}

/// The number is finite and not negative.
pub open spec fn nonnegative(x: Single) -> bool {
    x.finite() && !x.less(Single { bits: 0 })
}

impl VelocityProfileParams {
    /// The parameters make sense.
    pub open spec fn valid(self) -> bool {
        &&& nonnegative(self.top_speed_ms)
        &&& nonnegative(self.lateral_accel_limit_ms2)
        &&& nonnegative(self.accel_limit_ms2)
        &&& nonnegative(self.brake_limit_ms2)
        &&& self.curvature_epsilon_m_inv.finite()
        &&& (Single { bits: 0 }).less(self.curvature_epsilon_m_inv)
    }
}

fn is_nonnegative(x: Single) -> (out: bool)
    ensures
        out == nonnegative(x),
{
    x.is_finite() && !x.lt(Single::zero())
}

/// Checks the parameters.
pub fn validate_params(params: &VelocityProfileParams) -> (out: Result<(), VelocityProfileError>)
    ensures
        out == if params.valid() {
            Ok::<(), VelocityProfileError>(())
        } else {
            Err(VelocityProfileError::InvalidParameters)
        },
{
    if is_nonnegative(params.top_speed_ms) && is_nonnegative(params.lateral_accel_limit_ms2)
        && is_nonnegative(params.accel_limit_ms2) && is_nonnegative(params.brake_limit_ms2)
        && params.curvature_epsilon_m_inv.is_finite() && !params.curvature_epsilon_m_inv.le(
        Single::zero(),
    ) {
        Ok(())
    } else {
        Err(VelocityProfileError::InvalidParameters)
    }
}

/// The segments that a path of `n` samples has.
pub open spec fn segments_of(n: int, closed: bool) -> int {
    if closed {
        n
    } else {
        n - 1
    }
}

/// What is wrong with a sample and the segment after it, if anything.
pub open spec fn sample_fault(
    curvature: Seq<Single>,
    lengths: Seq<Single>,
    k: int,
) -> Option<VelocityProfileError> {
    if !curvature[k].finite() {
        Some(VelocityProfileError::NonFiniteInput)
    } else if k >= lengths.len() {
        None
    } else if !lengths[k].finite() {
        Some(VelocityProfileError::NonFiniteInput)
    } else if lengths[k].at_most(Single { bits: 0 }) {
        Some(
            VelocityProfileError::NonPositiveSegment { index: k as usize, length_m: lengths[k] },
        )
    } else {
        None
    }
}

/// The result reports the first faulty sample.
pub open spec fn reports_first_fault(
    curvature: Seq<Single>,
    lengths: Seq<Single>,
    out: Result<(), VelocityProfileError>,
) -> bool {
    match out {
        Ok(_) => forall|k: int|
            0 <= k < curvature.len() ==> (#[trigger] sample_fault(curvature, lengths, k)) is None,
        Err(e) => exists|k: int|
            0 <= k < curvature.len() && (#[trigger] sample_fault(curvature, lengths, k)) == Some(e)
                && forall|j: int|
                0 <= j < k ==> (#[trigger] sample_fault(curvature, lengths, j)) is None,
    }
}

/// Checks everything that a profile is computed from, in order.
pub fn check_inputs(
    curvature_m_inv: &Vec<Single>,
    segment_lengths_m: &Vec<Single>,
    closed: bool,
    params: &VelocityProfileParams,
) -> (out: Result<(), VelocityProfileError>)
    ensures
        !params.valid() ==> out == Err::<(), VelocityProfileError>(
            VelocityProfileError::InvalidParameters,
        ),
        params.valid() && curvature_m_inv@.len() < 2 ==> out == Err::<(), VelocityProfileError>(
            VelocityProfileError::TooFewSamples,
        ),
        params.valid() && curvature_m_inv@.len() >= 2 && segment_lengths_m@.len() != segments_of(
            curvature_m_inv@.len() as int,
            closed,
        ) ==> out == Err::<(), VelocityProfileError>(VelocityProfileError::DimensionMismatch),
        params.valid() && curvature_m_inv@.len() >= 2 && segment_lengths_m@.len() == segments_of(
            curvature_m_inv@.len() as int,
            closed,
        ) ==> reports_first_fault(curvature_m_inv@, segment_lengths_m@, out),
{
    match validate_params(params) {
        Ok(_) => {},
        Err(e) => {
            return Err(e);
        },
    }
    let n: usize = curvature_m_inv.len();
    if n < 2 {
        return Err(VelocityProfileError::TooFewSamples);
    }
    let expected: usize = if closed {
        n
    } else {
        n - 1
    };
    if segment_lengths_m.len() != expected {
        return Err(VelocityProfileError::DimensionMismatch);
    }
    let ghost c = curvature_m_inv@;
    let ghost l = segment_lengths_m@;
    let mut k: usize = 0;
    while k < curvature_m_inv.len()
        invariant
            k <= curvature_m_inv@.len(),
            c == curvature_m_inv@,
            l == segment_lengths_m@,
            forall|j: int| 0 <= j < k ==> (#[trigger] sample_fault(c, l, j)) is None,
            params.valid(),
            c.len() >= 2,
            l.len() == segments_of(c.len() as int, closed),
        decreases curvature_m_inv@.len() - k,
    {
        if !curvature_m_inv[k].is_finite() {
            assert(sample_fault(c, l, k as int) == Some(VelocityProfileError::NonFiniteInput));
            return Err(VelocityProfileError::NonFiniteInput);
        }
        if k < segment_lengths_m.len() {
            let length = segment_lengths_m[k];
            if !length.is_finite() {
                assert(sample_fault(c, l, k as int) == Some(VelocityProfileError::NonFiniteInput));
                return Err(VelocityProfileError::NonFiniteInput);
            }
            if length.le(Single::zero()) {
                let e = VelocityProfileError::NonPositiveSegment { index: k, length_m: length };
                assert(sample_fault(c, l, k as int) == Some(e));
                return Err(e);
            }
        }
        assert(sample_fault(c, l, k as int) is None);
        k = k + 1;
    }
    Ok(())
}

/// Whether a sample is driven at top speed: the path is straight there, or the
/// lateral limit is off.
pub fn is_straight(curvature_m_inv: Single, params: &VelocityProfileParams) -> (out: bool)
    ensures
        out == (curvature_m_inv.absolute().at_most(params.curvature_epsilon_m_inv)
            || params.lateral_accel_limit_ms2.at_most(Single { bits: 0 })),
{
    curvature_m_inv.abs().le(params.curvature_epsilon_m_inv)
        || params.lateral_accel_limit_ms2.le(Single::zero())
}

/// The sample at the far end of a segment.
pub open spec fn far_end(n: int, edge: int) -> int {
    if edge + 1 == n {
        0
    } else {
        edge + 1
    }
}

/// The speeds with the one at a sample capped.
pub open spec fn capped(speed: Seq<Single>, at: int, cap: Single) -> Seq<Single> {
    speed.update(
        at,
        if cap.less(speed[at]) {
            cap
        } else {
            speed[at]
        },
    )
}

/// Caps the speed at one sample.
pub fn apply_cap(speed: &mut Vec<Single>, at: usize, cap: Single)
    requires
        at < old(speed)@.len(),
    ensures
        final(speed)@ == capped(old(speed)@, at as int, cap),
{
    if speed[at].gt(cap) {
        speed.set(at, cap);
    } else {
        assert(speed@ =~= old(speed)@.update(at as int, old(speed)@[at as int]));
    }
}

/// The speeds after the first `n` caps of some passes, each at a sample.
pub open spec fn capped_upto(speed: Seq<Single>, caps: Seq<(usize, Single)>, n: int) -> Seq<Single>
    decreases n,
{
    if n <= 0 {
        speed
    } else {
        capped(capped_upto(speed, caps, n - 1), caps[n - 1].0 as int, caps[n - 1].1)
    }
}

proof fn lemma_caps_lower(speed: Seq<Single>, caps: Seq<(usize, Single)>, m: int, n: int, k: int)
    requires
        0 <= m <= n <= caps.len(),
        forall|j: int| 0 <= j < caps.len() ==> (#[trigger] caps[j]).0 < speed.len(),
        0 <= k < speed.len(),
    ensures
        capped_upto(speed, caps, m).len() == speed.len(),
        capped_upto(speed, caps, n).len() == speed.len(),
        capped_upto(speed, caps, n)[k] == capped_upto(speed, caps, m)[k] || capped_upto(
            speed,
            caps,
            n,
        )[k].less(capped_upto(speed, caps, m)[k]),
    decreases n,
{
    if m < n {
        lemma_caps_lower(speed, caps, m, n - 1, k);
        assert(caps[n - 1].0 < speed.len());
    } else if n > 0 {
        lemma_caps_lower(speed, caps, m - 1, n - 1, k);
    }
}

/// No pass raises a speed: whatever the caps are, a sample keeps its speed or
/// loses some.
pub proof fn law_passes_never_raise(speed: Seq<Single>, caps: Seq<(usize, Single)>, k: int)
    requires
        forall|j: int| 0 <= j < caps.len() ==> (#[trigger] caps[j]).0 < speed.len(),
        0 <= k < speed.len(),
    ensures
        capped_upto(speed, caps, caps.len() as int)[k] == speed[k] || capped_upto(
            speed,
            caps,
            caps.len() as int,
        )[k].less(speed[k]),
{
    lemma_caps_lower(speed, caps, 0, caps.len() as int, k);
}

/// A cap holds to the end of the passes: no later cap lifts the speed above it.
pub proof fn law_caps_hold_to_the_end(speed: Seq<Single>, caps: Seq<(usize, Single)>, j: int)
    requires
        forall|i: int| 0 <= i < caps.len() ==> (#[trigger] caps[i]).0 < speed.len(),
        0 <= j < caps.len(),
        !caps[j].1.nan(),
        !speed[caps[j].0 as int].nan(),
    ensures
        capped_upto(speed, caps, caps.len() as int)[caps[j].0 as int].at_most(caps[j].1),
{
    let k = caps[j].0 as int;
    lemma_caps_lower(speed, caps, 0, j, k);
    lemma_caps_lower(speed, caps, j + 1, caps.len() as int, k);
}

/// The most passes that are run.
pub open spec fn pass_limit(closed: bool, closed_passes: usize) -> int {
    if closed && closed_passes > 0 {
        closed_passes as int
    } else {
        1
    }
}

/// What follows a pass.
#[derive(Clone, Copy, Debug, PartialEq, Eq, Structural)]
pub enum PassStep {
    /// Another pass is run.
    Again,
    /// The profile is done.
    Done { passes_run: usize, converged: bool },
}

/// What follows pass number `pass` (counted from zero), given the largest
/// change in speed that it made.
pub fn after_pass(pass: usize, closed: bool, closed_passes: usize, max_delta_ms: Single) -> (out:
    PassStep)
    requires
        pass < pass_limit(closed, closed_passes),
    ensures
        out == if !closed || max_delta_ms.at_most(Single { bits: CONVERGENCE_TOLERANCE_MS }) {
            PassStep::Done { passes_run: (pass + 1) as usize, converged: true }
        } else if pass + 1 < pass_limit(closed, closed_passes) {
            PassStep::Again
        } else {
            PassStep::Done { passes_run: (pass + 1) as usize, converged: false }
        },
{
    if !closed || max_delta_ms.le(Single { bits: CONVERGENCE_TOLERANCE_MS }) {
        return PassStep::Done { passes_run: pass + 1, converged: true };
    }
    let limit: usize = if closed_passes > 0 {
        closed_passes
    } else {
        1
    };
    if pass + 1 < limit {
        PassStep::Again
    } else {
        PassStep::Done { passes_run: pass + 1, converged: false }
    }
}

/// The largest change so far: zero, or one of the first `n`.
pub open spec fn largest_upto(changes: Seq<Single>, n: int) -> Single
    decreases n,
{
    if n <= 0 {
        Single { bits: 0 }
    } else {
        largest_upto(changes, n - 1).greater(changes[n - 1].absolute())
    }
}

/// The largest change in size.
pub fn max_abs_delta(changes: &Vec<Single>) -> (out: Single)
    ensures
        out == largest_upto(changes@, changes@.len() as int),
{
    let mut largest = Single::zero();
    let mut k: usize = 0;
    while k < changes.len()
        invariant
            k <= changes@.len(),
            largest == largest_upto(changes@, k as int),
        decreases changes@.len() - k,
    {
        largest = largest.max(changes[k].abs());
        k = k + 1;
    }
    largest
}

/// Which way a pass runs.
#[derive(Clone, Copy, Debug, PartialEq, Eq, Structural)]
pub enum Leg {
    /// From first to last: the car cannot gain speed faster than it accelerates.
    Forward,
    /// From last to first: the car cannot lose speed faster than it brakes.
    Backward,
    /// The pass is over.
    Over,
}

/// A cap that is wanted: of the speed at one sample, along a segment, from the
/// speed at another.
#[derive(Clone, Copy, Debug, PartialEq, Eq, Structural)]
pub struct CapRequest {
    pub forward: bool,
    pub segment: usize,
    pub from: usize,
    pub capped: usize,
}

/// The passes over the speeds of a path.
#[derive(Debug)]
pub struct SpeedPasses {
    pub params: VelocityProfileParams,
    pub closed: bool,
    pub speed: Vec<Single>,
    pub pass: usize,
    pub leg: Leg,
    /// Segments of the leg that are done.
    pub done: usize,
}

/// The speed at a sample before the first pass, given the one that the bend
/// allows.
pub open spec fn first_speed(
    curvature_m_inv: Single,
    bend_speed_ms: Single,
    params: VelocityProfileParams,
) -> Single {
    let top = params.top_speed_ms.greater(Single { bits: 0 });
    if curvature_m_inv.absolute().at_most(params.curvature_epsilon_m_inv)
        || params.lateral_accel_limit_ms2.at_most(Single { bits: 0 }) {
        top
    } else {
        bend_speed_ms.lesser(top)
    }
}

impl SpeedPasses {
    /// The segments of the path.
    pub open spec fn segments(self) -> int {
        segments_of(self.speed@.len() as int, self.closed)
    }

    /// The path has a segment, and a leg that is not over has one left.
    pub open spec fn wf(self) -> bool {
        &&& self.speed@.len() >= 2
        &&& self.pass < pass_limit(self.closed, self.params.closed_passes)
        &&& self.leg != Leg::Over ==> self.done < self.segments()
    }

    /// The leg that follows, where a leg without a limit is left out.
    pub open spec fn leg_after(self, leg: Option<Leg>) -> Leg {
        let zero = Single { bits: 0 };
        if leg is None && !self.params.accel_limit_ms2.at_most(zero) {
            Leg::Forward
        } else if leg != Some(Leg::Backward) && !self.params.brake_limit_ms2.at_most(zero) {
            Leg::Backward
        } else {
            Leg::Over
        }
    }

    /// The cap that is wanted next; nothing when the pass is over.
    pub open spec fn request(self) -> Option<CapRequest> {
        let n = self.speed@.len() as int;
        match self.leg {
            Leg::Forward => Some(
                CapRequest {
                    forward: true,
                    segment: self.done,
                    from: self.done,
                    capped: far_end(n, self.done as int) as usize,
                },
            ),
            Leg::Backward => {
                let edge = self.segments() - 1 - self.done;
                Some(
                    CapRequest {
                        forward: false,
                        segment: edge as usize,
                        from: far_end(n, edge) as usize,
                        capped: edge as usize,
                    },
                )
            },
            Leg::Over => None,
        }
    }

    /// Taking in a cap leads to another state: the speed is capped, and the leg
    /// goes on to its next segment or gives way to the next leg.
    pub open spec fn caps_to(self, cap: Single, after: Self) -> bool {
        &&& after.speed@ == capped(self.speed@, self.request()->0.capped as int, cap)
        &&& after.params == self.params
        &&& after.closed == self.closed
        &&& after.pass == self.pass
        &&& self.done + 1 < self.segments() ==> after.leg == self.leg && after.done == self.done
            + 1
        &&& self.done + 1 >= self.segments() ==> after.leg == self.leg_after(Some(self.leg))
            && after.done == 0
    }

    /// Another pass begins at the speeds that the last one left. Only a closed
    /// path has another.
    pub open spec fn restarts_as(self, after: Self) -> bool {
        &&& self.closed
        &&& self.request() is None
        &&& after.params == self.params
        &&& after.closed == self.closed
        &&& after.speed@ == self.speed@
        &&& after.pass == self.pass + 1
        &&& after.leg == after.leg_after(None)
        &&& after.done == 0
    }

    /// The car's gain of speed is limited.
    pub open spec fn limits_gain(self) -> bool {
        !self.params.accel_limit_ms2.at_most(Single { bits: 0 })
    }

    /// The car's loss of speed is limited.
    pub open spec fn limits_loss(self) -> bool {
        !self.params.brake_limit_ms2.at_most(Single { bits: 0 })
    }

    /// The pass has not begun.
    pub open spec fn at_start(self) -> bool {
        self.leg == self.leg_after(None) && self.done == 0
    }

    /// The caps that are still wanted in the pass.
    pub open spec fn caps_left(self) -> int {
        match self.leg {
            Leg::Forward => self.segments() - self.done + if self.leg_after(Some(Leg::Forward))
                == Leg::Backward {
                self.segments()
            } else {
                0
            },
            Leg::Backward => self.segments() - self.done,
            Leg::Over => 0,
        }
    }

    fn next_leg(&self, first: bool) -> (out: Leg)
        requires
            self.leg != Leg::Over || first,
        ensures
            out == self.leg_after(
                if first {
                    None
                } else {
                    Some(self.leg)
                },
            ),
    {
        let zero = Single::zero();
        let backward_done = match self.leg {
            Leg::Backward => !first,
            _ => false,
        };
        if first && !self.params.accel_limit_ms2.le(zero) {
            Leg::Forward
        } else if !backward_done && !self.params.brake_limit_ms2.le(zero) {
            Leg::Backward
        } else {
            Leg::Over
        }
    }

    fn count(&self) -> (out: usize)
        requires
            self.speed@.len() >= 2,
        ensures
            out == self.segments(),
    {
        if self.closed {
            self.speed.len()
        } else {
            self.speed.len() - 1
        }
    }

    /// Starts the passes at the speeds that the bends allow.
    pub fn new(
        curvature_m_inv: &Vec<Single>,
        bend_speed_ms: &Vec<Single>,
        closed: bool,
        params: VelocityProfileParams,
    ) -> (out: Self)
        requires
            curvature_m_inv@.len() >= 2,
            bend_speed_ms@.len() == curvature_m_inv@.len(),
        ensures
            out.wf(),
            out.params == params,
            out.closed == closed,
            out.pass == 0,
            out.done == 0,
            out.leg == out.leg_after(None),
            out.speed@.len() == curvature_m_inv@.len(),
            forall|i: int|
                0 <= i < out.speed@.len() ==> #[trigger] out.speed@[i] == first_speed(
                    curvature_m_inv@[i],
                    bend_speed_ms@[i],
                    params,
                ),
            params.valid() ==> forall|i: int|
                0 <= i < out.speed@.len() && forward_speed(bend_speed_ms@[i])
                    ==> is_fastest_allowed(
                    #[trigger] out.speed@[i],
                    curvature_m_inv@[i],
                    bend_speed_ms@[i],
                    params,
                ),
    {
        let top = params.top_speed_ms.max(Single::zero());
        let mut speed: Vec<Single> = Vec::new();
        let mut k: usize = 0;
        while k < curvature_m_inv.len()
            invariant
                k <= curvature_m_inv@.len(),
                bend_speed_ms@.len() == curvature_m_inv@.len(),
                top == params.top_speed_ms.greater(Single { bits: 0 }),
                speed@.len() == k,
                forall|i: int|
                    0 <= i < k ==> #[trigger] speed@[i] == first_speed(
                        curvature_m_inv@[i],
                        bend_speed_ms@[i],
                        params,
                    ),
            decreases curvature_m_inv@.len() - k,
        {
            let allowed = if is_straight(curvature_m_inv[k], &params) {
                top
            } else {
                bend_speed_ms[k]
            };
            speed.push(allowed.min(top));
            k = k + 1;
        }
        let mut passes = SpeedPasses { params, closed, speed, pass: 0, leg: Leg::Over, done: 0 };
        passes.leg = passes.next_leg(true);
        proof {
            if params.valid() {
                assert forall|i: int|
                    0 <= i < passes.speed@.len() && forward_speed(
                        bend_speed_ms@[i],
                    ) implies is_fastest_allowed(
                    #[trigger] passes.speed@[i],
                    curvature_m_inv@[i],
                    bend_speed_ms@[i],
                    params,
                ) by {
                    law_start_speed_is_the_fastest_allowed(
                        curvature_m_inv@[i],
                        bend_speed_ms@[i],
                        params,
                    );
                }
            }
        }
        passes
    }

    /// The cap that is wanted next; nothing when the pass is over.
    pub fn wanted(&self) -> (out: Option<CapRequest>)
        requires
            self.wf(),
        ensures
            out == self.request(),
    {
        let n: usize = self.speed.len();
        match self.leg {
            Leg::Forward => {
                let far: usize = if self.done == n - 1 {
                    0
                } else {
                    self.done + 1
                };
                Some(
                    CapRequest {
                        forward: true,
                        segment: self.done,
                        from: self.done,
                        capped: far,
                    },
                )
            },
            Leg::Backward => {
                let edge: usize = self.count() - 1 - self.done;
                let far: usize = if edge == n - 1 {
                    0
                } else {
                    edge + 1
                };
                Some(CapRequest { forward: false, segment: edge, from: far, capped: edge })
            },
            Leg::Over => None,
        }
    }

    /// Takes in the cap that was wanted.
    pub fn apply(&mut self, cap: Single)
        requires
            old(self).wf(),
            old(self).request() is Some,
        ensures
            final(self).wf(),
            old(self).caps_to(cap, *final(self)),
            final(self).caps_left() == old(self).caps_left() - 1,
    {
        if let Some(request) = self.wanted() {
            let at: usize = request.capped;
            let total: usize = self.count();
            apply_cap(&mut self.speed, at, cap);
            if self.done + 1 < total {
                self.done = self.done + 1;
            } else {
                self.leg = self.next_leg(false);
                self.done = 0;
            }
        }
    }

    /// Ends a pass, given how much each speed changed in it: nothing if another
    /// pass is run, else what there is to say of the passes.
    pub fn end_pass(&mut self, changes: &Vec<Single>) -> (out: Option<VelocityProfileDiagnostics>)
        requires
            old(self).wf(),
            old(self).request() is None,
        ensures
            final(self).wf(),
            final(self).params == old(self).params,
            final(self).closed == old(self).closed,
            final(self).speed@ == old(self).speed@,
            ({
                let delta = largest_upto(changes@, changes@.len() as int);
                let settled = !old(self).closed || delta.at_most(
                    Single { bits: CONVERGENCE_TOLERANCE_MS },
                );
                let last = old(self).pass + 1 >= pass_limit(
                    old(self).closed,
                    old(self).params.closed_passes,
                );
                &&& out == if settled || last {
                    Some(
                        VelocityProfileDiagnostics {
                            passes_run: (old(self).pass + 1) as usize,
                            converged: settled,
                            max_delta_ms: delta,
                        },
                    )
                } else {
                    None
                }
                &&& out is Some ==> final(self).pass == old(self).pass && final(self).leg
                    == Leg::Over
                &&& out is None ==> old(self).restarts_as(*final(self))
            }),
    {
        let max_delta_ms = max_abs_delta(changes);
        match after_pass(self.pass, self.closed, self.params.closed_passes, max_delta_ms) {
            PassStep::Again => {
                self.pass = self.pass + 1;
                self.done = 0;
                self.leg = self.next_leg(true);
                None
            },
            PassStep::Done { passes_run, converged } => Some(
                VelocityProfileDiagnostics { passes_run, converged, max_delta_ms },
            ),
        }
    }
}

/// A speed that is a number and not negative.
pub open spec fn forward_speed(v: Single) -> bool {
    (Single { bits: 0 }).at_most(v)
}

/// The sample may be driven at a speed: it is no faster than the car, and, where
/// the curvature is beyond the limit on either side and sideways force is limited,
/// no faster than the bend allows.
pub open spec fn may_be_driven(
    v: Single,
    curvature_m_inv: Single,
    bend_speed_ms: Single,
    params: VelocityProfileParams,
) -> bool {
    let eps = params.curvature_epsilon_m_inv;
    let bends = !(curvature_m_inv.at_most(eps) && eps.negated().at_most(curvature_m_inv))
        && (Single { bits: 0 }).less(params.lateral_accel_limit_ms2);
    &&& forward_speed(v)
    &&& v.at_most(params.top_speed_ms)
    &&& bends ==> v.at_most(bend_speed_ms)
}

/// The sample may be driven at the speed, and at none that is faster.
pub open spec fn is_fastest_allowed(
    v: Single,
    curvature_m_inv: Single,
    bend_speed_ms: Single,
    params: VelocityProfileParams,
) -> bool {
    &&& may_be_driven(v, curvature_m_inv, bend_speed_ms, params)
    &&& forall|w: Single| #[trigger]
        may_be_driven(w, curvature_m_inv, bend_speed_ms, params) ==> w.at_most(v)
}

/// The passes start as fast as every sample allows: the top speed on a straight,
/// and in a bend the top speed or the speed of the bend, whichever is less.
pub proof fn law_start_speed_is_the_fastest_allowed(
    curvature_m_inv: Single,
    bend_speed_ms: Single,
    params: VelocityProfileParams,
)
    requires
        params.valid(),
        forward_speed(bend_speed_ms),
    ensures
        is_fastest_allowed(
            first_speed(curvature_m_inv, bend_speed_ms, params),
            curvature_m_inv,
            bend_speed_ms,
            params,
        ),
        first_speed(curvature_m_inv, bend_speed_ms, params) == params.top_speed_ms || first_speed(
            curvature_m_inv,
            bend_speed_ms,
            params,
        ) == bend_speed_ms,
{
    let v = first_speed(curvature_m_inv, bend_speed_ms, params);
    assert forall|w: Single| #[trigger]
        may_be_driven(w, curvature_m_inv, bend_speed_ms, params) implies w.at_most(v) by {}
}

/// Bends to the left and to the right are the same to the car.
pub proof fn law_both_sides_bend_alike(
    curvature_m_inv: Single,
    bend_speed_ms: Single,
    params: VelocityProfileParams,
)
    ensures
        first_speed(curvature_m_inv.negated(), bend_speed_ms, params) == first_speed(
            curvature_m_inv,
            bend_speed_ms,
            params,
        ),
{
}

/// A cap takes off what is above it and nothing else: the speed at its sample is
/// the lesser of the two, and no other speed changes.
pub proof fn law_caps_take_off_the_excess(speed: Seq<Single>, at: int, cap: Single, i: int)
    requires
        0 <= at < speed.len(),
        0 <= i < speed.len(),
        !cap.nan(),
        !speed[at].nan(),
    ensures
        capped(speed, at, cap).len() == speed.len(),
        i != at ==> capped(speed, at, cap)[i] == speed[i],
        capped(speed, at, cap)[at].at_most(cap),
        capped(speed, at, cap)[at].at_most(speed[at]),
        capped(speed, at, cap)[at] == cap || capped(speed, at, cap)[at] == speed[at],
{
}

/// The largest change is one of the changes, in size, and none is larger.
pub proof fn law_largest_change_is_largest(changes: Seq<Single>, n: int, k: int)
    requires
        0 <= k < n <= changes.len(),
        forall|i: int| 0 <= i < changes.len() ==> !(#[trigger] changes[i]).nan(),
    ensures
        changes[k].magnitude() <= largest_upto(changes, n).magnitude(),
        !largest_upto(changes, n).negative(),
        exists|i: int|
            0 <= i < n && (#[trigger] changes[i]).magnitude() == largest_upto(
                changes,
                n,
            ).magnitude(),
    decreases n,
{
    assert(!changes[n - 1].nan());
    if n == 1 {
        assert(largest_upto(changes, 0) == (Single { bits: 0 }));
        assert(changes[0].magnitude() == largest_upto(changes, 1).magnitude());
    } else {
        let j = if k < n - 1 {
            k
        } else {
            0
        };
        law_largest_change_is_largest(changes, n - 1, j);
        let i = choose|i: int|
            0 <= i < n - 1 && (#[trigger] changes[i]).magnitude() == largest_upto(
                changes,
                n - 1,
            ).magnitude();
        assert(!changes[i].nan());
        assert(changes[i].magnitude() == largest_upto(changes, n).magnitude()
            || changes[n - 1].magnitude() == largest_upto(changes, n).magnitude());
    }
}

/// A pass goes over the path in both directions: forwards it caps the far end of
/// each segment by the near one, backwards the near end by the far one. The far
/// end of the last segment of a closed path is its first sample.
pub proof fn law_caps_follow_the_path(p: SpeedPasses)
    requires
        p.wf(),
    ensures
        p.request() is None <==> p.leg == Leg::Over,
        p.request() matches Some(r) ==> {
            let n = p.speed@.len() as int;
            let far = (r.segment + 1) % n;
            &&& r.forward == (p.leg == Leg::Forward)
            &&& r.segment < if p.closed {
                n
            } else {
                n - 1
            }
            &&& r.segment == if r.forward {
                p.done as int
            } else if p.closed {
                n - 1 - p.done
            } else {
                n - 2 - p.done
            }
            &&& r.forward ==> r.from == r.segment && r.capped == far
            &&& !r.forward ==> r.from == far && r.capped == r.segment
        },
{
    assert(p.speed.len() == p.speed@.len());
    if p.request() is Some {
        let r = p.request()->0;
        let n = p.speed@.len() as int;
        if r.segment + 1 == n {
            assert((r.segment + 1) % n == 0) by (nonlinear_arith)
                requires
                    r.segment + 1 == n,
                    n > 0,
            ;
        } else {
            vstd::arithmetic::div_mod::lemma_small_mod((r.segment + 1) as nat, n as nat);
        }
    }
}

/// Both directions are gone over in a pass, each where it has a limit: first the
/// one in which the car speeds up, then the one in which it slows down.
pub proof fn law_both_limits_are_gone_over(p: SpeedPasses)
    ensures
        (Single { bits: 0 }).less(p.params.accel_limit_ms2) ==> p.leg_after(None)
            == Leg::Forward,
        p.params.accel_limit_ms2.at_most(Single { bits: 0 }) && (Single { bits: 0 }).less(
            p.params.brake_limit_ms2,
        ) ==> p.leg_after(None) == Leg::Backward,
        (Single { bits: 0 }).less(p.params.brake_limit_ms2) ==> p.leg_after(Some(Leg::Forward))
            == Leg::Backward,
        p.params.brake_limit_ms2.at_most(Single { bits: 0 }) ==> p.leg_after(Some(Leg::Forward))
            == Leg::Over,
        p.leg_after(Some(Leg::Backward)) == Leg::Over,
        p.params.accel_limit_ms2.at_most(Single { bits: 0 }) && p.params.brake_limit_ms2.at_most(
            Single { bits: 0 },
        ) ==> p.leg_after(None) == Leg::Over,
{
}

/// An open path is gone over once; a closed one as often as is set, and at least
/// once.
pub proof fn law_closed_paths_are_gone_over_again(closed: bool, closed_passes: usize)
    ensures
        pass_limit(closed, closed_passes) >= 1,
        !closed ==> pass_limit(closed, closed_passes) == 1,
        closed && closed_passes >= 1 ==> pass_limit(closed, closed_passes) == closed_passes,
        pass_limit(true, 0) == 1,
{
}

/// What a motion allows: for a direction, a segment and the speed at one end of
/// it, a cap on the speed at the other end. It is not below the speed that it is
/// taken from, and rises with it.
pub open spec fn is_motion(caps: spec_fn(bool, int, Single) -> Single) -> bool {
    &&& forall|forward: bool, e: int, v: Single|
        forward_speed(v) ==> v.at_most(#[trigger] caps(forward, e, v))
    &&& forall|forward: bool, e: int, v: Single, w: Single|
        forward_speed(v) && v.at_most(w) ==> (#[trigger] caps(forward, e, v)).at_most(
            #[trigger] caps(forward, e, w),
        )
}

/// One state of the passes leads to another under a motion.
pub open spec fn moves(
    before: SpeedPasses,
    after: SpeedPasses,
    caps: spec_fn(bool, int, Single) -> Single,
) -> bool {
    match before.request() {
        Some(r) => before.caps_to(
            caps(r.forward, r.segment as int, before.speed@[r.from as int]),
            after,
        ),
        None => before.restarts_as(after),
    }
}

/// State number `k` leads to the next.
pub open spec fn moves_at(
    trace: Seq<SpeedPasses>,
    caps: spec_fn(bool, int, Single) -> Single,
    k: int,
) -> bool {
    moves(trace[k], trace[k + 1], caps)
}

/// The states that the passes go through under a motion, from their start on.
pub open spec fn is_run(
    trace: Seq<SpeedPasses>,
    caps: spec_fn(bool, int, Single) -> Single,
) -> bool {
    &&& trace.len() > 0
    &&& trace[0].at_start()
    &&& forall|k: int| 0 <= k < trace.len() ==> (#[trigger] trace[k]).wf()
    &&& forall|k: int| 0 <= k < trace.len() - 1 ==> #[trigger] moves_at(trace, caps, k)
    &&& forall|i: int|
        0 <= i < trace[0].speed@.len() ==> forward_speed(#[trigger] trace[0].speed@[i])
}

/// The speed at the far end of a segment is one that the car can gain on it.
pub open spec fn gains_at(
    speed: Seq<Single>,
    caps: spec_fn(bool, int, Single) -> Single,
    e: int,
) -> bool {
    speed[far_end(speed.len() as int, e)].at_most(caps(true, e, speed[e]))
}

/// The speed at the near end of a segment is one that the car can lose on it.
pub open spec fn loses_at(
    speed: Seq<Single>,
    caps: spec_fn(bool, int, Single) -> Single,
    e: int,
) -> bool {
    speed[e].at_most(caps(false, e, speed[far_end(speed.len() as int, e)]))
}

/// What is settled in the middle of a pass over an open path: the gains on the
/// segments that the first leg has done, and the losses on those of the second.
spec fn settled_so_far(p: SpeedPasses, caps: spec_fn(bool, int, Single) -> Single) -> bool {
    let gained = if p.leg == Leg::Forward {
        p.done as int
    } else {
        p.segments()
    };
    let to_lose = match p.leg {
        Leg::Forward => p.segments(),
        Leg::Backward => p.segments() - p.done,
        Leg::Over => 0,
    };
    &&& p.leg == Leg::Forward ==> p.limits_gain()
    &&& p.leg == Leg::Backward ==> p.limits_loss()
    &&& p.limits_gain() ==> forall|e: int|
        0 <= e < gained ==> #[trigger] gains_at(p.speed@, caps, e)
    &&& p.limits_loss() ==> forall|e: int|
        to_lose <= e < p.segments() ==> #[trigger] loses_at(p.speed@, caps, e)
}

proof fn lemma_speeds_stay_forward(
    trace: Seq<SpeedPasses>,
    caps: spec_fn(bool, int, Single) -> Single,
    k: int,
)
    requires
        is_run(trace, caps),
        is_motion(caps),
        0 <= k < trace.len(),
    ensures
        trace[k].speed@.len() == trace[0].speed@.len(),
        trace[k].params == trace[0].params,
        trace[k].closed == trace[0].closed,
        forall|i: int|
            0 <= i < trace[0].speed@.len() ==> forward_speed(#[trigger] trace[k].speed@[i])
                && trace[k].speed@[i].at_most(trace[0].speed@[i]),
    decreases k,
{
    if k > 0 {
        lemma_speeds_stay_forward(trace, caps, k - 1);
        let p = trace[k - 1];
        assert(p.wf());
        assert(moves_at(trace, caps, k - 1));
    } else {
        assert forall|i: int| 0 <= i < trace[0].speed@.len() implies trace[0].speed@[i].at_most(
            #[trigger] trace[0].speed@[i],
        ) by {
            assert(forward_speed(trace[0].speed@[i]));
        }
    }
}

proof fn lemma_cap_settles(
    p: SpeedPasses,
    q: SpeedPasses,
    caps: spec_fn(bool, int, Single) -> Single,
)
    requires
        is_motion(caps),
        p.wf(),
        !p.closed,
        p.request() is Some,
        moves(p, q, caps),
        settled_so_far(p, caps),
        forall|i: int| 0 <= i < p.speed@.len() ==> forward_speed(#[trigger] p.speed@[i]),
    ensures
        settled_so_far(q, caps),
{
    assert(p.speed.len() == p.speed@.len());
    let n = p.speed@.len() as int;
    let r = p.request()->0;
    let v = p.speed@;
    let w = q.speed@;
    let cap = caps(r.forward, r.segment as int, v[r.from as int]);
    let at = r.capped as int;
    assert(forward_speed(v[r.from as int]));
    assert(forward_speed(v[at]));
    assert(w[at].at_most(cap) && w[at].at_most(v[at]));
    assert(forall|i: int| 0 <= i < n && i != at ==> w[i] == v[i]);
    if p.leg == Leg::Forward {
        let done = p.done as int;
        assert(gains_at(w, caps, done));
        assert forall|e: int| 0 <= e <= done implies #[trigger] gains_at(w, caps, e) by {
            if e < done {
                assert(gains_at(v, caps, e));
            }
        }
    } else {
        let edge = at;
        assert(r.from == edge + 1);
        assert(loses_at(w, caps, edge));
        assert forall|e: int| edge <= e < p.segments() implies #[trigger] loses_at(
            w,
            caps,
            e,
        ) by {
            if e > edge {
                assert(loses_at(v, caps, e));
            }
        }
        if p.limits_gain() {
            assert forall|e: int| 0 <= e < p.segments() implies #[trigger] gains_at(
                w,
                caps,
                e,
            ) by {
                assert(gains_at(v, caps, e));
                if e == edge {
                    assert(forward_speed(v[edge + 1]));
                    assert(v[edge + 1].at_most(cap));
                    if w[edge] != v[edge] {
                        assert(w[edge] == cap);
                        assert(cap.at_most(caps(true, edge, cap)));
                    }
                }
            }
        }
    }
}

proof fn lemma_pass_settles(
    trace: Seq<SpeedPasses>,
    caps: spec_fn(bool, int, Single) -> Single,
    k: int,
)
    requires
        is_run(trace, caps),
        is_motion(caps),
        !trace[0].closed,
        0 <= k < trace.len(),
    ensures
        settled_so_far(trace[k], caps),
    decreases k,
{
    if k > 0 {
        lemma_pass_settles(trace, caps, k - 1);
        lemma_speeds_stay_forward(trace, caps, k - 1);
        assert(trace[k - 1].wf());
        assert(moves_at(trace, caps, k - 1));
        lemma_cap_settles(trace[k - 1], trace[k], caps);
    }
}

/// The speeds that the passes end with can be driven: on an open path every
/// sample is no faster than its bend allows, than the car can accelerate to from
/// the sample before, and than it can brake from to the sample after. That holds
/// of the final speeds at both ends, although each was capped before the other
/// was final.
pub proof fn law_final_speeds_can_be_driven(
    trace: Seq<SpeedPasses>,
    caps: spec_fn(bool, int, Single) -> Single,
    e: int,
)
    requires
        is_run(trace, caps),
        is_motion(caps),
        !trace[0].closed,
        trace.last().request() is None,
        0 <= e < trace[0].speed@.len() - 1,
    ensures
        trace.last().speed@.len() == trace[0].speed@.len(),
        trace.last().speed@[e].at_most(trace[0].speed@[e]),
        trace.last().speed@[e + 1].at_most(trace[0].speed@[e + 1]),
        (Single { bits: 0 }).less(trace[0].params.accel_limit_ms2)
            ==> trace.last().speed@[e + 1].at_most(caps(true, e, trace.last().speed@[e])),
        (Single { bits: 0 }).less(trace[0].params.brake_limit_ms2) ==> trace.last().speed@[e].at_most(
            caps(false, e, trace.last().speed@[e + 1]),
        ),
{
    let k = trace.len() - 1;
    lemma_speeds_stay_forward(trace, caps, k);
    lemma_pass_settles(trace, caps, k);
    assert(trace[k].wf());
    if trace[0].limits_gain() {
        assert(gains_at(trace[k].speed@, caps, e));
    }
    if trace[0].limits_loss() {
        assert(loses_at(trace[k].speed@, caps, e));
    }
}

/// The speeds are those of a profile that the car can drive.
pub open spec fn can_be_driven(
    speed: Seq<Single>,
    start: SpeedPasses,
    caps: spec_fn(bool, int, Single) -> Single,
) -> bool {
    &&& speed.len() == start.speed@.len()
    &&& forall|i: int|
        0 <= i < speed.len() ==> forward_speed(#[trigger] speed[i]) && speed[i].at_most(
            start.speed@[i],
        )
    &&& start.limits_gain() ==> forall|e: int|
        0 <= e < start.segments() ==> #[trigger] gains_at(speed, caps, e)
    &&& start.limits_loss() ==> forall|e: int|
        0 <= e < start.segments() ==> #[trigger] loses_at(speed, caps, e)
}

proof fn lemma_stays_above(
    trace: Seq<SpeedPasses>,
    caps: spec_fn(bool, int, Single) -> Single,
    speed: Seq<Single>,
    k: int,
)
    requires
        is_run(trace, caps),
        is_motion(caps),
        can_be_driven(speed, trace[0], caps),
        0 <= k < trace.len(),
    ensures
        trace[k].leg == Leg::Forward ==> trace[k].limits_gain(),
        trace[k].leg == Leg::Backward ==> trace[k].limits_loss(),
        forall|i: int|
            0 <= i < speed.len() ==> (#[trigger] speed[i]).at_most(trace[k].speed@[i]),
    decreases k,
{
    if k > 0 {
        lemma_stays_above(trace, caps, speed, k - 1);
        lemma_speeds_stay_forward(trace, caps, k - 1);
        lemma_speeds_stay_forward(trace, caps, k);
        let p = trace[k - 1];
        assert(p.speed.len() == p.speed@.len());
        assert(p.wf());
        assert(moves_at(trace, caps, k - 1));
        if p.request() is Some {
            let r = p.request()->0;
            let e = r.segment as int;
            let cap = caps(r.forward, e, p.speed@[r.from as int]);
            assert(speed[r.from as int].at_most(p.speed@[r.from as int]));
            assert(speed[r.capped as int].at_most(p.speed@[r.capped as int]));
            if r.forward {
                assert(gains_at(speed, caps, e));
            } else {
                assert(loses_at(speed, caps, e));
            }
            assert(caps(r.forward, e, speed[r.from as int]).at_most(cap));
            assert(speed[r.capped as int].at_most(cap));
        }
    }
}

/// No profile that the car can drive is faster anywhere: at every moment of the
/// passes, however many there are, the speeds are at least those of any such
/// profile.
pub proof fn law_no_profile_is_faster(
    trace: Seq<SpeedPasses>,
    caps: spec_fn(bool, int, Single) -> Single,
    speed: Seq<Single>,
    k: int,
    i: int,
)
    requires
        is_run(trace, caps),
        is_motion(caps),
        can_be_driven(speed, trace[0], caps),
        0 <= k < trace.len(),
        0 <= i < speed.len(),
    ensures
        speed[i].at_most(trace[k].speed@[i]),
{
    lemma_stays_above(trace, caps, speed, k);
    assert(speed[i].at_most(trace[k].speed@[i]));
}

/// The passes start within the limits of the bends: no sample is faster than the
/// top speed, or, in a bend, than the bend allows, and none goes backwards.
pub proof fn law_bends_are_respected(
    curvature_m_inv: Single,
    bend_speed_ms: Single,
    params: VelocityProfileParams,
)
    requires
        params.valid(),
        forward_speed(bend_speed_ms),
    ensures
        forward_speed(first_speed(curvature_m_inv, bend_speed_ms, params)),
        first_speed(curvature_m_inv, bend_speed_ms, params).at_most(params.top_speed_ms),
        !curvature_m_inv.absolute().at_most(params.curvature_epsilon_m_inv)
            && !params.lateral_accel_limit_ms2.at_most(Single { bits: 0 }) ==> first_speed(
            curvature_m_inv,
            bend_speed_ms,
            params,
        ).at_most(bend_speed_ms),
{
}

proof fn lemma_never_faster(
    trace: Seq<SpeedPasses>,
    caps: spec_fn(bool, int, Single) -> Single,
    j: int,
    k: int,
    i: int,
)
    requires
        is_run(trace, caps),
        is_motion(caps),
        0 <= j <= k < trace.len(),
        0 <= i < trace[0].speed@.len(),
    ensures
        trace[k].speed@[i] == trace[j].speed@[i] || trace[k].speed@[i].less(trace[j].speed@[i]),
    decreases k - j,
{
    if j < k {
        lemma_never_faster(trace, caps, j, k - 1, i);
        lemma_speeds_stay_forward(trace, caps, j);
        lemma_speeds_stay_forward(trace, caps, k - 1);
        lemma_speeds_stay_forward(trace, caps, k);
        assert(trace[k - 1].wf());
        assert(moves_at(trace, caps, k - 1));
        assert(forward_speed(trace[k].speed@[i]));
        assert(forward_speed(trace[k - 1].speed@[i]));
    }
}

proof fn lemma_idle_cap_settles(
    p: SpeedPasses,
    q: SpeedPasses,
    caps: spec_fn(bool, int, Single) -> Single,
)
    requires
        is_motion(caps),
        p.wf(),
        p.request() is Some,
        moves(p, q, caps),
        q.speed@ == p.speed@,
        settled_so_far(p, caps),
        forall|i: int| 0 <= i < p.speed@.len() ==> forward_speed(#[trigger] p.speed@[i]),
    ensures
        settled_so_far(q, caps),
{
    assert(p.speed.len() == p.speed@.len());
    let r = p.request()->0;
    let v = p.speed@;
    let cap = caps(r.forward, r.segment as int, v[r.from as int]);
    let at = r.capped as int;
    assert(forward_speed(v[r.from as int]));
    assert(forward_speed(v[at]));
    assert(capped(v, at, cap)[at] == v[at]);
    assert(v[at].at_most(cap));
    if p.leg == Leg::Forward {
        assert(gains_at(v, caps, p.done as int));
    } else {
        assert(loses_at(v, caps, at));
    }
}

proof fn lemma_idle_pass_settles(
    trace: Seq<SpeedPasses>,
    caps: spec_fn(bool, int, Single) -> Single,
    k: int,
)
    requires
        is_run(trace, caps),
        is_motion(caps),
        forall|m: int| 0 <= m < trace.len() - 1 ==> (#[trigger] trace[m]).request() is Some,
        trace.last().speed@ == trace[0].speed@,
        0 <= k < trace.len(),
    ensures
        trace[k].speed@ == trace[0].speed@,
        settled_so_far(trace[k], caps),
    decreases k,
{
    let last = trace.len() - 1;
    lemma_speeds_stay_forward(trace, caps, k);
    assert forall|i: int| 0 <= i < trace[0].speed@.len() implies trace[k].speed@[i]
        == trace[0].speed@[i] by {
        lemma_never_faster(trace, caps, 0, k, i);
        lemma_never_faster(trace, caps, k, last, i);
        assert(forward_speed(trace[0].speed@[i]));
    }
    assert(trace[k].speed@ =~= trace[0].speed@);
    if k > 0 {
        lemma_idle_pass_settles(trace, caps, k - 1);
        lemma_speeds_stay_forward(trace, caps, k - 1);
        assert(trace[k - 1].wf());
        assert(moves_at(trace, caps, k - 1));
        lemma_idle_cap_settles(trace[k - 1], trace[k], caps);
    }
}

/// A pass that changes no speed shows that the speeds can be driven, on a closed
/// path too: every segment then meets both limits, the one over the seam too.
pub proof fn law_idle_pass_can_be_driven(
    trace: Seq<SpeedPasses>,
    caps: spec_fn(bool, int, Single) -> Single,
)
    requires
        is_run(trace, caps),
        is_motion(caps),
        forall|m: int| 0 <= m < trace.len() - 1 ==> (#[trigger] trace[m]).request() is Some,
        trace.last().request() is None,
        trace.last().speed@ == trace[0].speed@,
    ensures
        can_be_driven(trace[0].speed@, trace[0], caps),
{
    let last = trace.len() - 1;
    lemma_idle_pass_settles(trace, caps, last);
    lemma_speeds_stay_forward(trace, caps, last);
    assert(trace[last].wf());
    lemma_speeds_stay_forward(trace, caps, 0);
}

/// The speeds that a pass leaves as they are can be driven round a closed path:
/// on every segment, the one from the last sample to the first too, the car can
/// speed up from the near end to the far one and slow down from the near end to
/// the far one.
pub proof fn law_the_loop_can_be_driven(
    trace: Seq<SpeedPasses>,
    caps: spec_fn(bool, int, Single) -> Single,
    e: int,
)
    requires
        is_run(trace, caps),
        is_motion(caps),
        trace[0].closed,
        forall|m: int| 0 <= m < trace.len() - 1 ==> (#[trigger] trace[m]).request() is Some,
        trace.last().request() is None,
        trace.last().speed@ == trace[0].speed@,
        0 <= e < trace[0].speed@.len(),
    ensures
        ({
            let v = trace.last().speed@;
            let far = (e + 1) % (v.len() as int);
            &&& (Single { bits: 0 }).less(trace[0].params.accel_limit_ms2) ==> v[far].at_most(
                caps(true, e, v[e]),
            )
            &&& (Single { bits: 0 }).less(trace[0].params.brake_limit_ms2) ==> v[e].at_most(
                caps(false, e, v[far]),
            )
        }),
{
    law_idle_pass_can_be_driven(trace, caps);
    let v = trace[0].speed@;
    let n = v.len() as int;
    assert(trace[0].wf());
    if e + 1 == n {
        assert((e + 1) % n == 0) by (nonlinear_arith)
            requires
                e + 1 == n,
                n > 0,
        ;
    } else {
        vstd::arithmetic::div_mod::lemma_small_mod((e + 1) as nat, n as nat);
    }
    if trace[0].limits_gain() {
        assert(gains_at(v, caps, e));
    }
    if trace[0].limits_loss() {
        assert(loses_at(v, caps, e));
    }
}

/// Samples and segments pass exactly when all are numbers and every segment has
/// a length. A segment that is told to have none is one.
pub proof fn law_sound_samples_pass(curvature: Seq<Single>, lengths: Seq<Single>, out: Result<
    (),
    VelocityProfileError,
>)
    requires
        reports_first_fault(curvature, lengths, out),
        lengths.len() <= curvature.len() <= usize::MAX,
    ensures
        out is Ok <==> {
            &&& forall|k: int| 0 <= k < curvature.len() ==> (#[trigger] curvature[k]).finite()
            &&& forall|k: int|
                0 <= k < lengths.len() ==> (#[trigger] lengths[k]).finite() && (Single {
                    bits: 0,
                }).less(lengths[k])
        },
        out matches Err(VelocityProfileError::NonPositiveSegment { index, length_m }) ==> index
            < lengths.len() && lengths[index as int] == length_m && length_m.finite()
            && length_m.at_most(Single { bits: 0 }),
{
    if out is Ok {
        assert forall|k: int| 0 <= k < curvature.len() implies (
        #[trigger] curvature[k]).finite() by {
            assert(sample_fault(curvature, lengths, k) is None);
        }
        assert forall|k: int| 0 <= k < lengths.len() implies (#[trigger] lengths[k]).finite() && (
        Single { bits: 0 }).less(lengths[k]) by {
            assert(sample_fault(curvature, lengths, k) is None);
        }
    } else {
        let e = out->Err_0;
        let k = choose|k: int|
            0 <= k < curvature.len() && (#[trigger] sample_fault(curvature, lengths, k)) == Some(e)
                && forall|j: int|
                0 <= j < k ==> (#[trigger] sample_fault(curvature, lengths, j)) is None;
        assert(sample_fault(curvature, lengths, k) == Some(e));
    }
}

/// Sound parameters are numbers, none below zero, and the least curvature that
/// counts is above it; whatever is so is sound.
pub proof fn law_sound_parameters_are_numbers(p: VelocityProfileParams)
    ensures
        ({
            let zero = Single { bits: 0 };
            p.valid() <==> {
                &&& p.top_speed_ms.finite() && zero.at_most(p.top_speed_ms)
                &&& p.lateral_accel_limit_ms2.finite() && zero.at_most(p.lateral_accel_limit_ms2)
                &&& p.accel_limit_ms2.finite() && zero.at_most(p.accel_limit_ms2)
                &&& p.brake_limit_ms2.finite() && zero.at_most(p.brake_limit_ms2)
                &&& p.curvature_epsilon_m_inv.finite() && zero.less(p.curvature_epsilon_m_inv)
            }
        }),
{
}

} // verus!
