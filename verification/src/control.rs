//! The per-tick control decision: given the temperature and the duty
//! cycle currently programmed, decide whether a new duty cycle must be
//! written, applying hysteresis so the fan does not oscillate.

use vstd::prelude::*;

use crate::fan_curve::FanCurve;
use crate::fan_curve::sorted_by_temp_scaled;
use crate::fan_curve::spec_target;

verus! {

/// The control loop's state: the immutable curve, the hysteresis band
/// scaled to sensor units, and the temperature recorded at the last
/// duty change.
pub struct Controller {
    curve: FanCurve,
    hysteresis: u32,
    temp_at_last_change: u32,
}

impl Controller {
    pub closed spec fn spec_curve(&self) -> Seq<(u32, u8)> {
        self.curve@
    }

    pub closed spec fn spec_hysteresis(&self) -> u32 {
        self.hysteresis
    }

    pub closed spec fn spec_last_change(&self) -> u32 {
        self.temp_at_last_change
    }

    pub open spec fn wf(&self) -> bool {
        sorted_by_temp_scaled(self.spec_curve()) && self.spec_curve().len() >= 2
    }

    /// Whether a tick must write a new duty cycle: the curve asks for
    /// more than is currently programmed, or the temperature has
    /// dropped more than the hysteresis band below the temperature at
    /// the last change. Before any change has been recorded the
    /// reference temperature is zero, so the drop condition cannot
    /// trigger and only a raised target forces a write.
    pub open spec fn spec_should_change(&self, temp: u32, current_pwm: u8) -> bool {
        spec_target(self.spec_curve(), temp) > current_pwm as int || (temp as int)
            < self.spec_last_change() - self.spec_hysteresis()
    }

    /// Builds the control state. The hysteresis band is configured in
    /// the curve's original unit and rescaled (a factor of 1000) into
    /// the sensor's milli-unit domain; no duty change is recorded yet.
    pub fn new(curve: FanCurve, hysteresis: u8) -> (r: Controller)
        requires
            curve.wf(),
            curve@.len() >= 2,
        ensures
            r.wf(),
            r.spec_curve() == curve@,
            r.spec_hysteresis() == hysteresis as int * 1000,
            r.spec_last_change() == 0,
    {
        Controller { curve, hysteresis: hysteresis as u32 * 1000, temp_at_last_change: 0 }
    }

    /// One control tick: computes the curve's target for `temp` and
    /// decides against `current_pwm`. Hands back the target to write,
    /// or `None` when nothing must change; a write records `temp` as
    /// the new reference for the hysteresis band. The drop comparison
    /// clamps at zero rather than wrap.
    pub fn tick(&mut self, temp: u32, current_pwm: u8) -> (target: Option<u8>)
        requires
            old(self).wf(),
        ensures
            final(self).wf(),
            final(self).spec_curve() == old(self).spec_curve(),
            final(self).spec_hysteresis() == old(self).spec_hysteresis(),
            target == if old(self).spec_should_change(temp, current_pwm) {
                Some(spec_target(old(self).spec_curve(), temp) as u8)
            } else {
                None::<u8>
            },
            final(self).spec_last_change() == if old(self).spec_should_change(temp, current_pwm) {
                temp
            } else {
                old(self).spec_last_change()
            },
    {
        let target_pwm = self.curve.get_target_pwm(temp);
        let threshold = if self.temp_at_last_change >= self.hysteresis {
            self.temp_at_last_change - self.hysteresis
        } else {
            0
        };
        if target_pwm > current_pwm || temp < threshold {
            self.temp_at_last_change = temp;
            Some(target_pwm)
        } else {
            None
        }
    }
}

} // verus!
