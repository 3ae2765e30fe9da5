//! The piecewise-linear fan curve: calibration points, the textual
//! curve-spec parser, and the interpolation that maps a temperature to a
//! target PWM duty cycle.

use vstd::prelude::*;
use vstd::string::StrSliceExecFns;
use vstd::string::StringExecFns;

use crate::text::find_char;
use crate::text::find_sep;
use crate::text::lemma_find_sep_unique;
use crate::text::parse_uint_range;
use crate::text::spec_parse_uint;
use vstd::arithmetic::div_mod::lemma_div_by_multiple;
use vstd::arithmetic::div_mod::lemma_div_is_ordered;
use vstd::arithmetic::div_mod::lemma_div_pos_is_pos;
use vstd::arithmetic::mul::lemma_mul_inequality;

verus! {

/// Error returned when a textual curve specification cannot be parsed.
/// Carries the entire offending input string.
#[derive(Debug)]
pub struct FanCurveParseError {
    bad_string: String,
}

impl FanCurveParseError {
    /// The offending input, as the error reports it.
    pub closed spec fn spec_input(&self) -> Seq<char> {
        self.bad_string@
    }

    pub fn new(bad_string: &str) -> (r: Self)
        ensures
            r.spec_input() == bad_string@,
    {
        FanCurveParseError { bad_string: bad_string.to_owned() }
    }

    /// The input string that failed to parse.
    pub fn bad_input(&self) -> (r: &str)
        ensures
            r@ == self.spec_input(),
    {
        self.bad_string.as_str()
    }

    /// The error's message: the offending input, framed in words.
    pub fn describe(&self) -> (r: String)
        ensures
            r@ == "failed to parse "@ + self.spec_input() + " as a fan curve"@,
    {
        let mut out = String::from_str("failed to parse ");
        out.append(self.bad_string.as_str());
        out.append(" as a fan curve");
        out
    }
}

/// Calibration points ordered by strictly ascending temperature.
pub open spec fn sorted_by_temp(s: Seq<(u8, u8)>) -> bool {
    forall|i: int, j: int| 0 <= i < j < s.len() ==> (#[trigger] s[i]).0 < (#[trigger] s[j]).0
}

/// The temperature-to-duty mapping a point sequence denotes, later
/// entries overriding earlier ones with the same temperature.
pub open spec fn as_map(s: Seq<(u8, u8)>) -> Map<u8, u8>
    decreases s.len(),
{
    if s.len() == 0 {
        Map::empty()
    } else {
        as_map(s.drop_last()).insert(s.last().0, s.last().1)
    }
}

/// A key is in the map exactly when some point carries it, and where the
/// keys are unique the value is that point's duty cycle.
pub proof fn lemma_as_map_contains(s: Seq<(u8, u8)>, t: u8)
    ensures
        as_map(s).contains_key(t) <==> exists|j: int| 0 <= j < s.len() && (#[trigger] s[j]).0 == t,
        sorted_by_temp(s) ==> forall|j: int|
            0 <= j < s.len() && (#[trigger] s[j]).0 == t ==> as_map(s)[t] == s[j].1,
    decreases s.len(),
{
    if s.len() > 0 {
        lemma_as_map_contains(s.drop_last(), t);
        if as_map(s).contains_key(t) && s.last().0 != t {
            let j = choose|j: int| 0 <= j < s.drop_last().len() && (#[trigger] s.drop_last()[j]).0 == t;
            assert(s[j].0 == t);
        }
        if exists|j: int| 0 <= j < s.len() && (#[trigger] s[j]).0 == t {
            let j = choose|j: int| 0 <= j < s.len() && (#[trigger] s[j]).0 == t;
            if j < s.len() - 1 {
                assert(s.drop_last()[j].0 == t);
            }
        }
        if sorted_by_temp(s) {
            assert(sorted_by_temp(s.drop_last())) by {
                assert(forall|i: int, j: int|
                    0 <= i < j < s.drop_last().len() ==> (#[trigger] s.drop_last()[i]).0
                        < (#[trigger] s.drop_last()[j]).0);
            }
            assert forall|j: int| 0 <= j < s.len() && (#[trigger] s[j]).0 == t implies as_map(s)[t]
                == s[j].1 by {
                if j < s.len() - 1 {
                    assert(s[j].0 < s.last().0);
                    assert(s.drop_last()[j].0 == t);
                }
            }
        }
    }
}

/// Replacing the point at `i` in place rewrites its key's entry.
proof fn lemma_as_map_update(s: Seq<(u8, u8)>, i: int, p: u8)
    requires
        0 <= i < s.len(),
        forall|j: int| 0 <= j < s.len() && j != i ==> (#[trigger] s[j]).0 != s[i].0,
    ensures
        as_map(s.update(i, (s[i].0, p))) == as_map(s).insert(s[i].0, p),
    decreases s.len(),
{
    let t = s[i].0;
    let u = s.update(i, (t, p));
    if i == s.len() - 1 {
        assert(u.drop_last() =~= s.drop_last());
        assert(as_map(u) == as_map(s.drop_last()).insert(t, p));
        assert(as_map(s.drop_last()).insert(s.last().0, s.last().1).insert(t, p) =~= as_map(
            s.drop_last(),
        ).insert(t, p));
    } else {
        assert(u.drop_last() =~= s.drop_last().update(i, (t, p)));
        assert(forall|j: int|
            0 <= j < s.drop_last().len() && j != i ==> (#[trigger] s.drop_last()[j]).0
                != s.drop_last()[i].0);
        lemma_as_map_update(s.drop_last(), i, p);
        assert(u.last() == s.last());
        assert(as_map(u) == as_map(s.drop_last()).insert(t, p).insert(s.last().0, s.last().1));
        assert(s.last().0 != t);
        assert(as_map(s.drop_last()).insert(t, p).insert(s.last().0, s.last().1) =~= as_map(
            s.drop_last(),
        ).insert(s.last().0, s.last().1).insert(t, p));
    }
}

/// Inserting a point with a fresh key at any position adds its entry.
proof fn lemma_as_map_insert(s: Seq<(u8, u8)>, i: int, t: u8, p: u8)
    requires
        0 <= i <= s.len(),
        forall|j: int| 0 <= j < s.len() ==> (#[trigger] s[j]).0 != t,
    ensures
        as_map(s.insert(i, (t, p))) == as_map(s).insert(t, p),
    decreases s.len(),
{
    let u = s.insert(i, (t, p));
    if i == s.len() {
        assert(u.drop_last() =~= s);
        assert(u.last() == (t, p));
    } else {
        assert(u.last() == s.last());
        assert(u.drop_last() =~= s.drop_last().insert(i, (t, p)));
        assert(forall|j: int| 0 <= j < s.drop_last().len() ==> (#[trigger] s.drop_last()[j]).0 != t);
        lemma_as_map_insert(s.drop_last(), i, t, p);
        assert(as_map(u) == as_map(s.drop_last()).insert(t, p).insert(s.last().0, s.last().1));
        assert(s.last().0 != t);
        assert(as_map(s.drop_last()).insert(t, p).insert(s.last().0, s.last().1) =~= as_map(
            s.drop_last(),
        ).insert(s.last().0, s.last().1).insert(t, p));
    }
}

/// The set of calibration points a curve specification describes:
/// temperature mapped to duty cycle, keys unique, kept in ascending
/// temperature order, last write for a temperature winning.
#[derive(Debug)]
pub struct FanCurveConfig(Vec<(u8, u8)>);

impl View for FanCurveConfig {
    type V = Seq<(u8, u8)>;

    closed spec fn view(&self) -> Seq<(u8, u8)> {
        self.0@
    }
}

impl FanCurveConfig {
    /// Points are kept in strictly ascending temperature order.
    pub open spec fn wf(&self) -> bool {
        sorted_by_temp(self@)
    }

    pub fn new() -> (r: Self)
        ensures
            r.wf(),
            r@ =~= Seq::<(u8, u8)>::empty(),
    {
        FanCurveConfig(Vec::new())
    }

    /// Adds a calibration point, replacing any earlier point with the
    /// same temperature and handing back its duty cycle.
    pub fn insert(&mut self, temp: u8, pwm: u8) -> (old_pwm: Option<u8>)
        requires
            old(self).wf(),
        ensures
            final(self).wf(),
            as_map(final(self)@) == as_map(old(self)@).insert(temp, pwm),
            old_pwm == if as_map(old(self)@).contains_key(temp) {
                Some(as_map(old(self)@)[temp])
            } else {
                None::<u8>
            },
    {
        let ghost s0 = self@;
        let mut i: usize = 0;
        while i < self.0.len() && self.0[i].0 < temp
            invariant
                0 <= i <= self@.len(),
                self@ == s0,
                forall|k: int| 0 <= k < i ==> (#[trigger] self@[k]).0 < temp,
            decreases self@.len() - i,
        {
            i = i + 1;
        }
        proof {
            lemma_as_map_contains(s0, temp);
        }
        if i < self.0.len() && self.0[i].0 == temp {
            let prev = self.0[i].1;
            self.0.remove(i);
            self.0.insert(i, (temp, pwm));
            proof {
                assert(self@ =~= s0.update(i as int, (temp, pwm)));
                assert(forall|j: int| 0 <= j < s0.len() && j != i ==> (#[trigger] s0[j]).0 != temp);
                lemma_as_map_update(s0, i as int, pwm);
                assert(final(self).wf()) by {
                    assert(forall|k: int|
                        0 <= k < s0.len() && k != i ==> self@[k] == s0[k]);
                }
            }
            Some(prev)
        } else {
            proof {
                assert(forall|j: int| 0 <= j < s0.len() ==> (#[trigger] s0[j]).0 != temp) by {
                    assert(forall|j: int|
                        i <= j < s0.len() ==> (#[trigger] s0[j]).0 >= s0[i as int].0 || j == i);
                }
            }
            self.0.insert(i, (temp, pwm));
            proof {
                lemma_as_map_insert(s0, i as int, temp, pwm);
                assert(self@ == s0.insert(i as int, (temp, pwm)));
                assert(final(self).wf()) by {
                    assert(forall|k: int| 0 <= k < i ==> self@[k] == s0[k]);
                    assert(self@[i as int] == (temp, pwm));
                    assert(forall|k: int|
                        i < k < self@.len() ==> self@[k] == s0[k - 1]);
                }
            }
            None
        }
    }

    /// The points, in ascending temperature order.
    pub fn iter(&self) -> (r: &Vec<(u8, u8)>)
        ensures
            r@ == self@,
    {
        &self.0
    }

    /// Parses a comma-separated curve specification of `duty@temperature`
    /// pairs, such as `0@65,153@73,255@78`. On success the resulting
    /// point set denotes exactly the mapping the input describes, a later
    /// pair overriding an earlier one with the same temperature. Fails,
    /// reporting the whole input, exactly when the input is empty, a
    /// segment does not hold exactly one `@`, or a side of an `@` is not
    /// a decimal number in `[0, 255]`.
    pub fn parse(s: &str) -> (r: Result<FanCurveConfig, FanCurveParseError>)
        ensures
            match r {
                Ok(c) => {
                    &&& spec_parse_points(s@) is Some
                    &&& c.wf()
                    &&& c@.len() >= 1
                    &&& as_map(c@) == as_map(spec_parse_points(s@).unwrap())
                },
                Err(e) => {
                    &&& spec_parse_points(s@) is None
                    &&& e.spec_input() == s@
                },
            },
    {
        let n = s.unicode_len();
        if n == 0 {
            return Err(FanCurveParseError::new(s));
        }
        let mut config = FanCurveConfig::new();
        let ghost mut pts: Seq<(u8, u8)> = Seq::empty();
        let mut cur: usize = 0;
        proof {
            assert(s@.skip(0) =~= s@);
            if spec_parse_points(s@) is Some {
                assert(Seq::<(u8, u8)>::empty() + spec_parse_points(s@).unwrap()
                    =~= spec_parse_points(s@).unwrap());
            }
        }
        loop
            invariant
                n == s@.len(),
                0 <= cur <= n,
                config.wf(),
                as_map(config@) == as_map(pts),
                spec_parse_points(s@) is Some <==> spec_parse_points(s@.skip(cur as int)) is Some,
                spec_parse_points(s@) is Some ==> spec_parse_points(s@).unwrap() == pts
                    + spec_parse_points(s@.skip(cur as int)).unwrap(),
            decreases n - cur,
        {
            let ghost rest = s@.skip(cur as int);
            let j = find_char(s, cur, n, ',');
            let ghost seg = s@.subrange(cur as int, j as int);
            proof {
                assert forall|k: int| 0 <= k < j - cur implies rest[k] != ',' by {
                    assert(rest[k] == s@[cur + k]);
                }
                if j < n {
                    assert(rest[j - cur] == s@[j as int]);
                }
                lemma_find_sep_unique(rest, ',', j - cur);
                assert(rest.take(j - cur) =~= seg);
            }
            let a = find_char(s, cur, j, '@');
            if a == j {
                proof {
                    assert forall|k: int| 0 <= k < seg.len() implies seg[k] != '@' by {
                        assert(seg[k] == s@[cur + k]);
                    }
                    lemma_find_sep_unique(seg, '@', seg.len() as int);
                    assert(parse_pair(seg) is None);
                }
                return Err(FanCurveParseError::new(s));
            }
            proof {
                assert forall|k: int| 0 <= k < a - cur implies seg[k] != '@' by {
                    assert(seg[k] == s@[cur + k]);
                }
                assert(seg[a - cur] == s@[a as int]);
                lemma_find_sep_unique(seg, '@', a - cur);
            }
            let b = find_char(s, a + 1, j, '@');
            let ghost tail = seg.skip(a - cur + 1);
            proof {
                assert forall|k: int| 0 <= k < b - a - 1 implies tail[k] != '@' by {
                    assert(tail[k] == s@[a + 1 + k]);
                }
                if b < j {
                    assert(tail[b - a - 1] == s@[b as int]);
                }
                lemma_find_sep_unique(tail, '@', b - a - 1);
            }
            if b < j {
                proof {
                    assert(parse_pair(seg) is None);
                }
                return Err(FanCurveParseError::new(s));
            }
            proof {
                assert(tail =~= s@.subrange(a + 1, j as int));
                assert(seg.take(a - cur) =~= s@.subrange(cur as int, a as int));
            }
            let temp = match parse_uint_range(s, a + 1, j, 255) {
                Some(v) => v,
                None => {
                    proof {
                        assert(parse_pair(seg) is None);
                    }
                    return Err(FanCurveParseError::new(s));
                },
            };
            let pwm = match parse_uint_range(s, cur, a, 255) {
                Some(v) => v,
                None => {
                    proof {
                        assert(parse_pair(seg) is None);
                    }
                    return Err(FanCurveParseError::new(s));
                },
            };
            let ghost pt = (temp as u8, pwm as u8);
            proof {
                assert(parse_pair(seg) == Some(pt));
            }
            let ghost pts0 = pts;
            config.insert(temp as u8, pwm as u8);
            proof {
                pts = pts.push(pt);
                assert(pts.drop_last() =~= pts0);
                assert(as_map(pts) == as_map(pts0).insert(pt.0, pt.1));
            }
            if j == n {
                proof {
                    assert(spec_parse_points(rest) == Some(seq![pt]));
                    assert(pts0 + seq![pt] =~= pts);
                    let key = pts.last().0;
                    assert(as_map(pts).contains_key(key));
                    lemma_as_map_contains(config@, key);
                    assert(as_map(config@).contains_key(key));
                }
                return Ok(config);
            }
            proof {
                assert(rest.skip(j - cur + 1) =~= s@.skip(j + 1));
                assert(spec_parse_points(rest) is Some <==> spec_parse_points(s@.skip(j + 1))
                    is Some);
                if spec_parse_points(s@) is Some {
                    assert(spec_parse_points(rest).unwrap() == seq![pt] + spec_parse_points(
                        s@.skip(j + 1),
                    ).unwrap());
                    assert(pts0 + (seq![pt] + spec_parse_points(s@.skip(j + 1)).unwrap()) =~= pts
                        + spec_parse_points(s@.skip(j + 1)).unwrap());
                }
            }
            cur = j + 1;
        }
    }
}

/// One `duty@temperature` segment: exactly one `@`, each side a decimal
/// number in `[0, 255]`. The resulting pair carries the temperature
/// first and the duty cycle second.
pub open spec fn parse_pair(seg: Seq<char>) -> Option<(u8, u8)> {
    let j = find_sep(seg, '@');
    if !(0 <= j < seg.len()) {
        None
    } else if find_sep(seg.skip(j + 1), '@') < seg.len() - j - 1 {
        None
    } else {
        match (spec_parse_uint(seg.skip(j + 1), 255), spec_parse_uint(seg.take(j), 255)) {
            (Some(t), Some(p)) => Some((t as u8, p as u8)),
            _ => None,
        }
    }
}

/// The point list a curve specification describes: the input split on
/// commas, each segment read as one `duty@temperature` pair, in input
/// order. `None` exactly when the input is empty or some segment is
/// malformed.
pub open spec fn spec_parse_points(s: Seq<char>) -> Option<Seq<(u8, u8)>>
    decreases s.len(),
{
    if s.len() == 0 {
        None
    } else {
        let j = find_sep(s, ',');
        if !(0 <= j <= s.len()) {
            None
        } else {
            match parse_pair(s.take(j)) {
                None => None,
                Some(pt) => {
                    if j == s.len() {
                        Some(seq![pt])
                    } else {
                        match spec_parse_points(s.skip(j + 1)) {
                            None => None,
                            Some(tail_pts) => Some(seq![pt] + tail_pts),
                        }
                    }
                },
            }
        }
    }
}

/// Scaled curve points ordered by strictly ascending temperature.
pub open spec fn sorted_by_temp_scaled(s: Seq<(u32, u8)>) -> bool {
    forall|i: int, j: int| 0 <= i < j < s.len() ==> (#[trigger] s[i]).0 < (#[trigger] s[j]).0
}

/// Linear interpolation between `(t0, d0)` and `(t1, d1)` at `t`, the
/// quotient truncating toward zero. Written with a non-negative
/// numerator in both directions so that truncation toward zero and
/// flooring agree.
pub open spec fn interp(t0: int, d0: int, t1: int, d1: int, t: int) -> int {
    if d1 >= d0 {
        d0 + (t - t0) * (d1 - d0) / (t1 - t0)
    } else {
        d0 - (t - t0) * (d0 - d1) / (t1 - t0)
    }
}

/// The duty cycle a curve maps a temperature to: the first point's duty
/// at or below the first temperature, the last point's at or above the
/// last temperature, and the linear interpolation between the bracketing
/// points in between.
pub open spec fn spec_target(s: Seq<(u32, u8)>, t: u32) -> int
    decreases s.len(),
{
    if s.len() == 0 {
        0
    } else if s.len() == 1 {
        s[0].1 as int
    } else if t <= s[0].0 {
        s[0].1 as int
    } else if t >= s[s.len() - 1].0 {
        s[s.len() - 1].1 as int
    } else if t <= s[1].0 {
        interp(s[0].0 as int, s[0].1 as int, s[1].0 as int, s[1].1 as int, t as int)
    } else {
        spec_target(s.drop_first(), t)
    }
}

/// At the right endpoint the interpolation hands back `d1` exactly.
proof fn lemma_interp_at_right(t0: int, d0: int, t1: int, d1: int)
    requires
        t0 < t1,
    ensures
        interp(t0, d0, t1, d1, t1) == d1,
{
    if d1 >= d0 {
        assert((t1 - t0) * (d1 - d0) == (d1 - d0) * (t1 - t0)) by (nonlinear_arith);
        lemma_div_by_multiple(d1 - d0, t1 - t0);
    } else {
        assert((t1 - t0) * (d0 - d1) == (d0 - d1) * (t1 - t0)) by (nonlinear_arith);
        lemma_div_by_multiple(d0 - d1, t1 - t0);
    }
}

/// Inside a segment the interpolated duty lies between the two
/// endpoints' duties, whichever of them is larger.
proof fn lemma_interp_bounds(t0: int, d0: int, t1: int, d1: int, t: int)
    requires
        t0 < t <= t1,
    ensures
        d0 <= d1 ==> d0 <= interp(t0, d0, t1, d1, t) <= d1,
        d0 > d1 ==> d1 <= interp(t0, d0, t1, d1, t) <= d0,
{
    let dt = t1 - t0;
    let off = t - t0;
    let dd = if d1 >= d0 {
        d1 - d0
    } else {
        d0 - d1
    };
    assert(off * dd >= 0) by (nonlinear_arith)
        requires
            off > 0,
            dd >= 0,
    ;
    lemma_div_pos_is_pos(off * dd, dt);
    lemma_mul_inequality(off, dt, dd);
    lemma_div_is_ordered(off * dd, dt * dd, dt);
    assert(dt * dd == dd * dt) by (nonlinear_arith);
    lemma_div_by_multiple(dd, dt);
    assert(0 <= off * dd / dt <= dd);
}

/// For a sorted curve, any index that brackets the temperature yields
/// the interpolation of its segment.
proof fn lemma_spec_target_bracket(s: Seq<(u32, u8)>, t: u32, i: int)
    requires
        sorted_by_temp_scaled(s),
        s.len() >= 2,
        0 <= i < s.len() - 1,
        s[i].0 < t <= s[i + 1].0,
    ensures
        spec_target(s, t) == interp(
            s[i].0 as int,
            s[i].1 as int,
            s[i + 1].0 as int,
            s[i + 1].1 as int,
            t as int,
        ),
    decreases s.len(),
{
    let last = s.len() - 1;
    if t >= s[last].0 {
        if i + 1 < last {
            assert(s[i + 1].0 < s[last].0);
            assert(false);
        }
        assert(i + 1 == last);
        assert(t == s[last].0);
        lemma_interp_at_right(s[i].0 as int, s[i].1 as int, s[i + 1].0 as int, s[i + 1].1 as int);
    } else if i == 0 {
        assert(spec_target(s, t) == interp(
            s[0].0 as int,
            s[0].1 as int,
            s[1].0 as int,
            s[1].1 as int,
            t as int,
        ));
    } else {
        let s2 = s.drop_first();
        assert(forall|k: int| 0 <= k < s2.len() ==> #[trigger] s2[k] == s[k + 1]);
        assert(sorted_by_temp_scaled(s2));
        assert(s[1].0 <= s[i].0);
        assert(t > s[1].0);
        lemma_spec_target_bracket(s2, t, i - 1);
        assert(spec_target(s, t) == spec_target(s2, t));
    }
}

/// The scaled, immutable fan curve: temperature (in the sensor's native
/// milli-unit scale) paired with duty cycle, ascending in temperature.
pub struct FanCurve(Vec<(u32, u8)>);

impl View for FanCurve {
    type V = Seq<(u32, u8)>;

    closed spec fn view(&self) -> Seq<(u32, u8)> {
        self.0@
    }
}

impl FanCurve {
    /// Points are kept in strictly ascending temperature order.
    pub open spec fn wf(&self) -> bool {
        sorted_by_temp_scaled(self@)
    }

    /// Builds the curve from a parsed point set, rescaling each
    /// temperature from the parser's byte domain into the sensor's
    /// native milli-unit domain (a factor of 1000).
    pub fn from_config(config: &FanCurveConfig) -> (r: FanCurve)
        requires
            config.wf(),
        ensures
            r.wf(),
            r@.len() == config@.len(),
            forall|i: int|
                0 <= i < config@.len() ==> (#[trigger] r@[i]).0 == config@[i].0 as int * 1000
                    && r@[i].1 == config@[i].1,
    {
        let pts = config.iter();
        let mut v: Vec<(u32, u8)> = Vec::new();
        let mut i: usize = 0;
        while i < pts.len()
            invariant
                pts@ == config@,
                0 <= i <= config@.len(),
                v@.len() == i,
                forall|k: int|
                    0 <= k < i ==> (#[trigger] v@[k]).0 == config@[k].0 as int * 1000 && v@[k].1
                        == config@[k].1,
            decreases config@.len() - i,
        {
            let p = pts[i];
            v.push((p.0 as u32 * 1000, p.1));
            i = i + 1;
        }
        FanCurve(v)
    }

    /// Maps a temperature to the target duty cycle: clamped to the first
    /// point's duty at or below the curve, to the last point's at or
    /// above it, and linearly interpolated over the bracketing segment
    /// in between. A curve of fewer than two points defines no slope and
    /// is excluded.
    pub fn get_target_pwm(&self, current_temp: u32) -> (r: u8)
        requires
            self.wf(),
            self@.len() >= 2,
        ensures
            r as int == spec_target(self@, current_temp),
            current_temp <= self@[0].0 ==> r == self@[0].1,
            current_temp >= self@[self@.len() - 1].0 ==> r == self@[self@.len() - 1].1,
            forall|i: int|
                0 <= i < self@.len() - 1 && (#[trigger] self@[i]).0 < current_temp && current_temp
                    <= self@[i + 1].0 ==> r as int == interp(
                    self@[i].0 as int,
                    self@[i].1 as int,
                    self@[i + 1].0 as int,
                    self@[i + 1].1 as int,
                    current_temp as int,
                ),
            forall|i: int|
                0 <= i < self@.len() - 1 && (#[trigger] self@[i]).0 < current_temp && current_temp
                    <= self@[i + 1].0 ==> (if self@[i].1 <= self@[i + 1].1 {
                    self@[i].1 <= r <= self@[i + 1].1
                } else {
                    self@[i + 1].1 <= r <= self@[i].1
                }),
    {
        let len = self.0.len();
        if current_temp <= self.0[0].0 {
            proof {
                assert forall|i: int|
                    0 <= i < self@.len() - 1 && (#[trigger] self@[i]).0 < current_temp implies false by {
                    assert(self@[0].0 <= self@[i].0);
                }
            }
            return self.0[0].1;
        }
        if current_temp >= self.0[len - 1].0 {
            let rd = self.0[len - 1].1;
            proof {
                assert forall|i: int|
                    0 <= i < self@.len() - 1 && (#[trigger] self@[i]).0 < current_temp
                        && current_temp <= self@[i + 1].0 implies i + 1 == self@.len() - 1
                    && current_temp == self@[i + 1].0 by {
                    if i + 1 < self@.len() - 1 {
                        assert(self@[i + 1].0 < self@[self@.len() - 1].0);
                    }
                }
                assert forall|i: int|
                    0 <= i < self@.len() - 1 && (#[trigger] self@[i]).0 < current_temp
                        && current_temp <= self@[i + 1].0 implies rd as int == interp(
                    self@[i].0 as int,
                    self@[i].1 as int,
                    self@[i + 1].0 as int,
                    self@[i + 1].1 as int,
                    current_temp as int,
                ) by {
                    lemma_interp_at_right(
                        self@[i].0 as int,
                        self@[i].1 as int,
                        self@[i + 1].0 as int,
                        self@[i + 1].1 as int,
                    );
                }
            }
            return rd;
        }
        let mut i: usize = 1;
        while self.0[i].0 < current_temp
            invariant
                self.wf(),
                len == self@.len(),
                2 <= len,
                1 <= i < len,
                forall|k: int| 0 <= k < i ==> (#[trigger] self@[k]).0 < current_temp,
                current_temp < self@[len - 1].0,
            decreases len - i,
        {
            proof {
                assert(self@[i as int].0 < self@[len - 1].0);
            }
            i = i + 1;
        }
        let lower = self.0[i - 1];
        let higher = self.0[i];
        let t0 = lower.0 as u64;
        let d0 = lower.1 as u64;
        let t1 = higher.0 as u64;
        let d1 = higher.1 as u64;
        let tt = current_temp as u64;
        proof {
            assert(self@[i as int - 1].0 < self@[i as int].0);
        }
        let dt = t1 - t0;
        let off = tt - t0;
        let result: u64 = if d1 >= d0 {
            proof {
                assert(off * (d1 - d0) <= 0xFFFF_FFFF * 255) by (nonlinear_arith)
                    requires
                        0 <= off <= 0xFFFF_FFFF,
                        0 <= d1 - d0 <= 255,
                ;
                lemma_interp_bounds(t0 as int, d0 as int, t1 as int, d1 as int, tt as int);
            }
            d0 + off * (d1 - d0) / dt
        } else {
            proof {
                assert(off * (d0 - d1) <= 0xFFFF_FFFF * 255) by (nonlinear_arith)
                    requires
                        0 <= off <= 0xFFFF_FFFF,
                        0 <= d0 - d1 <= 255,
                ;
                lemma_interp_bounds(t0 as int, d0 as int, t1 as int, d1 as int, tt as int);
            }
            d0 - off * (d0 - d1) / dt
        };
        proof {
            assert(result as int == interp(t0 as int, d0 as int, t1 as int, d1 as int, tt as int));
            assert(result <= 255);
            lemma_spec_target_bracket(self@, current_temp, i as int - 1);
            assert forall|k: int|
                0 <= k < self@.len() - 1 && (#[trigger] self@[k]).0 < current_temp && current_temp
                    <= self@[k + 1].0 implies k == i as int - 1 by {
                if k < i as int - 1 {
                    assert(self@[k + 1].0 <= self@[i as int - 1].0);
                }
                if k > i as int - 1 {
                    assert(self@[i as int].0 <= self@[k].0);
                }
            }
        }
        result as u8
    }
}

} // verus!
