use vstd::prelude::*;

verus! {

/// Every number up to and including this one is known to reach the bound; a
/// trajectory that drops to it or below needs no further checking.
pub const DEFAULT_MAX_PROVEN_NUMBER: u128 = 18446744073709551616;

/// How a trajectory ended.
#[derive(Clone, Copy, Debug, PartialEq, Eq, Structural)]
pub enum Trajectory {
    /// It came back to the number it started from.
    Circle,
    /// It dropped to the known-good bound or below.
    Descended,
    /// A step would have run past `u128::MAX`.
    Overflow,
    /// It was still above the bound when the step budget ran out.
    StepLimit,
}

/// One step of the search: an odd value is halved (rounding down), an even
/// value `n` goes to `(3n + 1) / 2`; `None` where `3n + 1` does not fit.
pub open spec fn circle_step(n: u128) -> Option<u128> {
    if n % 2 == 1 {
        Some(n / 2)
    } else if 3 * n + 1 <= u128::MAX {
        Some(((3 * n + 1) / 2) as u128)
    } else {
        None
    }
}

/// Where the trajectory of `origin`, now at `n`, ends within `fuel` steps.
pub open spec fn walk(origin: u128, n: u128, fuel: nat) -> Trajectory
    decreases fuel,
{
    if n <= DEFAULT_MAX_PROVEN_NUMBER {
        Trajectory::Descended
    } else if fuel == 0 {
        Trajectory::StepLimit
    } else {
        match circle_step(n) {
            None => Trajectory::Overflow,
            Some(m) => if m == origin {
                Trajectory::Circle
            } else {
                walk(origin, m, (fuel - 1) as nat)
            },
        }
    }
}

/// The outcome for `n` with a budget of `fuel` steps.
pub open spec fn outcome(n: u128, fuel: nat) -> Trajectory {
    walk(n, n, fuel)
}

/// An outcome that settles the number: it either drops to the bound or is a
/// discovered circle.
pub open spec fn settled(t: Trajectory) -> bool {
    t is Circle || t is Descended
}

/// The numbers of `[start, start + len)` whose trajectory is a circle, in
/// increasing order.
pub open spec fn circles_in(start: u128, len: nat, fuel: nat) -> Seq<u128>
    decreases len,
{
    if len == 0 {
        Seq::empty()
    } else {
        let n = (start + len - 1) as u128;
        circles_in(start, (len - 1) as nat, fuel) + if outcome(n, fuel) is Circle {
            seq![n]
        } else {
            Seq::empty()
        }
    }
}

/// Follows the trajectory of `number` for at most `max_steps` steps and says
/// how it ended.
pub fn find_circle(number: u128, max_steps: u64) -> (r: Trajectory)
    ensures
        r == outcome(number, max_steps as nat),
{
    let mut n: u128 = number;
    let mut left: u64 = max_steps;
    while n > DEFAULT_MAX_PROVEN_NUMBER
        invariant
            walk(number, n, left as nat) == walk(number, number, max_steps as nat),
        decreases left,
    {
        if left == 0 {
            return Trajectory::StepLimit;
        }
        if n % 2 == 1 {
            n = n / 2;
        } else {
            if n > (u128::MAX - 1) / 3 {
                return Trajectory::Overflow;
            }
            n = (3 * n + 1) / 2;
        }
        if n == number {
            return Trajectory::Circle;
        }
        left = left - 1;
    }
    Trajectory::Descended
}

/// A number whose trajectory neither dropped to the bound nor came back.
#[derive(Clone, Copy, Debug, PartialEq, Eq, Structural)]
pub struct Unsettled {
    pub number: u128,
    pub outcome: Trajectory,
}

/// Checks every number of the batch `[start, start + len)`. When each one is
/// settled, returns those that form a circle; otherwise returns the first one
/// that is not.
pub fn check_batch(start: u128, len: u128, max_steps: u64) -> (r: Result<Vec<u128>, Unsettled>)
    requires
        start + len <= u128::MAX,
    ensures
        r is Ok <==> forall|n: u128|
            start <= n < start + len ==> settled(#[trigger] outcome(n, max_steps as nat)),
        r matches Ok(v) ==> v@ == circles_in(start, len as nat, max_steps as nat),
        r matches Err(u) ==> {
            &&& start <= u.number < start + len
            &&& u.outcome == outcome(u.number, max_steps as nat)
            &&& !settled(u.outcome)
            &&& forall|n: u128|
                start <= n < u.number ==> settled(#[trigger] outcome(n, max_steps as nat))
        },
{
    let mut found: Vec<u128> = Vec::new();
    let mut i: u128 = 0;
    while i < len
        invariant
            i <= len,
            start + len <= u128::MAX,
            found@ == circles_in(start, i as nat, max_steps as nat),
            forall|n: u128|
                start <= n < start + i ==> settled(#[trigger] outcome(n, max_steps as nat)),
        decreases len - i,
    {
        let n = start + i;
        let t = find_circle(n, max_steps);
        match t {
            Trajectory::Circle => {
                found.push(n);
            },
            Trajectory::Descended => {},
            _ => {
                return Err(Unsettled { number: n, outcome: t });
            },
        }
        i = i + 1;
    }
    Ok(found)
}

} // verus!
