use num_format::{Locale, ToFormattedString};
use vstd::prelude::*;
use vstd::string::StringExecFns;

verus! {

/// The character of the decimal digit `d`.
pub open spec fn digit_char(d: nat) -> char {
    seq!['0', '1', '2', '3', '4', '5', '6', '7', '8', '9'][d as int]
}

/// The decimal digits of `n`, most significant first.
pub open spec fn decimal(n: nat) -> Seq<char>
    decreases n,
{
    if n < 10 {
        seq![digit_char(n)]
    } else {
        decimal(n / 10).push(digit_char(n % 10))
    }
}

/// `n` in decimal with a comma before each group of three digits counted from
/// the right, as English writes large numbers.
pub open spec fn grouped_decimal(n: nat) -> Seq<char>
    decreases n,
{
    if n < 1000 {
        decimal(n)
    } else {
        grouped_decimal(n / 1000) + seq![
            ',',
            digit_char(n % 1000 / 100),
            digit_char(n % 100 / 10),
            digit_char(n % 10),
        ]
    }
}

/// Relies on `num_format::ToFormattedString::to_formatted_string` with
/// `Locale::en`, whose separator is a comma and whose groups hold three digits.
#[verifier::external_body]
fn grouped(n: u128) -> (r: String)
    ensures
        r@ == grouped_decimal(n as nat),
{
    n.to_formatted_string(&Locale::en)
}

/// Whether the status line is due after `events` completion events when it is
/// printed once every `every` events.
pub fn should_report(events: u64, every: u64) -> (r: bool)
    requires
        every > 0,
    ensures
        r == (events % every == 0),
{
    events % every == 0
}

/// The text of a status line.
pub open spec fn status_text(
    batches: u128,
    elapsed_ms: u128,
    proven: Option<u128>,
    queued: usize,
    pending: usize,
) -> Seq<char> {
    "Batch: "@ + grouped_decimal(batches as nat) + ", Time: "@ + grouped_decimal(
        elapsed_ms as nat,
    ) + "ms, Max number: "@ + match proven {
        Some(p) => grouped_decimal(p as nat),
        None => "none"@,
    } + ", Channel size: "@ + grouped_decimal(queued as nat) + ", Backlog size: "@
        + grouped_decimal(pending as nat)
}

/// Renders a status line: the batches reconciled so far, the time since the
/// start, the proven frontier (`none` before the first batch), how many events
/// wait in the queue and how many batches wait in the pending store.
pub fn status_line(
    batches: u128,
    elapsed_ms: u128,
    proven: Option<u128>,
    queued: usize,
    pending: usize,
) -> (r: String)
    ensures
        r@ == status_text(batches, elapsed_ms, proven, queued, pending),
{
    let mut line = String::from_str("Batch: ");
    line.append(grouped(batches).as_str());
    line.append(", Time: ");
    line.append(grouped(elapsed_ms).as_str());
    line.append("ms, Max number: ");
    match proven {
        Some(p) => line.append(grouped(p).as_str()),
        None => line.append("none"),
    }
    line.append(", Channel size: ");
    line.append(grouped(queued as u128).as_str());
    line.append(", Backlog size: ");
    line.append(grouped(pending as u128).as_str());
    line
}

} // verus!
