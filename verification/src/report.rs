//! The lines that a probe writes to the console.

use vstd::prelude::*;
use vstd::string::*;
use crate::decimal::{append_decimal, append_millis, decimal, millis_text};
use crate::params::{message_text, ParamError, ProgParameters, Settings, USAGE};
use crate::stats::{max_of, mean_of, min_of, std_dev_of, successes, Interval, ResultCollection};

verus! {

/// The line for an attempt that connected after `micros` microseconds.
pub open spec fn connected_text(settings: Settings, micros: u64) -> Seq<char> {
    "Connected "@ + settings.endpoint() + " - "@ + millis_text(micros as nat) + "ms"@
}

/// The line for an attempt that failed for `reason`.
pub open spec fn failed_text(settings: Settings, reason: Seq<char>) -> Seq<char> {
    "Failed "@ + settings.endpoint() + " - "@ + reason
}

/// The closing lines of a probe: the target, then how many attempts
/// connected, how many were made, and the shortest, longest and mean time
/// and the standard deviation, in milliseconds.
pub open spec fn summary_text(settings: Settings, log: Seq<Interval>) -> Seq<char> {
    "\nTCPING to "@ + settings.endpoint() + "\n"@ + decimal(successes(log)) + " successes / "@
        + decimal(log.len()) + " attempts, min/max/avg/dev "@ + millis_text(min_of(log) as nat)
        + "/"@ + millis_text(max_of(log) as nat) + "/"@ + millis_text(mean_of(log)) + "/"@
        + millis_text(std_dev_of(log))
}

/// What is written when the parameters are at fault: the fault, then how
/// the command line is to be used.
pub open spec fn fault_text(fault: ParamError) -> Seq<char> {
    "\nERROR: "@ + message_text(fault) + "\n\nUsage: "@ + USAGE@
}

/// The line for an attempt that connected after `micros` microseconds.
pub fn connected_line(prog_params: &ProgParameters, micros: u64) -> (line: String)
    ensures
        line@ == connected_text(prog_params@, micros),
{
    let mut line = String::from_str("Connected ");
    line.append(prog_params.endpoint().as_str());
    line.append(" - ");
    append_millis(&mut line, micros);
    line.append("ms");
    assert(line@ =~= connected_text(prog_params@, micros));
    line
}

/// The line for an attempt that failed for `reason`.
pub fn failed_line(prog_params: &ProgParameters, reason: &str) -> (line: String)
    ensures
        line@ == failed_text(prog_params@, reason@),
{
    let mut line = String::from_str("Failed ");
    line.append(prog_params.endpoint().as_str());
    line.append(" - ");
    line.append(reason);
    assert(line@ =~= failed_text(prog_params@, reason@));
    line
}

/// The closing lines of a probe.
pub fn display_summary(result_col: &ResultCollection, prog_params: &ProgParameters) -> (text:
    String)
    ensures
        text@ == summary_text(prog_params@, result_col@),
{
    let mut text = String::from_str("\nTCPING to ");
    text.append(prog_params.endpoint().as_str());
    text.append("\n");
    append_decimal(&mut text, result_col.successes() as u64);
    text.append(" successes / ");
    append_decimal(&mut text, result_col.iterations() as u64);
    text.append(" attempts, min/max/avg/dev ");
    append_millis(&mut text, result_col.get_min());
    text.append("/");
    append_millis(&mut text, result_col.get_max());
    text.append("/");
    append_millis(&mut text, result_col.get_avg());
    text.append("/");
    append_millis(&mut text, result_col.get_std_dev());
    assert(text@ =~= summary_text(prog_params@, result_col@));
    text
}

/// What is written when the parameters are at fault.
pub fn fault_report(fault: ParamError) -> (text: String)
    ensures
        text@ == fault_text(fault),
{
    let mut text = String::from_str("\nERROR: ");
    text.append(fault.message());
    text.append("\n\nUsage: ");
    text.append(ProgParameters::get_usage());
    assert(text@ =~= fault_text(fault));
    text
}

} // verus!
