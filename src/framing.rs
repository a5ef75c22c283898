use vstd::prelude::*;

use crate::types::ProgramError;

verus! {

/// The rest of `line` after `prefix`, if `line` starts with it.
pub fn strip_prefix(line: &[u8], prefix: &[u8]) -> (r: Option<Vec<u8>>)
    ensures
        r is Some <==> prefix@.len() <= line@.len() && line@.subrange(0, prefix@.len() as int) == prefix@,
        r matches Some(rest) ==> rest@ == line@.subrange(prefix@.len() as int, line@.len() as int),
{
    if prefix.len() > line.len() {
        return None;
    }
    let mut i: usize = 0;
    while i < prefix.len()
        invariant
            prefix@.len() <= line@.len(),
            i <= prefix@.len(),
            forall|k: int| 0 <= k < i ==> line@[k] == prefix@[k],
        decreases prefix@.len() - i,
    {
        if line[i] != prefix[i] {
            proof {
                assert(line@.subrange(0, prefix@.len() as int)[i as int] != prefix@[i as int]);
            }
            return None;
        }
        i = i + 1;
    }
    proof {
        assert(line@.subrange(0, prefix@.len() as int) =~= prefix@);
    }
    let mut rest: Vec<u8> = Vec::new();
    let mut j: usize = prefix.len();
    while j < line.len()
        invariant
            prefix@.len() <= j <= line@.len(),
            rest@ == line@.subrange(prefix@.len() as int, j as int),
        decreases line@.len() - j,
    {
        rest.push(line[j]);
        proof {
            assert(rest@ =~= line@.subrange(prefix@.len() as int, j + 1));
        }
        j = j + 1;
    }
    Some(rest)
}

/// The bytes of `__rr_output:`, which start the line with a turn's result.
pub open spec fn output_prefix() -> Seq<u8> {
    seq![95u8, 95, 114, 114, 95, 111, 117, 116, 112, 117, 116, 58]
}

/// The bytes of `__rr_init:`, which start the line with the start-up status.
pub open spec fn init_prefix() -> Seq<u8> {
    seq![95u8, 95, 114, 114, 95, 105, 110, 105, 116, 58]
}

/// What one line a program writes during a turn is.
#[derive(Debug)]
pub enum TurnLine {
    /// The turn's result, as JSON.
    Output(Vec<u8>),
    /// A free-form log line.
    Log,
}

/// Sorts a line of the turn phase: a line that starts with `__rr_output:`
/// carries the result; any other line is a log line.
pub fn classify_turn_line(line: &[u8]) -> (r: TurnLine)
    ensures
        match r {
            TurnLine::Output(rest) => line@.len() >= 12 && line@.subrange(0, 12) == output_prefix()
                && rest@ == line@.subrange(12, line@.len() as int),
            TurnLine::Log => !(line@.len() >= 12 && line@.subrange(0, 12) == output_prefix()),
        },
{
    let prefix: Vec<u8> = vec![95u8, 95, 114, 114, 95, 111, 117, 116, 112, 117, 116, 58];
    proof {
        assert(prefix@ =~= output_prefix());
    }
    match strip_prefix(line, prefix.as_slice()) {
        Some(rest) => TurnLine::Output(rest),
        None => TurnLine::Log,
    }
}

/// The start-up status line: it must start with `__rr_init:`; no line at all
/// means the program sent no data.
pub fn init_payload(line: Option<&[u8]>) -> (r: Result<Vec<u8>, ProgramError>)
    ensures
        line is None ==> r matches Err(ProgramError::NoData),
        line matches Some(l) ==> match r {
            Ok(rest) => l@.len() >= 10 && l@.subrange(0, 10) == init_prefix() && rest@ == l@.subrange(10, l@.len() as int),
            Err(e) => e is NoInitError && !(l@.len() >= 10 && l@.subrange(0, 10) == init_prefix()),
        },
{
    let prefix: Vec<u8> = vec![95u8, 95, 114, 114, 95, 105, 110, 105, 116, 58];
    proof {
        assert(prefix@ =~= init_prefix());
    }
    match line {
        None => Err(ProgramError::NoData),
        Some(l) => match strip_prefix(l, prefix.as_slice()) {
            Some(rest) => Ok(rest),
            None => Err(ProgramError::NoInitError),
        },
    }
}

/// Whether the bytes `b` start with `__rr_output:`.
pub open spec fn is_output_line(b: Seq<u8>) -> bool {
    b.len() >= 12 && b.subrange(0, 12) == output_prefix()
}

/// One line a program wrote during a turn: a log line is kept in `logs`; the
/// line with the turn's result gives that result (the rest of the line).
pub fn take_turn_line(logs: &mut Vec<String>, line: String) -> (r: Option<Vec<u8>>)
    ensures
        ({
            let b = vstd::utf8::encode_utf8(line@);
            if is_output_line(b) {
                &&& r matches Some(rest) && rest@ == b.subrange(12, b.len() as int)
                &&& final(logs)@ == old(logs)@
            } else {
                &&& r is None
                &&& final(logs)@ == old(logs)@.push(line)
            }
        }),
{
    let kind = classify_turn_line(line.as_str().as_bytes());
    match kind {
        TurnLine::Output(rest) => Some(rest),
        TurnLine::Log => {
            logs.push(line);
            None
        },
    }
}

/// Adds the log lines read before a turn's result to that result: on success
/// they follow the program's own logs; a failure is left as it is.
pub fn attach_logs(res: crate::types::ProgramResult, logs: Vec<String>) -> (r: crate::types::ProgramResult)
    ensures
        match res {
            Ok(out) => r matches Ok(o) && o.logs@ == out.logs@ + logs@ && o.robot_actions == out.robot_actions
                && o.debug_tables == out.debug_tables && o.debug_inspections == out.debug_inspections,
            Err(e) => r == Err::<crate::types::ProgramOutput, ProgramError>(e),
        },
{
    match res {
        Ok(out) => {
            let crate::types::ProgramOutput { robot_actions, logs: mut own, debug_tables, debug_inspections } = out;
            let mut more = logs;
            own.append(&mut more);
            Ok(crate::types::ProgramOutput { robot_actions, logs: own, debug_tables, debug_inspections })
        },
        Err(e) => Err(e),
    }
}

} // verus!
