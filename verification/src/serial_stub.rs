use vstd::prelude::*;
use vstd::string::StringSliceAdditionalSpecFns;
use crate::logging::{LogBuffer, log_line_parts, log_after_write, log_line_bytes, LOG_LINE_MAX};

verus! {

/// The inference stub of the MCP build that logs through formatted serial
/// lines: logs "[ai] Recibido prompt: " followed by the prompt as one line,
/// cut to `LOG_LINE_MAX` bytes, and gives the fixed answer
/// "[ai] Respuesta de ejemplo".
pub fn infer(log: &mut LogBuffer, prompt: &str) -> (r: &'static str)
    requires
        old(log).wf(),
    ensures
        final(log).wf(),
        final(log)@ == log_after_write(
            old(log)@,
            log_line_bytes("[ai] Recibido prompt: ".spec_bytes() + prompt.spec_bytes()),
        ),
        "[ai] Recibido prompt: ".spec_bytes().len() + prompt.spec_bytes().len() <= LOG_LINE_MAX
            ==> final(log)@ == log_after_write(
            old(log)@,
            "[ai] Recibido prompt: ".spec_bytes() + prompt.spec_bytes(),
        ),
        r@ == "[ai] Respuesta de ejemplo"@,
{
    log_line_parts(log, "[ai] Recibido prompt: ", prompt);
    "[ai] Respuesta de ejemplo"
}

} // verus!
