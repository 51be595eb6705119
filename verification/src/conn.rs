//! One step of the per-connection cycle: parse a frame from the head of
//! the read buffer, run it against the store, and serialize the reply.
//! The surrounding I/O loop appends socket bytes to the buffer, drains the
//! consumed head after each reply, waits for more bytes on `NeedMore`, and
//! closes the connection on `Malformed`.

use vstd::prelude::*;

use crate::commands::{spec_execute, spec_from_resp, Command};
use crate::db::{Db, StoreModel};
use crate::resp::{
    encoding, frame_model, parse_at, parse_resp, FrameModel, ParseOut, ParseResult, RespValue,
    MAX_DEPTH,
};

verus! {

/// What one attempt on the buffer head yields: a serialized reply together
/// with how many bytes of the buffer it consumed, a request to read more
/// bytes, or a protocol error that closes the connection.
pub enum StepResult {
    Reply(Vec<u8>, usize),
    NeedMore,
    Malformed,
}

/// The reply bytes and the store that one parsed request yields: an
/// invalid request is answered with its error text as an error frame and
/// leaves the store unchanged; a valid command is executed.
pub open spec fn session_step(fm: FrameModel, m: StoreModel, now: u64) -> (Seq<u8>, StoreModel) {
    match spec_from_resp(fm) {
        Ok(c) => {
            let p = spec_execute(c, m, now);
            (encoding(p.0), p.1)
        },
        Err(e) => (encoding(FrameModel::SimpleError(e)), m),
    }
}

/// Handle at most one frame at the head of `buf` at time `now`. Pipelined
/// requests are served by calling this again on the drained buffer.
pub fn handle_frame(buf: &Vec<u8>, db: &mut Db, now: u64) -> (r: StepResult)
    requires
        old(db).wf(),
    ensures
        final(db).wf(),
        match parse_at(buf@, 0, MAX_DEPTH as nat) {
            ParseOut::Found(fm, end) => r matches StepResult::Reply(reply, used) && ({
                let p = session_step(fm, old(db)@, now);
                &&& reply@ == p.0
                &&& final(db)@ == p.1
                &&& used as int == end
            }),
            ParseOut::Incomplete => r is NeedMore && final(db)@ == old(db)@,
            ParseOut::Fail => r is Malformed && final(db)@ == old(db)@,
        },
{
    match parse_resp(buf, 0) {
        ParseResult::Complete(frame, used) => {
            let reply: RespValue = match Command::from_resp(frame) {
                Ok(cmd) => cmd.execute(db, now),
                Err(e) => RespValue::SimpleError(e),
            };
            let bytes = reply.serialize();
            StepResult::Reply(bytes, used)
        },
        ParseResult::Incomplete => StepResult::NeedMore,
        ParseResult::Error => StepResult::Malformed,
    }
}

} // verus!
