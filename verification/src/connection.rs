//! The per-connection session. A connection awaits one complete frame,
//! consumes it fully, answers with exactly one response frame, and then
//! either awaits the next command or closes. A decoding failure is
//! answered with a best-effort error response and closes the session,
//! since the stream framing can no longer be trusted; a caller error
//! never does.

use vstd::prelude::*;
use vstd::string::*;
use crate::errors::ProtocolError;
use crate::dispatcher::{handle, engine_step, resp_rel};
use crate::protocol::{
    Response,
    decode_command,
    encode_response,
    spec_decode_command,
    spec_decode_response,
    lemma_response_round_trip,
    lemma_encode_utf8_len,
};
use crate::storage::StorageEngine;

verus! {

/// Where a session stands.
#[derive(Clone, Copy, Debug, PartialEq, Eq, Structural)]
pub enum ConnPhase {
    /// Ready to consume the next command frame.
    AwaitingCommand,
    /// A response has been produced for the last command.
    ResponseSent,
    /// The session is over; no further frame is consumed.
    Closed,
}

/// One client session over a byte-stream transport. The transport reads
/// and writes live with the process harness; the session only decides.
pub struct Connection {
    phase: ConnPhase,
}

impl Connection {
    /// Where this session stands, as a specification value.
    pub closed spec fn phase(self) -> ConnPhase {
        self.phase
    }

    /// A fresh session, awaiting its first command.
    pub fn new() -> (r: Connection)
        ensures
            r.phase() == ConnPhase::AwaitingCommand,
    {
        Connection { phase: ConnPhase::AwaitingCommand }
    }

    /// Where this session stands.
    pub fn current_phase(&self) -> (r: ConnPhase)
        ensures
            r == self.phase(),
    {
        self.phase
    }

    /// An encoded response that reports a protocol failure; it always
    /// fits a frame.
    fn protocol_error_reply(e: ProtocolError) -> (reply: Vec<u8>)
        ensures
            spec_decode_response(reply@) is Some,
            spec_decode_response(reply@)->0.message == e.spec_code(),
            spec_decode_response(reply@)->0.bytes is None,
            spec_decode_response(reply@)->0.names is None,
    {
        let resp = Response { message: e.code(), bytes: None, names: None };
        proof {
            reveal_strlit("protocol_error:truncated");
            reveal_strlit("protocol_error:unknown_tag");
            reveal_strlit("protocol_error:bad_text");
            reveal_strlit("protocol_error:trailing_bytes");
            reveal_strlit("protocol_error:oversize");
            lemma_encode_utf8_len(e.spec_code());
            assert(e.spec_code().len() <= 32);
            assert(crate::protocol::spec_resp_fits(resp@));
        }
        match encode_response(&resp) {
            Ok(v) => {
                proof {
                    lemma_response_round_trip(resp@);
                }
                v
            },
            Err(_) => Vec::new(),
        }
    }

    /// Consumes one complete command frame and produces the one response
    /// frame that answers it. A well-formed command is dispatched and
    /// leaves the session ready for the next exchange; a malformed one
    /// is answered with a protocol-error response and closes the
    /// session. A response too large for a frame is replaced by a stable
    /// failure response, and the session stays usable.
    pub fn on_frame(&mut self, engine: &mut StorageEngine, payload: &[u8]) -> (reply: Vec<u8>)
        requires
            old(self).phase() == ConnPhase::AwaitingCommand,
            old(engine).wf(),
        ensures
            final(engine).wf(),
            match spec_decode_command(payload@) {
                Option::Some(c) => {
                    &&& final(self).phase() == ConnPhase::ResponseSent
                    &&& engine_step(old(engine)@, final(engine)@, c)
                    &&& spec_decode_response(reply@) is Some
                    &&& (resp_rel(old(engine)@, c, spec_decode_response(reply@)->0) || (
                    spec_decode_response(reply@)->0.message == ProtocolError::Oversize.spec_code()
                        && spec_decode_response(reply@)->0.bytes is None && spec_decode_response(
                        reply@,
                    )->0.names is None))
                },
                Option::None => {
                    &&& final(self).phase() == ConnPhase::Closed
                    &&& final(engine)@ == old(engine)@
                    &&& spec_decode_response(reply@) is Some
                    &&& spec_decode_response(reply@)->0.bytes is None
                    &&& spec_decode_response(reply@)->0.names is None
                    &&& (exists|e: ProtocolError|
                        spec_decode_response(reply@)->0.message == #[trigger] e.spec_code())
                },
            },
    {
        match decode_command(payload) {
            Err(e) => {
                self.phase = ConnPhase::Closed;
                Self::protocol_error_reply(e)
            },
            Ok(cmd) => {
                let resp = handle(engine, cmd);
                match encode_response(&resp) {
                    Ok(v) => {
                        self.phase = ConnPhase::ResponseSent;
                        proof {
                            lemma_response_round_trip(resp@);
                        }
                        v
                    },
                    Err(_) => {
                        self.phase = ConnPhase::ResponseSent;
                        Self::protocol_error_reply(ProtocolError::Oversize)
                    },
                }
            },
        }
    }

    /// Keeps the session open for the next command.
    pub fn await_next_command(&mut self)
        requires
            old(self).phase() == ConnPhase::ResponseSent,
        ensures
            final(self).phase() == ConnPhase::AwaitingCommand,
    {
        self.phase = ConnPhase::AwaitingCommand;
    }

    /// Ends the session; the transport is closed by the harness.
    pub fn close(&mut self)
        ensures
            final(self).phase() == ConnPhase::Closed,
    {
        self.phase = ConnPhase::Closed;
    }
}

} // verus!
