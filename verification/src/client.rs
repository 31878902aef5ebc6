//! The peer client's receive step.
//!
//! A client consumes a relay's stream of text frames.  Each frame,
//! well formed or not, maps to one action: apply a grant, apply a
//! revoke against the right local page, or note a malformed frame and
//! go on.  Deciding is total — no frame, however broken, stops the
//! stream — and the browser work an action names is done outside, off
//! this step.
use vstd::prelude::*;
use crate::wire::{Frame, FrameV, GrantMessage, GrantV, RevokeMessage, RevokeV, grant_wf,
    spec_frame_of};
use crate::identity::{TabIdentityMap, RevokeTarget, RevokeTargetV, spec_resolve};
use crate::errors::DecodeError;

verus! {

/// What one inbound frame asks this peer to do.
pub enum ClientAction {
    /// A grant arrived: open its target address with its cookies, and
    /// record the page that this creates under the grant's session.
    OpenWithCookies(GrantMessage),
    /// A revoke arrived: delete its cookies from the resolved target.
    DeleteCookies { target: RevokeTarget, message: RevokeMessage },
    /// The frame was malformed or unknown: note why, and read on.
    Skip(DecodeError),
}

/// Mathematical model of a client action.
#[verifier::ext_equal]
pub ghost enum ClientActionV {
    OpenWithCookies(GrantV),
    DeleteCookies(RevokeTargetV, RevokeV),
    Skip(DecodeError),
}

impl View for ClientAction {
    type V = ClientActionV;

    open spec fn view(&self) -> ClientActionV {
        match self {
            ClientAction::OpenWithCookies(g) => ClientActionV::OpenWithCookies(g@),
            ClientAction::DeleteCookies { target, message } => ClientActionV::DeleteCookies(
                target@,
                message@,
            ),
            ClientAction::Skip(e) => ClientActionV::Skip(*e),
        }
    }
}

/// Decide what one inbound text frame means for this peer.
///
/// A grant becomes an open-with-cookies action carrying exactly the
/// granted content.  A revoke becomes a deletion against the page its
/// session's grant created here — or, for a session never granted
/// here, against the raw identifier, as a best effort.  Anything else
/// is skipped with its reason.  Every frame has an answer: a malformed
/// frame never ends the stream, and the frames after it are untouched.
pub fn handle_frame_text(map: &TabIdentityMap, text: &str) -> (r: ClientAction)
    ensures
        match crate::json::json_model_of(text@) {
            Some(w) => match spec_frame_of(w) {
                Ok(f) => match f {
                    FrameV::Grant(g) => r@ == ClientActionV::OpenWithCookies(g) && grant_wf(g),
                    FrameV::Revoke(m) => r@ == ClientActionV::DeleteCookies(
                        spec_resolve(map@, m.tab_id),
                        m,
                    ),
                },
                Err(e) => r@ == ClientActionV::Skip(e),
            },
            Option::None => r@ == ClientActionV::Skip(DecodeError::Syntax),
        },
{
    match Frame::from_text(text) {
        Ok(Frame::Grant(g)) => ClientAction::OpenWithCookies(g),
        Ok(Frame::Revoke(m)) => {
            let target = map.resolve_revoke(m.tab_id.as_str());
            ClientAction::DeleteCookies { target, message: m }
        },
        Err(e) => ClientAction::Skip(e),
    }
}

} // verus!
