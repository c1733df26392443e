//! Keeping a received frame: its session is established with it or not at all.

use vstd::prelude::*;
use crate::archive_write::{clock_kept, encode_state_with_session, encodes, same_but_owner_clock, Writer};
use crate::bytes::copy_bytes;
use crate::codec::{Codec, NodeKeys, Protocol};
use crate::error::Error;
use crate::node_state::{DirectSessionState, NodeState, Snapshot};
use crate::presence::set_in;
use crate::table::Table;
use crate::time::Instant;

verus! {

/// Establishes a session before its frame is kept, so that what is written says
/// so. Gives back the state that the session had.
pub fn establish(st: &mut NodeState, peer: &Vec<u8>) -> (r: Option<DirectSessionState>)
    ensures
        r == old(st).session_states.lookup(peer@),
        set_in(old(st).session_states, peer@, Some(DirectSessionState::Established), final(st).session_states),
        *final(st) == (NodeState { session_states: final(st).session_states, ..*old(st) }),
{
    st.session_states.insert(copy_bytes(peer.as_slice()), DirectSessionState::Established)
}

/// Puts a session back to the state that it had, after its frame could not be
/// kept.
pub fn revert_established(st: &mut NodeState, peer: &Vec<u8>, previous: Option<DirectSessionState>)
    requires
        old(st).session_states.wf(),
    ensures
        set_in(old(st).session_states, peer@, previous, final(st).session_states),
        *final(st) == (NodeState { session_states: final(st).session_states, ..*old(st) }),
{
    match previous {
        Some(state) => {
            st.session_states.insert(copy_bytes(peer.as_slice()), state);
        },
        None => {
            st.session_states.remove(peer);
        },
    }
}

/// A node whose session with a peer is established, and else as it is.
pub open spec fn established(st: NodeState, peer: Seq<u8>, t: NodeState) -> bool {
    set_in(st.session_states, peer, Some(DirectSessionState::Established), t.session_states) && t == (NodeState {
        session_states: t.session_states,
        ..st
    })
}

/// What is to be kept of a received frame: the node's state with the session as
/// it will be, and established. Gives the state that the session had, to which
/// the host puts it back where it cannot keep the bytes. Where there are none to
/// keep, it is put back at once.
pub fn encode_received(
    st: &mut NodeState,
    peer: &Vec<u8>,
    sealed: &Snapshot,
    keys: &NodeKeys,
    codec: &Codec,
    p: &Protocol,
    wall_ms: u64,
    now: Instant,
) -> (r: Result<(Vec<u8>, Option<DirectSessionState>), Error>)
    requires
        old(st).owner.wf(),
        old(st).session_states.wf(),
    ensures
        final(st).owner.wf(),
        same_but_owner_clock(NodeState { session_states: final(st).session_states, ..*old(st) }, *final(st)),
        clock_kept(*old(st), *final(st), wall_ms, now, r is Ok),
        exists|mid: NodeState|
            #![trigger established(*old(st), peer@, mid)]
            established(*old(st), peer@, mid) && ({
                let w = Writer { keys, codec, p, wall_ms, now, replaced: Some((peer, sealed)) };
                match r {
                    Ok((bytes, previous)) => {
                        &&& encodes(&mid, w, Ok(bytes))
                        &&& previous == old(st).session_states.lookup(peer@)
                        &&& final(st).session_states == mid.session_states
                    },
                    Err(e) => {
                        &&& encodes(&mid, w, Err(e))
                        &&& forall|k: Seq<u8>| #[trigger] final(st).session_states.lookup(k) == old(st).session_states.lookup(k)
                    },
                }
            }),
{
    let ghost before = *st;
    let previous = establish(st, peer);
    let ghost mid = *st;
    assert(established(before, peer@, mid));
    match encode_state_with_session(st, peer, sealed, keys, codec, p, wall_ms, now) {
        Ok(bytes) => Ok((bytes, previous)),
        Err(e) => {
            revert_established(st, peer, previous);
            proof {
                reverting_undoes_establishing(before.session_states, mid.session_states, st.session_states, peer@);
            }
            Err(e)
        },
    }
}

/// A frame that could not be kept leaves no trace on the state of its session.
pub proof fn reverting_undoes_establishing(
    a: Table<Vec<u8>, DirectSessionState>,
    b: Table<Vec<u8>, DirectSessionState>,
    c: Table<Vec<u8>, DirectSessionState>,
    peer: Seq<u8>,
)
    requires
        set_in(a, peer, Some(DirectSessionState::Established), b),
        set_in(b, peer, a.lookup(peer), c),
    ensures
        forall|k: Seq<u8>| #[trigger] c.lookup(k) == a.lookup(k),
{
    assert forall|k: Seq<u8>| #[trigger] c.lookup(k) == a.lookup(k) by {
        if k != peer {
            assert(c.lookup(k) == b.lookup(k));
        }
    }
}

} // verus!
