//! The server's side of the handshake: whom it admits, and the client
//! displays it lets into the plane.

use vstd::prelude::*;

use crate::client::{AuthorizedClient, HandshakeError};
use crate::codec::HandshakeStatus;
use crate::display::{Cid, Did, Display, SERVER_CID};
use crate::graph::{attach_result, create_warpzones_hashmap, same_shapes, DisplayGraph};

verus! {

/// The allow-list names the client `cid`, which is not the server's own identifier.
pub open spec fn authorized(allowed: Seq<AuthorizedClient>, cid: Cid) -> bool {
    cid != SERVER_CID && exists|i: int| 0 <= i < allowed.len() && (#[trigger] allowed[i]).cid == cid
}

/// The number of displays, as the wire carries it.
pub open spec fn display_count(n: int) -> u32 {
    if n > u32::MAX {
        u32::MAX
    } else {
        n as u32
    }
}

/// Some display of a client's request is not marked as the client's own.
pub open spec fn desync(displays: Seq<Display>, cid: Cid) -> bool {
    exists|i: int| 0 <= i < displays.len() && (#[trigger] displays[i]).owner != cid
}

/// Whether the allow-list admits the client `cid`.
pub fn is_authorized(allowed: &Vec<AuthorizedClient>, cid: Cid) -> (r: bool)
    ensures
        r == authorized(allowed@, cid),
{
    if cid == SERVER_CID {
        return false;
    }
    let mut i: usize = 0;
    while i < allowed.len()
        invariant
            0 <= i <= allowed@.len(),
            cid != SERVER_CID,
            forall|k: int| 0 <= k < i ==> (#[trigger] allowed@[k]).cid != cid,
        decreases allowed.len() - i,
    {
        if allowed[i].cid == cid {
            assert(allowed@[i as int].cid == cid);
            return true;
        }
        i += 1;
    }
    false
}

/// The server's answer to `Hello(cid)`: the number of displays of the plane,
/// or `0` for a client that the allow-list does not admit.
pub fn hello_reply(allowed: &Vec<AuthorizedClient>, cid: Cid, graph: &DisplayGraph) -> (r: u32)
    requires
        graph.wf(),
    ensures
        authorized(allowed@, cid) ==> r == display_count(graph.displays@.len() as int) && r > 0,
        !authorized(allowed@, cid) ==> r == 0,
{
    if !is_authorized(allowed, cid) {
        return 0;
    }
    let n = graph.displays.len();
    if n > u32::MAX as usize {
        u32::MAX
    } else {
        n as u32
    }
}

/// Lets the displays of the client `cid` into the plane. Each must be marked
/// as the client's own (else `Desync`), and together they must pass the
/// layout checks (else the layout fault). On any fault the graph is left as it
/// was. On success the result holds the new displays' identifiers.
pub fn admit_displays(graph: &mut DisplayGraph, cid: Cid, displays: Vec<Display>) -> (r: Result<
    Vec<Did>,
    HandshakeError,
>)
    requires
        old(graph).wf(),
    ensures
        final(graph).wf(),
        final(graph).focus == old(graph).focus,
        desync(displays@, cid) ==> r == Err::<Vec<Did>, HandshakeError>(HandshakeError::Desync)
            && final(graph).displays@ == old(graph).displays@,
        !desync(displays@, cid) ==> match attach_result(
            old(graph).displays@ + displays@,
            old(graph).displays@.len() as int,
        ) {
            Ok(()) => r is Ok && same_shapes(final(graph).displays@, old(graph).displays@ + displays@)
                && r->Ok_0@ == displays@.map_values(|d: Display| d.id),
            Err(e) => r == Err::<Vec<Did>, HandshakeError>(HandshakeError::Layout(e))
                && final(graph).displays@ == old(graph).displays@,
        },
{
    let mut i: usize = 0;
    while i < displays.len()
        invariant
            0 <= i <= displays@.len(),
            *graph == *old(graph),
            old(graph).wf(),
            forall|k: int| 0 <= k < i ==> (#[trigger] displays@[k]).owner == cid,
        decreases displays.len() - i,
    {
        if displays[i].owner != cid {
            assert(displays@[i as int].owner != cid);
            return Err(HandshakeError::Desync);
        }
        i += 1;
    }
    match create_warpzones_hashmap(graph, displays) {
        Ok(ids) => Ok(ids),
        Err(e) => Err(HandshakeError::Layout(e)),
    }
}

/// The outcome that closes the handshake.
pub fn handshake_status(r: &Result<Vec<Did>, HandshakeError>) -> (s: HandshakeStatus)
    ensures
        r is Ok ==> s == HandshakeStatus::HandshakeOk,
        r is Err ==> s == HandshakeStatus::HandshakeErr,
{
    match r {
        Ok(_) => HandshakeStatus::HandshakeOk,
        Err(_) => HandshakeStatus::HandshakeErr,
    }
}

} // verus!
