//! The client's side of the handshake: the allow-list entry that names a
//! client, the outcome on the server's display count, and the placement of
//! the client's displays in the plane.

use vstd::prelude::*;

use crate::codec::{decode_warp_point, le_value, CodecError};
use crate::display::{Cid, Did, Display};
use crate::graph::DisplayGraph;
use crate::router::{clamp_i32, clamp_to_i32, reaches_server, returns_home};
use crate::graph::LayoutError;

verus! {

/// An entry of the server's allow-list.
#[derive(Debug, Clone, Copy, PartialEq, Eq, Structural)]
pub struct AuthorizedClient {
    pub cid: Cid,
}

/// Why a handshake ends without a session.
#[derive(Debug, Clone, Copy, PartialEq, Eq, Structural)]
pub enum HandshakeError {
    /// The server does not know the client.
    Unauthorised,
    /// The client's displays do not carry its own identifier.
    Desync,
    /// The server refused the client's displays.
    Layout(LayoutError),
}

/// What the client makes of the display count that the server sends: `0`
/// means that the server does not know it.
pub fn check_display_count(count: u32) -> (r: Result<(), HandshakeError>)
    ensures
        count == 0 ==> r == Err::<(), HandshakeError>(HandshakeError::Unauthorised),
        count != 0 ==> r is Ok,
{
    if count < 1 {
        Err(HandshakeError::Unauthorised)
    } else {
        Ok(())
    }
}

/// Index of the first entry of `config` named `name`, or `-1`.
pub open spec fn entry_named(config: Seq<Display>, name: Seq<char>) -> int
    decreases config.len(),
{
    if config.len() == 0 {
        -1
    } else if entry_named(config.drop_last(), name) >= 0 {
        entry_named(config.drop_last(), name)
    } else if config.last().name@ == name {
        config.len() - 1
    } else {
        -1
    }
}

proof fn lemma_entry_named(config: Seq<Display>, name: Seq<char>)
    ensures
        -1 <= entry_named(config, name) < config.len(),
        entry_named(config, name) >= 0 ==> config[entry_named(config, name)].name@ == name,
        entry_named(config, name) == -1 <==> forall|j: int|
            0 <= j < config.len() ==> (#[trigger] config[j]).name@ != name,
    decreases config.len(),
{
    if config.len() > 0 {
        lemma_entry_named(config.drop_last(), name);
        assert forall|j: int| 0 <= j < config.len() - 1 implies #[trigger] config[j] == config.drop_last()[j] by {}
    }
}

/// Every display has an entry of the same name in the saved placement.
pub open spec fn placement_covers(displays: Seq<Display>, config: Seq<Display>) -> bool {
    forall|i: int| 0 <= i < displays.len() ==> entry_named(config, (#[trigger] displays[i]).name@) >= 0
}

/// Index of the first entry of `config` named `name`.
fn find_entry(config: &Vec<Display>, name: &String) -> (r: Option<usize>)
    ensures
        r matches Some(j) ==> j < config@.len() && j as int == entry_named(config@, name@),
        r is None ==> entry_named(config@, name@) == -1,
{
    proof {
        lemma_entry_named(config@, name@);
    }
    let mut j: usize = 0;
    while j < config.len()
        invariant
            0 <= j <= config@.len(),
            -1 <= entry_named(config@, name@) < config@.len(),
            entry_named(config@, name@) >= 0 ==> config@[entry_named(config@, name@)].name@ == name@,
            entry_named(config@, name@) == -1 <==> forall|k: int|
                0 <= k < config@.len() ==> (#[trigger] config@[k]).name@ != name@,
            forall|k: int| 0 <= k < j ==> (#[trigger] config@[k]).name@ != name@,
        decreases config.len() - j,
    {
        if config[j].name == *name {
            assert(entry_named(config@, name@) >= 0);
            proof {
                let e = entry_named(config@, name@);
                if e > j {
                    lemma_first_entry(config@, name@, j as int);
                }
            }
            return Some(j);
        }
        j += 1;
    }
    None
}

proof fn lemma_first_entry(config: Seq<Display>, name: Seq<char>, j: int)
    requires
        0 <= j < config.len(),
        config[j].name@ == name,
    ensures
        0 <= entry_named(config, name) <= j,
    decreases config.len(),
{
    if j < config.len() - 1 {
        assert(config.drop_last()[j] == config[j]);
        lemma_first_entry(config.drop_last(), name, j);
    } else {
        lemma_entry_named(config.drop_last(), name);
    }
}

/// Places the displays as a saved placement says, matching them by name:
/// when every display has an entry, each takes the position of the first entry
/// of its name and the result is `true`; otherwise nothing moves and the result
/// is `false`.
pub fn apply_saved_positions(displays: &mut Vec<Display>, config: &Vec<Display>) -> (r: bool)
    ensures
        r == placement_covers(old(displays)@, config@),
        !r ==> final(displays)@ == old(displays)@,
        r ==> final(displays)@.len() == old(displays)@.len() && forall|i: int|
            0 <= i < final(displays)@.len() ==> #[trigger] final(displays)@[i] == (Display {
                x: config@[entry_named(config@, old(displays)@[i].name@)].x,
                y: config@[entry_named(config@, old(displays)@[i].name@)].y,
                ..old(displays)@[i]
            }),
{
    let mut i: usize = 0;
    while i < displays.len()
        invariant
            0 <= i <= displays@.len(),
            forall|k: int| 0 <= k < i ==> entry_named(config@, (#[trigger] displays@[k]).name@) >= 0,
        decreases displays.len() - i,
    {
        if find_entry(config, &displays[i].name).is_none() {
            return false;
        }
        i += 1;
    }
    let mut i: usize = 0;
    while i < displays.len()
        invariant
            0 <= i <= displays@.len(),
            displays@.len() == old(displays)@.len(),
            placement_covers(old(displays)@, config@),
            forall|k: int|
                0 <= k < i ==> #[trigger] displays@[k] == (Display {
                    x: config@[entry_named(config@, old(displays)@[k].name@)].x,
                    y: config@[entry_named(config@, old(displays)@[k].name@)].y,
                    ..old(displays)@[k]
                }),
            forall|k: int| i <= k < displays@.len() ==> #[trigger] displays@[k] == old(displays)@[k],
        decreases displays.len() - i,
    {
        assert(entry_named(config@, old(displays)@[i as int].name@) >= 0);
        match find_entry(config, &displays[i].name) {
            Some(j) => {
                let x = config[j].x;
                let y = config[j].y;
                displays[i].x = x;
                displays[i].y = y;
            },
            None => {},
        }
        i += 1;
    }
    true
}

/// The next display that the interactive placement asks about, after the
/// answer `answer` on display `i` of `total`: `'y'` goes on, `'n'` asks again,
/// `'p'` goes back one; any other answer repeats the question (`None`).
pub fn next_prompt_index(i: usize, total: usize, answer: char) -> (r: Option<usize>)
    requires
        i < total,
    ensures
        answer == 'y' ==> r == Some((i + 1) as usize),
        answer == 'n' ==> r == Some(i),
        answer == 'p' ==> r == Some(if i > 0 { (i - 1) as usize } else { 0usize }),
        answer != 'y' && answer != 'n' && answer != 'p' ==> r is None,
{
    if answer == 'y' {
        Some(i + 1)
    } else if answer == 'n' {
        Some(i)
    } else if answer == 'p' {
        if i > 0 {
            Some(i - 1)
        } else {
            Some(0)
        }
    } else {
        None
    }
}

/// The point `(lx, ly)` of the host's own screen lies on display `d`, whose
/// top-left corner the host's OS puts at `origin`.
pub open spec fn under_local(d: Display, origin: (i32, i32), lx: int, ly: int) -> bool {
    origin.0 <= lx < origin.0 + d.width && origin.1 <= ly < origin.1 + d.height
}

/// The display of this host under the pointer at `(lx, ly)` of the host's own
/// screen, and that point in the plane. `origins[i]` is where the host's OS
/// puts the top-left corner of `displays[i]`; the first display under the
/// point counts.
pub fn locate_pointer(displays: &Vec<Display>, origins: &Vec<(i32, i32)>, lx: i32, ly: i32) -> (r:
    Option<(Did, i32, i32)>)
    ensures
        r matches Some((did, px, py)) ==> exists|i: int|
            0 <= i < displays@.len() && i < origins@.len() && under_local(
                #[trigger] displays@[i],
                origins@[i],
                lx as int,
                ly as int,
            ) && (forall|j: int|
                0 <= j < i ==> !under_local(#[trigger] displays@[j], origins@[j], lx as int, ly as int))
                && did == displays@[i].id && px == clamp_i32(lx - origins@[i].0 + displays@[i].x)
                && py == clamp_i32(ly - origins@[i].1 + displays@[i].y),
        r is None ==> forall|j: int|
            0 <= j < displays@.len() && j < origins@.len() ==> !under_local(
                #[trigger] displays@[j],
                origins@[j],
                lx as int,
                ly as int,
            ),
{
    let n = if displays.len() < origins.len() {
        displays.len()
    } else {
        origins.len()
    };
    let mut i: usize = 0;
    while i < n
        invariant
            0 <= i <= n,
            n <= displays@.len(),
            n <= origins@.len(),
            n == displays@.len() || n == origins@.len(),
            forall|j: int|
                0 <= j < i ==> !under_local(#[trigger] displays@[j], origins@[j], lx as int, ly as int),
        decreases n - i,
    {
        let d = &displays[i];
        let (ox, oy) = origins[i];
        let right = ox as i64 + d.width as i64;
        let bottom = oy as i64 + d.height as i64;
        if ox <= lx && (lx as i64) < right && oy <= ly && (ly as i64) < bottom {
            let px = clamp_to_i32(lx as i64 - ox as i64 + d.x as i64);
            let py = clamp_to_i32(ly as i64 - oy as i64 + d.y as i64);
            return Some((d.id, px, py));
        }
        i += 1;
    }
    None
}

/// What the client makes of a frame from the server.
#[derive(Debug, Clone, Copy, PartialEq, Eq, Structural)]
pub enum Inbound {
    /// The pointer arrives: place it at this point of the display it enters.
    WarpTo(i32, i32),
    /// An input event to replay on this host.
    Replay,
    /// The frame is not the warp point that was due.
    Broken(CodecError),
}

/// The client's replay state: between a return and the next warp point the
/// pointer belongs to the server, and every frame is read as a warp point.
#[derive(Debug, Clone, Copy, PartialEq, Eq, Structural)]
pub struct Mirror {
    pub awaiting_warp: bool,
}

impl Mirror {
    /// After the handshake the pointer is still on the server's side.
    pub fn new() -> (r: Mirror)
        ensures
            r.awaiting_warp,
    {
        Mirror { awaiting_warp: true }
    }

    /// Reads one frame from the server: while a warp point is due the frame
    /// is one, and the client starts replaying; otherwise it is an event.
    pub fn on_frame(&mut self, payload: &[u8]) -> (r: Inbound)
        ensures
            old(self).awaiting_warp && payload@.len() < 8 ==> r == Inbound::Broken(
                CodecError::Truncated,
            ) && *final(self) == *old(self),
            old(self).awaiting_warp && payload@.len() >= 8 ==> r == Inbound::WarpTo(
                le_value(payload@) as u32 as i32,
                le_value(payload@.subrange(4, 8)) as u32 as i32,
            ) && !final(self).awaiting_warp,
            !old(self).awaiting_warp ==> r == Inbound::Replay && *final(self) == *old(self),
    {
        if !self.awaiting_warp {
            return Inbound::Replay;
        }
        match decode_warp_point(payload) {
            Ok((x, y)) => {
                self.awaiting_warp = false;
                Inbound::WarpTo(x, y)
            },
            Err(e) => Inbound::Broken(e),
        }
    }

    /// Watches a local pointer sample, at `(x, y)` of the plane on the
    /// client's display `current`: when it crosses back to a server display
    /// the result is `true`, the server must be told, and replay stops until
    /// the next warp point.
    pub fn on_pointer(&mut self, view: &DisplayGraph, current: Did, x: i32, y: i32) -> (r: bool)
        requires
            view.wf(),
        ensures
            r == (!old(self).awaiting_warp && returns_home(*view, current, x as int, y as int)),
            final(self).awaiting_warp == (old(self).awaiting_warp || r),
    {
        if self.awaiting_warp {
            return false;
        }
        if reaches_server(view, current, x, y) {
            self.awaiting_warp = true;
            true
        } else {
            false
        }
    }
}

} // verus!
