//! The routing state machine: which display holds the pointer, and where each
//! input event goes.

use vstd::prelude::*;

use crate::comm::{Action, Message};
use crate::display::{bottom, contains, right, Cid, Did, Display, WarpZone, ZoneDirection, SERVER_CID};
use crate::graph::DisplayGraph;

verus! {

/// How close to an edge, in pixels, a pointer sample must come to cross it.
pub const MARGIN: i32 = 2;

/// The sample `(x, y)` on display `cur` reaches the zone `z`: it lies within
/// `MARGIN` of the zone's edge and of its stretch along that edge.
pub open spec fn zone_hit(cur: Display, z: WarpZone, x: int, y: int) -> bool {
    let m = MARGIN as int;
    match z.direction {
        ZoneDirection::HorizontalLeft => z.start - m <= y <= z.end + m && x <= cur.x + m,
        ZoneDirection::HorizontalRight => z.start - m <= y <= z.end + m && x >= right(cur) - m,
        ZoneDirection::VerticalUp => z.start - m <= x <= z.end + m && y <= cur.y + m,
        ZoneDirection::VerticalDown => z.start - m <= x <= z.end + m && y >= bottom(cur) - m,
    }
}

/// Zone `i` is the first zone of `cur` that the sample reaches.
pub open spec fn first_hit(cur: Display, x: int, y: int, i: int) -> bool {
    &&& 0 <= i < cur.warpzones@.len()
    &&& zone_hit(cur, cur.warpzones@[i], x, y)
    &&& forall|j: int| 0 <= j < i ==> !zone_hit(cur, #[trigger] cur.warpzones@[j], x, y)
}

/// The sample reaches no zone of `cur`.
pub open spec fn no_hit(cur: Display, x: int, y: int) -> bool {
    forall|j: int| 0 <= j < cur.warpzones@.len() ==> !zone_hit(cur, #[trigger] cur.warpzones@[j], x, y)
}

/// `v`, held to the range of `i32`.
pub open spec fn clamp_i32(v: int) -> int {
    if v < i32::MIN {
        i32::MIN as int
    } else if v > i32::MAX {
        i32::MAX as int
    } else {
        v
    }
}

/// The point `(x, y)` of the plane in the coordinates of display `to`.
pub open spec fn warp_message(to: Display, x: int, y: int) -> Message {
    Message {
        disp: to.id,
        action: Action::Warp,
        x: clamp_i32(x - to.x) as i32,
        y: clamp_i32(y - to.y) as i32,
    }
}

/// Where an input event goes.
#[derive(Debug, Clone, Copy, PartialEq, Eq, Structural)]
pub enum Route {
    /// Deliver it to the server's own desktop.
    Local,
    /// Suppress it locally and forward it to the client.
    Forward(Cid),
    /// The pointer has just crossed onto a display of the client: send it the
    /// warp point and suppress the event locally.
    Warp(Cid, Message),
}

/// Index of the first zone of `cur` that the sample `(x, y)` reaches.
pub fn find_zone(cur: &Display, x: i32, y: i32) -> (r: Option<usize>)
    ensures
        r matches Some(i) ==> first_hit(*cur, x as int, y as int, i as int),
        r is None ==> no_hit(*cur, x as int, y as int),
{
    let m = MARGIN as i64;
    let px = x as i64;
    let py = y as i64;
    let right = cur.x as i64 + cur.width as i64;
    let bottom = cur.y as i64 + cur.height as i64;
    let mut i: usize = 0;
    while i < cur.warpzones.len()
        invariant
            0 <= i <= cur.warpzones@.len(),
            m == MARGIN,
            px == x,
            py == y,
            right == crate::display::right(*cur),
            bottom == crate::display::bottom(*cur),
            forall|j: int| 0 <= j < i ==> !zone_hit(*cur, #[trigger] cur.warpzones@[j], x as int, y as int),
        decreases cur.warpzones.len() - i,
    {
        let z = cur.warpzones[i];
        let start = z.start as i64 - m;
        let end = z.end as i64 + m;
        let hit = match z.direction {
            ZoneDirection::HorizontalLeft => start <= py && py <= end && px <= cur.x as i64 + m,
            ZoneDirection::HorizontalRight => start <= py && py <= end && px >= right - m,
            ZoneDirection::VerticalUp => start <= px && px <= end && py <= cur.y as i64 + m,
            ZoneDirection::VerticalDown => start <= px && px <= end && py >= bottom - m,
        };
        if hit {
            return Some(i);
        }
        i += 1;
    }
    None
}

/// Whichever display and sample: either the sample reaches no zone of the
/// display, or exactly one zone is the first that it reaches. A sample inside
/// the display and farther than `MARGIN` from each of its edges reaches none.
pub proof fn lemma_single_crossing(cur: Display, x: int, y: int)
    ensures
        no_hit(cur, x, y) || exists|i: int| #[trigger] first_hit(cur, x, y, i),
        forall|i: int, j: int| first_hit(cur, x, y, i) && first_hit(cur, x, y, j) ==> i == j,
        cur.x + MARGIN < x < right(cur) - MARGIN && cur.y + MARGIN < y < bottom(cur) - MARGIN
            ==> no_hit(cur, x, y),
{
    if !no_hit(cur, x, y) {
        lemma_first_hit_exists(cur, x, y, cur.warpzones@.len() as int);
    }
}

proof fn lemma_first_hit_exists(cur: Display, x: int, y: int, n: int)
    requires
        0 <= n <= cur.warpzones@.len(),
        exists|j: int| 0 <= j < n && zone_hit(cur, #[trigger] cur.warpzones@[j], x, y),
    ensures
        exists|i: int| #[trigger] first_hit(cur, x, y, i),
    decreases n,
{
    if exists|j: int| 0 <= j < n - 1 && zone_hit(cur, #[trigger] cur.warpzones@[j], x, y) {
        lemma_first_hit_exists(cur, x, y, n - 1);
    } else {
        assert(first_hit(cur, x, y, n - 1));
    }
}

/// The display `did` of `s` is owned by `owner`.
pub open spec fn owned_by(s: Seq<Display>, did: Did, owner: Cid) -> bool {
    exists|k: int| 0 <= k < s.len() && (#[trigger] s[k]).id == did && s[k].owner == owner
}

/// The display that the pointer is on, and whether it has been handed to a client.
#[derive(Debug, Clone, Copy, PartialEq, Eq, Structural)]
pub struct Router {
    /// The display that holds the pointer.
    pub current_did: Did,
    /// The host that owns it.
    pub current_owner: Cid,
    /// The pointer is on a client's display; edges are not watched until it returns.
    pub warping: bool,
}

/// The server display under the point `(x, y)`, or else the fallback display.
pub open spec fn home_display(g: DisplayGraph, x: int, y: int, did: Did) -> bool {
    let s = g.displays@;
    if exists|k: int|
        0 <= k < s.len() && (#[trigger] s[k]).owner == SERVER_CID && contains(s[k], x, y) {
        exists|k: int|
            0 <= k < s.len() && (#[trigger] s[k]).owner == SERVER_CID && contains(s[k], x, y)
                && s[k].id == did
    } else {
        did == g.focus
    }
}

/// The server display under the point `(x, y)`, else the fallback display.
fn locate_home(g: &DisplayGraph, x: i32, y: i32) -> (r: Did)
    requires
        g.wf(),
    ensures
        home_display(*g, x as int, y as int, r),
        owned_by(g.displays@, r, SERVER_CID),
{
    let mut i: usize = 0;
    while i < g.displays.len()
        invariant
            0 <= i <= g.displays@.len(),
            forall|k: int|
                0 <= k < i ==> !((#[trigger] g.displays@[k]).owner == SERVER_CID && contains(
                    g.displays@[k],
                    x as int,
                    y as int,
                )),
        decreases g.displays.len() - i,
    {
        if g.displays[i].owner == SERVER_CID && g.displays[i].contains(x, y) {
            return g.displays[i].id;
        }
        i += 1;
    }
    g.focus
}

impl Router {
    pub open spec fn wf(&self, g: DisplayGraph) -> bool {
        &&& owned_by(g.displays@, self.current_did, self.current_owner)
        &&& self.warping == (self.current_owner != SERVER_CID)
    }

    /// The state at start-up: the pointer, at `(x, y)`, is on the server display
    /// under it, else on the fallback display.
    pub fn new(g: &DisplayGraph, x: i32, y: i32) -> (r: Router)
        requires
            g.wf(),
        ensures
            r.wf(*g),
            home_display(*g, x as int, y as int, r.current_did),
            r.current_owner == SERVER_CID,
    {
        let did = locate_home(g, x, y);
        Router { current_did: did, current_owner: SERVER_CID, warping: false }
    }

    /// Where a key, button or wheel event goes: to the owner of the current display.
    pub fn route_other(&self) -> (r: Route)
        ensures
            self.current_owner == SERVER_CID ==> r == Route::Local,
            self.current_owner != SERVER_CID ==> r == Route::Forward(self.current_owner),
    {
        if self.current_owner == SERVER_CID {
            Route::Local
        } else {
            Route::Forward(self.current_owner)
        }
    }

    /// Where a pointer sample at `(x, y)` of the plane goes, and the crossing it
    /// makes: the first zone of the current display that it reaches moves the
    /// pointer to the zone's display. Onto a server display the sample is
    /// delivered locally; onto a client display the client gets the warp point
    /// and the sample is suppressed. While the pointer is on a client display
    /// samples are forwarded and no edge is watched.
    pub fn route_move(&mut self, g: &DisplayGraph, x: i32, y: i32) -> (r: Route)
        requires
            g.wf(),
            old(self).wf(*g),
        ensures
            final(self).wf(*g),
            old(self).warping ==> *final(self) == *old(self) && r == Route::Forward(
                old(self).current_owner,
            ),
            !old(self).warping ==> forall|c: int|
                0 <= c < g.displays@.len() && (#[trigger] g.displays@[c]).id
                    == old(self).current_did ==> {
                    let cur = g.displays@[c];
                    &&& no_hit(cur, x as int, y as int) ==> *final(self) == *old(self) && r
                        == Route::Local
                    &&& forall|i: int|
                        #[trigger] first_hit(cur, x as int, y as int, i) ==> forall|t: int|
                            0 <= t < g.displays@.len() && (#[trigger] g.displays@[t]).id
                                == cur.warpzones@[i].to ==> {
                                let to = g.displays@[t];
                                &&& final(self).current_did == to.id
                                &&& final(self).current_owner == to.owner
                                &&& to.owner == SERVER_CID ==> r == Route::Local
                                &&& to.owner != SERVER_CID ==> r == Route::Warp(
                                    to.owner,
                                    warp_message(to, x as int, y as int),
                                )
                            }
                },
    {
        if self.warping {
            return Route::Forward(self.current_owner);
        }
        let c = match g.index_of(self.current_did) {
            Some(c) => c,
            None => {
                return Route::Local;
            },
        };
        let cur = &g.displays[c];
        let i = match find_zone(cur, x, y) {
            Some(i) => i,
            None => {
                return Route::Local;
            },
        };
        let to_did = cur.warpzones[i].to;
        proof {
            let s = g.displays@;
            assert(s[c as int].warpzones@ == crate::graph::zones_in(s, c as int));
        }
        let t = match g.index_of(to_did) {
            Some(t) => t,
            None => {
                return Route::Local;
            },
        };
        let to = &g.displays[t];
        self.current_did = to.id;
        self.current_owner = to.owner;
        if to.owner == SERVER_CID {
            self.warping = false;
            Route::Local
        } else {
            self.warping = true;
            let wx = clamp_to_i32(x as i64 - to.x as i64);
            let wy = clamp_to_i32(y as i64 - to.y as i64);
            Route::Warp(to.owner, Message { disp: to.id, action: Action::Warp, x: wx, y: wy })
        }
    }

    /// The client `from` reports that the pointer has left its displays: the
    /// pointer, at `(x, y)`, is back on the server display under it, else on the
    /// fallback display. A report from any other host than the current owner
    /// changes nothing.
    pub fn on_return(&mut self, g: &DisplayGraph, from: Cid, x: i32, y: i32)
        requires
            g.wf(),
            old(self).wf(*g),
        ensures
            final(self).wf(*g),
            from == old(self).current_owner && from != SERVER_CID ==> {
                &&& final(self).current_owner == SERVER_CID
                &&& home_display(*g, x as int, y as int, final(self).current_did)
            },
            !(from == old(self).current_owner && from != SERVER_CID) ==> *final(self) == *old(self),
    {
        if from == self.current_owner && from != SERVER_CID {
            self.current_did = locate_home(g, x, y);
            self.current_owner = SERVER_CID;
            self.warping = false;
        }
    }

    /// The client `cid` is gone: if it held the pointer, the pointer falls back
    /// to the fallback display.
    pub fn on_disconnect(&mut self, g: &DisplayGraph, cid: Cid)
        requires
            g.wf(),
            old(self).wf(*g),
        ensures
            final(self).wf(*g),
            cid == old(self).current_owner && cid != SERVER_CID ==> final(self).current_did
                == g.focus && final(self).current_owner == SERVER_CID,
            !(cid == old(self).current_owner && cid != SERVER_CID) ==> *final(self) == *old(self),
    {
        if cid == self.current_owner && cid != SERVER_CID {
            self.current_did = g.focus;
            self.current_owner = SERVER_CID;
            self.warping = false;
        }
    }
}

/// On a client: the sample `(x, y)` of the plane, on the display `current`,
/// first reaches a zone that leads to a server display.
pub open spec fn returns_home(g: DisplayGraph, current: Did, x: int, y: int) -> bool {
    let s = g.displays@;
    exists|c: int, i: int, t: int|
        0 <= c < s.len() && s[c].id == current && #[trigger] first_hit(s[c], x, y, i) && 0 <= t
            < s.len() && #[trigger] s[t].id == s[c].warpzones@[i].to && s[t].owner == SERVER_CID
}

/// On a client: whether the pointer, sampled at `(x, y)` of the plane on the
/// display `current`, crosses back to a server display, so that the server
/// must be told.
pub fn reaches_server(g: &DisplayGraph, current: Did, x: i32, y: i32) -> (r: bool)
    requires
        g.wf(),
    ensures
        r == returns_home(*g, current, x as int, y as int),
{
    let s = Ghost(g.displays@);
    let c = match g.index_of(current) {
        Some(c) => c,
        None => {
            return false;
        },
    };
    let cur = &g.displays[c];
    let i = match find_zone(cur, x, y) {
        Some(i) => i,
        None => {
            proof {
                assert forall|c2: int, i2: int, t: int|
                    0 <= c2 < s@.len() && s@[c2].id == current && #[trigger] first_hit(
                        s@[c2],
                        x as int,
                        y as int,
                        i2,
                    ) implies !(0 <= t < s@.len() && #[trigger] s@[t].id == s@[c2].warpzones@[i2].to
                    && s@[t].owner == SERVER_CID) by {
                    assert(c2 == c as int);
                }
            }
            return false;
        },
    };
    let t = match g.index_of(cur.warpzones[i].to) {
        Some(t) => t,
        None => {
            proof {
                let sq = g.displays@;
                assert(sq[c as int].warpzones@ == crate::graph::zones_in(sq, c as int));
                crate::graph::lemma_zone_target(sq, c as int, i as int);
            }
            return false;
        },
    };
    let home = g.displays[t].owner == SERVER_CID;
    proof {
        lemma_single_crossing(g.displays@[c as int], x as int, y as int);
        if home {
            assert(first_hit(s@[c as int], x as int, y as int, i as int));
            assert(s@[t as int].id == s@[c as int].warpzones@[i as int].to);
        } else {
            assert forall|c2: int, i2: int, t2: int|
                0 <= c2 < s@.len() && s@[c2].id == current && #[trigger] first_hit(
                    s@[c2],
                    x as int,
                    y as int,
                    i2,
                ) implies !(0 <= t2 < s@.len() && #[trigger] s@[t2].id == s@[c2].warpzones@[i2].to
                && s@[t2].owner == SERVER_CID) by {
                assert(c2 == c as int);
                assert(i2 == i as int);
                if 0 <= t2 < s@.len() && s@[t2].id == s@[c2].warpzones@[i2].to {
                    assert(t2 == t as int);
                }
            }
        }
    }
    home
}

/// A router state stays valid when displays join the plane: the displays it
/// refers to keep their identifiers and owners.
pub proof fn lemma_router_outlives_join(r: Router, before: DisplayGraph, after: DisplayGraph)
    requires
        r.wf(before),
        before.displays@.len() <= after.displays@.len(),
        forall|k: int|
            0 <= k < before.displays@.len() ==> crate::graph::same_shape(
                #[trigger] after.displays@[k],
                before.displays@[k],
            ),
    ensures
        r.wf(after),
{
    let k = choose|k: int|
        0 <= k < before.displays@.len() && (#[trigger] before.displays@[k]).id == r.current_did
            && before.displays@[k].owner == r.current_owner;
    assert(crate::graph::same_shape(after.displays@[k], before.displays@[k]));
}

/// `v`, held to the range of `i32`.
pub(crate) fn clamp_to_i32(v: i64) -> (r: i32)
    ensures
        r == clamp_i32(v as int),
{
    if v < i32::MIN as i64 {
        i32::MIN
    } else if v > i32::MAX as i64 {
        i32::MAX
    } else {
        v as i32
    }
}

} // verus!
