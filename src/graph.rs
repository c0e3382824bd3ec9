//! The unified display graph: every display of the plane, validated as a
//! layout, with the warp zones along the edges that displays share.

use vstd::prelude::*;

use crate::display::{
    AssignedDisplays, fits, reverse_dir, lemma_overlap_symmetric, lemma_touch_symmetric, overlap, touch, well_formed, Did, Display, WarpZone, ZoneDirection, SERVER_CID,
};

verus! {

/// Why a set of displays cannot form (or join) the plane.
#[derive(Debug, Clone, Copy, PartialEq, Eq, Structural)]
pub enum LayoutError {
    /// No display at all.
    NoDisplays,
    /// A display belongs to the wrong side: a client display among the server's
    /// own, or a server display in a client's request.
    WrongOwner,
    /// A rectangle of non-positive size, or one whose far edge leaves the plane.
    Malformed,
    /// Two displays share one identifier.
    DuplicateId,
    /// Two displays share an area.
    Overlap,
    /// A client display touches no other display.
    Isolated,
}

/// Two displays agree on everything but their warp zones.
pub open spec fn same_shape(a: Display, b: Display) -> bool {
    &&& a.name == b.name
    &&& a.id == b.id
    &&& a.x == b.x
    &&& a.y == b.y
    &&& a.width == b.width
    &&& a.height == b.height
    &&& a.rotation_bits == b.rotation_bits
    &&& a.scale_factor_bits == b.scale_factor_bits
    &&& a.frequency_bits == b.frequency_bits
    &&& a.is_primary == b.is_primary
    &&& a.owner == b.owner
}

pub open spec fn same_shapes(s: Seq<Display>, t: Seq<Display>) -> bool {
    s.len() == t.len() && forall|k: int| 0 <= k < s.len() ==> same_shape(#[trigger] s[k], t[k])
}

/// The zone for a shared segment `t`, leading to the display `to`.
pub open spec fn zone_of(t: (int, int, ZoneDirection), to: Did) -> WarpZone {
    WarpZone { start: t.0 as i32, end: t.1 as i32, direction: t.2, to }
}

/// The warp zones of display `k` toward the displays `0 .. n` of `s`: one for
/// each display that `k` touches, in the order of `s`.
pub open spec fn zones_upto(s: Seq<Display>, k: int, n: int) -> Seq<WarpZone>
    decreases n,
{
    if n <= 0 {
        Seq::empty()
    } else {
        let prev = zones_upto(s, k, n - 1);
        if n - 1 != k && touch(s[k], s[n - 1]) is Some {
            prev.push(zone_of(touch(s[k], s[n - 1])->0, s[n - 1].id))
        } else {
            prev
        }
    }
}

/// The warp zones that display `k` of `s` has in a complete layout.
pub open spec fn zones_in(s: Seq<Display>, k: int) -> Seq<WarpZone> {
    zones_upto(s, k, s.len() as int)
}

pub open spec fn malformed_from(s: Seq<Display>, from: int) -> bool {
    exists|j: int| from <= j < s.len() && !well_formed(#[trigger] s[j])
}

pub open spec fn duplicate_from(s: Seq<Display>, from: int) -> bool {
    exists|i: int, j: int|
        0 <= i < j < s.len() && from <= j && (#[trigger] s[i]).id == (#[trigger] s[j]).id
}

pub open spec fn overlap_from(s: Seq<Display>, from: int) -> bool {
    exists|i: int, j: int|
        0 <= i < j < s.len() && from <= j && overlap(#[trigger] s[i], #[trigger] s[j])
}

/// Some display from index `from` on is owned by the server (`by_client`) or
/// by a client (`!by_client`).
pub open spec fn wrong_owner_from(s: Seq<Display>, from: int, by_client: bool) -> bool {
    exists|j: int| from <= j < s.len() && ((#[trigger] s[j]).owner == SERVER_CID) == by_client
}

/// Display `j` touches no other display of `s`.
pub open spec fn isolated(s: Seq<Display>, j: int) -> bool {
    forall|i: int| 0 <= i < s.len() && i != j ==> touch(s[j], #[trigger] s[i]) is None
}

pub open spec fn isolated_from(s: Seq<Display>, from: int) -> bool {
    exists|j: int| from <= j < s.len() && #[trigger] isolated(s, j)
}

/// The first geometric fault among the displays from index `from` on, judged
/// against every display before them.
pub open spec fn geometry_result(s: Seq<Display>, from: int) -> Result<(), LayoutError> {
    if malformed_from(s, from) {
        Err(LayoutError::Malformed)
    } else if duplicate_from(s, from) {
        Err(LayoutError::DuplicateId)
    } else if overlap_from(s, from) {
        Err(LayoutError::Overlap)
    } else {
        Ok(())
    }
}

/// Whether the client displays `s[from..]` may join the layout `s[..from]`.
pub open spec fn attach_result(s: Seq<Display>, from: int) -> Result<(), LayoutError> {
    if wrong_owner_from(s, from, true) {
        Err(LayoutError::WrongOwner)
    } else if geometry_result(s, from) is Err {
        geometry_result(s, from)
    } else if isolated_from(s, from) {
        Err(LayoutError::Isolated)
    } else {
        Ok(())
    }
}

/// Whether the server's own displays `s` may found a layout.
pub open spec fn local_result(s: Seq<Display>) -> Result<(), LayoutError> {
    if s.len() == 0 {
        Err(LayoutError::NoDisplays)
    } else if wrong_owner_from(s, 0, false) {
        Err(LayoutError::WrongOwner)
    } else {
        geometry_result(s, 0)
    }
}

/// A consistent layout: proper rectangles with distinct identifiers, no two of
/// them overlapping, every display holding exactly the zones of its shared
/// edges, and every client display touching some other display.
pub open spec fn valid_layout(s: Seq<Display>) -> bool {
    &&& forall|k: int| 0 <= k < s.len() ==> well_formed(#[trigger] s[k])
    &&& forall|i: int, j: int|
        0 <= i < s.len() && 0 <= j < s.len() && i != j ==> (#[trigger] s[i]).id != (
        #[trigger] s[j]).id
    &&& forall|i: int, j: int|
        0 <= i < s.len() && 0 <= j < s.len() && i != j ==> !overlap(#[trigger] s[i], #[trigger] s[j])
    &&& forall|k: int| 0 <= k < s.len() ==> (#[trigger] s[k]).warpzones@ == zones_in(s, k)
    &&& forall|k: int| 0 <= k < s.len() && (#[trigger] s[k]).owner != SERVER_CID ==> !isolated(s, k)
}

/// Zones depend on the shapes of the displays alone.
pub proof fn lemma_zones_upto_shape(s: Seq<Display>, t: Seq<Display>, k: int, n: int)
    requires
        0 <= k < s.len(),
        k < t.len(),
        n <= s.len(),
        n <= t.len(),
        same_shape(s[k], t[k]),
        forall|i: int| 0 <= i < n ==> same_shape(#[trigger] s[i], t[i]),
    ensures
        zones_upto(s, k, n) == zones_upto(t, k, n),
    decreases n,
{
    if n > 0 {
        lemma_zones_upto_shape(s, t, k, n - 1);
        assert(same_shape(s[n - 1], t[n - 1]));
    }
}


/// Gives the displays from index `start` on their zones toward the displays
/// before them, and those displays the zones back.
fn link_zones(ds: &mut Vec<Display>, start: usize)
    requires
        start <= old(ds).len(),
        forall|k: int| 0 <= k < old(ds).len() ==> well_formed(#[trigger] old(ds)@[k]),
        forall|k: int|
            0 <= k < start ==> (#[trigger] old(ds)@[k]).warpzones@ == zones_upto(
                old(ds)@,
                k,
                start as int,
            ),
        forall|k: int| start <= k < old(ds).len() ==> (#[trigger] old(ds)@[k]).warpzones@.len() == 0,
    ensures
        same_shapes(final(ds)@, old(ds)@),
        forall|k: int|
            0 <= k < final(ds)@.len() ==> (#[trigger] final(ds)@[k]).warpzones@ == zones_in(
                old(ds)@,
                k,
            ),
{
    let ghost g = ds@;
    let n = ds.len();
    let mut j = start;
    while j < n
        invariant
            start <= j <= n,
            n == ds@.len(),
            g.len() == n,
            same_shapes(ds@, g),
            forall|k: int| 0 <= k < n ==> well_formed(#[trigger] g[k]),
            forall|k: int| 0 <= k < j ==> (#[trigger] ds@[k]).warpzones@ == zones_upto(g, k, j as int),
            forall|k: int| j <= k < n ==> (#[trigger] ds@[k]).warpzones@.len() == 0,
        decreases n - j,
    {
        let mut i: usize = 0;
        while i < j
            invariant
                0 <= i <= j < n,
                n == ds@.len(),
                g.len() == n,
                same_shapes(ds@, g),
                forall|k: int| 0 <= k < n ==> well_formed(#[trigger] g[k]),
                forall|k: int|
                    0 <= k < i ==> (#[trigger] ds@[k]).warpzones@ == zones_upto(g, k, j + 1),
                forall|k: int|
                    i <= k < j ==> (#[trigger] ds@[k]).warpzones@ == zones_upto(g, k, j as int),
                ds@[j as int].warpzones@ == zones_upto(g, j as int, i as int),
                forall|k: int| j < k < n ==> (#[trigger] ds@[k]).warpzones@.len() == 0,
            decreases j - i,
        {
            proof {
                assert(same_shape(ds@[i as int], g[i as int]));
                assert(same_shape(ds@[j as int], g[j as int]));
                lemma_touch_symmetric(g[i as int], g[j as int]);
            }
            let t = ds[i].is_touch(&ds[j]);
            match t {
                Some((s, e, d)) => {
                    let to_j = ds[j].id;
                    let to_i = ds[i].id;
                    let r = d.reverse();
                    ds[i].warpzones.push(WarpZone { start: s, end: e, direction: d, to: to_j });
                    ds[j].warpzones.push(WarpZone { start: s, end: e, direction: r, to: to_i });
                },
                None => {},
            }
            i += 1;
        }
        assert(zones_upto(g, j as int, j + 1) == zones_upto(g, j as int, j as int));
        j += 1;
    }
}

/// Whether some display from index `from` on belongs to the server
/// (`by_client`) or to a client (`!by_client`).
fn has_wrong_owner(ds: &Vec<Display>, from: usize, by_client: bool) -> (r: bool)
    requires
        from <= ds.len(),
    ensures
        r == wrong_owner_from(ds@, from as int, by_client),
{
    let mut j = from;
    while j < ds.len()
        invariant
            from <= j <= ds.len(),
            forall|k: int| from <= k < j ==> ((#[trigger] ds@[k]).owner == SERVER_CID) != by_client,
        decreases ds.len() - j,
    {
        if (ds[j].owner == SERVER_CID) == by_client {
            assert(from <= j && ((ds@[j as int]).owner == SERVER_CID) == by_client);
            return true;
        }
        j += 1;
    }
    false
}

/// The first geometric fault of the displays from index `from` on.
fn check_geometry(ds: &Vec<Display>, from: usize) -> (r: Result<(), LayoutError>)
    requires
        from <= ds.len(),
        forall|k: int| 0 <= k < from ==> well_formed(#[trigger] ds@[k]),
    ensures
        r == geometry_result(ds@, from as int),
{
    let n = ds.len();
    let mut j = from;
    while j < n
        invariant
            from <= j <= n,
            n == ds.len(),
            forall|k: int| from <= k < j ==> well_formed(#[trigger] ds@[k]),
        decreases n - j,
    {
        if !ds[j].is_well_formed() {
            assert(!well_formed(ds@[j as int]));
            return Err(LayoutError::Malformed);
        }
        j += 1;
    }
    assert(!malformed_from(ds@, from as int));
    let mut j = from;
    while j < n
        invariant
            from <= j <= n,
            n == ds.len(),
            forall|a: int, b: int|
                0 <= a < b < j && from <= b ==> (#[trigger] ds@[a]).id != (#[trigger] ds@[b]).id,
        !malformed_from(ds@, from as int),
        decreases n - j,
    {
        let mut i: usize = 0;
        while i < j
            invariant
                0 <= i <= j < n,
                from <= j,
                n == ds.len(),
                forall|a: int, b: int|
                    0 <= a < b < j && from <= b ==> (#[trigger] ds@[a]).id != (#[trigger] ds@[b]).id,
                forall|a: int| 0 <= a < i ==> (#[trigger] ds@[a]).id != ds@[j as int].id,
                !malformed_from(ds@, from as int),
            decreases j - i,
        {
            if ds[i].id == ds[j].id {
                assert(ds@[i as int].id == ds@[j as int].id);
                return Err(LayoutError::DuplicateId);
            }
            i += 1;
        }
        j += 1;
    }
    assert(!duplicate_from(ds@, from as int));
    let mut j = from;
    while j < n
        invariant
            from <= j <= n,
            n == ds.len(),
            !malformed_from(ds@, from as int),
            !duplicate_from(ds@, from as int),
            forall|a: int, b: int|
                0 <= a < b < j && from <= b ==> !overlap(#[trigger] ds@[a], #[trigger] ds@[b]),
        decreases n - j,
    {
        let mut i: usize = 0;
        while i < j
            invariant
                0 <= i <= j < n,
                from <= j,
                n == ds.len(),
                forall|a: int, b: int|
                    0 <= a < b < j && from <= b ==> !overlap(#[trigger] ds@[a], #[trigger] ds@[b]),
                forall|a: int| 0 <= a < i ==> !overlap(#[trigger] ds@[a], ds@[j as int]),
                !malformed_from(ds@, from as int),
                !duplicate_from(ds@, from as int),
            decreases j - i,
        {
            if ds[i].is_overlap(&ds[j]) {
                assert(overlap(ds@[i as int], ds@[j as int]));
                return Err(LayoutError::Overlap);
            }
            i += 1;
        }
        j += 1;
    }
    assert(!overlap_from(ds@, from as int));
    Ok(())
}

/// Whether some display from index `from` on touches no other display.
fn has_isolated(ds: &Vec<Display>, from: usize) -> (r: bool)
    requires
        from <= ds.len(),
        forall|k: int| 0 <= k < ds.len() ==> fits(#[trigger] ds@[k]),
    ensures
        r == isolated_from(ds@, from as int),
{
    let n = ds.len();
    let mut j = from;
    while j < n
        invariant
            from <= j <= n,
            n == ds.len(),
            forall|k: int| 0 <= k < n ==> fits(#[trigger] ds@[k]),
            forall|k: int| from <= k < j ==> !isolated(ds@, k),
        decreases n - j,
    {
        let mut found = false;
        let mut i: usize = 0;
        while i < n
            invariant
                0 <= i <= n,
                from <= j < n,
                n == ds.len(),
                forall|k: int| 0 <= k < n ==> fits(#[trigger] ds@[k]),
                found <==> exists|a: int|
                    0 <= a < i && a != j && touch(ds@[j as int], #[trigger] ds@[a]) is Some,
            decreases n - i,
        {
            if i != j && ds[j].is_touch(&ds[i]).is_some() {
                found = true;
            }
            i += 1;
        }
        if !found {
            assert(isolated(ds@, j as int));
            return true;
        }
        j += 1;
    }
    false
}


/// Whether display `k` touches no other display does not depend on zones.
proof fn lemma_isolated_shape(s: Seq<Display>, t: Seq<Display>, k: int)
    requires
        same_shapes(s, t),
        0 <= k < s.len(),
    ensures
        isolated(s, k) == isolated(t, k),
{
    assert forall|i: int| 0 <= i < s.len() implies touch(s[k], s[i]) == touch(t[k], t[i]) by {
        assert(same_shape(s[k], t[k]));
        assert(same_shape(s[i], t[i]));
    }
}

/// A valid layout `old_s`, followed by displays that pass the geometric checks
/// against it, all holding their complete zones, is a valid layout, provided
/// that every new client display touches another display.
proof fn lemma_joined_layout(old_s: Seq<Display>, s: Seq<Display>, from: int)
    requires
        0 <= from <= s.len(),
        old_s.len() == from,
        valid_layout(old_s),
        forall|k: int| 0 <= k < from ==> same_shape(#[trigger] s[k], old_s[k]),
        geometry_result(s, from) is Ok,
        forall|k: int|
            from <= k < s.len() && (#[trigger] s[k]).owner != SERVER_CID ==> !isolated(s, k),
        forall|k: int| 0 <= k < s.len() ==> (#[trigger] s[k]).warpzones@ == zones_in(s, k),
    ensures
        valid_layout(s),
{
    assert forall|k: int| 0 <= k < s.len() implies well_formed(#[trigger] s[k]) by {
        if k < from {
            assert(well_formed(old_s[k]));
        } else {
            assert(!malformed_from(s, from));
        }
    }
    assert forall|i: int, j: int|
        0 <= i < s.len() && 0 <= j < s.len() && i != j implies (#[trigger] s[i]).id != (
        #[trigger] s[j]).id && !overlap(s[i], s[j]) by {
        lemma_overlap_symmetric(s[i], s[j]);
        if i < from && j < from {
            assert(old_s[i].id != old_s[j].id);
            assert(!overlap(old_s[i], old_s[j]));
        } else if i < j {
            assert(!duplicate_from(s, from));
            assert(!overlap_from(s, from));
        } else {
            assert(!duplicate_from(s, from));
            assert(!overlap_from(s, from));
            assert(s[j].id != s[i].id);
            assert(!overlap(s[j], s[i]));
        }
    }
    assert forall|k: int|
        0 <= k < s.len() && (#[trigger] s[k]).owner != SERVER_CID implies !isolated(s, k) by {
        if k < from {
            assert(!isolated(old_s, k));
            let i = choose|i: int| 0 <= i < old_s.len() && i != k && touch(old_s[k], old_s[i]) is Some;
            assert(same_shape(s[i], old_s[i]));
            assert(touch(s[k], s[i]) is Some);
        }
    }
}

/// Validates `displays` as a layout and gives each display its warp zones: one
/// for every display it touches, in the order of `displays`, and the mirror
/// zone on that display. Zones that the displays carried before are dropped.
pub fn create_warpzones(displays: Vec<Display>) -> (r: Result<Vec<Display>, LayoutError>)
    ensures
        r is Ok <==> geometry_result(displays@, 0) is Ok,
        r matches Err(e) ==> geometry_result(displays@, 0) == Err::<(), LayoutError>(e),
        r matches Ok(ds) ==> same_shapes(ds@, displays@) && forall|k: int|
            0 <= k < ds@.len() ==> (#[trigger] ds@[k]).warpzones@ == zones_in(ds@, k),
{
    let mut ds = displays;
    match check_geometry(&ds, 0) {
        Err(e) => {
            return Err(e);
        },
        Ok(()) => {},
    }
    assert(!malformed_from(ds@, 0));
    clear_zones(&mut ds, 0);
    let ghost pre = ds@;
    link_zones(&mut ds, 0);
    proof {
        assert forall|k: int| 0 <= k < ds@.len() implies (#[trigger] ds@[k]).warpzones@
            == zones_in(ds@, k) by {
            lemma_zones_upto_shape(ds@, pre, k, ds@.len() as int);
        }
    }
    Ok(ds)
}

/// Drops the zones of the displays from index `from` on.
fn clear_zones(ds: &mut Vec<Display>, from: usize)
    requires
        from <= old(ds).len(),
    ensures
        same_shapes(final(ds)@, old(ds)@),
        forall|k: int| 0 <= k < from ==> #[trigger] final(ds)@[k] == old(ds)@[k],
        forall|k: int| from <= k < final(ds)@.len() ==> (#[trigger] final(ds)@[k]).warpzones@.len() == 0,
{
    let ghost g = ds@;
    let mut k = from;
    while k < ds.len()
        invariant
            from <= k <= ds.len(),
            g == old(ds)@,
            same_shapes(ds@, g),
            forall|a: int| 0 <= a < from ==> #[trigger] ds@[a] == g[a],
            forall|a: int| from <= a < k ==> (#[trigger] ds@[a]).warpzones@.len() == 0,
        decreases ds.len() - k,
    {
        ds[k].warpzones = Vec::new();
        k += 1;
    }
}

/// Index of the first primary display of `s` from `i` on, or `-1`.
pub open spec fn first_primary_from(s: Seq<Display>, i: int) -> int
    decreases s.len() - i,
{
    if i < 0 || i >= s.len() {
        -1
    } else if s[i].is_primary {
        i
    } else {
        first_primary_from(s, i + 1)
    }
}

/// The display that the server falls back to: the first primary one, else the first.
pub open spec fn focus_of(s: Seq<Display>) -> Did {
    if first_primary_from(s, 0) >= 0 {
        s[first_primary_from(s, 0)].id
    } else {
        s[0].id
    }
}

pub proof fn lemma_first_primary_range(s: Seq<Display>, i: int)
    requires
        0 <= i,
    ensures
        first_primary_from(s, i) == -1 || (i <= first_primary_from(s, i) < s.len()),
    decreases s.len() - i,
{
    if i < s.len() && !s[i].is_primary {
        lemma_first_primary_range(s, i + 1);
    }
}

/// Every display of the plane, with the warp zones between them.
#[derive(Debug)]
pub struct DisplayGraph {
    /// The displays in the order in which they joined.
    pub displays: Vec<Display>,
    /// The server display that the pointer falls back to.
    pub focus: Did,
}

impl DisplayGraph {
    pub open spec fn wf(&self) -> bool {
        &&& valid_layout(self.displays@)
        &&& self.displays@.len() > 0
        &&& exists|k: int|
            0 <= k < self.displays@.len() && (#[trigger] self.displays@[k]).id == self.focus
                && self.displays@[k].owner == SERVER_CID
    }

    /// Founds the plane on the server's own displays, with the first primary
    /// display (else the first) as the fallback for the pointer.
    pub fn new(system: Vec<Display>) -> (r: Result<DisplayGraph, LayoutError>)
        ensures
            r is Ok <==> local_result(system@) is Ok,
            r matches Err(e) ==> local_result(system@) == Err::<(), LayoutError>(e),
            r matches Ok(g) ==> g.wf() && same_shapes(g.displays@, system@) && g.focus == focus_of(
                system@,
            ),
    {
        if system.len() == 0 {
            return Err(LayoutError::NoDisplays);
        }
        if has_wrong_owner(&system, 0, false) {
            return Err(LayoutError::WrongOwner);
        }
        let ghost sys = system@;
        let displays = match create_warpzones(system) {
            Err(e) => {
                return Err(e);
            },
            Ok(ds) => ds,
        };
        let mut focus = displays[0].id;
        let mut found = false;
        let mut i: usize = 0;
        while i < displays.len()
            invariant
                0 <= i <= displays@.len(),
                displays@.len() > 0,
                same_shapes(displays@, sys),
                found ==> focus == focus_of(sys),
                !found ==> focus == displays@[0].id && first_primary_from(sys, 0)
                    == first_primary_from(sys, i as int),
            decreases displays.len() - i,
        {
            if !found && displays[i].is_primary {
                assert(same_shape(displays@[i as int], sys[i as int]));
                focus = displays[i].id;
                found = true;
            } else if !found {
                assert(same_shape(displays@[i as int], sys[i as int]));
            }
            i += 1;
        }
        proof {
            assert(same_shape(displays@[0], sys[0]));
            lemma_first_primary_range(sys, 0);
            let f = first_primary_from(sys, 0);
            if f >= 0 {
                assert(same_shape(displays@[f], sys[f]));
                assert(!wrong_owner_from(sys, 0, false));
                assert(displays@[f].owner == SERVER_CID);
            } else {
                assert(!wrong_owner_from(sys, 0, false));
                assert(displays@[0].owner == SERVER_CID);
            }
            assert forall|k: int| 0 <= k < displays@.len() && (#[trigger] displays@[k]).owner
                != SERVER_CID implies !isolated(displays@, k) by {
                assert(same_shape(displays@[k], sys[k]));
                assert(!wrong_owner_from(sys, 0, false));
            }
            lemma_joined_layout(Seq::empty(), displays@, 0);
        }
        Ok(DisplayGraph { displays, focus })
    }
}

impl DisplayGraph {
    /// Index of the display with identifier `did`.
    pub fn index_of(&self, did: Did) -> (r: Option<usize>)
        ensures
            r matches Some(i) ==> i < self.displays@.len() && self.displays@[i as int].id == did,
            r is None ==> forall|k: int|
                0 <= k < self.displays@.len() ==> (#[trigger] self.displays@[k]).id != did,
    {
        let mut i: usize = 0;
        while i < self.displays.len()
            invariant
                0 <= i <= self.displays@.len(),
                forall|k: int| 0 <= k < i ==> (#[trigger] self.displays@[k]).id != did,
            decreases self.displays.len() - i,
        {
            if self.displays[i].id == did {
                return Some(i);
            }
            i += 1;
        }
        None
    }

    /// The display with identifier `did`.
    pub fn get(&self, did: Did) -> (r: Option<&Display>)
        ensures
            r matches Some(d) ==> exists|k: int|
                0 <= k < self.displays@.len() && #[trigger] self.displays@[k] == *d && d.id == did,
            r is None ==> forall|k: int|
                0 <= k < self.displays@.len() ==> (#[trigger] self.displays@[k]).id != did,
    {
        match self.index_of(did) {
            Some(i) => Some(&self.displays[i]),
            None => None,
        }
    }

    /// The warp zones that lead out of the display `did`.
    pub fn touching_zones(&self, did: Did) -> (r: Option<&Vec<WarpZone>>)
        ensures
            r matches Some(zs) ==> exists|k: int|
                0 <= k < self.displays@.len() && (#[trigger] self.displays@[k]).id == did
                    && self.displays@[k].warpzones == *zs,
            r is None ==> forall|k: int|
                0 <= k < self.displays@.len() ==> (#[trigger] self.displays@[k]).id != did,
    {
        match self.index_of(did) {
            Some(i) => Some(&self.displays[i].warpzones),
            None => None,
        }
    }

    /// The identifiers of the server's displays and of the clients' displays,
    /// each in the order of the graph.
    pub fn assigned(&self) -> (r: AssignedDisplays)
        ensures
            r.system@ == ids_owned(self.displays@, true),
            r.client@ == ids_owned(self.displays@, false),
    {
        let mut system: Vec<Did> = Vec::new();
        let mut client: Vec<Did> = Vec::new();
        let mut i: usize = 0;
        while i < self.displays.len()
            invariant
                0 <= i <= self.displays@.len(),
                system@ == ids_owned(self.displays@.subrange(0, i as int), true),
                client@ == ids_owned(self.displays@.subrange(0, i as int), false),
            decreases self.displays.len() - i,
        {
            let ghost next = self.displays@.subrange(0, i + 1);
            assert(next.drop_last() =~= self.displays@.subrange(0, i as int));
            if self.displays[i].owner == SERVER_CID {
                system.push(self.displays[i].id);
            } else {
                client.push(self.displays[i].id);
            }
            i += 1;
        }
        assert(self.displays@.subrange(0, i as int) =~= self.displays@);
        AssignedDisplays { system, client }
    }
}

/// The identifiers of the displays of `s` owned by the server (`server`) or
/// by clients (`!server`), in the order of `s`.
pub open spec fn ids_owned(s: Seq<Display>, server: bool) -> Seq<Did>
    decreases s.len(),
{
    if s.len() == 0 {
        Seq::empty()
    } else {
        let prev = ids_owned(s.drop_last(), server);
        if (s.last().owner == SERVER_CID) == server {
            prev.push(s.last().id)
        } else {
            prev
        }
    }
}

/// Joins a client's displays to the plane: they are checked against the
/// displays already there and against each other, and, when none is at fault,
/// added with the warp zones of every edge they share. On a fault the graph is
/// left as it was.
pub fn create_warpzones_hashmap(graph: &mut DisplayGraph, b: Vec<Display>) -> (r: Result<
    Vec<Did>,
    LayoutError,
>)
    requires
        old(graph).wf(),
    ensures
        final(graph).wf(),
        r is Ok <==> attach_result(old(graph).displays@ + b@, old(graph).displays@.len() as int) is Ok,
        r matches Err(e) ==> attach_result(
            old(graph).displays@ + b@,
            old(graph).displays@.len() as int,
        ) == Err::<(), LayoutError>(e) && final(graph).displays@ == old(graph).displays@,
        r matches Ok(ids) ==> same_shapes(final(graph).displays@, old(graph).displays@ + b@)
            && ids@ == b@.map_values(|d: Display| d.id),
        final(graph).focus == old(graph).focus,
{
    let ghost old_s = graph.displays@;
    let ghost joined = graph.displays@ + b@;
    let n = graph.displays.len();
    let mut incoming = b;
    graph.displays.append(&mut incoming);
    assert(graph.displays@ == joined);
    assert forall|k: int| 0 <= k < n implies well_formed(#[trigger] graph.displays@[k]) by {
        assert(graph.displays@[k] == old_s[k]);
    }
    if has_wrong_owner(&graph.displays, n, true) {
        graph.displays.truncate(n);
        assert(graph.displays@ =~= old_s);
        return Err(LayoutError::WrongOwner);
    }
    match check_geometry(&graph.displays, n) {
        Err(e) => {
            graph.displays.truncate(n);
            assert(graph.displays@ =~= old_s);
            return Err(e);
        },
        Ok(()) => {},
    }
    assert(!malformed_from(joined, n as int));
    if has_isolated(&graph.displays, n) {
        graph.displays.truncate(n);
        assert(graph.displays@ =~= old_s);
        return Err(LayoutError::Isolated);
    }
    let mut ids: Vec<Did> = Vec::new();
    let mut k = n;
    while k < graph.displays.len()
        invariant
            n <= k <= graph.displays@.len(),
            graph.displays@ == joined,
            joined == old_s + b@,
            old_s.len() == n,
            ids@ == b@.subrange(0, k - n).map_values(|d: Display| d.id),
        decreases graph.displays.len() - k,
    {
        ids.push(graph.displays[k].id);
        assert(joined[k as int] == b@[k - n]);
        assert(ids@ =~= b@.subrange(0, k + 1 - n).map_values(|d: Display| d.id));
        k += 1;
    }
    assert(b@.subrange(0, b@.len() as int) =~= b@);
    clear_zones(&mut graph.displays, n);
    let ghost pre = graph.displays@;
    proof {
        assert forall|k: int| 0 <= k < n implies (#[trigger] pre[k]).warpzones@ == zones_upto(
            pre,
            k,
            n as int,
        ) by {
            assert(pre[k] == old_s[k]);
            assert forall|i: int| 0 <= i < n implies same_shape(#[trigger] pre[i], old_s[i]) by {
                assert(pre[i] == old_s[i]);
            }
            lemma_zones_upto_shape(pre, old_s, k, n as int);
        }
    }
    link_zones(&mut graph.displays, n);
    proof {
        let s = graph.displays@;
        assert forall|k: int| 0 <= k < s.len() implies (#[trigger] s[k]).warpzones@ == zones_in(
            s,
            k,
        ) by {
            lemma_zones_upto_shape(s, pre, k, s.len() as int);
        }
        assert forall|k: int| n <= k < s.len() && (#[trigger] s[k]).owner != SERVER_CID implies !isolated(
            s,
            k,
        ) by {
            assert(!isolated_from(joined, n as int));
            assert(!isolated(joined, k));
            lemma_isolated_shape(s, joined, k);
        }
        assert forall|k: int| 0 <= k < n implies same_shape(#[trigger] s[k], old_s[k]) by {
            assert(same_shape(s[k], pre[k]));
            assert(pre[k] == old_s[k]);
        }
        assert(geometry_result(s, n as int) == geometry_result(joined, n as int)) by {
            assert forall|j: int| 0 <= j < s.len() implies same_shape(#[trigger] s[j], joined[j]) by {
                assert(same_shape(s[j], pre[j]));
            }
            assert(malformed_from(s, n as int) == malformed_from(joined, n as int));
            assert(duplicate_from(s, n as int) == duplicate_from(joined, n as int));
            assert(overlap_from(s, n as int) == overlap_from(joined, n as int));
        }
        lemma_joined_layout(old_s, s, n as int);
        let f = choose|f: int|
            0 <= f < old_s.len() && (#[trigger] old_s[f]).id == graph.focus && old_s[f].owner
                == SERVER_CID;
        assert(same_shape(s[f], old_s[f]));
    }
    Ok(ids)
}


/// Each zone of display `k` toward `0 .. n` leads to a display that `k` touches,
/// over the segment they share.
proof fn lemma_zones_upto_member(s: Seq<Display>, k: int, n: int, m: int)
    requires
        0 <= k < s.len(),
        n <= s.len(),
        0 <= m < zones_upto(s, k, n).len(),
    ensures
        exists|i: int|
            0 <= i < n && i != k && #[trigger] touch(s[k], s[i]) is Some && zones_upto(s, k, n)[m]
                == zone_of(touch(s[k], s[i])->0, s[i].id),
    decreases n,
{
    if n > 0 {
        let prev = zones_upto(s, k, n - 1);
        if m < prev.len() {
            lemma_zones_upto_member(s, k, n - 1, m);
            let i = choose|i: int|
                0 <= i < n - 1 && i != k && #[trigger] touch(s[k], s[i]) is Some && prev[m]
                    == zone_of(touch(s[k], s[i])->0, s[i].id);
            assert(zones_upto(s, k, n)[m] == prev[m]);
        } else {
            assert(touch(s[k], s[n - 1]) is Some);
        }
    }
}

/// Display `k` has a zone toward each display of `0 .. n` that it touches.
proof fn lemma_zones_upto_complete(s: Seq<Display>, k: int, n: int, i: int)
    requires
        0 <= k < s.len(),
        n <= s.len(),
        0 <= i < n,
        i != k,
        touch(s[k], s[i]) is Some,
    ensures
        exists|m: int|
            0 <= m < zones_upto(s, k, n).len() && #[trigger] zones_upto(s, k, n)[m] == zone_of(
                touch(s[k], s[i])->0,
                s[i].id,
            ),
    decreases n,
{
    let z = zone_of(touch(s[k], s[i])->0, s[i].id);
    if i == n - 1 {
        assert(zones_upto(s, k, n)[zones_upto(s, k, n).len() - 1] == z);
    } else {
        lemma_zones_upto_complete(s, k, n - 1, i);
        let m = choose|m: int|
            0 <= m < zones_upto(s, k, n - 1).len() && #[trigger] zones_upto(s, k, n - 1)[m] == z;
        assert(zones_upto(s, k, n)[m] == z);
    }
}

/// With distinct identifiers, display `k` has at most one zone toward each display.
proof fn lemma_zones_upto_unique(s: Seq<Display>, k: int, n: int, m1: int, m2: int)
    requires
        0 <= k < s.len(),
        n <= s.len(),
        forall|i: int, j: int|
            0 <= i < s.len() && 0 <= j < s.len() && i != j ==> (#[trigger] s[i]).id != (
            #[trigger] s[j]).id,
        0 <= m1 < zones_upto(s, k, n).len(),
        0 <= m2 < zones_upto(s, k, n).len(),
        zones_upto(s, k, n)[m1].to == zones_upto(s, k, n)[m2].to,
    ensures
        m1 == m2,
    decreases n,
{
    if n > 0 {
        let prev = zones_upto(s, k, n - 1);
        if m1 < prev.len() && m2 < prev.len() {
            lemma_zones_upto_unique(s, k, n - 1, m1, m2);
        } else if m1 < prev.len() || m2 < prev.len() {
            let m = if m1 < prev.len() { m1 } else { m2 };
            lemma_zones_upto_member(s, k, n - 1, m);
            let i = choose|i: int|
                0 <= i < n - 1 && i != k && #[trigger] touch(s[k], s[i]) is Some && prev[m]
                    == zone_of(touch(s[k], s[i])->0, s[i].id);
            assert(s[i].id != s[n - 1].id);
        }
    }
}

/// Every warp zone has exactly one mirror: on the display that it leads to, a
/// zone over the same segment, in the reverse direction, leading back; and
/// that display holds no other zone leading back.
pub proof fn lemma_symmetric_zones(g: DisplayGraph, a: int, m: int)
    requires
        g.wf(),
        0 <= a < g.displays@.len(),
        0 <= m < g.displays@[a].warpzones@.len(),
    ensures
        ({
            let s = g.displays@;
            let z = s[a].warpzones@[m];
            exists|b: int, n: int|
                0 <= b < s.len() && s[b].id == z.to && 0 <= n < s[b].warpzones@.len()
                    && #[trigger] s[b].warpzones@[n] == (WarpZone {
                    start: z.start,
                    end: z.end,
                    direction: reverse_dir(z.direction),
                    to: s[a].id,
                }) && forall|n2: int|
                    0 <= n2 < s[b].warpzones@.len() && (#[trigger] s[b].warpzones@[n2]).to
                        == s[a].id ==> n2 == n
        }),
{
    let s = g.displays@;
    assert(s[a].warpzones@ == zones_in(s, a));
    lemma_zones_upto_member(s, a, s.len() as int, m);
    let b = choose|b: int|
        0 <= b < s.len() && b != a && #[trigger] touch(s[a], s[b]) is Some && zones_in(s, a)[m]
            == zone_of(touch(s[a], s[b])->0, s[b].id);
    assert(well_formed(s[a]) && well_formed(s[b]));
    lemma_touch_symmetric(s[a], s[b]);
    lemma_zones_upto_complete(s, b, s.len() as int, a);
    assert(s[b].warpzones@ == zones_in(s, b));
    let n = choose|n: int|
        0 <= n < zones_in(s, b).len() && #[trigger] zones_in(s, b)[n] == zone_of(
            touch(s[b], s[a])->0,
            s[a].id,
        );
    assert forall|n2: int|
        0 <= n2 < s[b].warpzones@.len() && (#[trigger] s[b].warpzones@[n2]).to == s[a].id implies n2
        == n by {
        lemma_zones_upto_unique(s, b, s.len() as int, n, n2);
    }
    assert(s[b].warpzones@[n] == (WarpZone {
        start: s[a].warpzones@[m].start,
        end: s[a].warpzones@[m].end,
        direction: reverse_dir(s[a].warpzones@[m].direction),
        to: s[a].id,
    }));
}

/// In a valid layout every zone leads to a display of the layout.
pub proof fn lemma_zone_target(s: Seq<Display>, k: int, m: int)
    requires
        valid_layout(s),
        0 <= k < s.len(),
        0 <= m < zones_in(s, k).len(),
    ensures
        exists|t: int| 0 <= t < s.len() && t != k && (#[trigger] s[t]).id == zones_in(s, k)[m].to,
{
    lemma_zones_upto_member(s, k, s.len() as int, m);
    let t = choose|t: int|
        0 <= t < s.len() && t != k && #[trigger] touch(s[k], s[t]) is Some && zones_in(s, k)[m]
            == zone_of(touch(s[k], s[t])->0, s[t].id);
    assert(s[t].id == zones_in(s, k)[m].to);
}

/// No two displays of the plane share an area.
pub proof fn lemma_no_overlap(g: DisplayGraph, i: int, j: int)
    requires
        g.wf(),
        0 <= i < g.displays@.len(),
        0 <= j < g.displays@.len(),
        i != j,
    ensures
        !overlap(g.displays@[i], g.displays@[j]),
{
}

/// Every client display has at least one warp zone.
pub proof fn lemma_no_isolation(g: DisplayGraph, k: int)
    requires
        g.wf(),
        0 <= k < g.displays@.len(),
        g.displays@[k].owner != SERVER_CID,
    ensures
        g.displays@[k].warpzones@.len() > 0,
{
    let s = g.displays@;
    assert(!isolated(s, k));
    let i = choose|i: int| 0 <= i < s.len() && i != k && touch(s[k], #[trigger] s[i]) is Some;
    lemma_zones_upto_complete(s, k, s.len() as int, i);
}

} // verus!
