use transistor::client::{
    apply_saved_positions, check_display_count, locate_pointer, next_prompt_index, Inbound, Mirror, AuthorizedClient,
    HandshakeError,
};
use transistor::codec::{decode_u32, encode_u32, encode_warp_point, CodecError, HandshakeStatus};
use transistor::comm::{Action, Message};
use transistor::display::{Display, ZoneDirection};
use transistor::graph::{create_warpzones_hashmap, DisplayGraph, LayoutError};
use transistor::router::{find_zone, reaches_server, Route, Router};
use transistor::server::{admit_displays, handshake_status, hello_reply, is_authorized};

fn disp(id: u32, owner: u32, x: i32, y: i32, width: i32, height: i32, is_primary: bool) -> Display {
    Display {
        name: format!("display-{}", id),
        id,
        x,
        y,
        width,
        height,
        rotation_bits: 0,
        scale_factor_bits: 0,
        frequency_bits: 0,
        is_primary,
        warpzones: Vec::new(),
        owner,
    }
}

fn server_a() -> DisplayGraph {
    DisplayGraph::new(vec![disp(1, 0, 0, 0, 100, 100, true)]).unwrap()
}

fn allow(cids: &[u32]) -> Vec<AuthorizedClient> {
    cids.iter().map(|&cid| AuthorizedClient { cid }).collect()
}

/// Server A with client 42's display C joined to its right.
fn cross_host() -> DisplayGraph {
    let mut g = server_a();
    let ids = admit_displays(&mut g, 42, vec![disp(10, 42, 100, 0, 100, 100, false)]).unwrap();
    assert_eq!(ids, vec![10]);
    g
}

#[test]
fn single_server_pointer_move() {
    let g = DisplayGraph::new(vec![
        disp(1, 0, 0, 0, 100, 100, true),
        disp(2, 0, 100, 0, 100, 100, false),
    ])
    .unwrap();
    assert_eq!(g.focus, 1);
    let mut r = Router::new(&g, 50, 50);
    assert_eq!(r.current_did, 1);
    let route = r.route_move(&g, 150, 50);
    assert_eq!(route, Route::Local);
    assert_eq!(r.current_did, 2);
    assert_eq!(r.current_owner, 0);
    assert!(!r.warping);
}

#[test]
fn reject_unknown_client() {
    let g = server_a();
    let allowed = allow(&[42]);
    assert!(!is_authorized(&allowed, 7));
    let count = hello_reply(&allowed, 7, &g);
    assert_eq!(count, 0);
    let payload = encode_u32(count);
    let seen = decode_u32(&payload).unwrap();
    assert_eq!(check_display_count(seen), Err(HandshakeError::Unauthorised));
}

#[test]
fn known_client_gets_display_count() {
    let g = server_a();
    let allowed = allow(&[42]);
    assert_eq!(hello_reply(&allowed, 42, &g), 1);
    assert_eq!(check_display_count(1), Ok(()));
    assert_eq!(hello_reply(&allow(&[0]), 0, &g), 0);
}

#[test]
fn attach_with_overlap() {
    let mut g = server_a();
    let r = admit_displays(&mut g, 42, vec![disp(10, 42, 50, 50, 100, 100, false)]);
    assert_eq!(r, Err(HandshakeError::Layout(LayoutError::Overlap)));
    assert_eq!(handshake_status(&r), HandshakeStatus::HandshakeErr);
    assert_eq!(g.displays.len(), 1);
    assert!(g.displays[0].warpzones.is_empty());
}

#[test]
fn isolated_display_rejection() {
    let mut g = server_a();
    let r = admit_displays(&mut g, 42, vec![disp(10, 42, 500, 500, 100, 100, false)]);
    assert_eq!(r, Err(HandshakeError::Layout(LayoutError::Isolated)));
    assert_eq!(g.displays.len(), 1);
}

#[test]
fn attach_rejects_foreign_and_duplicate_displays() {
    let mut g = server_a();
    let r = admit_displays(&mut g, 42, vec![disp(10, 7, 100, 0, 100, 100, false)]);
    assert_eq!(r, Err(HandshakeError::Desync));
    let r = admit_displays(&mut g, 42, vec![disp(1, 42, 100, 0, 100, 100, false)]);
    assert_eq!(r, Err(HandshakeError::Layout(LayoutError::DuplicateId)));
    let r = admit_displays(&mut g, 42, vec![disp(10, 42, 100, 0, 0, 100, false)]);
    assert_eq!(r, Err(HandshakeError::Layout(LayoutError::Malformed)));
    let r = create_warpzones_hashmap(&mut g, vec![disp(10, 0, 100, 0, 100, 100, false)]);
    assert_eq!(r, Err(LayoutError::WrongOwner));
    assert_eq!(g.displays.len(), 1);
}

#[test]
fn cross_host_warp() {
    let g = cross_host();
    let a = g.get(1).unwrap();
    let c = g.get(10).unwrap();
    assert_eq!(a.warpzones.len(), 1);
    assert_eq!(c.warpzones.len(), 1);
    let (za, zc) = (a.warpzones[0], c.warpzones[0]);
    assert_eq!((za.start, za.end, za.direction, za.to), (0, 100, ZoneDirection::HorizontalRight, 10));
    assert_eq!((zc.start, zc.end, zc.direction, zc.to), (0, 100, ZoneDirection::HorizontalLeft, 1));
    assert_eq!(handshake_status(&Ok(vec![10])), HandshakeStatus::HandshakeOk);

    let mut r = Router::new(&g, 50, 40);
    let route = r.route_move(&g, 101, 40);
    let warp = Message { disp: 10, action: Action::Warp, x: 1, y: 40 };
    assert_eq!(route, Route::Warp(42, warp));
    assert_eq!(r.current_did, 10);
    assert_eq!(r.current_owner, 42);
    assert!(r.warping);
    assert_eq!(r.route_other(), Route::Forward(42));
    assert_eq!(r.route_other(), Route::Forward(42));
    assert_eq!(r.route_move(&g, 150, 40), Route::Forward(42));
}

#[test]
fn edge_margin_crosses_before_the_edge() {
    let g = cross_host();
    let mut r = Router::new(&g, 50, 40);
    assert_eq!(r.route_move(&g, 97, 40), Route::Local);
    assert_eq!(r.current_did, 1);
    let route = r.route_move(&g, 99, 40);
    assert_eq!(route, Route::Warp(42, Message { disp: 10, action: Action::Warp, x: -1, y: 40 }));
}

#[test]
fn return_to_server() {
    let g = cross_host();
    let mut r = Router::new(&g, 50, 40);
    r.route_move(&g, 101, 40);
    r.on_return(&g, 7, 50, 40);
    assert_eq!(r.current_owner, 42);
    r.on_return(&g, 42, 50, 40);
    assert_eq!(r.current_did, 1);
    assert_eq!(r.current_owner, 0);
    assert!(!r.warping);
    assert_eq!(r.route_move(&g, 60, 40), Route::Local);
    assert_eq!(r.route_other(), Route::Local);
}

#[test]
fn return_falls_back_to_primary() {
    let g = cross_host();
    let mut r = Router::new(&g, 5000, 5000);
    assert_eq!(r.current_did, 1);
    r.route_move(&g, 101, 40);
    r.on_return(&g, 42, 5000, 5000);
    assert_eq!(r.current_did, 1);
    r.route_move(&g, 101, 40);
    r.on_disconnect(&g, 42);
    assert_eq!((r.current_did, r.current_owner, r.warping), (1, 0, false));
}

#[test]
fn client_detects_return_edge() {
    let g = cross_host();
    assert!(reaches_server(&g, 10, 100, 40));
    assert!(reaches_server(&g, 10, 102, 40));
    assert!(!reaches_server(&g, 10, 150, 40));
    assert!(!reaches_server(&g, 99, 100, 40));
}

#[test]
fn corner_sample_takes_first_zone() {
    let g = DisplayGraph::new(vec![
        disp(1, 0, 0, 0, 100, 100, true),
        disp(2, 0, 100, 0, 100, 100, false),
        disp(3, 0, 0, 100, 100, 100, false),
    ])
    .unwrap();
    let a = g.get(1).unwrap();
    assert_eq!(find_zone(a, 99, 99), Some(0));
    assert_eq!(find_zone(a, 50, 50), None);
    let mut r = Router::new(&g, 10, 10);
    r.route_move(&g, 99, 99);
    assert_eq!(r.current_did, 2);
}

#[test]
fn zones_are_symmetric_without_overlap_or_isolation() {
    let mut g = DisplayGraph::new(vec![
        disp(1, 0, 0, 0, 100, 100, false),
        disp(2, 0, 100, 0, 100, 100, true),
    ])
    .unwrap();
    assert_eq!(g.focus, 2);
    admit_displays(
        &mut g,
        42,
        vec![disp(10, 42, 0, 100, 200, 50, false), disp(11, 42, 200, 100, 30, 30, false)],
    )
    .unwrap();
    for a in g.displays.iter() {
        for z in a.warpzones.iter() {
            let b = g.get(z.to).unwrap();
            let mirrors: Vec<_> = b
                .warpzones
                .iter()
                .filter(|m| m.to == a.id)
                .map(|m| (m.start, m.end, m.direction))
                .collect();
            assert_eq!(mirrors, vec![(z.start, z.end, z.direction.reverse())]);
        }
        for b in g.displays.iter() {
            if a.id != b.id {
                assert!(!a.is_overlap(b));
            }
        }
        if a.owner != 0 {
            assert!(!a.warpzones.is_empty());
        }
    }
    let assigned = g.assigned();
    assert_eq!(assigned.system, vec![1, 2]);
    assert_eq!(assigned.client, vec![10, 11]);
    assert_eq!(g.touching_zones(11).unwrap().len(), 1);
    assert!(g.touching_zones(99).is_none());
}

#[test]
fn local_graph_faults() {
    assert_eq!(DisplayGraph::new(Vec::new()).unwrap_err(), LayoutError::NoDisplays);
    let foreign = vec![disp(1, 5, 0, 0, 10, 10, true)];
    assert_eq!(DisplayGraph::new(foreign).unwrap_err(), LayoutError::WrongOwner);
    let over = vec![disp(1, 0, 0, 0, 10, 10, true), disp(2, 0, 5, 5, 10, 10, false)];
    assert_eq!(DisplayGraph::new(over).unwrap_err(), LayoutError::Overlap);
}

#[test]
fn saved_positions_apply_only_when_complete() {
    let mut mine = vec![disp(1, 0, 0, 0, 100, 100, true), disp(2, 0, 100, 0, 100, 100, false)];
    let config = vec![disp(2, 42, 300, 0, 100, 100, false), disp(1, 42, 200, 0, 100, 100, false)];
    assert!(apply_saved_positions(&mut mine, &config));
    assert_eq!((mine[0].x, mine[0].y), (200, 0));
    assert_eq!((mine[1].x, mine[1].y), (300, 0));
    let partial = vec![disp(1, 42, 900, 900, 100, 100, false)];
    assert!(!apply_saved_positions(&mut mine, &partial));
    assert_eq!((mine[0].x, mine[1].x), (200, 300));
}

#[test]
fn prompt_navigation() {
    assert_eq!(next_prompt_index(0, 2, 'y'), Some(1));
    assert_eq!(next_prompt_index(1, 2, 'n'), Some(1));
    assert_eq!(next_prompt_index(1, 2, 'p'), Some(0));
    assert_eq!(next_prompt_index(0, 2, 'p'), Some(0));
    assert_eq!(next_prompt_index(0, 2, 'x'), None);
}

#[test]
fn local_pointer_maps_into_the_plane() {
    let mine = vec![disp(10, 42, 100, 0, 100, 100, false), disp(11, 42, 200, 0, 50, 50, false)];
    let origins = vec![(0, 0), (100, 0)];
    assert_eq!(locate_pointer(&mine, &origins, 0, 40), Some((10, 100, 40)));
    assert_eq!(locate_pointer(&mine, &origins, 120, 10), Some((11, 220, 10)));
    assert_eq!(locate_pointer(&mine, &origins, 120, 60), None);
    assert_eq!(locate_pointer(&mine, &origins[..1].to_vec(), 120, 10), None);
}

#[test]
fn client_mirror_cycle() {
    let g = cross_host();
    let mut m = Mirror::new();
    assert!(m.awaiting_warp);
    assert!(!m.on_pointer(&g, 10, 100, 40));
    assert_eq!(m.on_frame(&[1, 0, 0]), Inbound::Broken(CodecError::Truncated));
    assert!(m.awaiting_warp);
    assert_eq!(m.on_frame(&encode_warp_point(1, 40)), Inbound::WarpTo(1, 40));
    assert!(!m.awaiting_warp);
    assert_eq!(m.on_frame(&[9, 9, 9]), Inbound::Replay);
    assert!(!m.on_pointer(&g, 10, 150, 40));
    assert!(m.on_pointer(&g, 10, 100, 40));
    assert!(m.awaiting_warp);
    assert_eq!(m.on_frame(&encode_warp_point(-3, 7)), Inbound::WarpTo(-3, 7));
}
