use std::cmp::Ordering;

use playform::lod::{BlockPosition, LODIndex, OwnerId};
use playform::work::{request_block, ClientId, LoadReason, ServerToGaia, ServerToGaiaCmp, WorkBus};

fn pos(x: i32) -> BlockPosition {
    BlockPosition { x, y: 0, z: 0 }
}

fn client(p: u16) -> LoadReason {
    LoadReason::ForClient(ClientId(1), p)
}

fn describe(m: Option<ServerToGaia<&'static str>>) -> String {
    match m {
        None => "none".to_string(),
        Some(ServerToGaia::Brush(b)) => format!("brush {}", b),
        Some(ServerToGaia::Load(p, l, LoadReason::Local(o))) => format!("local {} {} {}", p.x, l.0, o.0),
        Some(ServerToGaia::Load(p, l, LoadReason::ForClient(c, pr))) => format!("client {} {} {} {}", p.x, l.0, c.0, pr),
    }
}

#[test]
fn brush_goes_before_client_loads() {
    let mut bus = WorkBus::new();
    bus.push(ServerToGaia::Load(pos(1), LODIndex(0), client(0)));
    bus.push(ServerToGaia::Brush("b"));
    assert_eq!(describe(bus.pop()), "brush b");
    assert_eq!(describe(bus.pop()), "client 1 0 1 0");
    assert_eq!(describe(bus.pop()), "none");
}

#[test]
fn smaller_client_priority_goes_first() {
    let mut bus: WorkBus<&'static str> = WorkBus::new();
    bus.push(ServerToGaia::Load(pos(1), LODIndex(0), LoadReason::Local(OwnerId(4))));
    bus.push(ServerToGaia::Load(pos(2), LODIndex(0), client(5)));
    bus.push(ServerToGaia::Load(pos(3), LODIndex(0), client(2)));
    bus.push(ServerToGaia::Load(pos(4), LODIndex(0), client(2)));
    assert_eq!(bus.len(), 4);
    assert_eq!(describe(bus.pop()), "client 3 0 1 2");
    assert_eq!(describe(bus.pop()), "client 4 0 1 2");
    assert_eq!(describe(bus.pop()), "client 2 0 1 5");
    assert_eq!(describe(bus.pop()), "local 1 0 4");
    assert_eq!(bus.len(), 0);
}

#[test]
fn repeated_load_replaces_pending_one() {
    let mut bus: WorkBus<&'static str> = WorkBus::new();
    bus.push(ServerToGaia::Load(pos(1), LODIndex(0), client(3)));
    bus.push(ServerToGaia::Load(pos(2), LODIndex(0), client(3)));
    bus.push(ServerToGaia::Load(pos(1), LODIndex(0), client(3)));
    bus.push(ServerToGaia::Load(pos(1), LODIndex(1), client(3)));
    bus.push(ServerToGaia::Brush("x"));
    bus.push(ServerToGaia::Brush("x"));
    assert_eq!(bus.len(), 5);
    assert_eq!(describe(bus.pop()), "brush x");
    assert_eq!(describe(bus.pop()), "brush x");
    // The repeated load moved behind the one for position 2.
    assert_eq!(describe(bus.pop()), "client 2 0 1 3");
    assert_eq!(describe(bus.pop()), "client 1 0 1 3");
    assert_eq!(describe(bus.pop()), "client 1 1 1 3");
}

#[test]
fn reasons_compare_by_urgency() {
    let local = LoadReason::Local(OwnerId(0));
    assert_eq!(client(3).cmp(&local), Ordering::Greater);
    assert_eq!(local.cmp(&client(3)), Ordering::Less);
    assert_eq!(client(3).cmp(&client(7)), Ordering::Greater);
    assert_eq!(client(7).cmp(&client(3)), Ordering::Less);
    assert_eq!(client(3).cmp(&LoadReason::ForClient(ClientId(9), 3)), Ordering::Equal);
    assert_eq!(local.cmp(&LoadReason::Local(OwnerId(5))), Ordering::Equal);
    assert_eq!(ServerToGaiaCmp::Brush.cmp(&ServerToGaiaCmp::Load(client(0))), Ordering::Greater);
    assert_eq!(ServerToGaiaCmp::Load(local).cmp(&ServerToGaiaCmp::Brush), Ordering::Less);
    let m: ServerToGaia<()> = ServerToGaia::Load(pos(0), LODIndex(1), local);
    assert_eq!(m.to_cmp(), ServerToGaiaCmp::Load(local));
}

#[test]
fn client_ids() {
    assert_eq!(ClientId::default(), ClientId(0));
    assert_eq!(ClientId(4).add(3), ClientId(7));
}

#[test]
fn client_request_becomes_client_load() {
    let m: ServerToGaia<()> = request_block(ClientId(3), pos(7), LODIndex(2), 9);
    assert_eq!(describe_unit(m), "client 7 2 3 9");
}

fn describe_unit(m: ServerToGaia<()>) -> String {
    match m {
        ServerToGaia::Load(p, l, LoadReason::ForClient(c, pr)) => format!("client {} {} {} {}", p.x, l.0, c.0, pr),
        _ => "other".to_string(),
    }
}
