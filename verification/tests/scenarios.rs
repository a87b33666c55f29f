use inv_sync::client::ServerConn;
use inv_sync::inv::{Id, Inv, Item};
use inv_sync::protocol::{CmdCode, MemStream, Release, ServerErr};
use inv_sync::server::{ClientId, ServerHost};
use inv_sync::tracker::LocalInv;

/// Connects a fresh client to the host over an in-memory loopback: the
/// client's handshake bytes are delivered to the server, and the server's
/// acknowledgment byte is checked against what the client consumed.
fn connect(host: &mut ServerHost<MemStream>, name: &str) -> (ServerConn<MemStream>, ClientId) {
    let mut cs = MemStream::new();
    cs.feed(&[10]);
    let mut conn = ServerConn::connect(cs, name).unwrap();
    let handshake = conn.stream_mut().take_output();
    let mut ss = MemStream::new();
    ss.feed(&handshake);
    let cid = host.connect_client(ss).unwrap();
    let mut entry = host.take_client(cid).unwrap();
    assert_eq!(entry.conn.take_output(), vec![10]);
    host.restore_client(entry);
    (conn, cid)
}

/// Drives the host through a pull: produces the release and inventory
/// responses and returns them as one byte string.
fn pull_responses(host: &mut ServerHost<MemStream>, cid: ClientId) -> Vec<u8> {
    host.handle_client_cmd(cid, CmdCode::GetRelease).unwrap();
    host.handle_client_cmd(cid, CmdCode::GetInv).unwrap();
    let mut entry = host.take_client(cid).unwrap();
    let resp = entry.conn.take_output();
    host.restore_client(entry);
    resp
}

/// Delivers the client's pending request bytes to its server-side stream and
/// runs polling passes until they are consumed.
fn deliver(
    host: &mut ServerHost<MemStream>,
    conn: &mut ServerConn<MemStream>,
    cid: ClientId,
    passes: usize,
) {
    let reqs = conn.stream_mut().take_output();
    let mut entry = host.take_client(cid).unwrap();
    entry.conn.feed(&reqs);
    host.restore_client(entry);
    for _ in 0..passes {
        host.check_clients();
    }
}

#[test]
fn scenario_connect_and_pull_empty_inventory() {
    let mut host: ServerHost<MemStream> = ServerHost::new(Inv::new());
    let (mut conn, cid) = connect(&mut host, "alice");

    let mut entry = host.take_client(cid).unwrap();
    assert_eq!(entry.name, "alice");
    host.restore_client(entry);
    assert_eq!(host.client_count(), 1);

    let resp = pull_responses(&mut host, cid);
    conn.stream_mut().feed(&resp);
    let pulled = conn.get_inv().unwrap();
    // The requests the client sent are exactly the codes the server served.
    assert_eq!(conn.stream_mut().take_output(), vec![0, 2]);
    assert_eq!(pulled.item_count(), 0);
    assert_eq!(pulled.platform_count(), 0);
}

#[test]
fn scenario_push_then_other_client_pulls() {
    let mut host: ServerHost<MemStream> = ServerHost::new(Inv::new());
    let (mut conn1, cid1) = connect(&mut host, "alice");

    let mut local1 = LocalInv::new();
    let mut x = Item::new(100);
    x.name = "X".to_string();
    x.count = 2;
    local1.insert_item(Id(77), x);

    // One pending add: the push expects one operation acknowledgment.
    conn1.stream_mut().feed(&[11]);
    conn1.sync(&mut local1, false).unwrap();
    assert!(local1.consume_changes().is_empty());

    deliver(&mut host, &mut conn1, cid1, 1);
    assert_eq!(host.inv.item_count(), 1);
    assert_eq!(host.inv.items.get(Id(77)).unwrap().name, "X");
    let mut entry = host.take_client(cid1).unwrap();
    assert_eq!(entry.conn.take_output(), vec![11]);
    host.restore_client(entry);

    // A second client syncing with a pull afterwards observes X.
    let (mut conn2, cid2) = connect(&mut host, "bob");
    let resp = pull_responses(&mut host, cid2);
    let mut local2 = LocalInv::new();
    conn2.stream_mut().feed(&resp);
    conn2.sync(&mut local2, true).unwrap();
    assert_eq!(local2.item_count(), 1);
    let seen = local2.get_item(&Id(77)).unwrap();
    assert_eq!(seen.name, "X");
    assert_eq!(seen.count, 2);
}

#[test]
fn scenario_incompatible_release_aborts_pull() {
    let mut local = LocalInv::new();
    let mut x = Item::new(1);
    x.name = "keepme".to_string();
    local.insert_item(Id(5), x);
    let _ = local.consume_changes();

    let mut cs = MemStream::new();
    cs.feed(&[10]);
    let mut conn = ServerConn::connect(cs, "alice").unwrap();

    // The server reports a release that maps to no known data version.
    conn.stream_mut().feed(&[0, 0, 0]);
    let err = conn.get_inv().unwrap_err();
    assert_eq!(err, ServerErr::IncompatibleRelease(Release(0, 0, 0)));

    // The same gate aborts a sync pull and leaves local state untouched.
    conn.stream_mut().feed(&[0, 0, 0]);
    let err = conn.sync(&mut local, true).unwrap_err();
    assert!(matches!(err, ServerErr::IncompatibleRelease(_)));
    assert_eq!(local.item_count(), 1);
    assert_eq!(local.get_item(&Id(5)).unwrap().name, "keepme");
}

#[test]
fn scenario_removing_unknown_id_is_acknowledged() {
    let mut host: ServerHost<MemStream> = ServerHost::new(Inv::new());
    let (_conn, cid) = connect(&mut host, "alice");

    let mut entry = host.take_client(cid).unwrap();
    entry.conn.feed(&[0, 0, 0, 9]);
    host.restore_client(entry);
    host.handle_client_cmd(cid, CmdCode::RemoveItem).unwrap();

    assert_eq!(host.inv.item_count(), 0);
    let mut entry = host.take_client(cid).unwrap();
    assert_eq!(entry.conn.take_output(), vec![11]);
    host.restore_client(entry);
}

#[test]
fn placeholder_commands_are_acknowledged() {
    let mut host: ServerHost<MemStream> = ServerHost::new(Inv::new());
    let (_conn, cid) = connect(&mut host, "alice");
    host.handle_client_cmd(cid, CmdCode::GetServerClients).unwrap();
    host.handle_client_cmd(cid, CmdCode::CreateServerBackup).unwrap();
    let mut entry = host.take_client(cid).unwrap();
    assert_eq!(entry.conn.take_output(), vec![11, 11]);
    host.restore_client(entry);
}

#[test]
fn unknown_command_byte_gets_no_response() {
    let mut host: ServerHost<MemStream> = ServerHost::new(Inv::new());
    let (_conn, cid) = connect(&mut host, "alice");
    let mut entry = host.take_client(cid).unwrap();
    entry.conn.feed(&[7]);
    host.restore_client(entry);
    host.check_clients();
    assert_eq!(host.client_count(), 1);
    let mut entry = host.take_client(cid).unwrap();
    assert_eq!(entry.conn.take_output(), Vec::<u8>::new());
    host.restore_client(entry);
}

#[test]
fn closed_peer_is_disconnected_on_the_next_pass() {
    let mut host: ServerHost<MemStream> = ServerHost::new(Inv::new());
    let (_conn, cid) = connect(&mut host, "alice");
    let (_conn2, _cid2) = connect(&mut host, "bob");
    assert_eq!(host.client_count(), 2);
    let mut entry = host.take_client(cid).unwrap();
    entry.conn.close_peer();
    host.restore_client(entry);
    host.check_clients();
    assert_eq!(host.client_count(), 1);
    assert!(host.take_client(cid).is_none());
}

#[test]
fn pushed_item_survives_the_wire_byte_for_byte() {
    let mut host: ServerHost<MemStream> = ServerHost::new(Inv::new());
    let (mut conn, cid) = connect(&mut host, "alice");

    let mut it = Item::new(123);
    it.name = "caf\u{e9} sign".to_string();
    it.picture = Some(inv_sync::inv::Picture { data: vec![9, 9, 9], size: [1, 1] });
    conn.stream_mut().feed(&[11]);
    conn.insert_item(Id(1), &it).unwrap();
    deliver(&mut host, &mut conn, cid, 1);

    let stored = host.inv.items.get(Id(1)).unwrap();
    assert_eq!(*stored, it);
}

#[test]
fn non_ascii_client_name_survives_the_handshake() {
    let mut host: ServerHost<MemStream> = ServerHost::new(Inv::new());
    let (_conn, cid) = connect(&mut host, "Jos\u{e9} \u{65e5}\u{672c}");
    let mut entry = host.take_client(cid).unwrap();
    assert_eq!(entry.name, "Jos\u{e9} \u{65e5}\u{672c}");
    host.restore_client(entry);
}

#[test]
fn handshake_bytes_are_release_then_prefixed_name() {
    let mut cs = MemStream::new();
    cs.feed(&[10]);
    let mut conn = ServerConn::connect(cs, "alice").unwrap();
    let hs = conn.stream_mut().take_output();
    assert_eq!(hs, vec![0, 0, 1, 0, 0, 0, 5, b'a', b'l', b'i', b'c', b'e']);
}

#[test]
fn server_rejects_garbage_item_payload_without_ack() {
    let mut host: ServerHost<MemStream> = ServerHost::new(Inv::new());
    let (_conn, cid) = connect(&mut host, "alice");
    let mut entry = host.take_client(cid).unwrap();
    // id 5, claimed length 3, three bytes that are no item encoding
    entry.conn.feed(&[0, 0, 0, 5, 0, 0, 0, 3, 1, 2, 3]);
    host.restore_client(entry);
    assert!(host.handle_client_cmd(cid, CmdCode::InsertItem).is_err());
    assert_eq!(host.inv.item_count(), 0);
    let mut entry = host.take_client(cid).unwrap();
    assert_eq!(entry.conn.take_output(), Vec::<u8>::new());
    host.restore_client(entry);
}

#[test]
fn reserved_codes_are_silent_successes() {
    let mut host: ServerHost<MemStream> = ServerHost::new(Inv::new());
    let (_conn, cid) = connect(&mut host, "alice");
    host.handle_client_cmd(cid, CmdCode::ConnectionSuccessfull).unwrap();
    host.handle_client_cmd(cid, CmdCode::OperationSuccessfull).unwrap();
    host.handle_client_cmd(cid, CmdCode::CmdResponseRecieved).unwrap();
    assert_eq!(host.inv.item_count(), 0);
    let mut entry = host.take_client(cid).unwrap();
    assert_eq!(entry.conn.take_output(), Vec::<u8>::new());
    host.restore_client(entry);
}

#[test]
fn sync_with_nothing_pending_and_no_pull_always_succeeds() {
    let mut cs = MemStream::new();
    cs.feed(&[10]);
    let mut conn = ServerConn::connect(cs, "alice").unwrap();
    let _ = conn.stream_mut().take_output();
    let mut local = LocalInv::new();
    // No pending changes and no download: no bytes move at all.
    conn.sync(&mut local, false).unwrap();
    assert_eq!(conn.stream_mut().take_output(), Vec::<u8>::new());
}
