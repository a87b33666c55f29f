use inv_sync::inv::Usd;
use inv_sync::protocol::{
    CmdCode, DataVersion, IoErr, MemStream, PollOutcome, Release, ServerErr, Transport,
    expect_code, send_code,
};


#[test]
fn command_codes_round_trip() {
    let codes = [
        (CmdCode::GetRelease, 0u8),
        (CmdCode::GetInv, 2),
        (CmdCode::InsertItem, 3),
        (CmdCode::RemoveItem, 4),
        (CmdCode::GetServerClients, 5),
        (CmdCode::CreateServerBackup, 6),
        (CmdCode::ConnectionSuccessfull, 10),
        (CmdCode::OperationSuccessfull, 11),
        (CmdCode::CmdResponseRecieved, 12),
    ];
    for (code, byte) in codes {
        assert_eq!(code.as_u8(), byte);
        assert_eq!(CmdCode::from_u8(byte), Some(code));
    }
    assert_eq!(CmdCode::from_u8(1), None);
    assert_eq!(CmdCode::from_u8(7), None);
    assert_eq!(CmdCode::from_u8(200), None);
}

#[test]
fn release_mapping() {
    assert_eq!(Release::current(), Release(0, 0, 1));
    assert_eq!(Release(0, 0, 0).data_version(), None);
    assert_eq!(Release(0, 0, 1).data_version(), Some(DataVersion(0)));
    assert_eq!(Release(0, 0, 2).data_version(), Some(DataVersion(0)));
    assert_eq!(Release(1, 0, 0).data_version(), None);
    assert!(Release(0, 0, 2).compatible());
    assert!(!Release(0, 0, 0).compatible());
    assert!(!Release(9, 9, 9).compatible());
}

#[test]
fn release_bytes_round_trip() {
    let r = Release(1, 2, 3);
    assert_eq!(Release::from_bytes(r.as_bytes()), r);
}

#[test]
fn mem_stream_reads_what_was_fed() {
    let mut s = MemStream::new();
    s.feed(&[1, 2, 3, 4, 5]);
    let a = s.read_exact(2).unwrap();
    assert_eq!(a, vec![1, 2]);
    s.feed(&[6]);
    let b = s.read_exact(4).unwrap();
    assert_eq!(b, vec![3, 4, 5, 6]);
    assert_eq!(s.read_exact(1), Err(IoErr::TimedOut));
}

#[test]
fn mem_stream_collects_writes() {
    let mut s = MemStream::new();
    s.write_all(&[9, 8]).unwrap();
    s.write_all(&[7]).unwrap();
    assert_eq!(s.take_output(), vec![9, 8, 7]);
    assert_eq!(s.take_output(), Vec::<u8>::new());
}

#[test]
fn mem_stream_poll() {
    let mut s = MemStream::new();
    assert_eq!(s.poll_byte(), PollOutcome::WouldBlock);
    s.feed(&[5]);
    assert_eq!(s.poll_byte(), PollOutcome::Byte(5));
    assert_eq!(s.poll_byte(), PollOutcome::WouldBlock);
    s.close_peer();
    assert_eq!(s.poll_byte(), PollOutcome::Closed);
}

#[test]
fn expect_code_accepts_only_the_expected_byte() {
    let mut s = MemStream::new();
    s.feed(&[11]);
    assert!(expect_code(&mut s, CmdCode::OperationSuccessfull).is_ok());
    s.feed(&[12]);
    assert_eq!(expect_code(&mut s, CmdCode::OperationSuccessfull), Err(IoErr::UnexpectedCode));
    assert_eq!(expect_code(&mut s, CmdCode::OperationSuccessfull), Err(IoErr::TimedOut));
}

#[test]
fn send_code_writes_one_byte() {
    let mut s = MemStream::new();
    send_code(&mut s, CmdCode::GetInv).unwrap();
    assert_eq!(s.take_output(), vec![2]);
}

#[test]
fn money_and_release_display() {
    assert_eq!(Usd(546).display_string(), "5.46");
    // Cents always take two digits, as fixed-point integer cents read.
    assert_eq!(Usd(505).display_string(), "5.05");
    assert_eq!(Usd(0).display_string(), "0.00");
    assert_eq!(Usd(1234567).display_string(), "12345.67");
    assert_eq!(Release(1, 2, 3).display_string(), "1.2.3");
    assert_eq!(Release(0, 0, 1).display_string(), "0.0.1");
}

#[test]
fn sync_errors_display() {
    assert_eq!(ServerErr::TimedOut.display_string(), "Timed Out");
    assert_eq!(ServerErr::OtherIo(IoErr::UnexpectedCode).display_string(), "unexpected code received");
    assert_eq!(
        ServerErr::IncompatibleRelease(Release(0, 0, 0)).display_string(),
        "Incompatible release (server release: 0.0.0) (current release: 0.0.1)"
    );
}

#[test]
fn plain_number_display() {
    assert_eq!(inv_sync::display::u32_string(0), "0");
    assert_eq!(inv_sync::display::u32_string(10), "10");
    assert_eq!(inv_sync::display::u32_string(4294967295), "4294967295");
}
