use slaunch::ipc::{lock_path, reply_ok, runtime_dir, socket_path, Command, RESP_ERR, RESP_OK};

#[test]
fn command_byte_roundtrip() {
    for cmd in [Command::Show, Command::Hide, Command::Reload, Command::Kill] {
        assert_eq!(Command::from_byte(cmd.to_byte()), Some(cmd));
    }
}

#[test]
fn command_bytes_are_distinct() {
    let mut bytes = vec![
        Command::Show.to_byte(),
        Command::Hide.to_byte(),
        Command::Reload.to_byte(),
        Command::Kill.to_byte(),
    ];
    bytes.sort();
    bytes.dedup();
    assert_eq!(bytes.len(), 4);
}

#[test]
fn unknown_byte_does_not_decode() {
    assert_eq!(Command::from_byte(0xff), None);
    assert_eq!(Command::from_byte(0x99), None);
}

#[test]
fn command_bytes_are_the_documented_values() {
    assert_eq!(Command::Show.to_byte(), 0x01);
    assert_eq!(Command::Hide.to_byte(), 0x02);
    assert_eq!(Command::Reload.to_byte(), 0x03);
    assert_eq!(Command::Kill.to_byte(), 0x04);
    assert_eq!(Command::from_byte(0x00), None);
    assert_eq!(Command::from_byte(0x05), None);
}

#[test]
fn socket_path_honors_xdg_runtime_dir_when_set() {
    let dir = runtime_dir(Some("/tmp/slaunch-test-runtime"), 1000);
    assert_eq!(socket_path(&dir), "/tmp/slaunch-test-runtime/slaunch.sock");
}

#[test]
fn socket_path_falls_back_to_run_user_uid_when_unset() {
    let uid: u32 = 1000;
    let dir = runtime_dir(None, uid);
    assert_eq!(socket_path(&dir), format!("/run/user/{uid}/slaunch.sock"));
}

#[test]
fn runtime_dir_fallback_writes_the_uid_in_decimal() {
    assert_eq!(runtime_dir(None, 0), "/run/user/0");
    assert_eq!(runtime_dir(None, 4294967295), "/run/user/4294967295");
}

#[test]
fn lock_path_sits_beside_the_socket() {
    let dir = runtime_dir(Some("/tmp/slaunch-test-runtime"), 1000);
    assert_eq!(lock_path(&dir), "/tmp/slaunch-test-runtime/slaunch.lock");
    let lock = lock_path(&dir);
    let sock = socket_path(&dir);
    assert_eq!(lock.rsplit_once('/').unwrap().0, sock.rsplit_once('/').unwrap().0);
}

#[test]
fn only_the_ok_byte_reads_as_success() {
    assert!(reply_ok(RESP_OK));
    assert!(!reply_ok(RESP_ERR));
    assert!(!reply_ok(0x7f));
}
