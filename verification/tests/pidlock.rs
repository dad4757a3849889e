use cache_core::pidlock::{lock_step, pid_text, read_pid, settle_probe, LockStep};

#[test]
fn pid_is_read_with_white_space_around_it() {
    assert_eq!(read_pid("1234"), Some(1234));
    assert_eq!(read_pid(" \t1234\r\n"), Some(1234));
    assert_eq!(read_pid("\u{a0}7\u{3000}"), Some(7));
    assert_eq!(read_pid("+7"), Some(7));
    assert_eq!(read_pid("0007"), Some(7));
    assert_eq!(read_pid("4294967295"), Some(u32::MAX));
    for text in ["", " ", "+", "-1", "1 2", "12x", "4294967296", "99999999999999999999", "++1"] {
        assert_eq!(read_pid(text), None, "{text}");
        assert_eq!(text.trim().parse::<u32>().ok(), None);
    }
}

#[test]
fn written_pid_reads_back() {
    for pid in [0, 9, 10, 4096, u32::MAX] {
        assert_eq!(read_pid(&pid_text(pid)), Some(pid));
    }
}

#[test]
fn lock_is_taken_unless_its_owner_may_live() {
    assert_eq!(lock_step(false, Some("1")), LockStep::Skip);
    assert_eq!(lock_step(true, None), LockStep::Take);
    assert_eq!(lock_step(true, Some("junk")), LockStep::Take);
    assert_eq!(lock_step(true, Some("42\n")), LockStep::Probe(42));
    assert_eq!(settle_probe(42, false, "mcp-cache-ci", "/run/x.pid"), Ok(()));
    assert_eq!(
        settle_probe(42, true, "mcp-cache-ci", "/run/x.pid"),
        Err("mcp-cache-ci уже запущен (PID 42). PID-файл: /run/x.pid".to_string())
    );
}
