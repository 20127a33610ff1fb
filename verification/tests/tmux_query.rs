use ttop::tmux::query;

#[test]
fn reads_sessions_panes_and_the_current_session() {
    let info = query(
        Some("dev\n"),
        "dev\ninfra\n\n  notes  \n",
        "dev\t1\teditor\t0\t4775\ndev\t2\tapi\t1\t5990\ninfra\t0\tlogs\t1\t 6100 \n",
    );
    assert_eq!(info.current_session.as_deref(), Some("dev"));
    assert_eq!(info.sessions, vec!["dev", "infra", "notes"]);
    assert_eq!(info.panes.len(), 3);
    let p = &info.panes[1];
    assert_eq!(p.session, "dev");
    assert_eq!(p.window_index, 2);
    assert_eq!(p.window_name, "api");
    assert!(p.window_active);
    assert_eq!(p.pane_pid, 5990);
    assert!(!info.panes[0].window_active);
    assert_eq!(info.panes[2].pane_pid, 6100);
}

#[test]
fn skips_malformed_pane_lines() {
    let info = query(
        None,
        "",
        "short\tline\n\
         s\t1\tw\t1\tnotapid\n\
         s\tx\tw\t 1 \t+42\n\
         s\t3\tw\t1\t99999999999\n\
         s\t4\tw\t1\t-5\n\
         s\t5\tw\t1\t7\textra\r\n",
    );
    assert!(info.current_session.is_none());
    assert!(info.sessions.is_empty());
    assert_eq!(info.panes.len(), 2);
    // an index that does not parse reads as 0; a flag is trimmed
    assert_eq!(info.panes[0].window_index, 0);
    assert!(info.panes[0].window_active);
    assert_eq!(info.panes[0].pane_pid, 42);
    assert_eq!(info.panes[1].window_index, 5);
    assert_eq!(info.panes[1].pane_pid, 7);
}

#[test]
fn blank_current_session_reads_as_none() {
    let info = query(Some("  \n"), "a", "");
    assert!(info.current_session.is_none());
    assert_eq!(info.sessions, vec!["a"]);
    assert!(info.panes.is_empty());
}

#[test]
fn lines_end_with_crlf_or_nothing() {
    let info = query(Some("x"), "a\r\nb", "a\t0\tw\t1\t5\r\nb\t1\tv\t0\t6");
    assert_eq!(info.current_session.as_deref(), Some("x"));
    assert_eq!(info.sessions, vec!["a", "b"]);
    assert_eq!(info.panes.len(), 2);
    assert_eq!(info.panes[0].pane_pid, 5);
    assert_eq!(info.panes[1].window_name, "v");
}
