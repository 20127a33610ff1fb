use ttop::model::{build_sessions, command_line, ProcessEntry};
use ttop::tmux::{Pane, TmuxInfo};

fn entry(pid: u32, parent: Option<u32>, command: &str) -> ProcessEntry {
    ProcessEntry { pid, parent, cpu: 1.5f32.to_bits(), mem: 1000 + pid as u64, command: command.to_string() }
}

fn pane(session: &str, index: u32, name: &str, active: bool, pid: u32) -> Pane {
    Pane {
        session: session.to_string(),
        window_index: index,
        window_name: name.to_string(),
        window_active: active,
        pane_pid: pid,
    }
}

#[test]
fn processes_join_the_window_of_their_nearest_pane() {
    let procs = vec![
        entry(1, None, "init"),
        entry(50, Some(1), "tmux"),
        entry(100, Some(50), "zsh"),
        entry(101, Some(100), "vim"),
        entry(102, Some(101), "rust-analyzer"),
        entry(200, Some(50), "bash"),
        entry(201, Some(200), "top"),
        entry(300, Some(50), "fish"),
        entry(999, Some(1), "sshd"),
    ];
    let info = TmuxInfo {
        panes: vec![
            pane("dev", 2, "build", false, 200),
            pane("dev", 1, "editor", true, 100),
            pane("dev", 2, "other-name", true, 300),
            pane("ops", 0, "shell", true, 201),
        ],
        sessions: vec!["dev".to_string(), "ops".to_string(), "empty".to_string()],
        current_session: Some("ops".to_string()),
    };
    let s = build_sessions(&procs, &info);
    assert_eq!(s.len(), 3);
    assert_eq!(s[0].name, "dev");
    assert!(!s[0].current);
    assert!(s[1].current);
    assert!(s[2].windows.is_empty());
    // windows by index; name and flag from the first pane of the window
    let w: Vec<(u32, &str, bool)> =
        s[0].windows.iter().map(|w| (w.index, w.name.as_str(), w.active)).collect();
    assert_eq!(w, vec![(1, "editor", true), (2, "build", false)]);
    let pids: Vec<u32> = s[0].windows[0].procs.iter().map(|p| p.pid).collect();
    assert_eq!(pids, vec![100, 101, 102]);
    let pids: Vec<u32> = s[0].windows[1].procs.iter().map(|p| p.pid).collect();
    assert_eq!(pids, vec![200, 300]);
    // a pane root is its own nearest pane: `top` belongs to ops
    let pids: Vec<u32> = s[1].windows[0].procs.iter().map(|p| p.pid).collect();
    assert_eq!(pids, vec![201]);
    let p = &s[0].windows[0].procs[2];
    assert_eq!((p.ppid, p.mem, p.command.as_str()), (101, 1102, "rust-analyzer"));
    assert_eq!(f32::from_bits(p.cpu), 1.5);
}

#[test]
fn missing_parent_reads_as_zero_and_long_chains_give_up() {
    let mut procs = vec![entry(5, None, "root-pane")];
    for k in 0..130u32 {
        let pid = 1000 + k;
        let parent = if k == 0 { 5 } else { pid - 1 };
        procs.push(entry(pid, Some(parent), "deep"));
    }
    let info = TmuxInfo {
        panes: vec![pane("s", 0, "w", true, 5)],
        sessions: vec!["s".to_string()],
        current_session: None,
    };
    let s = build_sessions(&procs, &info);
    let procs_in = &s[0].windows[0].procs;
    assert_eq!(procs_in[0].ppid, 0);
    // pid 1000 + k is k + 1 steps below the pane root; 128 steps is the limit
    assert_eq!(procs_in.len(), 1 + 128);
    assert_eq!(procs_in.last().unwrap().pid, 1127);
}

#[test]
fn a_repeated_session_name_gets_empty_windows() {
    let procs = vec![entry(10, None, "sh")];
    let info = TmuxInfo {
        panes: vec![pane("a", 0, "w", true, 10)],
        sessions: vec!["a".to_string(), "a".to_string()],
        current_session: Some("a".to_string()),
    };
    let s = build_sessions(&procs, &info);
    assert_eq!(s[0].windows[0].procs.len(), 1);
    assert_eq!(s[1].windows.len(), 1);
    assert!(s[1].windows[0].procs.is_empty());
    assert!(s[0].current && s[1].current);
}

#[test]
fn command_lines_join_arguments() {
    let args = vec!["node".to_string(), "server.js".to_string(), "--port=3".to_string()];
    assert_eq!(command_line(&args, "node"), "node server.js --port=3");
    assert_eq!(command_line(&vec![], "kworker/0:1"), "kworker/0:1");
    assert_eq!(command_line(&vec!["".to_string(), "".to_string()], "x"), " ");
}

#[test]
fn no_process_sits_in_two_windows() {
    let procs = vec![
        entry(1, None, "init"),
        entry(10, Some(1), "zsh"),
        entry(11, Some(10), "vim"),
        entry(20, Some(1), "bash"),
        entry(21, Some(20), "cargo"),
        entry(22, Some(21), "rustc"),
        entry(30, Some(11), "nested-pane-shell"),
    ];
    let info = TmuxInfo {
        panes: vec![
            pane("a", 0, "one", true, 10),
            pane("a", 1, "two", false, 20),
            pane("b", 0, "three", true, 30),
            pane("b", 0, "three", true, 10),
        ],
        sessions: vec!["a".to_string(), "b".to_string(), "a".to_string()],
        current_session: None,
    };
    let s = build_sessions(&procs, &info);
    let mut seen: Vec<u32> = Vec::new();
    for session in &s {
        for w in &session.windows {
            for p in &w.procs {
                assert!(!seen.contains(&p.pid), "pid {} listed twice", p.pid);
                seen.push(p.pid);
            }
        }
    }
    seen.sort();
    // 1 has no pane above it; 30 is a pane root of its own
    assert_eq!(seen, vec![10, 11, 20, 21, 22, 30]);
}
