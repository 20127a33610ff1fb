use ttop::app::{
    poll_wait, refresh_due, sessions_are_wf, short, App, Key, KeyPress, KillOutcome, KillRequest, Signal,
};
use ttop::ui::{Body, Footer};
use ttop::model::{Proc, Session, Window};

fn proc_(pid: u32, ppid: u32, cpu: f32, mem: u64, command: &str) -> Proc {
    Proc { pid, ppid, cpu: cpu.to_bits(), mem, command: command.to_string() }
}

fn session(name: &str, current: bool, n: u32) -> Session {
    let mut procs = vec![proc_(100, 1, 0.0, 1, "-zsh")];
    for k in 0..n {
        procs.push(proc_(200 + k, 100, k as f32, 1, &format!("/usr/bin/job{} --flag", k)));
    }
    Session {
        name: name.to_string(),
        current,
        windows: vec![Window { index: 0, name: "main".to_string(), active: true, procs }],
    }
}

fn key(code: Key) -> KeyPress {
    KeyPress { code, ctrl: false }
}

fn ctrl(c: char) -> KeyPress {
    KeyPress { code: Key::Char(c), ctrl: true }
}

#[test]
fn starts_on_the_current_session() {
    let app = App::new(vec![session("a", false, 1), session("b", true, 1), session("c", true, 1)]);
    assert_eq!(app.selected_tab, 1);
    let app = App::new(vec![session("a", false, 1), session("b", false, 1)]);
    assert_eq!(app.selected_tab, 0);
    let app = App::new(vec![]);
    assert_eq!(app.selected_tab, 0);
    assert!(app.rows().is_empty());
}

#[test]
fn moving_stays_within_the_rows() {
    // 1 header + 1 shell + 3 jobs
    let mut app = App::new(vec![session("a", true, 3)]);
    assert_eq!(app.rows().len(), 5);
    app.on_key(key(Key::Up));
    assert_eq!(app.selected, 0);
    for _ in 0..10 {
        app.on_key(key(Key::Char('j')));
    }
    assert_eq!(app.selected, 4);
    app.on_key(key(Key::Char('k')));
    assert_eq!(app.selected, 3);
    app.on_key(key(Key::Char('g')));
    assert_eq!(app.selected, 0);
    app.on_key(key(Key::Char('G')));
    assert_eq!(app.selected, 4);
    app.on_key(key(Key::Home));
    assert_eq!(app.selected, 0);
    app.on_key(key(Key::End));
    assert_eq!(app.selected, 4);
}

#[test]
fn pages_follow_the_viewport() {
    let mut app = App::new(vec![session("a", true, 40)]);
    assert_eq!(app.rows().len(), 42);
    app.set_viewport(10);
    app.on_key(key(Key::PageDown));
    assert_eq!(app.selected, 10);
    app.on_key(ctrl('d'));
    assert_eq!(app.selected, 15);
    app.on_key(ctrl('u'));
    assert_eq!(app.selected, 10);
    app.on_key(key(Key::PageUp));
    assert_eq!(app.selected, 0);
    app.set_viewport(0);
    app.on_key(key(Key::PageDown));
    assert_eq!(app.selected, 1);
    app.on_key(ctrl('d'));
    assert_eq!(app.selected, 2);
    // plain 'd' and 'u' do nothing
    app.on_key(key(Key::Char('d')));
    assert_eq!(app.selected, 2);
    app.on_key(key(Key::Char('u')));
    assert_eq!(app.selected, 2);
    app.set_viewport(1000);
    app.on_key(key(Key::PageDown));
    assert_eq!(app.selected, 41);
}

#[test]
fn tabs_wrap_around_and_reset_the_selection() {
    let mut app = App::new(vec![session("a", true, 2), session("b", false, 2), session("c", false, 2)]);
    app.on_key(key(Key::Down));
    app.on_key(key(Key::Char('l')));
    assert_eq!((app.selected_tab, app.selected), (1, 0));
    app.on_key(key(Key::Tab));
    assert_eq!(app.selected_tab, 2);
    app.on_key(key(Key::Right));
    assert_eq!(app.selected_tab, 0);
    app.on_key(key(Key::Char('h')));
    assert_eq!(app.selected_tab, 2);
    app.on_key(key(Key::BackTab));
    assert_eq!(app.selected_tab, 1);
    app.on_key(key(Key::Left));
    assert_eq!(app.selected_tab, 0);
}

#[test]
fn quitting_keys() {
    let mut app = App::new(vec![session("a", true, 1)]);
    app.on_key(key(Key::Char('c')));
    assert!(!app.should_quit);
    app.on_key(ctrl('c'));
    assert!(app.should_quit);
    let mut app = App::new(vec![session("a", true, 1)]);
    app.on_key(key(Key::Char('q')));
    assert!(app.should_quit);
}

#[test]
fn kill_keys_request_a_signal_for_the_selected_process() {
    let mut app = App::new(vec![session("a", true, 2)]);
    // header row: no request
    assert!(app.on_key(key(Key::Char('x'))).is_none());
    app.on_key(key(Key::Down));
    app.on_key(key(Key::Down));
    let r = app.on_key(key(Key::Char('x'))).expect("a request");
    assert_eq!(r.pid, 201);
    assert!(r.signal == Signal::Kill);
    assert_eq!(r.name, "job1");
    let r = app.on_key(key(Key::Char('t'))).expect("a request");
    assert!(r.signal == Signal::Term);
    assert!(app.status.is_none());
}

#[test]
fn kill_outcomes_show_in_the_status_line_for_three_refreshes() {
    let mut app = App::new(vec![session("a", true, 1)]);
    let req = KillRequest { pid: 4242, signal: Signal::Kill, name: "node".to_string() };
    app.record_kill(&req, KillOutcome::Sent);
    assert_eq!(app.status.as_deref(), Some("Sent SIGKILL → 4242 node"));
    app.refresh(None);
    assert!(app.status.is_some());
    app.refresh(None);
    assert!(app.status.is_some());
    app.refresh(None);
    assert!(app.status.is_none());
    let req = KillRequest { pid: 7, signal: Signal::Term, name: "x".to_string() };
    app.record_kill(&req, KillOutcome::Failed);
    assert_eq!(app.status.as_deref(), Some("Failed to send SIGTERM → 7"));
    app.record_kill(&req, KillOutcome::Unsupported);
    assert_eq!(app.status.as_deref(), Some("SIGTERM unsupported on this platform"));
    app.record_kill(&req, KillOutcome::Gone);
    assert_eq!(app.status.as_deref(), Some("PID 7 no longer exists"));
}

#[test]
fn refresh_keeps_the_session_by_name() {
    let mut app = App::new(vec![session("a", false, 1), session("b", true, 3)]);
    assert_eq!(app.selected_tab, 1);
    app.on_key(key(Key::Char('G')));
    assert_eq!(app.selected, 4);
    app.refresh(Some(vec![session("b", false, 1), session("c", false, 1), session("a", true, 1)]));
    assert_eq!(app.selected_tab, 0);
    assert_eq!(app.sessions[0].name, "b");
    // the selection is clamped to the fewer rows
    assert_eq!(app.selected, 2);
    // the selected session is gone: the index is kept in range
    app.on_key(key(Key::Tab));
    app.on_key(key(Key::Tab));
    assert_eq!(app.selected_tab, 2);
    app.refresh(Some(vec![session("x", false, 1)]));
    assert_eq!(app.selected_tab, 0);
    app.refresh(Some(vec![]));
    assert_eq!(app.selected_tab, 0);
    assert_eq!(app.selected, 0);
}

#[test]
fn short_names_for_status_messages() {
    assert_eq!(short("/usr/bin/node server.js"), "node");
    assert_eq!(short("  nvim  file"), "nvim");
    assert_eq!(short(""), "");
    assert_eq!(short("   "), "   ");
    assert_eq!(short("a/b/"), "");
    let long = "x".repeat(50);
    assert_eq!(short(&long), "x".repeat(40));
    assert_eq!(short("/opt/ünïcode-tööl --x"), "ünïcode-tööl");
}

#[test]
fn footer_shows_filter_then_status_then_help() {
    let mut app = App::new(vec![session("a", true, 2)]);
    assert!(app.footer() == Footer::Help { filtered: false });
    app.on_key(key(Key::Char('/')));
    assert!(app.footer() == Footer::Editing);
    app.on_key(key(Key::Char('j')));
    app.on_key(key(Key::Enter));
    assert!(app.footer() == Footer::Help { filtered: true });
    let req = KillRequest { pid: 200, signal: Signal::Term, name: "job0".to_string() };
    app.record_kill(&req, KillOutcome::Gone);
    assert!(app.footer() == Footer::Status);
}

#[test]
fn body_shows_a_note_or_the_highlighted_row() {
    let app = App::new(vec![]);
    assert!(app.body() == Body::NoSessions);
    let mut app = App::new(vec![session("a", true, 2)]);
    assert!(app.body() == Body::Rows { highlighted: 0 });
    app.on_key(key(Key::Char('G')));
    assert!(app.body() == Body::Rows { highlighted: 3 });
    app.on_key(key(Key::Char('/')));
    app.on_key(key(Key::Char('#')));
    assert!(app.body() == Body::NoMatches);
}

#[test]
fn refresh_timing() {
    assert_eq!(poll_wait(0), 2_000_000_000);
    assert_eq!(poll_wait(1_500_000_000), 500_000_000);
    assert_eq!(poll_wait(2_000_000_000), 0);
    assert_eq!(poll_wait(9_000_000_000), 0);
    assert!(!refresh_due(1_999_999_999));
    assert!(refresh_due(2_000_000_000));
}

#[test]
fn repeated_window_indices_are_refused() {
    let mut s = session("a", true, 1);
    assert!(sessions_are_wf(&vec![session("a", true, 1)]));
    let w = Window { index: 0, name: "again".to_string(), active: false, procs: vec![] };
    s.windows.push(w);
    assert!(!sessions_are_wf(&vec![s]));
}

#[test]
fn folding_under_a_filter_then_clearing_it() {
    let mut app = App::new(vec![session("a", true, 2)]);
    app.on_key(key(Key::Char('/')));
    app.on_key(key(Key::Char('j')));
    app.on_key(key(Key::Enter));
    assert_eq!(app.rows().len(), 4);
    // folding is recorded while the filter hides it, once however often
    app.on_key(key(Key::Enter));
    app.on_key(key(Key::Enter));
    assert_eq!(app.collapsed.len(), 1);
    app.on_key(key(Key::Esc));
    assert_eq!(app.rows().len(), 1);
    app.on_key(key(Key::Enter));
    assert_eq!(app.rows().len(), 4);
    assert!(app.collapsed.is_empty());
}
