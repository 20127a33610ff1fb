use ttop::app::{App, Key, KeyPress};
use ttop::model::{Proc, Session, Window};
use ttop::rows::{session_rows_matching, window_is_wf, Row, Sort};

fn proc_(pid: u32, ppid: u32, cpu: f32, mem: u64, command: &str) -> Proc {
    Proc { pid, ppid, cpu: cpu.to_bits(), mem, command: command.to_string() }
}

fn readme_sessions() -> Vec<Session> {
    vec![
        Session {
            name: "dev".to_string(),
            current: true,
            windows: vec![
                Window {
                    index: 1,
                    name: "editor".to_string(),
                    active: false,
                    procs: vec![
                        proc_(4775, 1, 0.0, 9 << 20, "-fish"),
                        proc_(4810, 4775, 1.8, 80 << 20, "nvim"),
                    ],
                },
                Window {
                    index: 2,
                    name: "api".to_string(),
                    active: true,
                    procs: vec![
                        proc_(5990, 1, 0.0, 9 << 20, "-fish"),
                        proc_(6021, 5990, 13.7, 320 << 20, "node server.js"),
                        proc_(6050, 6021, 0.0, 4 << 20, "tsc --watch"),
                        proc_(6044, 6021, 0.5, 21 << 20, "esbuild"),
                    ],
                },
            ],
        },
        Session { name: "infra".to_string(), current: false, windows: vec![] },
    ]
}

fn key(code: Key) -> KeyPress {
    KeyPress { code, ctrl: false }
}

fn describe(rows: &[Row]) -> Vec<String> {
    rows.iter()
        .map(|r| match r {
            Row::Window { index, name, collapsed, count, mem, .. } => {
                format!("W[{}] {} c={} n={} m={}", index, name, collapsed, count, mem)
            }
            Row::Proc { proc, prefix } => format!("{}{} {}", prefix, proc.pid, proc.command),
        })
        .collect()
}

#[test]
fn rows_form_a_tree_sorted_by_cpu() {
    let app = App::new(readme_sessions());
    let rows = app.rows();
    assert_eq!(
        describe(&rows),
        vec![
            format!("W[1] editor c=false n=2 m={}", 89u64 << 20),
            "└─ 4775 -fish".to_string(),
            "   └─ 4810 nvim".to_string(),
            format!("W[2] api c=false n=4 m={}", 354u64 << 20),
            "└─ 5990 -fish".to_string(),
            "   └─ 6021 node server.js".to_string(),
            "      ├─ 6044 esbuild".to_string(),
            "      └─ 6050 tsc --watch".to_string(),
        ]
    );
}

#[test]
fn window_header_lists_cpu_samples_in_window_order() {
    let app = App::new(readme_sessions());
    let rows = app.rows();
    match &rows[3] {
        Row::Window { cpu, key, .. } => {
            let vals: Vec<f32> = cpu.iter().map(|b| f32::from_bits(*b)).collect();
            assert_eq!(vals, vec![0.0, 13.7, 0.0, 0.5]);
            assert_eq!(key, &("dev".to_string(), 2));
        }
        _ => panic!("expected a window header"),
    }
}

#[test]
fn sorting_by_memory_reorders_siblings() {
    let mut sessions = readme_sessions();
    // give tsc more memory than esbuild but less CPU
    sessions[0].windows[1].procs[2].mem = 500 << 20;
    let mut app = App::new(sessions);
    app.on_key(key(Key::Char('M')));
    let d = describe(&app.rows());
    assert_eq!(d[6], "      ├─ 6050 tsc --watch");
    assert_eq!(d[7], "      └─ 6044 esbuild");
    app.on_key(key(Key::Char('p')));
    let d = describe(&app.rows());
    assert_eq!(d[6], "      ├─ 6044 esbuild");
}

#[test]
fn equal_load_keeps_window_order() {
    let sessions = vec![Session {
        name: "s".to_string(),
        current: true,
        windows: vec![Window {
            index: 0,
            name: "w".to_string(),
            active: true,
            procs: vec![
                proc_(30, 1, 1.0, 5, "c"),
                proc_(20, 1, 1.0, 5, "b"),
                proc_(10, 1, 2.0, 5, "a"),
            ],
        }],
    }];
    let app = App::new(sessions);
    let d = describe(&app.rows());
    assert_eq!(d[1], "├─ 10 a");
    assert_eq!(d[2], "├─ 30 c");
    assert_eq!(d[3], "└─ 20 b");
}

#[test]
fn filter_keeps_matches_and_their_ancestors() {
    let mut app = App::new(readme_sessions());
    app.on_key(key(Key::Char('/')));
    assert!(app.filtering);
    for c in "ESB".chars() {
        app.on_key(key(Key::Char(c)));
    }
    assert_eq!(app.filter, "ESB");
    let d = describe(&app.rows());
    assert_eq!(
        d,
        vec![
            format!("W[2] api c=false n=3 m={}", (9u64 + 320 + 21) << 20),
            "└─ 5990 -fish".to_string(),
            "   └─ 6021 node server.js".to_string(),
            "      └─ 6044 esbuild".to_string(),
        ]
    );
    app.on_key(key(Key::Enter));
    assert!(!app.filtering);
    assert_eq!(app.filter, "ESB");
    app.on_key(key(Key::Esc));
    assert_eq!(app.filter, "");
}

#[test]
fn filter_matches_pid_digits() {
    let mut app = App::new(readme_sessions());
    app.on_key(key(Key::Char('/')));
    for c in "481".chars() {
        app.on_key(key(Key::Char(c)));
    }
    let d = describe(&app.rows());
    assert_eq!(d.len(), 3);
    assert_eq!(d[2], "   └─ 4810 nvim");
}

#[test]
fn filter_with_no_match_shows_nothing_and_esc_clears_it() {
    let mut app = App::new(readme_sessions());
    app.on_key(key(Key::Char('/')));
    app.on_key(key(Key::Char('z')));
    assert!(app.rows().is_empty());
    assert_eq!(app.selected, 0);
    app.on_key(key(Key::Backspace));
    assert_eq!(app.filter, "");
    app.on_key(key(Key::Char('q')));
    assert_eq!(app.filter, "q");
    assert!(!app.should_quit);
    app.on_key(key(Key::Esc));
    assert!(!app.filtering);
    assert_eq!(app.filter, "");
    assert_eq!(app.rows().len(), 8);
}

#[test]
fn enter_folds_and_unfolds_a_window() {
    let mut app = App::new(readme_sessions());
    app.on_key(key(Key::Char('j')));
    app.on_key(key(Key::Char('j')));
    app.on_key(key(Key::Char('j')));
    assert_eq!(app.selected, 3);
    app.on_key(key(Key::Enter));
    let d = describe(&app.rows());
    assert_eq!(d.len(), 4);
    assert_eq!(d[3], format!("W[2] api c=true n=4 m={}", 354u64 << 20));
    app.on_key(key(Key::Char(' ')));
    assert_eq!(app.rows().len(), 8);
    // folding is ignored while a filter applies
    app.on_key(key(Key::Enter));
    assert_eq!(app.rows().len(), 4);
    app.on_key(key(Key::Char('/')));
    app.on_key(key(Key::Char('i')));
    let d = describe(&app.rows());
    assert_eq!(d[0], format!("W[1] editor c=false n=2 m={}", 89u64 << 20));
    assert!(d.iter().any(|l| l.starts_with("W[2] api c=false")));
}

#[test]
fn enter_on_a_process_row_changes_nothing() {
    let mut app = App::new(readme_sessions());
    app.on_key(key(Key::Down));
    app.on_key(key(Key::Enter));
    assert_eq!(app.rows().len(), 8);
}

#[test]
fn folding_twice_gives_back_the_same_rows() {
    let mut app = App::new(readme_sessions());
    let before = describe(&app.rows());
    for header in [0usize, 3] {
        while app.selected < header {
            app.on_key(key(Key::Down));
        }
        app.on_key(key(Key::Enter));
        assert_ne!(describe(&app.rows()), before);
        app.on_key(key(Key::Enter));
        assert_eq!(describe(&app.rows()), before);
    }
}

#[test]
fn every_shown_process_appears_once() {
    let sessions = vec![Session {
        name: "s".to_string(),
        current: true,
        windows: vec![Window {
            index: 0,
            name: "w".to_string(),
            active: true,
            procs: vec![
                proc_(7, 3, 2.0, 1, "leaf-b"),
                proc_(3, 1, 0.0, 1, "sh"),
                proc_(9, 3, 5.0, 1, "leaf-a"),
                proc_(4, 2, 1.0, 1, "orphan"),
                proc_(12, 9, 0.0, 1, "grandchild"),
            ],
        }],
    }];
    let app = App::new(sessions);
    let mut pids: Vec<u32> = app
        .rows()
        .iter()
        .filter_map(|r| match r {
            Row::Proc { proc, .. } => Some(proc.pid),
            _ => None,
        })
        .collect();
    assert_eq!(pids, vec![4, 3, 9, 12, 7]);
    pids.sort();
    pids.dedup();
    assert_eq!(pids.len(), 5);
}

#[test]
fn matching_rows_with_an_empty_needle_show_every_process() {
    let sessions = readme_sessions();
    let all = session_rows_matching(&sessions[0], &vec![], Sort::Cpu, &vec![]);
    assert_eq!(describe(&all), describe(&App::new(readme_sessions()).rows()));
    let esb: Vec<char> = "esb".chars().collect();
    let some = session_rows_matching(&sessions[0], &esb, Sort::Cpu, &vec![]);
    assert_eq!(some.len(), 4);
    // the needle is taken as given: an upper-case needle matches nothing here
    let upper: Vec<char> = "ESB".chars().collect();
    assert!(session_rows_matching(&sessions[0], &upper, Sort::Cpu, &vec![]).is_empty());
}

#[test]
fn negative_and_zero_readings_sort_as_numbers() {
    let sessions = vec![Session {
        name: "s".to_string(),
        current: true,
        windows: vec![Window {
            index: 0,
            name: "w".to_string(),
            active: true,
            procs: vec![
                proc_(1, 0, -0.0, 5, "negzero"),
                proc_(2, 0, -3.0, 5, "minus3"),
                proc_(3, 0, 0.0, 5, "zero"),
                proc_(4, 0, -1.0, 5, "minus1"),
                proc_(5, 0, 0.5, 5, "half"),
            ],
        }],
    }];
    let app = App::new(sessions);
    let d = describe(&app.rows());
    assert_eq!(
        d[1..].to_vec(),
        vec!["├─ 5 half", "├─ 1 negzero", "├─ 3 zero", "├─ 4 minus1", "└─ 2 minus3"]
    );
}

#[test]
fn nan_readings_are_taken() {
    let nan_window = || Window {
        index: 0,
        name: "w".to_string(),
        active: true,
        procs: vec![proc_(1, 0, f32::NAN, 5, "nan"), proc_(2, 0, 1.0, 5, "one")],
    };
    assert!(window_is_wf(&nan_window()));
    let app = App::new(vec![Session { name: "s".to_string(), current: true, windows: vec![nan_window()] }]);
    assert_eq!(app.rows().len(), 3);
    let ok = Window { procs: vec![proc_(1, 0, f32::INFINITY, 5, "inf"), proc_(2, 0, -2.0, 1, "m")], ..nan_window() };
    assert!(window_is_wf(&ok));
}
