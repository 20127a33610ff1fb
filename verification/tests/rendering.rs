use ttop::model::{Proc, Session};
use ttop::ui::{
    command_width, cpu_level, format_bytes, header_text, mem_level, pad_left, proc_cells, tab_title, truncate,
    window_title, Level,
};

fn float_format_bytes(b: u64) -> String {
    const K: f64 = 1024.0;
    let b = b as f64;
    if b < K {
        format!("{b:.0}B")
    } else if b < K * K {
        format!("{:.0}K", b / K)
    } else if b < K * K * K {
        format!("{:.0}M", b / (K * K))
    } else {
        format!("{:.1}G", b / (K * K * K))
    }
}

#[test]
fn byte_sizes_by_unit() {
    assert_eq!(format_bytes(0), "0B");
    assert_eq!(format_bytes(1023), "1023B");
    assert_eq!(format_bytes(1024), "1K");
    assert_eq!(format_bytes(9 << 20), "9M");
    assert_eq!(format_bytes(354 << 20), "354M");
    assert_eq!(format_bytes(3 << 29), "1.5G");
    assert_eq!(format_bytes((1 << 20) - 1), "1024K");
}

#[test]
fn byte_sizes_round_like_float_formatting() {
    let mut samples: Vec<u64> = vec![
        1536, 2560, 3584, 1024 * 1024 + 512 * 1024, (5 << 20) / 2, (7 << 20) / 2,
        (1 << 30) + (1 << 30) / 20, (1 << 30) + 3 * ((1 << 30) / 20), u64::MAX, u64::MAX - 1,
        1 << 53, (1 << 53) + 1, (1 << 54) + 3, 5 << 28, 13421772800, 1288490188,
    ];
    let mut x: u64 = 0x9E37_79B9_7F4A_7C15;
    for _ in 0..20000 {
        x ^= x << 13;
        x ^= x >> 7;
        x ^= x << 17;
        samples.push(x >> (x % 64));
        samples.push(x % (1 << 32));
    }
    for b in samples {
        assert_eq!(format_bytes(b), float_format_bytes(b), "b = {}", b);
    }
}

#[test]
fn truncating_commands() {
    assert_eq!(truncate("hello", 5), "hello");
    assert_eq!(truncate("hello", 4), "hel…");
    assert_eq!(truncate("hello", 1), "…");
    assert_eq!(truncate("hello", 0), "");
    assert_eq!(truncate("", 0), "");
    assert_eq!(truncate("ünïcödé", 3), "ün…");
}

#[test]
fn highlight_levels() {
    assert!(cpu_level(50.0f32.to_bits()) == Level::Hot);
    assert!(cpu_level(49.9f32.to_bits()) == Level::Warm);
    assert!(cpu_level(10.0f32.to_bits()) == Level::Warm);
    assert!(cpu_level(9.99f32.to_bits()) == Level::Normal);
    assert!(cpu_level(0.0f32.to_bits()) == Level::Normal);
    assert!(cpu_level(250.0f32.to_bits()) == Level::Hot);
    assert!(mem_level(1 << 30) == Level::Hot);
    assert!(mem_level((1 << 30) - 1) == Level::Warm);
    assert!(mem_level(256 << 20) == Level::Warm);
    assert!(mem_level((256 << 20) - 1) == Level::Normal);
}

#[test]
fn command_column_width() {
    assert_eq!(command_width(100, 6), 65);
    assert_eq!(command_width(10, 0), 4);
    assert_eq!(command_width(33, 0), 4);
    assert_eq!(command_width(40, 9), 4);
    assert_eq!(command_width(40, usize::MAX), 4);
}

#[test]
fn right_aligned_columns() {
    assert_eq!(pad_left("4810", 7), "   4810");
    assert_eq!(pad_left("354M", 8), "    354M");
    assert_eq!(pad_left("12345678", 7), "12345678");
    assert_eq!(pad_left("ü", 3), format!("{:>3}", "ü"));
    assert_eq!(pad_left("", 0), "");
}

#[test]
fn process_row_cells() {
    let p = Proc {
        pid: 6021,
        ppid: 5990,
        cpu: 13.7f32.to_bits(),
        mem: 320 << 20,
        command: "node server.js --inspect".to_string(),
    };
    let c = proc_cells(&p, "   └─ ", 50);
    assert_eq!(c.pid, format!("{:>7}", 6021));
    assert_eq!(c.mem, format!("{:>8}", "320M"));
    assert!(c.cpu_level == Level::Warm);
    assert!(c.mem_level == Level::Warm);
    // 50 - 29 fixed columns = 21, less the 6-character prefix: 15
    assert_eq!(c.command, "node server.js…");
    let narrow = proc_cells(&p, "", 10);
    assert_eq!(narrow.command, "nod…");
}

#[test]
fn window_titles() {
    assert_eq!(window_title(2, "api"), "[2] api");
    assert_eq!(window_title(10, ""), "[10] ");
}

#[test]
fn negative_and_nan_readings_are_not_highlighted() {
    assert!(cpu_level((-80.0f32).to_bits()) == Level::Normal);
    assert!(cpu_level((-0.0f32).to_bits()) == Level::Normal);
    assert!(cpu_level(f32::NAN.to_bits()) == Level::Normal);
    assert!(cpu_level(f32::INFINITY.to_bits()) == Level::Hot);
    assert!(cpu_level(50.0f32.to_bits()) == Level::Hot);
    assert!(cpu_level(9.99f32.to_bits()) == Level::Normal);
}

#[test]
fn window_header_text_around_the_cpu_figure() {
    let h = header_text(4, 354 << 20);
    assert_eq!(h.before, "   4 proc · ");
    assert_eq!(h.after, "% · 354M");
    assert_eq!(format!("{}{:.1}{}", h.before, 14.2f32, h.after), "   4 proc · 14.2% · 354M");
}

#[test]
fn tab_titles_mark_the_current_session() {
    let s = Session { name: "dev".to_string(), current: true, windows: vec![] };
    let t = tab_title(&s);
    assert_eq!(t.name, " dev");
    assert!(t.marked);
    let s = Session { name: "infra".to_string(), current: false, windows: vec![] };
    let t = tab_title(&s);
    assert_eq!(t.name, " infra");
    assert!(!t.marked);
}
