use fkill::app::App;
use fkill::cpu::{cpu_level, cpu_rate, read_cpu_time, CpuLevel};
use fkill::ps::parse_ps;

const FIRST: &str = "  400 1 alice 0.0 0.5 02:00:00 0:10.00 /x/Chrome\n  410 400 alice 0.0 3.0 01:00:00 1:00.00 /x/Helper\n  420 400 alice 0.0 1.0 01:00:00 0:00.40 /x/Gpu\n  430 400 alice 0.0 1.0 01:00:00 5:00.00 /x/Reused\n  440 400 alice 0.0 1.0 01:00:00 ?? /x/Odd\n";
const SECOND: &str = "  400 1 alice 0.0 0.5 02:00:02 0:10.00 /x/Chrome\n  410 400 alice 0.0 3.0 01:00:02 1:01.80 /x/Helper\n  420 400 alice 0.0 1.0 01:00:02 0:01.00 /x/Gpu\n  430 400 alice 0.0 1.0 00:00:01 0:00.01 /x/Reused\n  440 400 alice 0.0 1.0 01:00:02 ?? /x/Odd\n  450 400 alice 0.0 1.0 00:00:01 0:00.20 /x/New\n";

#[test]
fn cpu_times_as_ps_prints_them() {
    assert_eq!(read_cpu_time("0:01.50"), Some(150));
    assert_eq!(read_cpu_time("12:34.56"), Some(75456));
    assert_eq!(read_cpu_time("0:05.5"), Some(550));
    assert_eq!(read_cpu_time("1:02:03"), Some(372300));
    assert_eq!(read_cpu_time("00:00:07"), Some(700));
    assert_eq!(read_cpu_time("2-01:00:00"), Some(17640000));
    assert_eq!(read_cpu_time("123:45"), Some(742500));
}

#[test]
fn unreadable_cpu_times() {
    for t in ["", "5", "a:b", "1:2:3:4", "0:01.123", "1-2-3:00", "1:00.", "-1:00", "1:+2", "1:00.x", ":5"] {
        assert_eq!(read_cpu_time(t), None, "input {:?}", t);
    }
}

#[test]
fn rates_and_levels() {
    assert_eq!(cpu_rate(180, 2000), 90);
    assert_eq!(cpu_rate(60, 2000), 30);
    assert_eq!(cpu_rate(1, 2000), 0);
    assert_eq!(cpu_rate(400, 2000), 200);
    assert_eq!(cpu_rate(u64::MAX, 1), u64::MAX);
    assert_eq!(cpu_level(0), CpuLevel::Calm);
    assert_eq!(cpu_level(24), CpuLevel::Calm);
    assert_eq!(cpu_level(25), CpuLevel::Busy);
    assert_eq!(cpu_level(79), CpuLevel::Busy);
    assert_eq!(cpu_level(80), CpuLevel::Hot);
}

#[test]
fn each_refresh_computes_the_rates_since_the_last_one() {
    let mut app = App::new();
    app.refresh(parse_ps(FIRST, false, "alice"), 1, 0);
    assert!(app.cpu_rates.is_empty());
    assert_eq!(app.cpu_times.get(&410), Some(&6000));
    assert_eq!(app.cpu_times.get(&440), None);
    assert_eq!(app.cpu_label(410), ("    -".to_string(), CpuLevel::Calm));

    app.refresh(parse_ps(SECOND, false, "alice"), 1, 2000);
    assert_eq!(app.cpu_rates.get(&400), Some(&0));
    assert_eq!(app.cpu_rates.get(&410), Some(&90));
    assert_eq!(app.cpu_rates.get(&420), Some(&30));
    assert_eq!(app.cpu_rates.get(&430), None);
    assert_eq!(app.cpu_rates.get(&440), None);
    assert_eq!(app.cpu_rates.get(&450), None);
    assert_eq!(app.cpu_times.get(&450), Some(&20));
    assert_eq!(app.cpu_label(410), ("  90%".to_string(), CpuLevel::Hot));
    assert_eq!(app.cpu_label(400), ("   0%".to_string(), CpuLevel::Calm));
    assert_eq!(app.cpu_label(450), ("    -".to_string(), CpuLevel::Calm));

    app.refresh(parse_ps(SECOND, false, "alice"), 1, 0);
    assert!(app.cpu_rates.is_empty());
}

#[test]
fn wide_rates_keep_their_digits() {
    let mut app = App::new();
    app.refresh(parse_ps("  7 1 alice 0 0 1 0:00.00 /x/a\n", false, "alice"), 1, 0);
    app.refresh(parse_ps("  7 1 alice 0 0 1 100:00.00 /x/a\n", false, "alice"), 1, 10);
    assert_eq!(app.cpu_rates.get(&7), Some(&60000000));
    assert_eq!(app.cpu_label(7), ("60000000%".to_string(), CpuLevel::Hot));
}
