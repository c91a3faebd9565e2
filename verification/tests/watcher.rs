use scale_watch::{Config, Mtime, Scale};

#[test]
fn default_fallback_missing_file() {
    // A watcher over a file that never yields a timestamp keeps the default.
    let c = Config::new("/home/user", false);
    assert!(!c.needs_reload(&None));
    assert_eq!(c.get_scale(), Scale { num: 1, den_pow: 0 });
}

#[test]
fn path_resolution_primary() {
    let c = Config::new("/home/user", false);
    assert_eq!(c.path().as_str(), "/home/user/.config/niri/config.kdl");
}

#[test]
fn path_resolution_override() {
    let c = Config::new("/home/user", true);
    assert_eq!(c.path().as_str(), "/home/user/.config/niri/dms/outputs.kdl");
}

#[test]
fn single_output() {
    let mut c = Config::new("/home/user", false);
    let content = b"output \"eDP-1\" {\n    scale 1.5\n}\n".to_vec();
    c.reload(Mtime { secs: 1, nanos: 0 }, Some(&content));
    assert_eq!(c.get_scale(), Scale { num: 15, den_pow: 1 });
}

#[test]
fn maximum_across_outputs() {
    let mut c = Config::new("/home/user", false);
    let content =
        b"output \"A\" {\n scale 1.0\n}\noutput \"B\" {\n scale 2.0\n}\noutput \"C\" {\n scale 1.25\n}\n"
            .to_vec();
    c.reload(Mtime { secs: 1, nanos: 0 }, Some(&content));
    assert_eq!(c.get_scale(), Scale { num: 20, den_pow: 1 });

    // the same declarations in another order give the same answer
    let shuffled =
        b"output \"C\" {\n scale 1.25\n}\noutput \"B\" {\n scale 2.0\n}\noutput \"A\" {\n scale 1.0\n}\n"
            .to_vec();
    c.reload(Mtime { secs: 2, nanos: 0 }, Some(&shuffled));
    assert_eq!(c.get_scale(), Scale { num: 20, den_pow: 1 });
}

#[test]
fn cursor_reassignment() {
    // A scale line before any output declaration is ignored; one after
    // output X's declaration is attributed to X, across intervening
    // non-matching lines.
    let mut c = Config::new("/home/user", false);
    let content = b"scale 9.0\noutput \"X\" {\n// a comment\nposition 0 0\nscale 2.0\n}\n".to_vec();
    c.reload(Mtime { secs: 1, nanos: 0 }, Some(&content));
    assert_eq!(c.get_scale(), Scale { num: 20, den_pow: 1 });
}

#[test]
fn later_scale_overwrites_same_output() {
    // Two scale lines under one output: the later one wins for that output,
    // so the overwritten larger value does not survive into the maximum.
    let mut c = Config::new("/home/user", false);
    let content = b"output \"X\"\nscale 3.0\nscale 1.0\noutput \"B\"\nscale 2.0\n".to_vec();
    c.reload(Mtime { secs: 1, nanos: 0 }, Some(&content));
    assert_eq!(c.get_scale(), Scale { num: 20, den_pow: 1 });
}

#[test]
fn noop_on_unchanged_file() {
    let mut c = Config::new("/home/user", false);
    let m = Mtime { secs: 7, nanos: 3 };
    // the very first observation counts as a change
    assert!(c.needs_reload(&Some(m)));
    let content = b"output \"eDP-1\"\nscale 1.5\n".to_vec();
    c.reload(m, Some(&content));
    let first = c.get_scale();
    // same timestamp again: no reload, identical value
    assert!(!c.needs_reload(&Some(m)));
    assert_eq!(c.get_scale(), first);
}

#[test]
fn reload_on_change() {
    let mut c = Config::new("/home/user", false);
    let m1 = Mtime { secs: 1, nanos: 0 };
    c.reload(m1, Some(&b"output \"eDP-1\"\nscale 1.5\n".to_vec()));
    assert_eq!(c.get_scale(), Scale { num: 15, den_pow: 1 });

    let m2 = Mtime { secs: 2, nanos: 0 };
    assert!(c.needs_reload(&Some(m2)));
    c.reload(m2, Some(&b"output \"eDP-1\"\nscale 2.5\n".to_vec()));
    assert_eq!(c.get_scale(), Scale { num: 25, den_pow: 1 });

    // a content change without a timestamp change goes unnoticed
    assert!(!c.needs_reload(&Some(m2)));
    assert_eq!(c.get_scale(), Scale { num: 25, den_pow: 1 });
}

#[test]
fn malformed_recovery() {
    // Output declarations but no valid scale line: the scale falls back to
    // one, and the timestamp still advances so the broken file is not
    // re-parsed until it changes again.
    let mut c = Config::new("/home/user", false);
    let m = Mtime { secs: 5, nanos: 0 };
    let content = b"output \"eDP-1\" {\nscale\nscale 1.2.3\nscale abc\n}\n".to_vec();
    c.reload(m, Some(&content));
    assert_eq!(c.get_scale(), Scale { num: 1, den_pow: 0 });
    assert!(!c.needs_reload(&Some(m)));
}

#[test]
fn unreadable_after_stat() {
    // The timestamp was observed but the read failed: the scale resets to
    // the default and the timestamp cursor still advances.
    let mut c = Config::new("/home/user", false);
    let m1 = Mtime { secs: 1, nanos: 0 };
    c.reload(m1, Some(&b"output \"A\"\nscale 2.0\n".to_vec()));
    assert_eq!(c.get_scale(), Scale { num: 20, den_pow: 1 });
    let m2 = Mtime { secs: 2, nanos: 0 };
    c.reload(m2, None);
    assert_eq!(c.get_scale(), Scale { num: 1, den_pow: 0 });
    assert!(!c.needs_reload(&Some(m2)));
}

#[test]
fn mtime_nanos_matter() {
    let mut c = Config::new("/home/user", false);
    let m1 = Mtime { secs: 1, nanos: 0 };
    c.reload(m1, Some(&b"output \"A\"\nscale 2.0\n".to_vec()));
    assert!(!c.needs_reload(&Some(m1)));
    assert!(c.needs_reload(&Some(Mtime { secs: 1, nanos: 1 })));
}
