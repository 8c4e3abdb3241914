use litopts::{Opt, OptRes, OptType, OptVar, Opts};

fn table() -> Opts {
    Opts {
        opts: &[
            Opt {
                short: Some('c'),
                short_str: "c",
                long: Some("color"),
                para: "WHEN",
                help: "set color mode",
                ty: OptType::LitOptOptOpt,
            },
            Opt {
                short: Some('s'),
                short_str: "s",
                long: Some("short"),
                para: "",
                help: "activate short mode",
                ty: OptType::LitOptFlag,
            },
            Opt {
                short: Some('l'),
                short_str: "l",
                long: Some("long"),
                para: "",
                help: "activate long mode",
                ty: OptType::LitOptFlag,
            },
            Opt {
                short: Some('o'),
                short_str: "o",
                long: Some("output"),
                para: "FILE",
                help: "write to FILE",
                ty: OptType::LitOptOpt,
            },
            Opt {
                short: None,
                short_str: "",
                long: Some("version"),
                para: "",
                help: "print the version",
                ty: OptType::LitOptFlag,
            },
            Opt {
                short: None,
                short_str: "",
                long: Some("depth"),
                para: "N",
                help: "",
                ty: OptType::LitOptOpt,
            },
            Opt {
                short: None,
                short_str: "",
                long: Some("jobs"),
                para: "N",
                help: "",
                ty: OptType::LitOptOptOpt,
            },
        ],
    }
}

fn args(a: &[&str]) -> Vec<Vec<u8>> {
    a.iter().map(|s| s.as_bytes().to_vec()).collect()
}

fn scan<'a>(t: &'a Opts, a: &'a [Vec<u8>], posix: bool) -> Vec<OptRes<'a>> {
    let mut it = if posix { t.scan(a, true) } else { t.getopts(a) };
    let mut out = Vec::new();
    while let Some(o) = it.next() {
        out.push(o);
    }
    out
}

fn show(o: &OptRes) -> String {
    let v = |b: &[u8]| String::from_utf8_lossy(b).into_owned();
    let var = match o.var {
        OptVar::OptFlag(c) => format!("Flag({})", c),
        OptVar::OptOpt(c, b) => format!("Opt({},{})", c, v(b)),
        OptVar::OptOptOpt(c, Some(b)) => format!("OptOpt({},{})", c, v(b)),
        OptVar::OptOptOpt(c, None) => format!("OptOpt({},-)", c),
        OptVar::OptLongFlag(l) => format!("LongFlag({})", l),
        OptVar::OptLongOpt(l, b) => format!("LongOpt({},{})", l, v(b)),
        OptVar::OptLongOptOpt(l, Some(b)) => format!("LongOptOpt({},{})", l, v(b)),
        OptVar::OptLongOptOpt(l, None) => format!("LongOptOpt({},-)", l),
        OptVar::OptFree(b) => format!("Free({})", v(b)),
        OptVar::OptMissing(c) => format!("Missing({})", c),
        OptVar::OptLongMissing(l) => format!("LongMissing({})", l),
        OptVar::OptUnknown(c) => format!("Unknown({})", c),
    };
    format!("{}/{}/{}", o.real, o.as_str, var)
}

fn run(a: &[&str], posix: bool) -> Vec<String> {
    let t = table();
    let a = args(a);
    scan(&t, &a, posix).iter().map(show).collect()
}

#[test]
fn plain_arguments_are_free_in_order() {
    assert_eq!(run(&["a", "", "b c", "=", "x-y"], false), vec![
        "//Free(a)", "//Free()", "//Free(b c)", "//Free(=)", "//Free(x-y)"
    ]);
    assert_eq!(run(&["a", "b"], true), vec!["//Free(a)", "//Free(b)"]);
    assert_eq!(run(&[], false), Vec::<String>::new());
}

#[test]
fn single_short_flag() {
    assert_eq!(run(&["-s"], false), vec!["s/s/Flag(s)"]);
}

#[test]
fn short_flags_in_one_group() {
    assert_eq!(run(&["-sl"], false), vec!["s/s/Flag(s)", "l/l/Flag(l)"]);
    assert_eq!(run(&["-sl", "x", "-l"], false), vec![
        "s/s/Flag(s)", "l/l/Flag(l)", "//Free(x)", "l/l/Flag(l)"
    ]);
}

#[test]
fn short_option_takes_next_argument() {
    assert_eq!(run(&["-o", "value", "rest"], false), vec!["o/o/Opt(o,value)", "//Free(rest)"]);
    assert_eq!(run(&["-o", "-s"], false), vec!["o/o/Opt(o,-s)"]);
    assert_eq!(run(&["-o", "--"], false), vec!["o/o/Opt(o,--)"]);
}

#[test]
fn short_option_takes_rest_of_group() {
    assert_eq!(run(&["-ored", "x"], false), vec!["o/o/Opt(o,red)", "//Free(x)"]);
    assert_eq!(run(&["-sosl"], false), vec!["s/s/Flag(s)", "o/o/Opt(o,sl)"]);
    assert_eq!(run(&["-so", "v"], false), vec!["s/s/Flag(s)", "o/o/Opt(o,v)"]);
}

#[test]
fn short_option_without_value_at_end() {
    assert_eq!(run(&["-o"], false), vec!["o/o/Missing(o)"]);
    assert_eq!(run(&["x", "-so"], false), vec!["//Free(x)", "s/s/Flag(s)", "o/o/Missing(o)"]);
}

#[test]
fn short_optional_value() {
    assert_eq!(run(&["-c", "auto"], false), vec!["c/c/OptOpt(c,-)", "//Free(auto)"]);
    assert_eq!(run(&["-cauto"], false), vec!["c/c/OptOpt(c,auto)"]);
    assert_eq!(run(&["-sc"], false), vec!["s/s/Flag(s)", "c/c/OptOpt(c,-)"]);
}

#[test]
fn long_optional_value() {
    assert_eq!(run(&["--color=auto"], false), vec!["color/c/OptOpt(c,auto)"]);
    assert_eq!(run(&["--color"], false), vec!["color/c/OptOpt(c,-)"]);
    assert_eq!(run(&["--color", "auto"], false), vec!["color/c/OptOpt(c,-)", "//Free(auto)"]);
    assert_eq!(run(&["--color="], false), vec!["color/c/OptOpt(c,)"]);
    assert_eq!(run(&["--jobs=4", "--jobs"], false), vec![
        "jobs/jobs/LongOptOpt(jobs,4)", "jobs/jobs/LongOptOpt(jobs,-)"
    ]);
}

#[test]
fn long_flag() {
    assert_eq!(run(&["--short", "--version"], false), vec![
        "short/s/Flag(s)", "version/version/LongFlag(version)"
    ]);
    assert_eq!(run(&["--short=yes"], false), vec!["short/s/Flag(s)"]);
}

#[test]
fn long_option_with_value() {
    assert_eq!(run(&["--output=a=b"], false), vec!["output/o/Opt(o,a=b)"]);
    assert_eq!(run(&["--output", "f", "g"], false), vec!["output/o/Opt(o,f)", "//Free(g)"]);
    assert_eq!(run(&["--depth=3", "--depth", "4"], false), vec![
        "depth/depth/LongOpt(depth,3)", "depth/depth/LongOpt(depth,4)"
    ]);
}

#[test]
fn long_option_without_value_at_end() {
    assert_eq!(run(&["--output"], false), vec!["output/o/Missing(o)"]);
    assert_eq!(run(&["--depth"], false), vec!["depth/depth/LongMissing(depth)"]);
}

#[test]
fn terminator_makes_the_rest_free() {
    assert_eq!(run(&["-s", "--", "-l", "--color=auto", "--", "x"], false), vec![
        "s/s/Flag(s)", "//Free(-l)", "//Free(--color=auto)", "//Free(--)", "//Free(x)"
    ]);
    assert_eq!(run(&["-s", "--"], false), vec!["s/s/Flag(s)"]);
    assert_eq!(run(&["--"], false), Vec::<String>::new());
}

#[test]
fn unmatched_long_is_free() {
    assert_eq!(run(&["--bogus"], false), vec!["//Free(--bogus)"]);
    assert_eq!(run(&["--bogus=1", "-s"], false), vec!["//Free(--bogus=1)", "s/s/Flag(s)"]);
    assert_eq!(run(&["--colo"], false), vec!["//Free(--colo)"]);
}

#[test]
fn unmatched_short_in_group_is_unknown() {
    assert_eq!(run(&["-sx"], false), vec!["s/s/Flag(s)", "//Unknown(x)"]);
    assert_eq!(run(&["-sxl", "-l"], false), vec!["s/s/Flag(s)", "//Unknown(x)", "l/l/Flag(l)"]);
}

#[test]
fn unmatched_first_short_is_free() {
    assert_eq!(run(&["-x"], false), vec!["//Free(-x)"]);
    assert_eq!(run(&["-xs"], false), vec!["//Free(-xs)"]);
    assert_eq!(run(&["-"], false), vec!["//Free(-)"]);
}

#[test]
fn posix_mode_first_free_ends_options() {
    assert_eq!(run(&["-s", "foo", "-l"], true), vec!["s/s/Flag(s)", "//Free(foo)", "//Free(-l)"]);
    assert_eq!(run(&["-s", "foo", "-l"], false), vec!["s/s/Flag(s)", "//Free(foo)", "l/l/Flag(l)"]);
    assert_eq!(run(&["--bogus", "-l"], true), vec!["//Free(--bogus)", "//Free(-l)"]);
    assert_eq!(run(&["-x", "--short"], true), vec!["//Free(-x)", "//Free(--short)"]);
}

#[test]
fn exhausted_scan_stays_exhausted() {
    let t = table();
    let a = args(&["-s"]);
    let mut it = t.getopts(&a);
    assert!(it.next().is_some());
    assert!(it.next().is_none());
    assert!(it.next().is_none());
}

#[test]
fn first_entry_wins_for_a_repeated_identifier() {
    let t = Opts {
        opts: &[
            Opt { short: Some('a'), short_str: "a", long: Some("same"), para: "", help: "", ty: OptType::LitOptFlag },
            Opt { short: Some('a'), short_str: "a", long: Some("same"), para: "P", help: "", ty: OptType::LitOptOpt },
        ],
    };
    let a = args(&["-a", "--same", "v"]);
    let got: Vec<String> = scan(&t, &a, false).iter().map(show).collect();
    assert_eq!(got, vec!["a/a/Flag(a)", "same/a/Flag(a)", "//Free(v)"]);
}

#[test]
fn values_are_read_back() {
    let t = table();
    let a = args(&["-o", "f", "--color=auto", "--color"]);
    let got = scan(&t, &a, false);
    assert_eq!(got[0].var.get_val(), b"f");
    assert_eq!(got[1].var.get_val_opt(), Some(&b"auto"[..]));
    assert_eq!(got[2].var.get_val_opt(), None);
}

#[test]
fn scan_starts_in_the_mode_it_is_given() {
    let t = table();
    let a = args(&["x", "-s"]);
    let mut it = t.scan(&a, true);
    let mut got = Vec::new();
    while let Some(o) = it.next() {
        got.push(show(&o));
    }
    assert_eq!(got, vec!["//Free(x)", "//Free(-s)"]);
    let mut it = t.scan(&a, false);
    let mut got = Vec::new();
    while let Some(o) = it.next() {
        got.push(show(&o));
    }
    assert_eq!(got, vec!["//Free(x)", "s/s/Flag(s)"]);
}
