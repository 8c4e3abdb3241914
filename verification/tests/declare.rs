use litopts::declare::{build_table, check_rows, expand_opts, Fault, RowError};
use litopts::syntax::{Expected, SyntaxError};
use litopts::{OptType, OptVar};

fn rows(r: &[(&str, &str)]) -> Vec<(String, String)> {
    r.iter().map(|(d, h)| (d.to_string(), h.to_string())).collect()
}

fn faults(e: &[RowError]) -> Vec<String> {
    e.iter()
        .map(|r| match &r.fault {
            Fault::Syntax(s) => format!("{}: {} at {}", r.row, s.expected.message(), s.pos),
            Fault::DuplicateShort(c) => format!("{}: duplicate -{}", r.row, c),
            Fault::DuplicateLong(l) => format!("{}: duplicate --{}", r.row, l),
        })
        .collect()
}

#[test]
fn table_from_declarations() {
    let r = rows(&[
        ("-c, --color[=WHEN]", "set color mode"),
        ("-s, --short", "activate short mode"),
        ("-l, --long", "activate long mode"),
        ("    --help", "print this help"),
        ("-o <FILE>", ""),
    ]);
    let t = match expand_opts(&r) {
        Ok(t) => t,
        Err(e) => panic!("{:?}", faults(&e)),
    };
    assert_eq!(t.opts.len(), 5);
    assert_eq!(t.opts[0].short, Some('c'));
    assert_eq!(t.opts[0].short_str, "c");
    assert_eq!(t.opts[0].long, Some("color"));
    assert_eq!(t.opts[0].para, "WHEN");
    assert_eq!(t.opts[0].help, "set color mode");
    assert_eq!(t.opts[0].ty, OptType::LitOptOptOpt);
    assert_eq!(t.opts[1].para, "");
    assert_eq!(t.opts[1].ty, OptType::LitOptFlag);
    assert_eq!(t.opts[3].short, None);
    assert_eq!(t.opts[3].short_str, "");
    assert_eq!(t.opts[3].long, Some("help"));
    assert_eq!(t.opts[4].long, None);
    assert_eq!(t.opts[4].para, "FILE");
    assert_eq!(t.opts[4].ty, OptType::LitOptOpt);

    let args: Vec<Vec<u8>> = vec![b"-sc".to_vec(), b"--help".to_vec(), b"-o".to_vec(), b"f".to_vec()];
    let mut it = t.getopts(&args);
    let mut seen = Vec::new();
    while let Some(o) = it.next() {
        seen.push((o.real, o.as_str));
        if o.as_str == "o" {
            assert!(matches!(o.var, OptVar::OptOpt('o', b"f")));
        }
    }
    assert_eq!(seen, vec![("s", "s"), ("c", "c"), ("help", "help"), ("o", "o")]);
    assert_eq!(
        t.gahnoo_help(),
        "  -c, --color[=WHEN]   set color mode\n\
         \x20 -s, --short          activate short mode\n\
         \x20 -l, --long           activate long mode\n\
         \x20     --help           print this help\n\
         \x20 -o <FILE>            \n"
    );
}

#[test]
fn no_rows_make_an_empty_table() {
    let t = match expand_opts(&rows(&[])) {
        Ok(t) => t,
        Err(_) => panic!("nothing can be wrong with no rows"),
    };
    assert!(t.opts.is_empty());
}

#[test]
fn repeated_short_identifier() {
    let r = rows(&[("-c", ""), ("-x", ""), ("-c, --color", "")]);
    match expand_opts(&r) {
        Ok(_) => panic!("-c is declared twice"),
        Err(e) => assert_eq!(faults(&e), vec!["2: duplicate -c"]),
    }
}

#[test]
fn repeated_long_identifier() {
    let r = rows(&[("--color", ""), ("-c, --color", "")]);
    match expand_opts(&r) {
        Ok(_) => panic!("--color is declared twice"),
        Err(e) => assert_eq!(faults(&e), vec!["1: duplicate --color"]),
    }
}

#[test]
fn repeated_short_is_reported_before_repeated_long() {
    let r = rows(&[("-c, --color", ""), ("-c, --color", "")]);
    match expand_opts(&r) {
        Ok(_) => panic!("both are declared twice"),
        Err(e) => assert_eq!(faults(&e), vec!["1: duplicate -c"]),
    }
}

#[test]
fn all_bad_rows_are_reported() {
    let r = rows(&[("-c", ""), ("-c", ""), ("color", ""), ("--x=", ""), ("-c", ""), ("-d", "")]);
    match check_rows(&r) {
        Ok(_) => panic!("four rows are bad"),
        Err(e) => assert_eq!(faults(&e), vec![
            "1: duplicate -c",
            "2: expected `-` at 0",
            "3: expected `[A-Za-z_]` at 4",
            "4: duplicate -c",
        ]),
    }
}

#[test]
fn a_rejected_row_declares_nothing() {
    // The second row is refused for its short identifier, so its long one
    // is free for the third.
    let r = rows(&[("-c", ""), ("-c, --color", ""), ("--color", ""), ("--color", "")]);
    match check_rows(&r) {
        Ok(_) => panic!("two rows are bad"),
        Err(e) => assert_eq!(faults(&e), vec!["1: duplicate -c", "3: duplicate --color"]),
    }
}

#[test]
fn syntax_fault_is_kept_as_it_is() {
    let r = rows(&[("-x y", "")]);
    match check_rows(&r) {
        Ok(_) => panic!("the row is bad"),
        Err(e) => {
            assert_eq!(e.len(), 1);
            assert_eq!(e[0].row, 0);
            match &e[0].fault {
                Fault::Syntax(s) => {
                    assert_eq!(*s, SyntaxError { pos: 3, expected: Expected::BlankAngleOrComma })
                },
                _ => panic!("the fault is in the notation"),
            }
        },
    }
}

#[test]
fn checked_rows_keep_their_order_and_descriptions() {
    let r = rows(&[("-b", "second letter"), ("-a", "first letter")]);
    let t = match check_rows(&r) {
        Ok(t) => t,
        Err(_) => panic!("the rows are in order"),
    };
    assert_eq!(t.len(), 2);
    assert_eq!(t[0].short, Some('b'));
    assert_eq!(t[0].help, "second letter");
    assert_eq!(t[1].short, Some('a'));
    let table = build_table(&t);
    assert_eq!(table.opts[1].short_str, "a");
    assert_eq!(table.opts[1].help, "first letter");
}
