use litopts::{Opt, OptType, OptVar, Opts};

fn table() -> Opts {
    Opts {
        opts: &[
            Opt {
                short: Some('c'),
                short_str: "c",
                long: Some("color"),
                para: "WHEN",
                help: "set color mode",
                ty: OptType::LitOptOptOpt,
            },
            Opt {
                short: Some('s'),
                short_str: "s",
                long: Some("short"),
                para: "",
                help: "activate short mode",
                ty: OptType::LitOptFlag,
            },
            Opt {
                short: Some('o'),
                short_str: "o",
                long: Some("output"),
                para: "FILE",
                help: "write to FILE",
                ty: OptType::LitOptOpt,
            },
            Opt {
                short: None,
                short_str: "",
                long: Some("depth"),
                para: "N",
                help: "",
                ty: OptType::LitOptOpt,
            },
        ],
    }
}

fn args(a: &[&str]) -> Vec<Vec<u8>> {
    a.iter().map(|s| s.as_bytes().to_vec()).collect()
}

#[test]
fn record_sorts_free_arguments_and_options() {
    let t = table();
    let a = args(&["x", "-s", "y", "--color=auto", "-o", "f", "z", "--bogus"]);
    let rec = match t.record(&a) {
        Ok(r) => r,
        Err(_) => panic!("the arguments are in order"),
    };
    let free: Vec<&[u8]> = rec.free.clone();
    assert_eq!(free, vec![&b"x"[..], &b"y"[..], &b"z"[..], &b"--bogus"[..]]);
    assert_eq!(rec.res.len(), 3);
    assert_eq!(rec.res[0].as_str, "s");
    assert!(matches!(rec.res[0].var, OptVar::OptFlag('s')));
    assert_eq!(rec.res[1].as_str, "c");
    assert_eq!(rec.res[1].real, "color");
    assert_eq!(rec.res[1].var.get_val_opt(), Some(&b"auto"[..]));
    assert_eq!(rec.res[2].as_str, "o");
    assert_eq!(rec.res[2].var.get_val(), b"f");
}

#[test]
fn record_of_nothing_is_empty() {
    let t = table();
    let a = args(&[]);
    let rec = match t.record(&a) {
        Ok(r) => r,
        Err(_) => panic!("nothing can be wrong with no arguments"),
    };
    assert!(rec.free.is_empty());
    assert!(rec.res.is_empty());
}

#[test]
fn record_fails_with_the_unknown_option() {
    let t = table();
    let a = args(&["x", "-s", "-sq", "y"]);
    match t.record(&a) {
        Ok(_) => panic!("-q is unknown"),
        Err(o) => {
            assert!(matches!(o.var, OptVar::OptUnknown('q')));
            assert_eq!(o.real, "");
            assert_eq!(o.as_str, "");
        },
    }
}

#[test]
fn record_fails_with_the_missing_value() {
    let t = table();
    let a = args(&["x", "-o"]);
    match t.record(&a) {
        Ok(_) => panic!("-o has no value"),
        Err(o) => {
            assert!(matches!(o.var, OptVar::OptMissing('o')));
            assert_eq!(o.as_str, "o");
        },
    }
    let a = args(&["--depth"]);
    match t.record(&a) {
        Ok(_) => panic!("--depth has no value"),
        Err(o) => {
            assert!(matches!(o.var, OptVar::OptLongMissing("depth")));
            assert_eq!(o.real, "depth");
            assert_eq!(o.as_str, "depth");
        },
    }
}

#[test]
fn record_fails_with_the_first_problem() {
    let t = table();
    let a = args(&["-sq", "-sr", "-o"]);
    match t.record(&a) {
        Ok(_) => panic!("-q is unknown"),
        Err(o) => assert!(matches!(o.var, OptVar::OptUnknown('q'))),
    }
}

#[test]
fn record_is_never_in_posix_mode() {
    let t = table();
    let a = args(&["x", "-s"]);
    let rec = match t.record(&a) {
        Ok(r) => r,
        Err(_) => panic!("the arguments are in order"),
    };
    assert_eq!(rec.free.len(), 1);
    assert_eq!(rec.res.len(), 1);
}
