use litopts::help::entry_block;
use litopts::text::{mark_chars, split_marked, split_words};
use litopts::{Opt, OptType, Opts};

fn table(opts: Vec<Opt>) -> Opts {
    Opts { opts: Box::leak(opts.into_boxed_slice()) }
}

fn leak(s: String) -> &'static str {
    Box::leak(s.into_boxed_str())
}

fn flag(short: Option<char>, short_str: &'static str, long: Option<&'static str>, help: &'static str) -> Opt {
    Opt { short, short_str, long, para: "", help, ty: OptType::LitOptFlag }
}

#[test]
fn format_of_each_shape() {
    let o = |short, long, ty| Opt {
        short,
        short_str: "",
        long,
        para: "P",
        help: "",
        ty,
    };
    assert_eq!(o(Some('x'), None, OptType::LitOptFlag).gahnoo_format(), "  -x");
    assert_eq!(o(Some('x'), None, OptType::LitOptOpt).gahnoo_format(), "  -x <P>");
    assert_eq!(o(Some('x'), None, OptType::LitOptOptOpt).gahnoo_format(), "  -x[P]");
    assert_eq!(o(None, Some("name"), OptType::LitOptFlag).gahnoo_format(), "  --name");
    assert_eq!(o(None, Some("name"), OptType::LitOptOpt).gahnoo_format(), "  --name=P");
    assert_eq!(o(None, Some("name"), OptType::LitOptOptOpt).gahnoo_format(), "  --name[=P]");
    assert_eq!(o(Some('x'), Some("name"), OptType::LitOptFlag).gahnoo_format(), "  -x, --name");
    assert_eq!(o(Some('x'), Some("name"), OptType::LitOptOpt).gahnoo_format(), "  -x, --name=P");
    assert_eq!(o(Some('x'), Some("name"), OptType::LitOptOptOpt).gahnoo_format(), "  -x, --name[=P]");
    assert_eq!(o(None, None, OptType::LitOptOpt).gahnoo_format(), "  ");
}

#[test]
fn help_of_a_small_table() {
    let t = Opts {
        opts: &[
            Opt {
                short: Some('c'),
                short_str: "c",
                long: Some("color"),
                para: "WHEN",
                help: "set color mode",
                ty: OptType::LitOptOptOpt,
            },
            Opt {
                short: Some('s'),
                short_str: "s",
                long: Some("short"),
                para: "",
                help: "activate short mode",
                ty: OptType::LitOptFlag,
            },
            Opt {
                short: Some('l'),
                short_str: "l",
                long: Some("long"),
                para: "",
                help: "activate long mode",
                ty: OptType::LitOptFlag,
            },
            Opt {
                short: None,
                short_str: "",
                long: Some("help"),
                para: "",
                help: "print this help",
                ty: OptType::LitOptFlag,
            },
            Opt {
                short: None,
                short_str: "",
                long: Some("version"),
                para: "",
                help: "print the version",
                ty: OptType::LitOptFlag,
            },
        ],
    };
    let expected = "  -c, --color[=WHEN]   set color mode\n\
                    \x20 -s, --short          activate short mode\n\
                    \x20 -l, --long           activate long mode\n\
                    \x20     --help           print this help\n\
                    \x20     --version        print the version\n";
    assert_eq!(t.gahnoo_help(), expected);
}

#[test]
fn help_of_an_empty_table_is_empty() {
    let t = Opts { opts: &[] };
    assert_eq!(t.gahnoo_help(), "");
}

#[test]
fn long_only_entries_are_not_set_in_without_a_short_and_long_entry() {
    let t = table(vec![flag(None, "", Some("help"), "print this help"), flag(Some('v'), "v", None, "more output")]);
    assert_eq!(t.gahnoo_help(), "  --help   print this help\n  -v       more output\n");
}

#[test]
fn entry_without_description() {
    let t = table(vec![flag(Some('x'), "x", None, "")]);
    assert_eq!(t.gahnoo_help(), "  -x   \n");
    let t = table(vec![flag(Some('x'), "x", None, " \t\n ")]);
    assert_eq!(t.gahnoo_help(), "  -x   \n");
}

#[test]
fn description_wraps_at_eighty_columns() {
    let t = table(vec![flag(
            Some('x'),
            "x",
            None,
            "aaaaaaaaa aaaaaaaaa aaaaaaaaa aaaaaaaaa aaaaaaaaa aaaaaaaaa aaaaaaaaa bbbbbbbbb bbbbbbbbb bbbbbbbbb",
        )]);
    let expected = "  -x   aaaaaaaaa aaaaaaaaa aaaaaaaaa aaaaaaaaa aaaaaaaaa aaaaaaaaa aaaaaaaaa \n\
                    \x20        bbbbbbbbb bbbbbbbbb bbbbbbbbb\n";
    let got = t.gahnoo_help();
    assert_eq!(got, expected);
    for line in got.lines() {
        assert!(line.len() <= 80);
    }
}

#[test]
fn line_filled_to_the_last_column_is_followed_by_a_new_one() {
    // 7 columns of label and padding, then 73 columns of one word: 80 in all.
    let word = "c".repeat(73);
    let t = table(vec![flag(Some('x'), "x", None, leak(format!("{} d", word)))]);
    let expected = format!("  -x   {}\n         d\n", word);
    let got = t.gahnoo_help();
    assert_eq!(got, expected);
    assert_eq!(got.lines().next().map(|l| l.len()), Some(80));
}

#[test]
fn word_wider_than_a_line_is_left_whole() {
    // 71 columns fit behind the indentation of 9, so 72 do not fit on any line.
    let word = "c".repeat(72);
    let t = table(vec![flag(Some('x'), "x", None, leak(format!("ab {} de", word)))]);
    let expected = format!("  -x   ab {}\n         de\n", word);
    assert_eq!(t.gahnoo_help(), expected);
    let t = table(vec![flag(Some('x'), "x", None, leak(word.clone()))]);
    let expected = format!("  -x   {}\n", word);
    assert_eq!(t.gahnoo_help(), expected);
    let t = table(vec![flag(Some('x'), "x", None, leak(format!("{} {}", word, word)))]);
    // The first copy fits its line and fills it but for one column; the
    // second fits no line, so it stays behind the space.
    let expected = format!("  -x   {} {}\n", word, word);
    assert_eq!(t.gahnoo_help(), expected);
}

#[test]
fn word_that_fits_only_a_new_line_goes_there() {
    // 71 columns: too wide behind "  -x   ab ", but it fits behind 9 spaces.
    let word = "c".repeat(71);
    let t = table(vec![flag(Some('x'), "x", None, leak(format!("ab {} de", word)))]);
    let expected = format!("  -x   ab \n         {}\n         de\n", word);
    let got = t.gahnoo_help();
    assert_eq!(got, expected);
    assert_eq!(got.lines().nth(1).map(|l| l.len()), Some(80));
}

#[test]
fn label_too_wide_for_the_column_stands_alone() {
    let t = table(vec![flag(None, "", Some("a-very-long-option-name-here"), "first second"),
            flag(Some('x'), "x", None, "third"),]);
    let expected = "  --a-very-long-option-name-here\n\
                    \x20                              first second\n\
                    \x20 -x                         third\n";
    assert_eq!(t.gahnoo_help(), expected);
}

#[test]
fn label_that_leaves_one_column_stands_alone() {
    // The widest label has 26 columns, so the descriptions start at 29; a
    // label of 28 does not exist here, and one of 26 keeps its line.
    let t = table(vec![flag(None, "", Some("abcdefghijklmnopqrstuv"), "one")]);
    assert_eq!(t.gahnoo_help(), "  --abcdefghijklmnopqrstuv   one\n");
    // 27 columns: the column is capped at 29, two spaces are left.
    let t = table(vec![flag(None, "", Some("abcdefghijklmnopqrstuvw"), "one")]);
    assert_eq!(t.gahnoo_help(), "  --abcdefghijklmnopqrstuvw  one\n");
    // 28 columns: one space would be left, so the label stands alone.
    let t = table(vec![flag(None, "", Some("abcdefghijklmnopqrstuvwx"), "one")]);
    assert_eq!(
        t.gahnoo_help(),
        "  --abcdefghijklmnopqrstuvwx\n                               one\n"
    );
}

#[test]
fn width_counts_bytes() {
    // Each word takes two columns and a space: 24 of them fill 72 columns
    // behind the 7 of the label, and a 25th would end in column 81.
    let t = table(vec![flag(
            Some('x'),
            "x",
            None,
            "é é é é é é é é é é é é é é é é é é é é é é é é é é",
        )]);
    let expected = "  -x   é é é é é é é é é é é é é é é é é é é é é é é é \n\
                    \x20        é é\n";
    assert_eq!(t.gahnoo_help(), expected);
}

#[test]
fn words_are_split_at_any_white_space() {
    assert_eq!(split_words("  two   words\n here\t"), vec!["two", "words", "here"]);
    assert_eq!(split_words("one"), vec!["one"]);
    assert_eq!(split_words("a\u{a0}b\u{3000}c"), vec!["a", "b", "c"]);
    assert_eq!(split_words(" \n"), Vec::<String>::new());
    assert_eq!(split_words(""), Vec::<String>::new());
}

#[test]
fn words_are_split_at_the_marks() {
    let text = vec![('a', false), (' ', false), ('b', true), ('c', true), ('d', false), ('-', true)];
    assert_eq!(split_marked(&text), vec!["a ", "d"]);
    assert_eq!(split_marked(&vec![('x', true)]), Vec::<String>::new());
    assert_eq!(split_marked(&Vec::new()), Vec::<String>::new());
}

#[test]
fn white_space_is_marked() {
    assert_eq!(mark_chars("a b\n"), vec![('a', false), (' ', true), ('b', false), ('\n', true)]);
    assert_eq!(mark_chars(""), Vec::new());
}

#[test]
fn block_of_one_entry() {
    let o = flag(Some('x'), "x", Some("ex"), "not used here");
    let ws = vec!["set".to_string(), "these words".to_string()];
    assert_eq!(entry_block(&o, &ws, true, 14), "  -x, --ex    set these words\n");
    assert_eq!(entry_block(&o, &ws, true, 11), "  -x, --ex\n             set these words\n");
    assert_eq!(entry_block(&o, &Vec::new(), false, 29), "  -x, --ex                   \n");
    let o = flag(None, "", Some("ex"), "");
    assert_eq!(entry_block(&o, &ws, true, 14), "      --ex    set these words\n");
    assert_eq!(entry_block(&o, &ws, false, 14), "  --ex        set these words\n");
    assert_eq!(entry_block(&o, &ws, false, 0), "  --ex\n  set these words\n");
}
