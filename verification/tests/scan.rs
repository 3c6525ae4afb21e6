use getopt_long::spot_error::SpotError;
use getopt_long::{Arguments, ConstructionError, HasArg, Opt, OptError, OptionTable};
use getopt_long::getopt_long as scan_tokens;

fn opt(long: Option<&str>, short: Option<char>, has_arg: HasArg, desc: &str) -> Opt {
    Opt::new(long.map(|s| s.to_string()), short, has_arg, desc).unwrap()
}

fn toks(words: &[&str]) -> Vec<String> {
    words.iter().map(|w| w.to_string()).collect()
}

fn scan(opts: &[Opt], words: &[&str]) -> Result<Arguments, OptError> {
    scan_tokens(opts, &toks(words))
}

fn value(args: &Arguments, name: &str) -> Option<Option<String>> {
    args.matched_value(name).cloned()
}

#[test]
fn it_works() {
    assert_eq!(2 + 2, 4);
}

#[test]
fn empty_invocation() {
    let opts = vec![opt(None, Some('a'), HasArg::NoArgument, "")];
    let args = scan(&opts, &["prog"]).unwrap();
    assert!(args.matched.is_empty());
    assert!(args.operands.is_empty());
}

#[test]
fn no_tokens_at_all() {
    let opts = vec![opt(None, Some('a'), HasArg::NoArgument, "")];
    let args = scan_tokens(&opts, &Vec::new()).unwrap();
    assert!(args.matched.is_empty());
    assert!(args.operands.is_empty());
}

#[test]
fn short_no_argument() {
    let opts = vec![opt(None, Some('a'), HasArg::NoArgument, "flag")];
    let args = scan(&opts, &["prog", "-a"]).unwrap();
    assert_eq!(value(&args, "a"), Some(None));
    assert!(args.operands.is_empty());
}

#[test]
fn clustering_with_required_value_in_next_token() {
    let opts = vec![
        opt(None, Some('a'), HasArg::NoArgument, ""),
        opt(None, Some('b'), HasArg::NoArgument, ""),
        opt(None, Some('c'), HasArg::RequiredArgument, ""),
    ];
    let args = scan(&opts, &["prog", "-abc", "val"]).unwrap();
    assert_eq!(value(&args, "a"), Some(None));
    assert_eq!(value(&args, "b"), Some(None));
    assert_eq!(value(&args, "c"), Some(Some("val".to_string())));
    assert!(args.operands.is_empty());
}

#[test]
fn short_required_value_in_same_token() {
    let opts = vec![opt(None, Some('c'), HasArg::RequiredArgument, "")];
    let args = scan(&opts, &["prog", "-cvalue"]).unwrap();
    assert_eq!(value(&args, "c"), Some(Some("value".to_string())));
}

#[test]
fn short_optional_value_only_from_same_token() {
    let opts = vec![opt(None, Some('o'), HasArg::OptionalArgument, "")];
    let args = scan(&opts, &["prog", "-oval"]).unwrap();
    assert_eq!(value(&args, "o"), Some(Some("val".to_string())));
    let args = scan(&opts, &["prog", "-o", "val"]).unwrap();
    assert_eq!(value(&args, "o"), Some(None));
    assert_eq!(args.operands, toks(&["val"]));
}

#[test]
fn missing_argument_failure() {
    let opts = vec![opt(None, Some('c'), HasArg::RequiredArgument, "")];
    let err = scan(&opts, &["prog", "-c"]).unwrap_err();
    assert_eq!(err, OptError::MissingOptionArgument("-c".to_string()));
}

#[test]
fn unknown_short_option() {
    let opts = vec![opt(None, Some('a'), HasArg::NoArgument, "")];
    let err = scan(&opts, &["prog", "-axb"]).unwrap_err();
    assert_eq!(err, OptError::InvalidOption("-x".to_string()));
}

#[test]
fn unknown_long_option_failure() {
    let opts = vec![opt(Some("real"), Some('r'), HasArg::NoArgument, "")];
    let err = scan(&opts, &["prog", "--bogus"]).unwrap_err();
    assert_eq!(err, OptError::InvalidOption("--bogus".to_string()));
}

#[test]
fn long_with_inline_value() {
    let opts = vec![opt(Some("level"), None, HasArg::RequiredArgument, "")];
    let args = scan(&opts, &["prog", "--level=3"]).unwrap();
    assert_eq!(value(&args, "level"), Some(Some("3".to_string())));
}

#[test]
fn long_with_empty_inline_value() {
    let opts = vec![opt(Some("level"), None, HasArg::RequiredArgument, "")];
    let args = scan(&opts, &["prog", "--level="]).unwrap();
    assert_eq!(value(&args, "level"), Some(Some(String::new())));
}

#[test]
fn long_with_value_in_next_token() {
    let opts = vec![opt(Some("level"), None, HasArg::RequiredArgument, "")];
    let args = scan(&opts, &["prog", "--level", "3", "rest"]).unwrap();
    assert_eq!(value(&args, "level"), Some(Some("3".to_string())));
    assert_eq!(args.operands, toks(&["rest"]));
}

#[test]
fn long_required_before_separator_fails() {
    let opts = vec![opt(Some("level"), None, HasArg::RequiredArgument, "")];
    let err = scan(&opts, &["prog", "--level", "--", "3"]).unwrap_err();
    assert_eq!(err, OptError::MissingOptionArgument("--level".to_string()));
}

#[test]
fn long_required_at_end_fails() {
    let opts = vec![opt(Some("level"), None, HasArg::RequiredArgument, "")];
    let err = scan(&opts, &["prog", "--level"]).unwrap_err();
    assert_eq!(err, OptError::MissingOptionArgument("--level".to_string()));
}

#[test]
fn long_optional_value_only_inline() {
    let opts = vec![opt(Some("color"), None, HasArg::OptionalArgument, "")];
    let args = scan(&opts, &["prog", "--color=auto"]).unwrap();
    assert_eq!(value(&args, "color"), Some(Some("auto".to_string())));
    let args = scan(&opts, &["prog", "--color", "auto"]).unwrap();
    assert_eq!(value(&args, "color"), Some(None));
    assert_eq!(args.operands, toks(&["auto"]));
}

#[test]
fn long_no_argument_rejects_inline_value() {
    let opts = vec![opt(Some("verbose"), None, HasArg::NoArgument, "")];
    let err = scan(&opts, &["prog", "--verbose=1"]).unwrap_err();
    assert_eq!(err, OptError::UnexpectedArgument("--verbose=1".to_string()));
}

#[test]
fn repeated_option_overwrites() {
    let opts = vec![opt(Some("level"), None, HasArg::RequiredArgument, "")];
    let args = scan(&opts, &["prog", "--level=1", "--level=2"]).unwrap();
    assert_eq!(value(&args, "level"), Some(Some("2".to_string())));
    assert_eq!(args.matched.len(), 1);
}

#[test]
fn separator_scenario() {
    let opts = vec![opt(None, Some('a'), HasArg::NoArgument, "")];
    let args = scan(&opts, &["prog", "-a", "--", "-b", "foo"]).unwrap();
    assert_eq!(value(&args, "a"), Some(None));
    assert_eq!(value(&args, "b"), None);
    assert_eq!(args.operands, toks(&["-b", "foo"]));
}

#[test]
fn bare_token_ends_option_scanning() {
    let opts = vec![
        opt(None, Some('a'), HasArg::NoArgument, ""),
        opt(None, Some('b'), HasArg::NoArgument, ""),
    ];
    let args = scan(&opts, &["prog", "-a", "stop", "-b", "tail"]).unwrap();
    assert_eq!(value(&args, "a"), Some(None));
    assert_eq!(value(&args, "b"), None);
    assert_eq!(args.operands, toks(&["stop", "-b", "tail"]));
}

#[test]
fn lone_dash_is_an_operand() {
    let opts = vec![opt(None, Some('a'), HasArg::NoArgument, "")];
    let args = scan(&opts, &["prog", "-", "-a"]).unwrap();
    assert_eq!(value(&args, "a"), None);
    assert_eq!(args.operands, toks(&["-", "-a"]));
}

#[test]
fn identity_prefers_long_name() {
    let opts = vec![opt(Some("add"), Some('a'), HasArg::NoArgument, "")];
    let args = scan(&opts, &["prog", "-a"]).unwrap();
    assert_eq!(value(&args, "add"), Some(None));
    assert_eq!(value(&args, "a"), None);
}

#[test]
fn scanning_is_deterministic() {
    let opts = vec![
        opt(Some("add"), Some('a'), HasArg::NoArgument, ""),
        opt(Some("level"), Some('l'), HasArg::RequiredArgument, ""),
    ];
    let words = ["prog", "-a", "--level=2", "x", "y"];
    let a1 = scan(&opts, &words).unwrap();
    let a2 = scan(&opts, &words).unwrap();
    assert_eq!(a1.matched, a2.matched);
    assert_eq!(a1.operands, a2.operands);
    let bad = ["prog", "--nope"];
    assert_eq!(scan(&opts, &bad).unwrap_err(), scan(&opts, &bad).unwrap_err());
}

#[test]
fn construction_rejects_nameless_option() {
    let r = Opt::new(None, None, HasArg::NoArgument, "neither name");
    assert_eq!(r.unwrap_err(), ConstructionError::MissingName);
}

#[test]
fn construction_rejects_embedded_nul() {
    let r = Opt::new(Some("bad\0name".to_string()), None, HasArg::NoArgument, "");
    assert_eq!(r.unwrap_err(), ConstructionError::NulInName);
    let r = Opt::new(None, Some('\0'), HasArg::NoArgument, "");
    assert_eq!(r.unwrap_err(), ConstructionError::NulInName);
}

#[test]
fn table_rejects_duplicates_and_stays_unchanged() {
    let mut table = OptionTable::new();
    table
        .add(opt(Some("add"), Some('a'), HasArg::NoArgument, ""))
        .unwrap();
    let before = table.len();
    let r = table.add(opt(Some("all"), Some('a'), HasArg::RequiredArgument, ""));
    assert_eq!(r.unwrap_err(), ConstructionError::DuplicateShortName);
    assert_eq!(table.len(), before);
    let r = table.add(opt(Some("add"), Some('x'), HasArg::RequiredArgument, ""));
    assert_eq!(r.unwrap_err(), ConstructionError::DuplicateLongName);
    assert_eq!(table.len(), before);
}

#[test]
fn derived_artifacts() {
    let mut table = OptionTable::new();
    table
        .add(opt(None, Some('a'), HasArg::NoArgument, ""))
        .unwrap();
    table
        .add(opt(None, Some('b'), HasArg::OptionalArgument, ""))
        .unwrap();
    table
        .add(opt(Some("level"), Some('c'), HasArg::RequiredArgument, ""))
        .unwrap();
    table
        .add(opt(Some("verbose"), None, HasArg::NoArgument, ""))
        .unwrap();
    let (shorts, longs) = table.derive_scan_artifacts();
    assert_eq!(shorts, "ab::c:");
    assert_eq!(longs.len(), 2);
    assert_eq!(longs[0].name, "level");
    assert_eq!(longs[0].has_arg, HasArg::RequiredArgument);
    assert_eq!(longs[1].name, "verbose");
    assert_eq!(longs[1].has_arg, HasArg::NoArgument);
}

#[test]
fn artifacts_are_idempotent() {
    let mut table = OptionTable::new();
    table
        .add(opt(Some("level"), Some('l'), HasArg::RequiredArgument, ""))
        .unwrap();
    let (s1, l1) = table.derive_scan_artifacts();
    let (s2, l2) = table.derive_scan_artifacts();
    assert_eq!(s1, s2);
    assert_eq!(l1.len(), l2.len());
    assert_eq!(l1[0].name, l2[0].name);
    assert_eq!(l1[0].has_arg, l2[0].has_arg);
}

#[test]
fn per_option_artifacts_are_idempotent() {
    let o = opt(Some("level"), Some('l'), HasArg::RequiredArgument, "level");
    assert_eq!(o.optstring(), o.optstring());
    assert_eq!(o.optstring(), Some("l:".to_string()));
    assert_eq!(o.long_option(), o.long_option());
    let lo = o.long_option().unwrap();
    assert_eq!(lo.name, "level");
    assert_eq!(lo.has_arg, HasArg::RequiredArgument);
    let bare = opt(Some("verbose"), None, HasArg::NoArgument, "");
    assert_eq!(bare.optstring(), None);
    assert_eq!(opt(None, Some('a'), HasArg::NoArgument, "").long_option(), None);
}

#[test]
fn table_scan_end_to_end() {
    let mut table = OptionTable::new();
    table
        .add(opt(Some("add"), Some('a'), HasArg::NoArgument, "adds"))
        .unwrap();
    table
        .add(opt(Some("level"), Some('l'), HasArg::RequiredArgument, "level"))
        .unwrap();
    let args = scan_tokens(table.opts(), &toks(&["prog", "-al3", "rest"])).unwrap();
    assert_eq!(value(&args, "add"), Some(None));
    assert_eq!(value(&args, "level"), Some(Some("3".to_string())));
    assert_eq!(args.operands, toks(&["rest"]));
}

#[test]
fn error_messages() {
    let e = OptError::InvalidOption("--bogus".to_string());
    assert_eq!(e.message(), "invalid option: --bogus");
    let e = OptError::MissingOptionArgument("-c".to_string());
    assert_eq!(e.message(), "missing option argument: -c");
    let e = OptError::UnexpectedArgument("--v=1".to_string());
    assert_eq!(e.message(), "unexpected option argument: --v=1");
}

#[test]
fn short_required_value_with_multibyte_characters() {
    let opts = vec![opt(None, Some('c'), HasArg::RequiredArgument, "")];
    let args = scan(&opts, &["prog", "-cv\u{e4}l"]).unwrap();
    assert_eq!(value(&args, "c"), Some(Some("v\u{e4}l".to_string())));
}

#[test]
fn spot_error_line_zero() {
    assert_eq!(SpotError::new("f", 0, "d").message(), "SpotError(f: 0, \"d\")");
}

#[test]
fn spot_error_carries_its_location() {
    let e = SpotError::new("src/lib.rs", 42, "boom");
    assert_eq!(e.file, "src/lib.rs");
    assert_eq!(e.line, 42);
    assert_eq!(e.desc, "boom");
    assert_eq!(e.message(), "SpotError(src/lib.rs: 42, \"boom\")");
    assert_eq!(
        SpotError::new("f", 107, "d").message(),
        "SpotError(f: 107, \"d\")"
    );
}
