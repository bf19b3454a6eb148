use pimgext::args::{parse, Args, Parsed};

fn run(args: &[&str]) -> Parsed {
    let v: Vec<String> = args.iter().map(|s| s.to_string()).collect();
    parse(&v)
}

fn ok(args: &[&str]) -> Args {
    match run(args) {
        Parsed::Run(a) => a,
        Parsed::Help => panic!("help"),
        Parsed::Error(m) => panic!("error: {}", m),
    }
}

fn err(args: &[&str]) -> String {
    match run(args) {
        Parsed::Error(m) => m,
        _ => panic!("no error"),
    }
}

#[test]
fn parse_plain_inputs() {
    let a = ok(&["a.pimg", "b"]);
    assert_eq!(a.inputs, vec!["a.pimg".to_string(), "b".to_string()]);
    assert_eq!(a.output, None);
    assert!(!a.force && !a.quiet && !a.no_composite);
}

#[test]
fn parse_bundled_flags() {
    let a = ok(&["-fq", "x"]);
    assert!(a.force && a.quiet && !a.no_composite);
    assert_eq!(a.inputs, vec!["x".to_string()]);
}

#[test]
fn parse_output_forms() {
    assert_eq!(ok(&["-o", "out", "x"]).output, Some("out".to_string()));
    assert_eq!(ok(&["-oout", "x"]).output, Some("out".to_string()));
    assert_eq!(ok(&["--output=d", "x"]).output, Some("d".to_string()));
    assert_eq!(ok(&["--out", "d", "x"]).output, Some("d".to_string()));
    assert_eq!(ok(&["-fo", "d", "x"]).output, Some("d".to_string()));
    assert_eq!(ok(&["x", "-o", "a", "-o", "b"]).output, Some("b".to_string()));
}

#[test]
fn parse_abbreviations() {
    assert!(ok(&["--no", "x"]).no_composite);
    assert!(ok(&["--f", "x"]).force);
    assert!(ok(&["--qu", "x"]).quiet);
}

#[test]
fn parse_dashdash() {
    let a = ok(&["--", "-f", "--"]);
    assert_eq!(a.inputs, vec!["-f".to_string(), "--".to_string()]);
    assert!(!a.force);
    let b = ok(&["-q", "--", "x"]);
    assert!(b.quiet);
    assert_eq!(b.inputs, vec!["x".to_string()]);
}

#[test]
fn parse_negative_number_is_positional() {
    assert_eq!(ok(&["-1"]).inputs, vec!["-1".to_string()]);
    assert_eq!(ok(&["-.5"]).inputs, vec!["-.5".to_string()]);
}

#[test]
fn parse_help() {
    assert!(matches!(run(&["-h"]), Parsed::Help));
    assert!(matches!(run(&["x", "--help"]), Parsed::Help));
    assert!(matches!(run(&["--he"]), Parsed::Help));
}

#[test]
fn parse_errors() {
    assert_eq!(err(&[]), "the following arguments are required: INPUT");
    assert_eq!(err(&["-f"]), "the following arguments are required: INPUT");
    assert_eq!(err(&["-x", "a"]), "unrecognized arguments: -x");
    assert_eq!(err(&["a", "--zz", "-y"]), "unrecognized arguments: --zz -y");
    assert_eq!(err(&["-o"]), "argument -o/--output: expected one argument");
    assert_eq!(err(&["x", "-o", "-f"]), "argument -o/--output: expected one argument");
    assert_eq!(err(&["--quiet=1", "x"]), "argument -q/--quiet: ignored explicit argument '1'");
    assert_eq!(err(&["-q-", "x"]), "argument -q/--quiet: ignored explicit argument '-'");
}

#[test]
fn parse_ambiguous() {
    assert_eq!(
        err(&["--=x", "a"]),
        "ambiguous option: --=x could match --help, --output, --no-composite, --force, --quiet"
    );
}

#[test]
fn parse_unknown_bundle() {
    assert_eq!(err(&["-fz", "x"]), "unrecognized arguments: -z");
}
