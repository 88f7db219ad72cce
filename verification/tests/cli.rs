use fcidr::{Cidr, Fcidr};

enum Command<'a> {
    Complement,
    Difference(&'a str),
    Union(&'a str),
    Superset(&'a str),
}

fn block(text: &str) -> Cidr {
    Cidr::parse(text).unwrap()
}

fn from_stdin(stdin: &str) -> Fcidr {
    let lines: Vec<String> = stdin
        .lines()
        .filter(|line| !line.is_empty())
        .map(String::from)
        .collect();
    Fcidr::from_strings(&lines).unwrap()
}

fn from_argument(text: &str) -> Fcidr {
    Fcidr::new(block(text))
}

/// What the command writes to its output, or the complaint it ends with.
fn run(mut set: Fcidr, command: Command) -> Result<String, String> {
    match command {
        Command::Complement => set.complement(),
        Command::Difference(text) => set.difference(block(text)),
        Command::Union(text) => set.union(block(text)),
        Command::Superset(text) => {
            let operand = block(text);
            return if set.is_superset(operand) {
                Ok(String::new())
            } else {
                Err(format!(
                    "{:?} not a superset of {}",
                    set.to_strings(),
                    operand.to_string()
                ))
            };
        }
    };
    let mut out = String::new();
    for line in set.to_strings() {
        out.push_str(&line);
        out.push('\n');
    }
    Ok(out)
}

#[test]
fn difference_from_stdin_yields_expected() {
    let out = run(from_stdin("10.0.0.0/8\n"), Command::Difference("10.0.0.0/9"));
    assert_eq!(out, Ok("10.128.0.0/9\n".to_string()));
}

#[test]
fn union_normalizes_output() {
    let out = run(from_stdin("10.0.0.0/8\n"), Command::Union("10.0.128.0/24"));
    assert_eq!(out, Ok("10.0.0.0/8\n".to_string()));
}

#[test]
fn alias_minus_works() {
    let out = run(from_stdin("10.0.0.0/8\n"), Command::Difference("10.0.0.0/9"));
    assert_eq!(out, Ok("10.128.0.0/9\n".to_string()));
}

#[test]
fn alias_plus_works() {
    let out = run(from_stdin("10.0.0.0/8\n"), Command::Union("127.0.0.0/16"));
    assert_eq!(out, Ok("10.0.0.0/8\n127.0.0.0/16\n".to_string()));
}

#[test]
fn alias_bang_complement_works() {
    let out = run(from_stdin("10.0.0.0/8\n"), Command::Complement).unwrap();
    assert!(out.contains("0.0.0.0/5\n"));
    assert!(out.contains("128.0.0.0/1\n"));
    assert!(!out.contains("10.0.0.0/8"));
}

#[test]
fn complement_with_positional_cidr_works() {
    let out = run(from_argument("10.0.0.0/8"), Command::Complement).unwrap();
    assert!(out.contains("0.0.0.0/5\n"));
    assert!(out.contains("128.0.0.0/1\n"));
    assert!(!out.contains("10.0.0.0/8"));
    assert_eq!(
        out,
        "0.0.0.0/5\n8.0.0.0/7\n11.0.0.0/8\n12.0.0.0/6\n16.0.0.0/4\n32.0.0.0/3\n64.0.0.0/2\n128.0.0.0/1\n"
    );
}

#[test]
fn difference_with_positional_cidrs_works() {
    let out = run(from_argument("10.0.0.0/8"), Command::Difference("10.0.0.0/9"));
    assert_eq!(out, Ok("10.128.0.0/9\n".to_string()));
}

#[test]
fn union_with_positional_cidrs_normalizes() {
    let out = run(from_argument("10.0.0.0/8"), Command::Union("10.0.128.0/24"));
    assert_eq!(out, Ok("10.0.0.0/8\n".to_string()));
}

#[test]
fn superset_with_positional_cidrs_success() {
    let out = run(from_argument("255.0.0.0/16"), Command::Superset("255.0.1.2/32"));
    assert_eq!(out, Ok(String::new()));
}

#[test]
fn superset_with_positional_cidrs_failure() {
    let out = run(from_argument("255.0.0.0/16"), Command::Superset("255.1.1.2/32"));
    assert!(out.unwrap_err().contains("not a superset of 255.1.1.2/32"));
}

#[test]
fn superset_alias_gt_success() {
    let out = run(from_argument("255.0.0.0/16"), Command::Superset("255.0.1.2/32"));
    assert_eq!(out, Ok(String::new()));
}

#[test]
fn superset_alias_gt_failure() {
    let out = run(from_argument("255.0.0.0/16"), Command::Superset("255.1.1.2/32"));
    assert!(out.unwrap_err().contains("not a superset of 255.1.1.2/32"));
}

#[test]
fn complement_with_multiline_stdin_full_range_becomes_empty() {
    let out = run(from_stdin("0.0.0.0/1\n128.0.0.0/1\n"), Command::Complement);
    assert_eq!(out, Ok(String::new()));
}

#[test]
fn complement_with_multiline_stdin_produces_expected_output() {
    let out = run(from_stdin("0.0.0.0/2\n128.0.0.0/2\n"), Command::Complement).unwrap();
    assert!(out.contains("64.0.0.0/2\n"));
    assert!(out.contains("192.0.0.0/2\n"));
    assert!(!out.contains("0.0.0.0/2"));
    assert!(!out.contains("128.0.0.0/2"));
    assert_eq!(out, "64.0.0.0/2\n192.0.0.0/2\n");
}

#[test]
fn difference_with_multiline_stdin_preserves_other_ranges() {
    let out = run(
        from_stdin("10.0.0.0/8\n127.0.0.0/16\n"),
        Command::Difference("10.0.0.0/9"),
    )
    .unwrap();
    assert!(out.contains("10.128.0.0/9\n"));
    assert!(out.contains("127.0.0.0/16\n"));
    assert!(!out.contains("10.0.0.0/9"));
}

#[test]
fn union_with_multiline_stdin_normalizes() {
    let out = run(
        from_stdin("10.0.0.0/8\n127.0.0.0/16\n"),
        Command::Union("10.0.128.0/24"),
    );
    assert_eq!(out, Ok("10.0.0.0/8\n127.0.0.0/16\n".to_string()));
}

#[test]
fn superset_with_multiline_stdin_success() {
    let out = run(
        from_stdin("255.0.0.0/16\n127.0.0.0/8\n"),
        Command::Superset("255.0.1.2/32"),
    );
    assert_eq!(out, Ok(String::new()));
}

#[test]
fn superset_with_multiline_stdin_failure() {
    let out = run(
        from_stdin("255.0.0.0/16\n127.0.0.0/8\n"),
        Command::Superset("255.1.1.2/32"),
    );
    assert!(out.unwrap_err().contains("not a superset of 255.1.1.2/32"));
}

#[test]
fn complement_without_stdin_yields_full_range_in_harness() {
    let out = run(from_stdin(""), Command::Complement);
    assert_eq!(out, Ok("0.0.0.0/0\n".to_string()));
}

#[test]
fn superset_success_exits_zero_and_prints_nothing() {
    let out = run(from_stdin("255.0.0.0/16\n"), Command::Superset("255.0.1.2/32"));
    assert_eq!(out, Ok(String::new()));
}

#[test]
fn superset_failure_exits_nonzero_and_errors() {
    let out = run(from_stdin("255.0.0.0/16\n"), Command::Superset("255.1.1.2/32"));
    assert!(out.unwrap_err().contains("not a superset of 255.1.1.2/32"));
}

#[test]
fn invalid_line_is_refused_before_anything_is_written() {
    let lines = vec!["10.0.0.0/8".to_string(), "10.0.0.1/8".to_string()];
    assert!(matches!(
        Fcidr::from_strings(&lines),
        Err(fcidr::Error::InvalidNetwork(_))
    ));
}
