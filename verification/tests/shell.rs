use ks_cli::error::Error;
use ks_cli::shell::{env_var_name, export_line, powershell_quote, shell_quote_posix, Dialect};

#[test]
fn dialect_names_ignore_case() {
    assert_eq!(Dialect::parse("sh"), Ok(Dialect::Sh));
    assert_eq!(Dialect::parse("BASH"), Ok(Dialect::Sh));
    assert_eq!(Dialect::parse("Zsh"), Ok(Dialect::Sh));
    assert_eq!(Dialect::parse("fish"), Ok(Dialect::Fish));
    assert_eq!(Dialect::parse("pwsh"), Ok(Dialect::Pwsh));
    assert_eq!(Dialect::parse("PowerShell"), Ok(Dialect::Pwsh));
    assert_eq!(Dialect::parse("ps"), Ok(Dialect::Pwsh));
}

#[test]
fn unknown_dialect_is_reported_lowercased() {
    assert_eq!(
        Dialect::parse("Tcsh"),
        Err(Error::InvalidPath("unknown shell `tcsh` (expected: sh, fish, pwsh)".to_string()))
    );
}

#[test]
fn posix_quote_escapes_single_quotes() {
    assert_eq!(shell_quote_posix("plain"), "'plain'");
    assert_eq!(shell_quote_posix("it's"), "'it'\\''s'");
    assert_eq!(shell_quote_posix(""), "''");
    assert_eq!(shell_quote_posix("$HOME `x` \"y\""), "'$HOME `x` \"y\"'");
}

#[test]
fn powershell_quote_escapes_double_quotes() {
    assert_eq!(powershell_quote("plain"), "\"plain\"");
    assert_eq!(powershell_quote("a\"b"), "\"a`\"b\"");
    assert_eq!(powershell_quote("it's"), "\"it's\"");
}

#[test]
fn env_names_are_upper_snake() {
    assert_eq!(env_var_name("github/api-token"), "GITHUB_API_TOKEN");
    assert_eq!(env_var_name("aws/access-key"), "AWS_ACCESS_KEY");
    assert_eq!(env_var_name("db.url"), "DB.URL");
}

#[test]
fn export_lines_per_dialect() {
    assert_eq!(export_line(Dialect::Sh, "TOKEN", "a'b"), "export TOKEN='a'\\''b'");
    assert_eq!(export_line(Dialect::Fish, "TOKEN", "v"), "set -gx TOKEN 'v'");
    assert_eq!(export_line(Dialect::Pwsh, "TOKEN", "v\"w"), "$env:TOKEN = \"v`\"w\"");
}
