//! Address and command parsing for the editor front-end.

use esvc::addr::parse_address;
use esvc::addr::Address;

fn ok(s: &str) -> (Address, String) {
    parse_address(s).unwrap()
}

#[test]
fn addr() {
    assert_eq!(ok("0"), (Address::Rng(0, 1), "".to_string()));
    assert_eq!(ok("0,"), (Address::RngF(0), "".to_string()));
    assert_eq!(ok("1"), (Address::Rng(1, 2), "".to_string()));
    assert_eq!(ok("$"), (Address::Last, "".to_string()));
    assert_eq!(ok("$1"), (Address::Last, "1".to_string()));

    assert_eq!(ok("/hewwo?/"), (Address::Rgx("hewwo?".to_string()), "".to_string()));
    assert_eq!(ok("/hewwo?/i"), (Address::Rgx("hewwo?".to_string()), "i".to_string()));
}

#[test]
fn addr_ranges_and_errors() {
    assert_eq!(ok("3,7x"), (Address::Rng(3, 7), "x".to_string()));
    assert_eq!(
        parse_address("7,3"),
        Err(esvc::addr::AddrParseError::EmptyRange)
    );
    assert_eq!(
        parse_address("x"),
        Err(esvc::addr::AddrParseError::Unparsable)
    );
    assert_eq!(
        parse_address("/a'"),
        Err(esvc::addr::AddrParseError::EscapedEol)
    );
    // The quote escapes: a literal slash, newline and tab.
    assert_eq!(ok("/a'/b'n't/r"), (Address::Rgx("a/b\n\t".to_string()), "r".to_string()));
}

#[test]
fn command_parsing() {
    let (a, k) = esvc::en::parse_command("3,7d").unwrap();
    assert_eq!(a, Address::Rng(3, 7));
    assert_eq!(k, esvc::en::InpCommandKind::Delete);

    let (a2, k2) = esvc::en::parse_command("$").unwrap();
    assert_eq!(a2, Address::Last);
    assert_eq!(k2, esvc::en::InpCommandKind::Print);

    let (_a3, k3) = esvc::en::parse_command("0a").unwrap();
    assert_eq!(k3, esvc::en::InpCommandKind::Append);

    assert_eq!(
        esvc::en::parse_command("1q"),
        Err(esvc::en::CommandParseError::UnknownCommand('q'))
    );
}
