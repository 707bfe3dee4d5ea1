//! Command lines: numbers, kinds, hashes and whole commands.

use sema_storage::arguments::{
    parse, parse_hash, parse_kind, parse_number, ArgumentError, Arguments, NumberError,
};
use sema_storage::commands::{parse_command, ClientRequest, Command};
use sema_storage::protocol::{
    ContentHash, DocumentKey, DocumentKind, FixtureScope, Request, SlotIdentifier, Version,
};
use sema_storage::session::Subscription;

fn words(line: &[&str]) -> Vec<String> {
    line.iter().map(|word| word.to_string()).collect()
}

fn client(line: &[&str]) -> Result<ClientRequest, ArgumentError> {
    match parse_command(words(line)) {
        Ok(Command::Client { socket, request }) => {
            assert_eq!(socket, line[1]);
            Ok(request)
        }
        Ok(other) => panic!("expected a client, got {other:?}"),
        Err(error) => Err(error),
    }
}

#[test]
fn numbers_are_read_like_integers() {
    assert_eq!(parse_number("0", u64::MAX), Ok(0));
    assert_eq!(parse_number("0042", u64::MAX), Ok(42));
    assert_eq!(parse_number("+7", u64::MAX), Ok(7));
    assert_eq!(parse_number("18446744073709551615", u64::MAX), Ok(u64::MAX));
    for text in [
        "", "+", "-", "-1", "++1", "1x", "x", " 1", "1 ", "4294967295", "4294967296",
        "4294967296x", "x4294967296", "\u{661}", "99999999999", "1_000",
    ] {
        let expected = text.parse::<u32>().map_err(|error| error.to_string());
        let actual = parse_number(text, u32::MAX as u64)
            .map(|number| number as u32)
            .map_err(|error| ArgumentError::Number(error).message());
        assert_eq!(actual, expected, "{text:?}");
    }
    assert_eq!(
        parse_number("18446744073709551616", u64::MAX),
        Err(NumberError::TooLarge)
    );
}

#[test]
fn arguments_are_taken_one_by_one() {
    let mut arguments = Arguments::new(words(&["12", "4294967296", ""]));
    assert_eq!(parse::<u64>(&mut arguments, "scope"), Ok(12));
    assert_eq!(
        parse::<u32>(&mut arguments, "count"),
        Err(ArgumentError::Number(NumberError::TooLarge))
    );
    assert!(!arguments.is_empty());
    assert_eq!(
        parse::<u64>(&mut arguments, "slot"),
        Err(ArgumentError::Number(NumberError::Empty))
    );
    assert!(arguments.is_empty());
    let missing = parse::<u64>(&mut arguments, "slot");
    assert_eq!(missing, Err(ArgumentError::Missing("slot".to_string())));
    assert_eq!(missing.unwrap_err().message(), "missing slot");
    assert_eq!(arguments.next(), None);
}

#[test]
fn kinds_are_named() {
    for (name, kind) in [
        ("type-schema", DocumentKind::TypeSchema),
        ("signal-contract", DocumentKind::SignalContract),
        ("nexus-runtime", DocumentKind::NexusRuntime),
        ("sema-storage", DocumentKind::SemaStorage),
        ("nomos", DocumentKind::Nomos),
        ("logos", DocumentKind::Logos),
    ] {
        assert_eq!(parse_kind(name), Ok(kind));
    }
    let unknown = parse_kind("Nomos").unwrap_err();
    assert_eq!(unknown, ArgumentError::UnknownKind("Nomos".to_string()));
    assert_eq!(unknown.message(), "unknown document kind: Nomos");
}

#[test]
fn hashes_are_sixty_four_hexadecimal_digits() {
    let mut expected = [0u8; 32];
    for (index, byte) in expected.iter_mut().enumerate() {
        *byte = (index * 8 + 3) as u8;
    }
    let lower: String = expected.iter().map(|byte| format!("{byte:02x}")).collect();
    assert_eq!(parse_hash(&lower), Ok(expected));
    assert_eq!(parse_hash(&lower.to_uppercase()), Ok(expected));
    assert_eq!(parse_hash(&lower[1..]), Err(ArgumentError::HashLength));
    assert_eq!(parse_hash(""), Err(ArgumentError::HashLength));
    assert_eq!(
        ArgumentError::HashLength.message(),
        "hash must contain 64 hexadecimal digits"
    );
}

#[test]
fn the_first_bad_pair_of_a_hash_is_reported() {
    let with = |pair: &str| format!("{}{}{}", "00".repeat(3), pair, "00".repeat(28));
    let digit = ArgumentError::Number(NumberError::InvalidDigit);
    assert_eq!(parse_hash(&with("0g")), Err(digit.clone()));
    assert_eq!(parse_hash(&with("-1")), Err(digit.clone()));
    assert_eq!(parse_hash(&with("++")), Err(digit.clone()));
    assert_eq!(parse_hash(&with("\u{e9}")), Err(digit.clone()));
    let signed = parse_hash(&with("+f")).unwrap();
    assert_eq!(signed[3], 15);
    // A character of two bytes that straddles a pair leaves no text.
    let split = format!("0\u{e9}{}", "0".repeat(61));
    assert_eq!(
        parse_hash(&split),
        Err(ArgumentError::HashText(b'0', 0xc3))
    );
    assert_eq!(
        parse_hash(&split).unwrap_err().message(),
        "incomplete utf-8 byte sequence from index 1"
    );
}

#[test]
fn bytes_that_are_no_text_are_described_by_their_fault() {
    for first in 0..=255u8 {
        for second in 0..=255u8 {
            if let Err(error) = std::str::from_utf8(&[first, second]) {
                assert_eq!(
                    ArgumentError::HashText(first, second).message(),
                    error.to_string(),
                    "{first} {second}"
                );
            }
        }
    }
    // The first two bytes of a character of three make up the first pair.
    let cut = format!("\u{20ac}{}", "0".repeat(61));
    assert_eq!(
        parse_hash(&cut).unwrap_err().message(),
        "incomplete utf-8 byte sequence from index 0"
    );
}

#[test]
fn pairs_of_a_hash_are_read_like_bytes() {
    let candidates = ["0", "9", "a", "F", "g", "+", "-", " ", "/", ":", "@", "G", "`", "z"];
    for first in candidates {
        for second in candidates {
            let pair = format!("{first}{second}");
            let text = format!("{pair}{}", "00".repeat(31));
            let expected = u8::from_str_radix(&pair, 16).ok();
            assert_eq!(parse_hash(&text).ok().map(|hash| hash[0]), expected, "{pair}");
        }
    }
}

#[test]
fn a_daemon_has_default_paths() {
    assert_eq!(
        parse_command(words(&["daemon"])),
        Ok(Command::Daemon {
            socket: "/tmp/new-language-engine/sema.sock".to_string(),
            database: "/tmp/new-language-engine/state.sema".to_string(),
        })
    );
    assert_eq!(
        parse_command(words(&["daemon", "a.sock", "b.sema"])),
        Ok(Command::Daemon {
            socket: "a.sock".to_string(),
            database: "b.sema".to_string(),
        })
    );
}

#[test]
fn client_commands_name_their_socket_first() {
    assert_eq!(parse_command(Vec::new()), Err(ArgumentError::MissingSocket));
    assert_eq!(
        parse_command(words(&["list"])),
        Err(ArgumentError::MissingSocket)
    );
    assert_eq!(
        ArgumentError::MissingSocket.message(),
        "missing socket path"
    );
}

#[test]
fn an_unknown_command_is_told_the_usage() {
    let error = client(&["help", "s"]).unwrap_err();
    assert_eq!(error, ArgumentError::Usage);
    assert!(error.message().starts_with("usage: sema-storage daemon"));
}

#[test]
fn client_commands_become_requests() {
    let scope = FixtureScope(1);
    let nomos = DocumentKey {
        scope,
        kind: DocumentKind::Nomos,
        slot: SlotIdentifier(5),
    };
    assert_eq!(
        client(&["list", "s", "1"]),
        Ok(ClientRequest::Once(Request::List { scope, kind: None }))
    );
    assert_eq!(
        client(&["list", "s", "1", "logos"]),
        Ok(ClientRequest::Once(Request::List {
            scope,
            kind: Some(DocumentKind::Logos),
        }))
    );
    assert_eq!(
        client(&["fetch", "s", "1", "nomos", "5"]),
        Ok(ClientRequest::Once(Request::Fetch {
            key: nomos,
            version: None,
        }))
    );
    assert_eq!(
        client(&["fetch", "s", "1", "nomos", "5", "3"]),
        Ok(ClientRequest::Once(Request::Fetch {
            key: nomos,
            version: Some(Version(3)),
        }))
    );
    assert_eq!(
        client(&["hash-fetch", "s", &"0a".repeat(32)]),
        Ok(ClientRequest::Once(Request::HashFetch {
            hash: ContentHash([10; 32]),
        }))
    );
    assert_eq!(
        client(&["snapshot", "s", "1"]),
        Ok(ClientRequest::Once(Request::Snapshot { scope }))
    );
    assert_eq!(
        client(&["allocate", "s", "1", "4"]),
        Ok(ClientRequest::Once(Request::AllocateIdentifiers {
            scope,
            count: 4,
        }))
    );
    assert_eq!(
        client(&["store-sema-family", "s", "1", "5", "8", "2"]),
        Ok(ClientRequest::StoreFamily {
            key: DocumentKey {
                scope,
                kind: DocumentKind::SemaStorage,
                slot: SlotIdentifier(5),
            },
            family: 8,
            layout_version: 2,
        })
    );
    assert_eq!(
        client(&["subscribe", "s", "1", "nomos"]),
        Ok(ClientRequest::Subscribe(Subscription {
            scope,
            kind: Some(DocumentKind::Nomos),
        }))
    );
}

#[test]
fn client_commands_report_the_first_bad_argument() {
    let missing = |name: &str| Err(ArgumentError::Missing(name.to_string()));
    assert_eq!(client(&["list", "s"]), missing("scope"));
    assert_eq!(
        client(&["list", "s", "x", "y"]),
        Err(ArgumentError::Number(NumberError::InvalidDigit))
    );
    assert_eq!(
        client(&["list", "s", "1", "y"]),
        Err(ArgumentError::UnknownKind("y".to_string()))
    );
    assert_eq!(
        client(&["fetch", "s", "1"]),
        Err(ArgumentError::MissingKind)
    );
    assert_eq!(client(&["fetch", "s", "1", "nomos"]), missing("slot"));
    assert_eq!(
        client(&["fetch", "s", "1", "nomos", "2", ""]),
        Err(ArgumentError::Number(NumberError::Empty))
    );
    assert_eq!(client(&["hash-fetch", "s"]), Err(ArgumentError::MissingHash));
    assert_eq!(
        client(&["hash-fetch", "s", "00"]),
        Err(ArgumentError::HashLength)
    );
    assert_eq!(client(&["allocate", "s", "1"]), missing("count"));
    assert_eq!(
        client(&["allocate", "s", "1", "4294967296"]),
        Err(ArgumentError::Number(NumberError::TooLarge))
    );
    assert_eq!(
        client(&["store-sema-family", "s", "1", "2"]),
        missing("family id")
    );
    assert_eq!(
        client(&["store-sema-family", "s", "1", "2", "3"]),
        missing("layout version")
    );
    assert_eq!(ArgumentError::MissingKind.message(), "kind");
    assert_eq!(ArgumentError::MissingHash.message(), "hash");
}
