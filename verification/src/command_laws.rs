//! Laws of command lines: a command asks for what its words name.
use vstd::prelude::*;
use vstd::string::StringSliceAdditionalSpecFns;

use crate::arguments::{
    ArgumentError, ArgumentErrorView, Arguments, NumberError, kind_named, number_value, parse,
    parse_hash, parse_kind,
};
use crate::commands::{ClientRequest, Command, parse_command};
use crate::number_laws::{
    a_number_is_what_its_digits_are_worth, is_spelt, lemma_hash_is_determined, lemma_hash_is_read,
    numerals_are_read_back,
};
use crate::protocol::{
    DocumentKey, DocumentKind, FixtureScope, Request, SlotIdentifier, Version,
};
use crate::session::Subscription;
use crate::text::decimal;

verus! {

/// The name of a kind of document on a command line.
pub open spec fn kind_name(kind: DocumentKind) -> Seq<char> {
    match kind {
        DocumentKind::TypeSchema => "type-schema"@,
        DocumentKind::SignalContract => "signal-contract"@,
        DocumentKind::NexusRuntime => "nexus-runtime"@,
        DocumentKind::SemaStorage => "sema-storage"@,
        DocumentKind::Nomos => "nomos"@,
        DocumentKind::Logos => "logos"@,
    }
}

/// A kind is known by its name and by no other.
pub proof fn kinds_are_known_by_their_names(name: Seq<char>, kind: DocumentKind)
    ensures
        kind_named(name) == Some(kind) <==> name == kind_name(kind),
        kind_named(name) is None <==> forall|any: DocumentKind| name != #[trigger] kind_name(any),
{
    reveal_strlit("type-schema");
    reveal_strlit("signal-contract");
    reveal_strlit("nexus-runtime");
    reveal_strlit("sema-storage");
    reveal_strlit("nomos");
    reveal_strlit("logos");
    assert("type-schema"@.len() == 11);
    assert("signal-contract"@.len() == 15);
    assert("nexus-runtime"@.len() == 13);
    assert("sema-storage"@.len() == 12);
    assert("nomos"@.len() == 5);
    assert("logos"@.len() == 5);
    assert("nomos"@[0] == 'n');
    assert("logos"@[0] == 'l');
    if kind_named(name) is None {
        assert forall|any: DocumentKind| name != #[trigger] kind_name(any) by {
            match any {
                DocumentKind::TypeSchema => {},
                DocumentKind::SignalContract => {},
                DocumentKind::NexusRuntime => {},
                DocumentKind::SemaStorage => {},
                DocumentKind::Nomos => {},
                DocumentKind::Logos => {},
            }
        }
    } else {
        let found = kind_named(name)->0;
        assert(name == kind_name(found));
    }
}

/// Whether a word is read as a number: it is the numeral of the number, or any other text
/// that stands for it.
pub open spec fn is_number(word: Seq<char>, number: u64) -> bool {
    word == decimal(number as nat) || number_value(word, u64::MAX as nat) == Ok::<
        nat,
        NumberError,
    >(number as nat)
}

/// Whether a reason is told of an error, field by field.
pub open spec fn is_told(error: ArgumentError, reason: ArgumentErrorView) -> bool {
    match (error, reason) {
        (ArgumentError::Missing(name), ArgumentErrorView::Missing(text)) => name@ == text,
        (ArgumentError::UnknownKind(name), ArgumentErrorView::UnknownKind(text)) => name@ == text,
        (ArgumentError::Number(wrong), ArgumentErrorView::Number(why)) => wrong == why,
        (
            ArgumentError::HashText(first, second),
            ArgumentErrorView::HashText(one, other),
        ) => first == one && second == other,
        (ArgumentError::MissingSocket, ArgumentErrorView::MissingSocket) => true,
        (ArgumentError::MissingKind, ArgumentErrorView::MissingKind) => true,
        (ArgumentError::MissingHash, ArgumentErrorView::MissingHash) => true,
        (ArgumentError::HashLength, ArgumentErrorView::HashLength) => true,
        (ArgumentError::Usage, ArgumentErrorView::Usage) => true,
        _ => false,
    }
}

/// Whether arguments are words.
pub open spec fn are_words(arguments: Vec<String>, words: Seq<Seq<char>>) -> bool {
    &&& arguments@.len() == words.len()
    &&& forall|index: int|
        0 <= index < words.len() ==> (#[trigger] arguments@[index])@ == words[index]
}

proof fn lemma_words(arguments: Vec<String>, words: Seq<Seq<char>>)
    requires
        are_words(arguments, words),
    ensures
        arguments@.map_values(|argument: String| argument@) == words,
{
    let views = arguments@.map_values(|argument: String| argument@);
    assert forall|index: int| 0 <= index < words.len() implies views[index] == words[index] by {
        assert(arguments@[index]@ == words[index]);
    }
    assert(views =~= words);
}

proof fn lemma_commands_differ()
    ensures
        "daemon"@ != "list"@,
        "daemon"@ != "fetch"@,
        "daemon"@ != "hash-fetch"@,
        "daemon"@ != "snapshot"@,
        "daemon"@ != "allocate"@,
        "daemon"@ != "store-sema-family"@,
        "daemon"@ != "subscribe"@,
        "daemon"@ != "help"@,
        "list"@ != "fetch"@,
        "list"@ != "hash-fetch"@,
        "list"@ != "snapshot"@,
        "list"@ != "allocate"@,
        "list"@ != "store-sema-family"@,
        "list"@ != "subscribe"@,
        "fetch"@ != "hash-fetch"@,
        "fetch"@ != "snapshot"@,
        "fetch"@ != "allocate"@,
        "fetch"@ != "store-sema-family"@,
        "fetch"@ != "subscribe"@,
        "hash-fetch"@ != "snapshot"@,
        "hash-fetch"@ != "allocate"@,
        "hash-fetch"@ != "store-sema-family"@,
        "hash-fetch"@ != "subscribe"@,
        "snapshot"@ != "allocate"@,
        "snapshot"@ != "store-sema-family"@,
        "snapshot"@ != "subscribe"@,
        "allocate"@ != "store-sema-family"@,
        "allocate"@ != "subscribe"@,
        "store-sema-family"@ != "subscribe"@,
{
    reveal_strlit("daemon");
    reveal_strlit("help");
    reveal_strlit("list");
    reveal_strlit("fetch");
    reveal_strlit("hash-fetch");
    reveal_strlit("snapshot");
    reveal_strlit("allocate");
    reveal_strlit("store-sema-family");
    reveal_strlit("subscribe");
    assert("daemon"@.len() == 6);
    assert("help"@.len() == 4);
    assert("list"@.len() == 4);
    assert("fetch"@.len() == 5);
    assert("hash-fetch"@.len() == 10);
    assert("snapshot"@.len() == 8);
    assert("allocate"@.len() == 8);
    assert("store-sema-family"@.len() == 17);
    assert("subscribe"@.len() == 9);
    assert("snapshot"@[0] == 's');
    assert("allocate"@[0] == 'a');
}

/// Where the daemon serves and what it serves are the words behind the command, or the
/// default paths.
pub proof fn a_daemon_command_names_its_paths(
    arguments: Vec<String>,
    words: Seq<Seq<char>>,
    parsed: Result<Command, ArgumentError>,
)
    requires
        call_ensures(parse_command, (arguments,), parsed),
        are_words(arguments, words),
        words.len() > 0,
        words[0] == "daemon"@,
    ensures
        parsed matches Ok(Command::Daemon { socket, database }) && {
            &&& words.len() > 1 ==> socket@ == words[1]
            &&& words.len() == 1 ==> socket@ == "/tmp/new-language-engine/sema.sock"@
            &&& words.len() > 2 ==> database@ == words[2]
            &&& words.len() <= 2 ==> database@ == "/tmp/new-language-engine/state.sema"@
        },
{
    lemma_words(arguments, words);
}

/// A command line without a socket is turned down for that, unless it starts a daemon.
pub proof fn a_client_command_names_its_socket(
    arguments: Vec<String>,
    words: Seq<Seq<char>>,
    parsed: Result<Command, ArgumentError>,
)
    requires
        call_ensures(parse_command, (arguments,), parsed),
        are_words(arguments, words),
    ensures
        parsed == Err::<Command, ArgumentError>(ArgumentError::MissingSocket) <==> words.len() == 0
            || (words.len() == 1 && words[0] != "daemon"@),
        parsed matches Ok(Command::Client { socket, .. }) ==> socket@ == words[1],
{
    lemma_words(arguments, words);
    lemma_commands_differ();
}

/// A command that is none of the known ones is answered with the usage.
pub proof fn an_unknown_command_is_answered_with_the_usage(
    arguments: Vec<String>,
    words: Seq<Seq<char>>,
    parsed: Result<Command, ArgumentError>,
)
    requires
        call_ensures(parse_command, (arguments,), parsed),
        are_words(arguments, words),
        words.len() >= 2,
        words[0] != "daemon"@,
        words[0] != "list"@,
        words[0] != "fetch"@,
        words[0] != "hash-fetch"@,
        words[0] != "snapshot"@,
        words[0] != "allocate"@,
        words[0] != "store-sema-family"@,
        words[0] != "subscribe"@,
    ensures
        parsed == Err::<Command, ArgumentError>(ArgumentError::Usage),
{
    lemma_words(arguments, words);
}

/// A fetch command asks for exactly the scope, kind and slot that it names, and for the
/// version that it names or for none.
pub proof fn a_fetch_command_asks_for_what_it_names(
    arguments: Vec<String>,
    words: Seq<Seq<char>>,
    scope: u64,
    kind: DocumentKind,
    slot: u64,
    version: Option<u64>,
    parsed: Result<Command, ArgumentError>,
)
    requires
        call_ensures(parse_command, (arguments,), parsed),
        are_words(arguments, words),
        words.len() >= 5,
        words[0] == "fetch"@,
        is_number(words[2], scope),
        words[3] == kind_name(kind),
        is_number(words[4], slot),
        match version {
            Some(number) => words.len() > 5 && is_number(words[5], number),
            None => words.len() == 5,
        },
    ensures
        parsed matches Ok(Command::Client { socket, request }) && socket@ == words[1] && request
            == ClientRequest::Once(
            Request::Fetch {
                key: DocumentKey {
                    scope: FixtureScope(scope),
                    kind,
                    slot: SlotIdentifier(slot),
                },
                version: match version {
                    Some(number) => Some(Version(number)),
                    None => None,
                },
            },
        ),
{
    lemma_words(arguments, words);
    lemma_commands_differ();
    kinds_are_known_by_their_names(words[3], kind);
    numerals_are_read_back(scope as nat, u64::MAX as nat);
    numerals_are_read_back(slot as nat, u64::MAX as nat);
    if version is Some {
        numerals_are_read_back(version->0 as nat, u64::MAX as nat);
    }
    lemma_rest(words);
}

proof fn lemma_rest(words: Seq<Seq<char>>)
    requires
        words.len() >= 2,
    ensures
        words.skip(2).len() == words.len() - 2,
        forall|index: int|
            0 <= index < words.len() - 2 ==> #[trigger] words.skip(2)[index] == words[index + 2],
{
}

/// A command line that fetches asks for what its words are read as: whatever it asks
/// for stands in its words.
pub proof fn whatever_is_fetched_is_named(
    arguments: Vec<String>,
    words: Seq<Seq<char>>,
    key: DocumentKey,
    version: Option<Version>,
    socket: String,
)
    requires
        call_ensures(
            parse_command,
            (arguments,),
            Ok::<Command, ArgumentError>(
                Command::Client {
                    socket,
                    request: ClientRequest::Once(Request::Fetch { key, version }),
                },
            ),
        ),
        are_words(arguments, words),
    ensures
        words.len() >= 5,
        words[0] == "fetch"@,
        words[1] == socket@,
        number_value(words[2], u64::MAX as nat) == Ok::<nat, NumberError>(key.scope.0 as nat),
        words[3] == kind_name(key.kind),
        number_value(words[4], u64::MAX as nat) == Ok::<nat, NumberError>(key.slot.0 as nat),
        match version {
            Some(number) => words.len() > 5 && number_value(words[5], u64::MAX as nat) == Ok::<
                nat,
                NumberError,
            >(number.0 as nat),
            None => words.len() == 5,
        },
{
    lemma_words(arguments, words);
    lemma_commands_differ();
    lemma_rest(words);
    if words.len() > 2 {
        lemma_bounded(words[2]);
    }
    if words.len() > 3 {
        kinds_are_known_by_their_names(words[3], key.kind);
    }
    if words.len() > 4 {
        lemma_bounded(words[4]);
    }
    if words.len() > 5 {
        lemma_bounded(words[5]);
    }
}

proof fn lemma_bounded(text: Seq<char>)
    ensures
        number_value(text, u64::MAX as nat) matches Ok(value) ==> value <= u64::MAX,
        number_value(text, u32::MAX as nat) matches Ok(value) ==> value <= u32::MAX,
{
    let digits = if text.len() > 1 && text[0] == '+' {
        text.skip(1)
    } else {
        text
    };
    a_number_is_what_its_digits_are_worth(text, u64::MAX as nat, digits);
    a_number_is_what_its_digits_are_worth(text, u32::MAX as nat, digits);
}

/// A list or subscribe command asks for exactly the scope that it names, and for the
/// kind that it names or for every kind.
pub proof fn a_listing_command_asks_for_what_it_names(
    arguments: Vec<String>,
    words: Seq<Seq<char>>,
    scope: u64,
    kind: Option<DocumentKind>,
    parsed: Result<Command, ArgumentError>,
)
    requires
        call_ensures(parse_command, (arguments,), parsed),
        are_words(arguments, words),
        words.len() >= 3,
        words[0] == "list"@ || words[0] == "subscribe"@,
        is_number(words[2], scope),
        match kind {
            Some(only) => words.len() > 3 && words[3] == kind_name(only),
            None => words.len() == 3,
        },
    ensures
        parsed matches Ok(Command::Client { socket, request }) && socket@ == words[1] && request
            == if words[0] == "list"@ {
            ClientRequest::Once(Request::List { scope: FixtureScope(scope), kind })
        } else {
            ClientRequest::Subscribe(Subscription { scope: FixtureScope(scope), kind })
        },
{
    lemma_words(arguments, words);
    lemma_commands_differ();
    lemma_rest(words);
    numerals_are_read_back(scope as nat, u64::MAX as nat);
    if kind is Some {
        kinds_are_known_by_their_names(words[3], kind->0);
    }
}

/// A snapshot command asks for exactly the scope that it names.
pub proof fn a_snapshot_command_asks_for_what_it_names(
    arguments: Vec<String>,
    words: Seq<Seq<char>>,
    scope: u64,
    parsed: Result<Command, ArgumentError>,
)
    requires
        call_ensures(parse_command, (arguments,), parsed),
        are_words(arguments, words),
        words.len() >= 3,
        words[0] == "snapshot"@,
        is_number(words[2], scope),
    ensures
        parsed matches Ok(Command::Client { socket, request }) && socket@ == words[1] && request
            == ClientRequest::Once(Request::Snapshot { scope: FixtureScope(scope) }),
{
    lemma_words(arguments, words);
    lemma_commands_differ();
    lemma_rest(words);
    numerals_are_read_back(scope as nat, u64::MAX as nat);
}

/// An allocate command asks for exactly the scope and the count that it names. A count
/// that no allocator could hand out is turned down as too large.
pub proof fn an_allocate_command_asks_for_what_it_names(
    arguments: Vec<String>,
    words: Seq<Seq<char>>,
    scope: u64,
    count: u64,
    parsed: Result<Command, ArgumentError>,
)
    requires
        call_ensures(parse_command, (arguments,), parsed),
        are_words(arguments, words),
        words.len() >= 4,
        words[0] == "allocate"@,
        is_number(words[2], scope),
        words[3] == decimal(count as nat) || number_value(words[3], u64::MAX as nat) == Ok::<
            nat,
            NumberError,
        >(count as nat),
    ensures
        if count <= u32::MAX {
            parsed matches Ok(Command::Client { socket, request }) && socket@ == words[1] && request
                == ClientRequest::Once(
                Request::AllocateIdentifiers { scope: FixtureScope(scope), count: count as u32 },
            )
        } else {
            parsed matches Err(error) && is_told(error, ArgumentErrorView::Number(NumberError::TooLarge))
        },
{
    lemma_words(arguments, words);
    lemma_commands_differ();
    lemma_rest(words);
    numerals_are_read_back(scope as nat, u64::MAX as nat);
    numerals_are_read_back(count as nat, u64::MAX as nat);
    numerals_are_read_back(count as nat, u32::MAX as nat);
    let digits = if words[3].len() > 1 && words[3][0] == '+' {
        words[3].skip(1)
    } else {
        words[3]
    };
    a_number_is_what_its_digits_are_worth(words[3], u64::MAX as nat, digits);
    a_number_is_what_its_digits_are_worth(words[3], u32::MAX as nat, digits);
}

/// A store-sema-family command asks for exactly the scope, slot, family and layout
/// version that it names, under the kind of storage documents.
pub proof fn a_family_command_asks_for_what_it_names(
    arguments: Vec<String>,
    words: Seq<Seq<char>>,
    scope: u64,
    slot: u64,
    family: u64,
    layout_version: u64,
    parsed: Result<Command, ArgumentError>,
)
    requires
        call_ensures(parse_command, (arguments,), parsed),
        are_words(arguments, words),
        words.len() >= 6,
        words[0] == "store-sema-family"@,
        is_number(words[2], scope),
        is_number(words[3], slot),
        is_number(words[4], family),
        is_number(words[5], layout_version),
    ensures
        parsed matches Ok(Command::Client { socket, request }) && socket@ == words[1] && request
            == (ClientRequest::StoreFamily {
            key: DocumentKey {
                scope: FixtureScope(scope),
                kind: DocumentKind::SemaStorage,
                slot: SlotIdentifier(slot),
            },
            family,
            layout_version,
        }),
{
    lemma_words(arguments, words);
    lemma_commands_differ();
    lemma_rest(words);
    numerals_are_read_back(scope as nat, u64::MAX as nat);
    numerals_are_read_back(slot as nat, u64::MAX as nat);
    numerals_are_read_back(family as nat, u64::MAX as nat);
    numerals_are_read_back(layout_version as nat, u64::MAX as nat);
}

/// A hash-fetch command asks for exactly the hash that it spells.
pub proof fn a_hash_command_asks_for_what_it_spells(
    arguments: Vec<String>,
    words: Seq<Seq<char>>,
    hash: [u8; 32],
    parsed: Result<Command, ArgumentError>,
)
    requires
        call_ensures(parse_command, (arguments,), parsed),
        are_words(arguments, words),
        words.len() >= 3,
        words[0] == "hash-fetch"@,
        is_spelt(words[2], hash),
    ensures
        parsed matches Ok(Command::Client { socket, request }) && socket@ == words[1] && (
        request matches ClientRequest::Once(Request::HashFetch { hash: asked }) && asked.0@
            == hash@),
{
    lemma_words(arguments, words);
    lemma_commands_differ();
    lemma_rest(words);
    match parsed {
        Ok(Command::Client { socket, request }) => {
            let asked = request->Once_0->HashFetch_hash;
            lemma_hash_is_read(words[2], hash, Ok(asked.0));
        },
        Ok(_) => {},
        Err(error) => {
            lemma_hash_is_read(words[2], hash, Err(error));
        },
    }
}

/// A hash-fetch command asks for what its word is parsed as, and is turned down for what
/// the word is turned down for.
pub proof fn a_hash_command_asks_for_what_is_parsed(
    arguments: Vec<String>,
    words: Seq<Seq<char>>,
    parsed: Result<Command, ArgumentError>,
    text: &str,
    hashed: Result<[u8; 32], ArgumentError>,
)
    requires
        call_ensures(parse_command, (arguments,), parsed),
        are_words(arguments, words),
        words.len() >= 3,
        words[0] == "hash-fetch"@,
        text@ == words[2],
        call_ensures(parse_hash, (text,), hashed),
    ensures
        match hashed {
            Ok(hash) => parsed matches Ok(Command::Client { socket, request }) && socket@
                == words[1] && (request matches ClientRequest::Once(
                Request::HashFetch { hash: asked },
            ) && asked.0@ == hash@),
            Err(wrong) => parsed matches Err(error) && is_told(error, wrong@),
        },
{
    lemma_words(arguments, words);
    lemma_commands_differ();
    lemma_rest(words);
    let bytes = text.spec_bytes();
    match parsed {
        Ok(Command::Client { request, .. }) => {
            let asked = request->Once_0->HashFetch_hash;
            lemma_hash_is_determined(bytes, Ok(asked.0), hashed);
        },
        Ok(_) => {},
        Err(error) => {
            lemma_hash_is_determined(bytes, Err(error), hashed);
        },
    }
}

/// Whether a command names a scope behind its socket.
pub open spec fn is_scope_command(command: Seq<char>) -> bool {
    command == "list"@ || command == "fetch"@ || command == "snapshot"@ || command == "allocate"@
        || command == "store-sema-family"@ || command == "subscribe"@
}

/// Every command but the one with a hash is turned down for a scope that is missing or
/// is no number, whatever follows it.
pub proof fn a_bad_scope_turns_down_the_command(
    arguments: Vec<String>,
    words: Seq<Seq<char>>,
    parsed: Result<Command, ArgumentError>,
)
    requires
        call_ensures(parse_command, (arguments,), parsed),
        are_words(arguments, words),
        words.len() >= 2,
        is_scope_command(words[0]),
    ensures
        words.len() == 2 ==> (parsed matches Err(error) && is_told(error, ArgumentErrorView::Missing(
            "scope"@,
        ))),
        words.len() > 2 ==> (number_value(words[2], u64::MAX as nat) matches Err(wrong) ==> (
        parsed matches Err(error) && is_told(error, ArgumentErrorView::Number(wrong)))),
{
    lemma_words(arguments, words);
    lemma_commands_differ();
    lemma_rest(words);
}

/// A list, subscribe or fetch command with a good scope is turned down for a kind that
/// no document has, with the name that it gave, and a fetch for a kind that is missing.
pub proof fn an_unknown_kind_turns_down_the_command(
    arguments: Vec<String>,
    words: Seq<Seq<char>>,
    parsed: Result<Command, ArgumentError>,
)
    requires
        call_ensures(parse_command, (arguments,), parsed),
        are_words(arguments, words),
        words.len() >= 3,
        words[0] == "list"@ || words[0] == "subscribe"@ || words[0] == "fetch"@,
        number_value(words[2], u64::MAX as nat) is Ok,
    ensures
        words.len() == 3 && words[0] == "fetch"@ ==> parsed == Err::<Command, ArgumentError>(
            ArgumentError::MissingKind,
        ),
        words.len() > 3 && (forall|kind: DocumentKind| words[3] != #[trigger] kind_name(kind)) ==> (
        parsed matches Err(error) && is_told(error, ArgumentErrorView::UnknownKind(words[3]))),
{
    lemma_words(arguments, words);
    lemma_commands_differ();
    lemma_rest(words);
    if words.len() > 3 {
        kinds_are_known_by_their_names(words[3], DocumentKind::Nomos);
    }
}

/// A number behind good words is asked for by its name where it is missing, and turned
/// down as it is read where it is bad: the slot and the version of a fetch, the slot,
/// family and layout version of a family, and the count of an allocation.
pub proof fn a_bad_number_turns_down_the_command(
    arguments: Vec<String>,
    words: Seq<Seq<char>>,
    parsed: Result<Command, ArgumentError>,
)
    requires
        call_ensures(parse_command, (arguments,), parsed),
        are_words(arguments, words),
        words.len() >= 3,
        number_value(words[2], u64::MAX as nat) is Ok,
    ensures
        words[0] == "fetch"@ && words.len() > 3 && (exists|kind: DocumentKind|
            words[3] == #[trigger] kind_name(kind)) ==> {
            &&& words.len() == 4 ==> turned_down_for(parsed, ArgumentErrorView::Missing("slot"@))
            &&& words.len() > 4 ==> (number_value(words[4], u64::MAX as nat) matches Err(wrong)
                ==> turned_down_for(parsed, ArgumentErrorView::Number(wrong)))
            &&& words.len() > 5 && number_value(words[4], u64::MAX as nat) is Ok ==> (number_value(
                words[5],
                u64::MAX as nat,
            ) matches Err(wrong) ==> turned_down_for(parsed, ArgumentErrorView::Number(wrong)))
        },
        words[0] == "allocate"@ ==> {
            &&& words.len() == 3 ==> turned_down_for(parsed, ArgumentErrorView::Missing("count"@))
            &&& words.len() > 3 ==> (number_value(words[3], u32::MAX as nat) matches Err(wrong)
                ==> turned_down_for(parsed, ArgumentErrorView::Number(wrong)))
        },
        words[0] == "store-sema-family"@ ==> {
            &&& words.len() == 3 ==> turned_down_for(parsed, ArgumentErrorView::Missing("slot"@))
            &&& words.len() > 3 ==> (number_value(words[3], u64::MAX as nat) matches Err(wrong)
                ==> turned_down_for(parsed, ArgumentErrorView::Number(wrong)))
            &&& words.len() > 3 && number_value(words[3], u64::MAX as nat) is Ok ==> {
                &&& words.len() == 4 ==> turned_down_for(
                    parsed,
                    ArgumentErrorView::Missing("family id"@),
                )
                &&& words.len() > 4 ==> (number_value(words[4], u64::MAX as nat) matches Err(wrong)
                    ==> turned_down_for(parsed, ArgumentErrorView::Number(wrong)))
                &&& words.len() > 4 && number_value(words[4], u64::MAX as nat) is Ok ==> {
                    &&& words.len() == 5 ==> turned_down_for(
                        parsed,
                        ArgumentErrorView::Missing("layout version"@),
                    )
                    &&& words.len() > 5 ==> (number_value(
                        words[5],
                        u64::MAX as nat,
                    ) matches Err(wrong) ==> turned_down_for(
                        parsed,
                        ArgumentErrorView::Number(wrong),
                    ))
                }
            }
        },
{
    lemma_words(arguments, words);
    lemma_commands_differ();
    lemma_rest(words);
    if words.len() > 3 {
        assert forall|kind: DocumentKind| words[3] == #[trigger] kind_name(
            kind,
        ) implies kind_named(words[3]) == Some(kind) by {
            kinds_are_known_by_their_names(words[3], kind);
        }
    }
}

/// Whether a command line was turned down for a reason.
pub open spec fn turned_down_for(
    parsed: Result<Command, ArgumentError>,
    reason: ArgumentErrorView,
) -> bool {
    parsed matches Err(error) && is_told(error, reason)
}

/// A hash-fetch command without a hash is turned down for that.
pub proof fn a_missing_hash_turns_down_the_command(
    arguments: Vec<String>,
    words: Seq<Seq<char>>,
    parsed: Result<Command, ArgumentError>,
)
    requires
        call_ensures(parse_command, (arguments,), parsed),
        are_words(arguments, words),
        words.len() == 2,
        words[0] == "hash-fetch"@,
    ensures
        parsed == Err::<Command, ArgumentError>(ArgumentError::MissingHash),
{
    lemma_words(arguments, words);
    lemma_commands_differ();
    lemma_rest(words);
}

/// A kind is parsed from its name and from no other text.
pub proof fn kinds_are_parsed_from_their_names(
    name: &str,
    parsed: Result<DocumentKind, ArgumentError>,
)
    requires
        call_ensures(parse_kind, (name,), parsed),
    ensures
        match parsed {
            Ok(kind) => name@ == kind_name(kind),
            Err(error) => {
                &&& error matches ArgumentError::UnknownKind(text)
                &&& text@ == name@
                &&& forall|kind: DocumentKind| name@ != #[trigger] kind_name(kind)
            },
        },
{
    match parsed {
        Ok(kind) => {
            kinds_are_known_by_their_names(name@, kind);
        },
        Err(_) => {
            kinds_are_known_by_their_names(name@, DocumentKind::Nomos);
        },
    }
}

/// What is wrong with a command line is told in these words, and with the name or the
/// text that it is about.
pub proof fn bad_arguments_are_told_in_words(error: ArgumentError, text: String)
    requires
        call_ensures(ArgumentError::message, (&error,), text),
    ensures
        match error {
            ArgumentError::Missing(name) => text@ == "missing "@ + name@,
            ArgumentError::MissingSocket => text@ == "missing socket path"@,
            ArgumentError::MissingKind => text@ == "kind"@,
            ArgumentError::MissingHash => text@ == "hash"@,
            ArgumentError::Number(NumberError::Empty) => text@
                == "cannot parse integer from empty string"@,
            ArgumentError::Number(NumberError::InvalidDigit) => text@
                == "invalid digit found in string"@,
            ArgumentError::Number(NumberError::TooLarge) => text@
                == "number too large to fit in target type"@,
            ArgumentError::UnknownKind(name) => text@ == "unknown document kind: "@ + name@,
            ArgumentError::HashLength => text@ == "hash must contain 64 hexadecimal digits"@,
            ArgumentError::HashText(first, second) => first < 128 ==> text@ == if 194 <= second
                <= 244 {
                "incomplete utf-8 byte sequence from index 1"@
            } else {
                "invalid utf-8 sequence of 1 bytes from index 1"@
            },
            ArgumentError::Usage => text@
                == "usage: sema-storage daemon [socket] [database] | list|fetch|hash-fetch|snapshot|allocate|store-sema-family|subscribe <socket> ..."@,
        },
{
}

/// A number is parsed from the next argument, which is taken, and from nothing else; where
/// there is none its name is asked for and nothing is taken.
pub proof fn a_number_is_parsed_from_the_next_argument(
    arguments: &mut Arguments,
    name: &str,
    parsed: Result<u64, ArgumentError>,
)
    requires
        call_ensures(parse::<u64>, (arguments, name), parsed),
    ensures
        old(arguments)@.len() == 0 ==> final(arguments)@ == old(arguments)@ && (parsed matches Err(
            error,
        ) && is_told(error, ArgumentErrorView::Missing(name@))),
        old(arguments)@.len() > 0 ==> {
            &&& final(arguments)@ == old(arguments)@.skip(1)
            &&& match parsed {
                Ok(number) => number_value(old(arguments)@[0], u64::MAX as nat) == Ok::<
                    nat,
                    NumberError,
                >(number as nat),
                Err(error) => number_value(old(arguments)@[0], u64::MAX as nat) matches Err(wrong)
                    && is_told(error, ArgumentErrorView::Number(wrong)),
            }
        },
{
}

/// A small number is parsed like any other, but is too large beyond its own type.
pub proof fn a_small_number_is_parsed_from_the_next_argument(
    arguments: &mut Arguments,
    name: &str,
    parsed: Result<u32, ArgumentError>,
)
    requires
        call_ensures(parse::<u32>, (arguments, name), parsed),
    ensures
        old(arguments)@.len() == 0 ==> final(arguments)@ == old(arguments)@ && (parsed matches Err(
            error,
        ) && is_told(error, ArgumentErrorView::Missing(name@))),
        old(arguments)@.len() > 0 ==> {
            &&& final(arguments)@ == old(arguments)@.skip(1)
            &&& match parsed {
                Ok(number) => number_value(old(arguments)@[0], u32::MAX as nat) == Ok::<
                    nat,
                    NumberError,
                >(number as nat),
                Err(error) => number_value(old(arguments)@[0], u32::MAX as nat) matches Err(wrong)
                    && is_told(error, ArgumentErrorView::Number(wrong)),
            }
        },
{
}

/// Arguments are taken from the first to the last, each unchanged.
pub proof fn arguments_are_taken_in_order(
    given: Vec<String>,
    arguments: Arguments,
    taken: &mut Arguments,
    next: Option<String>,
)
    requires
        call_ensures(Arguments::new, (given,), arguments),
        call_ensures(Arguments::next, (taken,), next),
    ensures
        arguments@.len() == given@.len(),
        forall|index: int|
            0 <= index < given@.len() ==> #[trigger] arguments@[index] == given@[index]@,
        match next {
            Some(text) => {
                &&& old(taken)@.len() > 0
                &&& text@ == old(taken)@[0]
                &&& final(taken)@ == old(taken)@.skip(1)
            },
            None => old(taken)@.len() == 0 && final(taken)@ == old(taken)@,
        },
{
}

} // verus!
