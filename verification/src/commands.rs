//! Commands: what a command line asks the program to do.
use vstd::prelude::*;
use vstd::utf8::encode_utf8;

use crate::arguments::{
    ArgumentError, ArgumentErrorView, Arguments, is_hash_of, kind_named, number_value, parse,
    parse_hash, parse_kind,
};
use crate::protocol::{
    ContentHash, DocumentKey, DocumentKind, FixtureScope, Request, SlotIdentifier, Version,
};
use crate::session::Subscription;
use crate::text::same_text;

verus! {

/// What a client asks of a daemon.
#[derive(Clone, Debug, PartialEq, Eq)]
pub enum ClientRequest {
    /// One request, answered once.
    Once(Request),
    /// The storage of a document that declares one family of records.
    StoreFamily { key: DocumentKey, family: u64, layout_version: u64 },
    /// A subscription, answered until the connection ends.
    Subscribe(Subscription),
}

/// What a command line asks for.
#[derive(Clone, Debug, PartialEq, Eq)]
pub enum Command {
    /// Serve a socket from a database.
    Daemon { socket: String, database: String },
    /// Ask the daemon behind a socket.
    Client { socket: String, request: ClientRequest },
}

/// The content of a [`Command`].
pub ghost enum CommandView {
    Daemon { socket: Seq<char>, database: Seq<char> },
    Client { socket: Seq<char>, request: ClientRequest },
}

impl View for Command {
    type V = CommandView;

    open spec fn view(&self) -> CommandView {
        match *self {
            Command::Daemon { socket, database } => CommandView::Daemon {
                socket: socket@,
                database: database@,
            },
            Command::Client { socket, request } => CommandView::Client { socket: socket@, request },
        }
    }
}

/// The number at a place of the arguments.
pub open spec fn number_at(
    arguments: Seq<Seq<char>>,
    place: int,
    name: Seq<char>,
    largest: nat,
) -> Result<nat, ArgumentErrorView> {
    if place < arguments.len() {
        match number_value(arguments[place], largest) {
            Ok(value) => Ok(value),
            Err(error) => Err(ArgumentErrorView::Number(error)),
        }
    } else {
        Err(ArgumentErrorView::Missing(name))
    }
}

/// The scope, which is the first argument wherever there is one.
pub open spec fn scope_of(arguments: Seq<Seq<char>>) -> Result<FixtureScope, ArgumentErrorView> {
    match number_at(arguments, 0, "scope"@, u64::MAX as nat) {
        Ok(value) => Ok(FixtureScope(value as u64)),
        Err(error) => Err(error),
    }
}

/// The kind at a place of the arguments, where there is one.
pub open spec fn kind_at(arguments: Seq<Seq<char>>, place: int) -> Result<
    Option<DocumentKind>,
    ArgumentErrorView,
> {
    if place < arguments.len() {
        match kind_named(arguments[place]) {
            Some(kind) => Ok(Some(kind)),
            None => Err(ArgumentErrorView::UnknownKind(arguments[place])),
        }
    } else {
        Ok(None)
    }
}

/// A scope, then a kind where there is one.
pub open spec fn listing_asked(arguments: Seq<Seq<char>>) -> Result<
    Subscription,
    ArgumentErrorView,
> {
    match scope_of(arguments) {
        Err(error) => Err(error),
        Ok(scope) => match kind_at(arguments, 1) {
            Err(error) => Err(error),
            Ok(kind) => Ok(Subscription { scope, kind }),
        },
    }
}

/// A scope, a kind and a slot, then a version where there is one.
pub open spec fn fetch_asked(arguments: Seq<Seq<char>>) -> Result<Request, ArgumentErrorView> {
    match scope_of(arguments) {
        Err(error) => Err(error),
        Ok(scope) => match kind_at(arguments, 1) {
            Err(error) => Err(error),
            Ok(None) => Err(ArgumentErrorView::MissingKind),
            Ok(Some(kind)) => match number_at(arguments, 2, "slot"@, u64::MAX as nat) {
                Err(error) => Err(error),
                Ok(slot) => {
                    let key = DocumentKey { scope, kind, slot: SlotIdentifier(slot as u64) };
                    if arguments.len() <= 3 {
                        Ok(Request::Fetch { key, version: None })
                    } else {
                        match number_at(arguments, 3, "version"@, u64::MAX as nat) {
                            Err(error) => Err(error),
                            Ok(version) => Ok(
                                Request::Fetch { key, version: Some(Version(version as u64)) },
                            ),
                        }
                    }
                },
            },
        },
    }
}

/// A scope, a slot, a family and a layout version.
pub open spec fn family_asked(arguments: Seq<Seq<char>>) -> Result<ClientRequest, ArgumentErrorView> {
    match scope_of(arguments) {
        Err(error) => Err(error),
        Ok(scope) => match number_at(arguments, 1, "slot"@, u64::MAX as nat) {
            Err(error) => Err(error),
            Ok(slot) => match number_at(arguments, 2, "family id"@, u64::MAX as nat) {
                Err(error) => Err(error),
                Ok(family) => match number_at(
                    arguments,
                    3,
                    "layout version"@,
                    u64::MAX as nat,
                ) {
                    Err(error) => Err(error),
                    Ok(layout_version) => Ok(
                        ClientRequest::StoreFamily {
                            key: DocumentKey {
                                scope,
                                kind: DocumentKind::SemaStorage,
                                slot: SlotIdentifier(slot as u64),
                            },
                            family: family as u64,
                            layout_version: layout_version as u64,
                        },
                    ),
                },
            },
        },
    }
}

/// A scope and a count.
pub open spec fn allocation_asked(arguments: Seq<Seq<char>>) -> Result<
    Request,
    ArgumentErrorView,
> {
    match scope_of(arguments) {
        Err(error) => Err(error),
        Ok(scope) => match number_at(arguments, 1, "count"@, u32::MAX as nat) {
            Err(error) => Err(error),
            Ok(count) => Ok(Request::AllocateIdentifiers { scope, count: count as u32 }),
        },
    }
}

fn take_kind(arguments: &mut Arguments) -> (taken: Result<Option<DocumentKind>, ArgumentError>)
    ensures
        match kind_at(old(arguments)@, 0) {
            Ok(kind) => taken == Ok::<Option<DocumentKind>, ArgumentError>(kind),
            Err(error) => taken matches Err(wrong) && wrong@ == error,
        },
        old(arguments)@.len() > 0 ==> final(arguments)@ == old(arguments)@.skip(1),
{
    match arguments.next() {
        None => Ok(None),
        Some(name) => match parse_kind(name.as_str()) {
            Ok(kind) => Ok(Some(kind)),
            Err(error) => Err(error),
        },
    }
}

fn take_listing(arguments: &mut Arguments) -> (taken: Result<Subscription, ArgumentError>)
    ensures
        match listing_asked(old(arguments)@) {
            Ok(subscription) => taken == Ok::<Subscription, ArgumentError>(subscription),
            Err(error) => taken matches Err(wrong) && wrong@ == error,
        },
{
    let scope: u64 = parse::<u64>(arguments, "scope")?;
    let kind = take_kind(arguments)?;
    Ok(Subscription { scope: FixtureScope(scope), kind })
}

fn take_fetch(arguments: &mut Arguments) -> (taken: Result<Request, ArgumentError>)
    ensures
        match fetch_asked(old(arguments)@) {
            Ok(request) => taken == Ok::<Request, ArgumentError>(request),
            Err(error) => taken matches Err(wrong) && wrong@ == error,
        },
{
    let scope: u64 = parse::<u64>(arguments, "scope")?;
    let kind = match take_kind(arguments)? {
        Some(kind) => kind,
        None => {
            return Err(ArgumentError::MissingKind);
        },
    };
    let slot: u64 = parse::<u64>(arguments, "slot")?;
    let key = DocumentKey { scope: FixtureScope(scope), kind, slot: SlotIdentifier(slot) };
    if arguments.is_empty() {
        return Ok(Request::Fetch { key, version: None });
    }
    let version: u64 = parse::<u64>(arguments, "version")?;
    Ok(Request::Fetch { key, version: Some(Version(version)) })
}

fn take_family(arguments: &mut Arguments) -> (taken: Result<ClientRequest, ArgumentError>)
    ensures
        match family_asked(old(arguments)@) {
            Ok(request) => taken == Ok::<ClientRequest, ArgumentError>(request),
            Err(error) => taken matches Err(wrong) && wrong@ == error,
        },
{
    let scope: u64 = parse::<u64>(arguments, "scope")?;
    let slot: u64 = parse::<u64>(arguments, "slot")?;
    let family: u64 = parse::<u64>(arguments, "family id")?;
    let layout_version: u64 = parse::<u64>(arguments, "layout version")?;
    let key = DocumentKey {
        scope: FixtureScope(scope),
        kind: DocumentKind::SemaStorage,
        slot: SlotIdentifier(slot),
    };
    Ok(ClientRequest::StoreFamily { key, family, layout_version })
}

fn take_allocation(arguments: &mut Arguments) -> (taken: Result<Request, ArgumentError>)
    ensures
        match allocation_asked(old(arguments)@) {
            Ok(request) => taken == Ok::<Request, ArgumentError>(request),
            Err(error) => taken matches Err(wrong) && wrong@ == error,
        },
{
    let scope: u64 = parse::<u64>(arguments, "scope")?;
    let count: u32 = parse::<u32>(arguments, "count")?;
    Ok(Request::AllocateIdentifiers { scope: FixtureScope(scope), count })
}

/// A request that is answered once, or why there is none.
pub open spec fn once(asked: Result<Request, ArgumentErrorView>) -> Result<
    ClientRequest,
    ArgumentErrorView,
> {
    match asked {
        Ok(request) => Ok(ClientRequest::Once(request)),
        Err(error) => Err(error),
    }
}

/// Whether `asked` is what a client command asks with its arguments.
pub open spec fn is_asked(
    command: Seq<char>,
    arguments: Seq<Seq<char>>,
    asked: Result<ClientRequest, ArgumentError>,
) -> bool {
    if command == "hash-fetch"@ && arguments.len() > 0 {
        match asked {
            Ok(ClientRequest::Once(Request::HashFetch { hash })) => is_hash_of(
                encode_utf8(arguments[0]),
                Ok(hash.0),
            ),
            Ok(_) => false,
            Err(error) => is_hash_of(encode_utf8(arguments[0]), Err(error)),
        }
    } else {
        match asked_plainly(command, arguments) {
            Ok(request) => asked == Ok::<ClientRequest, ArgumentError>(request),
            Err(error) => asked matches Err(wrong) && wrong@ == error,
        }
    }
}

/// What a client command other than one with a hash asks with its arguments.
pub open spec fn asked_plainly(command: Seq<char>, arguments: Seq<Seq<char>>) -> Result<
    ClientRequest,
    ArgumentErrorView,
> {
    if command == "list"@ {
        match listing_asked(arguments) {
            Ok(listing) => Ok(
                ClientRequest::Once(Request::List { scope: listing.scope, kind: listing.kind }),
            ),
            Err(error) => Err(error),
        }
    } else if command == "fetch"@ {
        once(fetch_asked(arguments))
    } else if command == "hash-fetch"@ {
        Err(ArgumentErrorView::MissingHash)
    } else if command == "snapshot"@ {
        match scope_of(arguments) {
            Ok(scope) => Ok(ClientRequest::Once(Request::Snapshot { scope })),
            Err(error) => Err(error),
        }
    } else if command == "allocate"@ {
        once(allocation_asked(arguments))
    } else if command == "store-sema-family"@ {
        family_asked(arguments)
    } else if command == "subscribe"@ {
        match listing_asked(arguments) {
            Ok(subscription) => Ok(ClientRequest::Subscribe(subscription)),
            Err(error) => Err(error),
        }
    } else {
        Err(ArgumentErrorView::Usage)
    }
}

/// The literals by which client commands are told apart, with their lengths
/// where these settle it.
proof fn lemma_hash_fetch_is_its_own_command()
    ensures
        "hash-fetch"@ != "list"@,
        "hash-fetch"@ != "fetch"@,
{
    reveal_strlit("hash-fetch");
    reveal_strlit("list");
    reveal_strlit("fetch");
    assert("hash-fetch"@.len() == 10);
    assert("list"@.len() == 4);
    assert("fetch"@.len() == 5);
}

/// What a client command asks with its arguments.
pub fn parse_request(command: &str, arguments: Arguments) -> (asked: Result<
    ClientRequest,
    ArgumentError,
>)
    ensures
        is_asked(command@, arguments@, asked),
{
    proof {
        lemma_hash_fetch_is_its_own_command();
    }
    let mut rest = arguments;
    if same_text(command, "list") {
        let listing = take_listing(&mut rest)?;
        Ok(ClientRequest::Once(Request::List { scope: listing.scope, kind: listing.kind }))
    } else if same_text(command, "fetch") {
        Ok(ClientRequest::Once(take_fetch(&mut rest)?))
    } else if same_text(command, "hash-fetch") {
        match rest.next() {
            None => Err(ArgumentError::MissingHash),
            Some(text) => match parse_hash(text.as_str()) {
                Ok(hash) => Ok(
                    ClientRequest::Once(Request::HashFetch { hash: ContentHash(hash) }),
                ),
                Err(error) => Err(error),
            },
        }
    } else if same_text(command, "snapshot") {
        let scope: u64 = parse::<u64>(&mut rest, "scope")?;
        Ok(ClientRequest::Once(Request::Snapshot { scope: FixtureScope(scope) }))
    } else if same_text(command, "allocate") {
        Ok(ClientRequest::Once(take_allocation(&mut rest)?))
    } else if same_text(command, "store-sema-family") {
        take_family(&mut rest)
    } else if same_text(command, "subscribe") {
        Ok(ClientRequest::Subscribe(take_listing(&mut rest)?))
    } else {
        Err(ArgumentError::Usage)
    }
}

/// The argument at a place, or a default where there is none.
pub open spec fn text_at(arguments: Seq<Seq<char>>, place: int, default: Seq<char>) -> Seq<char> {
    if place < arguments.len() {
        arguments[place]
    } else {
        default
    }
}

/// Whether `parsed` is what a command line asks for. The first argument names
/// the command; a daemon has default paths; a client names a socket first.
pub open spec fn is_command(
    arguments: Seq<Seq<char>>,
    parsed: Result<Command, ArgumentError>,
) -> bool {
    let command = text_at(arguments, 0, "help"@);
    if command == "daemon"@ {
        &&& parsed matches Ok(daemon)
        &&& daemon@ == (CommandView::Daemon {
            socket: text_at(arguments, 1, "/tmp/new-language-engine/sema.sock"@),
            database: text_at(arguments, 2, "/tmp/new-language-engine/state.sema"@),
        })
    } else if arguments.len() < 2 {
        parsed == Err::<Command, ArgumentError>(ArgumentError::MissingSocket)
    } else {
        match parsed {
            Ok(Command::Client { socket, request }) => socket@ == arguments[1] && is_asked(
                command,
                arguments.skip(2),
                Ok(request),
            ),
            Ok(_) => false,
            Err(error) => is_asked(command, arguments.skip(2), Err(error)),
        }
    }
}

fn next_or(arguments: &mut Arguments, default: &str) -> (text: String)
    ensures
        text@ == text_at(old(arguments)@, 0, default@),
        old(arguments)@.len() > 0 ==> final(arguments)@ == old(arguments)@.skip(1),
        old(arguments)@.len() == 0 ==> final(arguments)@ == old(arguments)@,
{
    match arguments.next() {
        Some(text) => text,
        None => default.to_string(),
    }
}

/// What a command line, without the program's name, asks for.
pub fn parse_command(arguments: Vec<String>) -> (parsed: Result<Command, ArgumentError>)
    ensures
        is_command(arguments@.map_values(|argument: String| argument@), parsed),
{
    let mut rest = Arguments::new(arguments);
    let ghost given = rest@;
    let command = next_or(&mut rest, "help");
    if same_text(command.as_str(), "daemon") {
        let socket = next_or(&mut rest, "/tmp/new-language-engine/sema.sock");
        let database = next_or(&mut rest, "/tmp/new-language-engine/state.sema");
        return Ok(Command::Daemon { socket, database });
    }
    let socket = match rest.next() {
        Some(socket) => socket,
        None => {
            return Err(ArgumentError::MissingSocket);
        },
    };
    assert(rest@ =~= given.skip(2));
    let request = parse_request(command.as_str(), rest)?;
    Ok(Command::Client { socket, request })
}

} // verus!
