//! The compositor's IPC endpoints and the commands sent to them.

use crate::errors::VirtualDesktopError;
use crate::text::{
    chars_of, decimal, has_prefix, parse_u32, push_all, push_decimal, push_str, starts_with,
    string_of, u32_of,
};
use vstd::prelude::*;

verus! {

/// The longest instance signature that is accepted.
pub const MAX_SIGNATURE_LENGTH: usize = 64;

/// Whether a character may occur in an instance signature: an ASCII letter,
/// an ASCII digit, an underscore or a hyphen.
pub open spec fn is_signature_char(c: char) -> bool {
    ||| 'a' <= c <= 'z'
    ||| 'A' <= c <= 'Z'
    ||| '0' <= c <= '9'
    ||| c == '_'
    ||| c == '-'
}

/// Whether an instance signature is safe to use in a path: between one and
/// `MAX_SIGNATURE_LENGTH` characters, each of them allowed.
pub open spec fn valid_signature(signature: Seq<char>) -> bool {
    &&& 1 <= signature.len() <= MAX_SIGNATURE_LENGTH
    &&& forall|i: int| 0 <= i < signature.len() ==> is_signature_char(#[trigger] signature[i])
}

/// Why a signature is refused.
pub open spec fn refusal(signature: Seq<char>) -> Seq<char> {
    if signature.len() == 0 {
        "empty signature"@
    } else {
        "contains unsafe characters or invalid format; must be alphanumeric with optional underscores/hyphens, 1-64 characters long"@
    }
}

/// An empty signature, one of more than `MAX_SIGNATURE_LENGTH` characters,
/// and one that holds a slash or a dot, and so any that holds `..`, is
/// invalid.
pub proof fn lemma_unsafe_signatures_are_invalid(signature: Seq<char>)
    requires
        signature.len() == 0 || signature.len() > MAX_SIGNATURE_LENGTH || signature.contains('/')
            || signature.contains('.'),
    ensures
        !valid_signature(signature),
{
    if signature.contains('/') {
        let i = choose|i: int| 0 <= i < signature.len() && signature[i] == '/';
        assert(!is_signature_char(signature[i]));
    }
    if signature.contains('.') {
        let i = choose|i: int| 0 <= i < signature.len() && signature[i] == '.';
        assert(!is_signature_char(signature[i]));
    }
}

fn allowed_in_signature(c: char) -> (allowed: bool)
    ensures
        allowed == is_signature_char(c),
{
    ('a' <= c && c <= 'z') || ('A' <= c && c <= 'Z') || ('0' <= c && c <= '9') || c == '_' || c
        == '-'
}

/// Checks an instance signature against the allow-list.
pub fn validate_instance_signature(signature: &str) -> (outcome: Result<(), VirtualDesktopError>)
    ensures
        outcome is Ok <==> valid_signature(signature@),
        outcome matches Err(error) ==> {
            &&& error matches VirtualDesktopError::InvalidInstanceId { signature: refused, reason }
            &&& refused@ == signature@
            &&& reason@ == refusal(signature@)
        },
{
    let chars = chars_of(signature);
    if chars.len() == 0 {
        return Err(VirtualDesktopError::invalid_instance_id(signature, "empty signature"));
    }
    let mut safe: bool = chars.len() <= MAX_SIGNATURE_LENGTH;
    let mut i: usize = 0;
    while safe && i < chars.len()
        invariant
            i <= chars.len(),
            chars.len() <= MAX_SIGNATURE_LENGTH || !safe,
            safe ==> forall|j: int| 0 <= j < i ==> is_signature_char(#[trigger] chars@[j]),
            !safe ==> !valid_signature(chars@),
        decreases chars.len() - i + if safe {
            1int
        } else {
            0int
        },
    {
        if allowed_in_signature(chars[i]) {
            i += 1;
        } else {
            safe = false;
        }
    }
    if safe {
        Ok(())
    } else {
        Err(
            VirtualDesktopError::invalid_instance_id(
                signature,
                "contains unsafe characters or invalid format; must be alphanumeric with optional underscores/hyphens, 1-64 characters long",
            ),
        )
    }
}

/// A path with one more component, which must be relative: the component
/// follows a separator unless the path is empty or ends in one.
pub open spec fn joined(base: Seq<char>, component: Seq<char>) -> Seq<char> {
    if base.len() == 0 {
        component
    } else if base.last() == '/' {
        base + component
    } else {
        base + seq!['/'] + component
    }
}

/// The path of a socket of the instance `signature` below `runtime_dir`.
pub open spec fn socket_path(runtime_dir: Seq<char>, signature: Seq<char>, file: Seq<char>) -> Seq<
    char,
> {
    joined(joined(joined(runtime_dir, "hypr"@), signature), file)
}

fn push_component(path: &mut Vec<char>, component: &Vec<char>)
    ensures
        final(path)@ == joined(old(path)@, component@),
{
    if path.len() > 0 && path[path.len() - 1] != '/' {
        path.push('/');
    }
    let ghost base = path@;
    push_all(path, component);
    proof {
        if old(path)@.len() == 0 {
            assert(path@ =~= component@);
        }
    }
}

/// The paths of the two sockets of one compositor instance.
#[derive(Debug)]
pub struct Endpoints {
    /// The socket that takes commands.
    pub command_path: String,
    /// The socket that emits events.
    pub event_path: String,
}

impl Endpoints {
    /// The endpoints of the instance `signature` below `runtime_dir`.
    pub open spec fn of(runtime_dir: Seq<char>, signature: Seq<char>) -> (Seq<char>, Seq<char>) {
        (
            socket_path(runtime_dir, signature, ".socket.sock"@),
            socket_path(runtime_dir, signature, ".socket2.sock"@),
        )
    }

    /// Whether these are the endpoints of the instance.
    pub open spec fn are_of(&self, runtime_dir: Seq<char>, signature: Seq<char>) -> bool {
        (self.command_path@, self.event_path@) == Endpoints::of(runtime_dir, signature)
    }
}

fn socket_in(runtime_dir: &str, signature: &str, file: &str) -> (path: String)
    ensures
        path@ == socket_path(runtime_dir@, signature@, file@),
{
    let mut path = chars_of(runtime_dir);
    push_component(&mut path, &chars_of("hypr"));
    push_component(&mut path, &chars_of(signature));
    push_component(&mut path, &chars_of(file));
    string_of(&path)
}

/// The socket paths that an instance would have. The signature is checked
/// first; nothing is known yet of whether the sockets exist.
pub fn candidate_endpoints(instance_id: &str, runtime_dir: &str) -> (outcome: Result<
    Endpoints,
    VirtualDesktopError,
>)
    ensures
        match outcome {
            Ok(endpoints) => valid_signature(instance_id@) && endpoints.are_of(
                runtime_dir@,
                instance_id@,
            ),
            Err(error) => !valid_signature(instance_id@) && error is InvalidInstanceId,
        },
{
    match validate_instance_signature(instance_id) {
        Err(error) => Err(error),
        Ok(()) => Ok(
            Endpoints {
                command_path: socket_in(runtime_dir, instance_id, ".socket.sock"),
                event_path: socket_in(runtime_dir, instance_id, ".socket2.sock"),
            },
        ),
    }
}

/// The sockets of an instance, given whether each candidate path exists.
/// An invalid signature is refused whatever exists; a missing socket is
/// reported with its path, the command socket first.
pub fn resolve_endpoints(
    instance_id: &str,
    runtime_dir: &str,
    command_exists: bool,
    event_exists: bool,
) -> (outcome: Result<Endpoints, VirtualDesktopError>)
    ensures
        outcome is Ok <==> valid_signature(instance_id@) && command_exists && event_exists,
        match outcome {
            Ok(endpoints) => endpoints.are_of(runtime_dir@, instance_id@),
            Err(error) => if !valid_signature(instance_id@) {
                error is InvalidInstanceId
            } else {
                &&& error matches VirtualDesktopError::EndpointNotFound { path }
                &&& path@ == if !command_exists {
                    Endpoints::of(runtime_dir@, instance_id@).0
                } else {
                    Endpoints::of(runtime_dir@, instance_id@).1
                }
            },
        },
{
    let endpoints = match candidate_endpoints(instance_id, runtime_dir) {
        Err(error) => {
            return Err(error);
        },
        Ok(endpoints) => endpoints,
    };
    if !command_exists {
        Err(VirtualDesktopError::endpoint_not_found(endpoints.command_path.as_str()))
    } else if !event_exists {
        Err(VirtualDesktopError::endpoint_not_found(endpoints.event_path.as_str()))
    } else {
        Ok(endpoints)
    }
}

/// The number of attempts that a client makes unless told otherwise.
pub const DEFAULT_RETRY_MAX: u32 = 10;

/// The base delay of a client unless told otherwise, in milliseconds.
pub const DEFAULT_RETRY_BASE_DELAY_MS: u64 = 500;

/// What a client needs to reach one compositor instance: the two socket
/// paths and the retry parameters.
#[derive(Debug)]
pub struct HyprlandIPC {
    socket_path: String,
    event_socket_path: String,
    retry_max: u32,
    retry_base_delay_ms: u64,
}

impl HyprlandIPC {
    /// The path of the command socket.
    pub closed spec fn command_path(&self) -> Seq<char> {
        self.socket_path@
    }

    /// The path of the event socket.
    pub closed spec fn event_path(&self) -> Seq<char> {
        self.event_socket_path@
    }

    /// The retry parameters: attempts and base delay.
    pub closed spec fn retry(&self) -> (u32, u64) {
        (self.retry_max, self.retry_base_delay_ms)
    }

    /// A client for resolved endpoints with the default retry parameters.
    pub fn new(endpoints: Endpoints) -> (client: Self)
        ensures
            client.command_path() == endpoints.command_path@,
            client.event_path() == endpoints.event_path@,
            client.retry() == (DEFAULT_RETRY_MAX, DEFAULT_RETRY_BASE_DELAY_MS),
    {
        Self::with_config(endpoints, DEFAULT_RETRY_MAX, DEFAULT_RETRY_BASE_DELAY_MS)
    }

    /// A client for resolved endpoints.
    pub fn with_config(endpoints: Endpoints, retry_max: u32, retry_base_delay_ms: u64) -> (client:
        Self)
        ensures
            client.command_path() == endpoints.command_path@,
            client.event_path() == endpoints.event_path@,
            client.retry() == (retry_max, retry_base_delay_ms),
    {
        HyprlandIPC {
            socket_path: endpoints.command_path,
            event_socket_path: endpoints.event_path,
            retry_max,
            retry_base_delay_ms,
        }
    }

    /// The path of the command socket.
    pub fn socket_path(&self) -> (path: &String)
        ensures
            path@ == self.command_path(),
    {
        &self.socket_path
    }

    /// The path of the event socket.
    pub fn event_socket_path(&self) -> (path: &String)
        ensures
            path@ == self.event_path(),
    {
        &self.event_socket_path
    }

    /// How many failed attempts are tolerated.
    pub fn retry_max(&self) -> (attempts: u32)
        ensures
            attempts == self.retry().0,
    {
        self.retry_max
    }

    /// The delay before the first retry, in milliseconds.
    pub fn retry_base_delay_ms(&self) -> (delay: u64)
        ensures
            delay == self.retry().1,
    {
        self.retry_base_delay_ms
    }
}

/// The command that asks for the full state as a structured payload.
pub fn state_command() -> (command: String)
    ensures
        command@ == "j/printstate"@,
{
    "j/printstate".to_owned()
}

/// The command that asks for the description of one desktop.
pub fn desk_info_command(vdesk_id: u32) -> (command: String)
    ensures
        command@ == "printdesk "@ + decimal(vdesk_id as nat),
{
    let mut out: Vec<char> = Vec::new();
    push_str(&mut out, "printdesk ");
    push_decimal(&mut out, vdesk_id as u64);
    string_of(&out)
}

/// The highest-numbered desktop whose name is asked for after a refresh.
pub const NAMED_DESKTOPS: u32 = 5;

/// The desktops whose names are asked for after a refresh of the state,
/// each with the command that asks: the desktops from one to
/// `NAMED_DESKTOPS`.
pub fn name_queries() -> (queries: Vec<(u32, String)>)
    ensures
        queries@.len() == NAMED_DESKTOPS,
        forall|i: int|
            0 <= i < queries@.len() ==> (#[trigger] queries@[i]).0 == i + 1 && queries@[i].1@
                == "printdesk "@ + decimal((i + 1) as nat),
{
    let mut queries: Vec<(u32, String)> = Vec::new();
    let mut vdesk_id: u32 = 1;
    while vdesk_id <= NAMED_DESKTOPS
        invariant
            1 <= vdesk_id <= NAMED_DESKTOPS + 1,
            queries@.len() == vdesk_id - 1,
            forall|i: int|
                0 <= i < queries@.len() ==> (#[trigger] queries@[i]).0 == i + 1 && queries@[i].1@
                    == "printdesk "@ + decimal((i + 1) as nat),
        decreases NAMED_DESKTOPS + 1 - vdesk_id,
    {
        queries.push((vdesk_id, desk_info_command(vdesk_id)));
        vdesk_id += 1;
    }
    queries
}

/// The command that switches to a desktop.
pub fn switch_command(vdesk_id: u32) -> (command: String)
    ensures
        command@ == "dispatch vdesk "@ + decimal(vdesk_id as nat),
{
    let mut out: Vec<char> = Vec::new();
    push_str(&mut out, "dispatch vdesk ");
    push_decimal(&mut out, vdesk_id as u64);
    string_of(&out)
}

/// The command for an action of the user: an action that is the number of
/// a desktop switches to it, any other action does nothing.
pub fn action_command(action: &str) -> (command: Option<String>)
    ensures
        match u32_of(action@) {
            Some(vdesk_id) => command matches Some(text) && text@ == "dispatch vdesk "@ + decimal(
                vdesk_id as nat,
            ),
            None => command.is_none(),
        },
{
    match parse_u32(&chars_of(action)) {
        Some(vdesk_id) => Some(switch_command(vdesk_id)),
        None => None,
    }
}

/// Whether an event line tells of a change of the virtual desktops.
pub open spec fn is_desktop_event(line: Seq<char>) -> bool {
    has_prefix(line, "vdesk>>"@)
}

/// Tests whether an event line tells of a change of the virtual desktops.
pub fn is_vdesk_event(line: &str) -> (relevant: bool)
    ensures
        relevant == is_desktop_event(line@),
{
    let chars = chars_of(line);
    starts_with(&chars, "vdesk>>")
}

} // verus!
