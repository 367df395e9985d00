//! What is fixed before the first line is read: the service name, the host
//! name, and the limits.

use crate::ascii::SLASH;
use vstd::prelude::*;
use vstd::string::StringExecFns;
use vstd::utf8::{
    decode_utf8, decode_utf8_split, encode_scalar, encode_utf8, encode_utf8_decode_utf8,
    encode_utf8_valid_utf8, is_char_boundary, is_char_boundary_iff_not_is_continuation_byte,
    valid_utf8, valid_utf8_split,
};

verus! {

/// A plugin name or a type name has fewer bytes than this.
pub const DATA_MAX_LEN: usize = 64;

/// A host name given by the user has fewer bytes than this.
pub const HOSTNAME_MAX_LEN: usize = 16;

/// The largest number of content bytes in one message, unless set otherwise.
pub const DEFAULT_MAX_EVENT_LENGTH: usize = 245;

/// The largest correlation ID, unless set otherwise.
pub const DEFAULT_MAX_EVENT_ID: u64 = 99;

/// Why a service name is refused.
#[derive(Clone, Copy, Debug, PartialEq, Eq)]
pub enum ServiceError {
    /// The name holds no `/`.
    MissingSeparator,
    /// The plugin or the type has `DATA_MAX_LEN` bytes or more.
    TooLong,
    /// The plugin or the type is empty.
    Empty,
}

/// Why no host name could be settled on.
#[derive(Clone, Copy, Debug, PartialEq, Eq)]
pub enum HostnameError {
    /// The name given has `HOSTNAME_MAX_LEN` bytes or more.
    TooLong,
    /// No name was given, and the system's own name is not valid Unicode.
    NotUnicode,
}

/// The settings of one run. They do not change while lines are processed.
#[derive(Debug, PartialEq, Eq)]
pub struct Config {
    /// The plugin that messages are reported under.
    pub plugin: String,
    /// The type that messages are reported under.
    pub ctype: String,
    /// The host that messages are reported for.
    pub hostname: String,
    /// The largest number of content bytes in one message.
    pub max_event_length: usize,
    /// The largest correlation ID; the ID after it is 1 again. It is used
    /// only once a line is cut into several fragments, and must not be 0
    /// then.
    pub max_event_id: u64,
    /// The number of fragments accepted in one window; 0 for no limit.
    pub limit: usize,
    /// The length of a window, in seconds.
    pub window: u64,
    /// Whether a discarded line is reported.
    pub verbose: bool,
}

/// A service name `<plugin>/<type>` taken apart at its first `/`, or the
/// reason why it is refused: it holds no `/`, or one of the two parts is too
/// long, or one of them is empty.
pub open spec fn service_parts(name: Seq<u8>) -> Result<(Seq<u8>, Seq<u8>), ServiceError> {
    match name.index_of_first(SLASH) {
        None => Err(ServiceError::MissingSeparator),
        Some(at) => {
            let plugin = name.take(at);
            let ctype = name.skip(at + 1);
            if plugin.len() >= DATA_MAX_LEN || ctype.len() >= DATA_MAX_LEN {
                Err(ServiceError::TooLong)
            } else if plugin.len() == 0 || ctype.len() == 0 {
                Err(ServiceError::Empty)
            } else {
                Ok((plugin, ctype))
            }
        },
    }
}

/// What is reported when the service name `name` is refused for `error`.
pub open spec fn service_error_text(error: ServiceError, name: Seq<char>) -> Seq<char> {
    match error {
        ServiceError::MissingSeparator => "invalid plugin/type: no `/` found in `"@ + name + "`"@,
        ServiceError::TooLong => "invalid service: "@ + name,
        ServiceError::Empty => "invalid service: "@ + name,
    }
}

/// What is reported when the configured host name `name` is too long.
pub open spec fn hostname_error_text(name: Seq<char>) -> Seq<char> {
    "invalid hostname: "@ + name
}

/// The host name to report for, given the name that the user configured
/// (empty for none) and the system's own name, where that could be had.
pub open spec fn chosen_hostname(configured: String, system: Option<String>) -> Result<
    String,
    HostnameError,
> {
    if encode_utf8(configured@).len() >= HOSTNAME_MAX_LEN {
        Err(HostnameError::TooLong)
    } else if configured@.len() > 0 {
        Ok(configured)
    } else {
        match system {
            Some(name) => Ok(name),
            None => Err(HostnameError::NotUnicode),
        }
    }
}

impl Config {
    /// Whether lines can be processed under these settings: a message holds
    /// at least one content byte. The largest correlation ID matters only
    /// when an ID moves on: see `Relay::advance`.
    pub open spec fn wf(&self) -> bool {
        self.max_event_length > 0
    }

    /// Settings with the default sizes, no rate limit and no reports.
    pub fn with_defaults(plugin: String, ctype: String, hostname: String) -> (config: Config)
        ensures
            config.wf(),
            config == (Config {
                plugin,
                ctype,
                hostname,
                max_event_length: DEFAULT_MAX_EVENT_LENGTH,
                max_event_id: DEFAULT_MAX_EVENT_ID,
                limit: 0,
                window: 1,
                verbose: false,
            }),
    {
        Config {
            plugin,
            ctype,
            hostname,
            max_event_length: DEFAULT_MAX_EVENT_LENGTH,
            max_event_id: DEFAULT_MAX_EVENT_ID,
            limit: 0,
            window: 1,
            verbose: false,
        }
    }

    /// Tests whether lines can be processed under these settings.
    pub fn is_well_formed(&self) -> (ok: bool)
        ensures
            ok == self.wf(),
    {
        self.max_event_length > 0
    }
}

/// Takes a service name `<plugin>/<type>` apart at its first `/`. Plugin and
/// type must each have at least one byte and fewer than `DATA_MAX_LEN`.
pub fn parse_service(s: &str) -> (parts: Result<(String, String), ServiceError>)
    ensures
        match parts {
            Ok((plugin, ctype)) => {
                &&& service_parts(encode_utf8(s@)) == Ok::<(Seq<u8>, Seq<u8>), ServiceError>(
                    (encode_utf8(plugin@), encode_utf8(ctype@)),
                )
                &&& s@ == plugin@ + seq!['/'] + ctype@
                &&& !plugin@.contains('/')
                &&& plugin@.len() > 0
                &&& ctype@.len() > 0
            },
            Err(e) => service_parts(encode_utf8(s@)) == Err::<(Seq<u8>, Seq<u8>), ServiceError>(e),
        },
{
    let bytes = s.as_bytes();
    let mut at: usize = 0;
    while at < bytes.len() && bytes[at] != SLASH
        invariant
            at <= bytes.len(),
            forall|j: int| 0 <= j < at ==> bytes@[j] != SLASH,
        decreases bytes.len() - at,
    {
        at += 1;
    }
    proof {
        bytes@.index_of_first_ensures(SLASH);
    }
    if at == bytes.len() {
        return Err(ServiceError::MissingSeparator);
    }
    let rest_len = bytes.len() - at - 1;
    if at >= DATA_MAX_LEN || rest_len >= DATA_MAX_LEN {
        return Err(ServiceError::TooLong);
    }
    if at == 0 || rest_len == 0 {
        return Err(ServiceError::Empty);
    }
    proof {
        encode_utf8_valid_utf8(s@);
        is_char_boundary_iff_not_is_continuation_byte(bytes@, at as int);
    }
    let (plugin, rest) = s.split_at(at);
    proof {
        encode_utf8_valid_utf8(rest@);
        lemma_boundary_after_ascii(encode_utf8(rest@));
    }
    let (_, ctype) = rest.split_at(1);
    proof {
        assert(encode_utf8(plugin@) =~= bytes@.take(at as int));
        assert(encode_utf8(ctype@) =~= bytes@.skip(at + 1));
        lemma_chars_around_slash(bytes@, at as int);
        encode_utf8_decode_utf8(s@);
        encode_utf8_decode_utf8(plugin@);
        encode_utf8_decode_utf8(ctype@);
        lemma_slash_shows_in_bytes(plugin@);
    }
    Ok((plugin.to_owned(), ctype.to_owned()))
}

/// Puts together what is reported when the service name `name` is refused
/// for `error`.
pub fn service_error_message(error: ServiceError, name: &str) -> (text: String)
    ensures
        text@ == service_error_text(error, name@),
{
    match error {
        ServiceError::MissingSeparator => {
            let mut text = String::from_str("invalid plugin/type: no `/` found in `");
            text.append(name);
            text.append("`");
            text
        },
        ServiceError::TooLong => String::from_str("invalid service: ").concat(name),
        ServiceError::Empty => String::from_str("invalid service: ").concat(name),
    }
}

/// Puts together what is reported when the configured host name `name` is
/// too long.
pub fn hostname_error_message(name: &str) -> (text: String)
    ensures
        text@ == hostname_error_text(name@),
{
    String::from_str("invalid hostname: ").concat(name)
}

/// What `parse_service` accepts: a plugin and a type of 1 to 63 bytes each,
/// the plugin without a `/`, that give the name back when a `/` is put
/// between them. A name is refused for one reason only, and a name without
/// `/` for that reason.
pub proof fn lemma_service_parts(name: Seq<u8>)
    ensures
        match service_parts(name) {
            Ok((plugin, ctype)) => {
                &&& 0 < plugin.len() < DATA_MAX_LEN
                &&& 0 < ctype.len() < DATA_MAX_LEN
                &&& !plugin.contains(SLASH)
                &&& name == plugin + seq![SLASH] + ctype
            },
            Err(ServiceError::MissingSeparator) => !name.contains(SLASH),
            Err(ServiceError::TooLong) => name.contains(SLASH),
            Err(ServiceError::Empty) => name.contains(SLASH),
        },
{
    name.index_of_first_ensures(SLASH);
    match name.index_of_first(SLASH) {
        Some(at) => {
            let plugin = name.take(at);
            let ctype = name.skip(at + 1);
            assert(name =~= plugin + seq![SLASH] + ctype);
            if plugin.contains(SLASH) {
                let j = choose|j: int| 0 <= j < plugin.len() && plugin[j] == SLASH;
                assert(name[j] == SLASH);
            }
        },
        None => {},
    }
}

/// Asks the operating system for the name of this host by a call of
/// `gethostname::gethostname`, and hands the name on where it is valid
/// Unicode. Nothing is claimed of the name: it is whatever the system answers
/// at the time of the call. On Unix the call reads the node name that `uname`
/// gives and cannot fail. On Windows the outside function panics where the
/// system refuses the name or changes its length between the two calls that
/// it makes; nothing that a caller passes can rule that out.
#[verifier::external_body]
fn system_hostname() -> (name: Option<String>) {
    gethostname::gethostname().into_string().ok()
}

/// Settles on the host name to report for, given the name that the user
/// configured (empty for none) and the system's own name, where that could
/// be had. A configured name of `HOSTNAME_MAX_LEN` bytes or more is refused;
/// any other configured name is taken; without one, the system's name is
/// taken as it is.
pub fn choose_hostname(configured: String, system: Option<String>) -> (name: Result<
    String,
    HostnameError,
>)
    ensures
        name == chosen_hostname(configured, system),
{
    if configured.as_str().as_bytes().len() >= HOSTNAME_MAX_LEN {
        Err(HostnameError::TooLong)
    } else if !configured.as_str().is_empty() {
        Ok(configured)
    } else {
        match system {
            Some(name) => Ok(name),
            None => Err(HostnameError::NotUnicode),
        }
    }
}

/// Settles on the host name to report for, asking the system for its own
/// name where the user configured none. A configured name decides the
/// result alone; without one the result is what `choose_hostname` makes of
/// the system's answer.
pub fn resolve_hostname(configured: String) -> (name: Result<String, HostnameError>)
    ensures
        configured@.len() > 0 ==> name == chosen_hostname(configured, None),
        configured@.len() == 0 ==> name is Ok || name == Err::<String, HostnameError>(
            HostnameError::NotUnicode,
        ),
{
    let system = if configured.as_str().is_empty() {
        system_hostname()
    } else {
        None
    };
    choose_hostname(configured, system)
}

/// The characters of valid UTF-8 with a `/` at byte `at` are the characters
/// before that byte, a `/`, and the characters after it.
proof fn lemma_chars_around_slash(bytes: Seq<u8>, at: int)
    requires
        valid_utf8(bytes),
        0 <= at < bytes.len(),
        bytes[at] == SLASH,
    ensures
        decode_utf8(bytes) == decode_utf8(bytes.take(at)) + seq!['/'] + decode_utf8(
            bytes.skip(at + 1),
        ),
{
    is_char_boundary_iff_not_is_continuation_byte(bytes, at);
    decode_utf8_split(bytes, at);
    valid_utf8_split(bytes, at);
    let rest = bytes.skip(at);
    assert(rest =~= bytes.subrange(at, bytes.len() as int));
    assert(bytes.take(at) =~= bytes.subrange(0, at));
    lemma_boundary_after_ascii(rest);
    decode_utf8_split(rest, 1);
    valid_utf8_split(rest, 1);
    let slash = rest.subrange(0, 1);
    assert(rest.subrange(1, rest.len() as int) =~= bytes.skip(at + 1));
    let first: u8 = slash[0];
    assert(first & 0x7f == 0x2f) by (bit_vector)
        requires
            first == 0x2f,
    ;
    assert(vstd::utf8::pop_first_scalar(slash) =~= Seq::<u8>::empty());
    assert(decode_utf8(slash) =~= seq!['/']) by {
        reveal_with_fuel(decode_utf8, 2);
        reveal_with_fuel(valid_utf8, 2);
    }
}

/// Where characters hold a `/`, so do the bytes that encode them.
proof fn lemma_slash_shows_in_bytes(chars: Seq<char>)
    ensures
        chars.contains('/') ==> encode_utf8(chars).contains(SLASH),
    decreases chars.len(),
{
    if chars.contains('/') {
        let first = encode_scalar(chars[0] as u32);
        let rest = chars.drop_first();
        let bytes = encode_utf8(chars);
        if chars[0] == '/' {
            let c: u32 = chars[0] as u32;
            assert((c & 0x7f) as u8 == 0x2f) by (bit_vector)
                requires
                    c == 0x2f,
            ;
            assert(bytes[0] == SLASH);
        } else {
            let i = choose|i: int| 0 <= i < chars.len() && chars[i] == '/';
            assert(rest[i - 1] == '/');
            lemma_slash_shows_in_bytes(rest);
            let j = choose|j: int| 0 <= j < encode_utf8(rest).len() && encode_utf8(rest)[j] == SLASH;
            assert(bytes[first.len() + j] == SLASH);
        }
    }
}

/// In valid UTF-8 that starts with an ASCII byte, a character ends after
/// that byte.
proof fn lemma_boundary_after_ascii(bytes: Seq<u8>)
    requires
        valid_utf8(bytes),
        bytes.len() > 0,
        bytes[0] < 0x80,
    ensures
        is_char_boundary(bytes, 1),
{
    reveal_with_fuel(is_char_boundary, 2);
    reveal_with_fuel(valid_utf8, 2);
}

} // verus!
