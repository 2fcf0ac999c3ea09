//! How the application runs itself: what the frontend's log messages become
//! before they are written (their level, their target, a bound on their
//! length), and the port of a development instance.
use vstd::prelude::*;
use vstd::string::StringExecFns;
use vstd::utf8::{encode_scalar, encode_utf8};
use crate::text::{chars_of, parse_u64, starts_with, str_eq, str_starts_with};

verus! {

/// The most bytes of a frontend message that are written.
pub const MAX_FRONTEND_MESSAGE_BYTES: usize = 16384;

/// The length in bytes of the UTF-8 encoding of `s`.
pub open spec fn utf8_len(s: Seq<char>) -> nat {
    encode_utf8(s).len()
}

/// `k` characters of `s` are the longest start of `s` that fits in `max`
/// bytes.
pub open spec fn longest_fitting(s: Seq<char>, k: int, max: nat) -> bool {
    &&& 0 <= k <= s.len()
    &&& utf8_len(s.take(k)) <= max
    &&& (k == s.len() || utf8_len(s.take(k + 1)) > max)
}

/// Encoding one more character adds its own encoding at the end.
pub proof fn lemma_encode_push(s: Seq<char>, c: char)
    ensures
        encode_utf8(s.push(c)) == encode_utf8(s) + encode_scalar(c as u32),
    decreases s.len(),
{
    if s.len() == 0 {
        assert(s.push(c).drop_first() =~= Seq::<char>::empty());
        assert(encode_utf8(Seq::<char>::empty()) =~= Seq::<u8>::empty());
        assert(encode_utf8(s.push(c)) =~= encode_scalar(c as u32));
        assert(encode_utf8(s) =~= Seq::<u8>::empty());
        assert(encode_utf8(s) + encode_scalar(c as u32) =~= encode_scalar(c as u32));
    } else {
        lemma_encode_push(s.drop_first(), c);
        assert(s.push(c).drop_first() =~= s.drop_first().push(c));
        assert(s.push(c)[0] == s[0]);
        let head = encode_scalar(s[0] as u32);
        assert(encode_utf8(s.push(c)) == head + encode_utf8(s.drop_first().push(c)));
        assert(head + (encode_utf8(s.drop_first()) + encode_scalar(c as u32)) =~= (head + encode_utf8(
            s.drop_first(),
        )) + encode_scalar(c as u32));
    }
}

/// The number of bytes that encode `c`.
fn char_width(c: char) -> (r: usize)
    ensures
        r == encode_scalar(c as u32).len(),
        1 <= r <= 4,
{
    proof {
        vstd::utf8::char_is_scalar(c);
    }
    let v = c as u32;
    if v <= 0x7F {
        1
    } else if v <= 0x7FF {
        2
    } else if v <= 0xFFFF {
        3
    } else {
        4
    }
}

/// The message as it is written: kept whole when it fits in
/// `MAX_FRONTEND_MESSAGE_BYTES` bytes, else its longest start that fits,
/// cut between characters and marked ` [truncated]`.
pub fn bounded_log_message(message: &str) -> (r: String)
    ensures
        utf8_len(message@) <= MAX_FRONTEND_MESSAGE_BYTES ==> r@ == message@,
        utf8_len(message@) > MAX_FRONTEND_MESSAGE_BYTES ==> exists|k: int|
            longest_fitting(message@, k, MAX_FRONTEND_MESSAGE_BYTES as nat) && r@ == message@.take(k)
                + " [truncated]"@,
{
    if message.as_bytes().len() <= MAX_FRONTEND_MESSAGE_BYTES {
        return message.to_string();
    }
    let chars = chars_of(message);
    let n = chars.len();
    let mut k: usize = 0;
    let mut used: usize = 0;
    proof {
        assert(message@.take(0) =~= Seq::<char>::empty());
        assert(encode_utf8(Seq::<char>::empty()) =~= Seq::<u8>::empty());
    }
    loop
        invariant
            chars@ == message@,
            n == chars@.len(),
            k <= n,
            used == utf8_len(message@.take(k as int)),
            used <= MAX_FRONTEND_MESSAGE_BYTES,
        ensures
            k <= n,
            used == utf8_len(message@.take(k as int)),
            used <= MAX_FRONTEND_MESSAGE_BYTES,
            k == n || utf8_len(message@.take(k + 1)) > MAX_FRONTEND_MESSAGE_BYTES,
        decreases n - k,
    {
        if k == n {
            break;
        }
        let w = char_width(chars[k]);
        proof {
            assert(message@.take(k + 1) =~= message@.take(k as int).push(message@[k as int]));
            lemma_encode_push(message@.take(k as int), message@[k as int]);
        }
        if used + w > MAX_FRONTEND_MESSAGE_BYTES {
            break;
        }
        used = used + w;
        k = k + 1;
    }
    let kept = message.substring_char(0, k);
    let mut r = kept.to_string();
    r.append(" [truncated]");
    proof {
        if k == n {
            assert(message@.take(k as int) =~= message@);
        }
        assert(longest_fitting(message@, k as int, MAX_FRONTEND_MESSAGE_BYTES as nat));
        assert(kept@ =~= message@.take(k as int));
    }
    r
}

/// The target a frontend message is logged under: its own when it starts
/// with `frontend.`, else `frontend`.
pub fn frontend_log_target(target: String) -> (r: String)
    ensures
        starts_with(target@, "frontend."@) ==> r@ == target@,
        !starts_with(target@, "frontend."@) ==> r@ == "frontend"@,
{
    if str_starts_with(target.as_str(), "frontend.") {
        target
    } else {
        String::from_str("frontend")
    }
}

/// How serious a logged message is.
#[derive(Clone, Copy, Debug, PartialEq, Eq, Structural)]
pub enum LogLevel {
    Debug,
    Info,
    Warn,
    Error,
}

/// The level a frontend message names: `debug`, `info` or `warn`, and
/// anything else counts as an error.
pub fn log_level(name: &str) -> (r: LogLevel)
    ensures
        name@ == "debug"@ ==> r == LogLevel::Debug,
        name@ == "info"@ ==> r == LogLevel::Info,
        name@ == "warn"@ ==> r == LogLevel::Warn,
        name@ != "debug"@ && name@ != "info"@ && name@ != "warn"@ ==> r == LogLevel::Error,
{
    proof {
        reveal_strlit("debug");
        reveal_strlit("info");
        reveal_strlit("warn");
        assert("debug"@[0] == 'd' && "info"@[0] == 'i' && "warn"@[0] == 'w');
    }
    if str_eq(name, "debug") {
        LogLevel::Debug
    } else if str_eq(name, "info") {
        LogLevel::Info
    } else if str_eq(name, "warn") {
        LogLevel::Warn
    } else {
        LogLevel::Error
    }
}

/// The port of a development instance: 1420 when `CARDBE_DEV_PORT` is not
/// set, else the port it names, which must lie between 1 and 65535.
pub fn dev_port(value: Option<&str>) -> (r: Result<u16, String>)
    ensures
        value is None ==> r == Ok::<u16, String>(1420),
        value matches Some(s) ==> match parse_u64(s@) {
            Some(p) => if 1 <= p <= 65535 {
                r == Ok::<u16, String>(p as u16)
            } else {
                r matches Err(e) && e@ == "CARDBE_DEV_PORT must be a port between 1 and 65535"@
            },
            None => r matches Err(e) && e@ == "CARDBE_DEV_PORT must be a port between 1 and 65535"@,
        },
{
    match value {
        None => Ok(1420),
        Some(s) => {
            let v = chars_of(s);
            let parsed = crate::text::parse_u64_chars(v.as_slice(), 0, v.len());
            proof {
                assert(v@.subrange(0, v@.len() as int) =~= s@);
            }
            match parsed {
                Some(p) => if 1 <= p && p <= 65535 {
                    Ok(p as u16)
                } else {
                    Err(String::from_str("CARDBE_DEV_PORT must be a port between 1 and 65535"))
                },
                None => Err(String::from_str("CARDBE_DEV_PORT must be a port between 1 and 65535")),
            }
        },
    }
}

} // verus!
