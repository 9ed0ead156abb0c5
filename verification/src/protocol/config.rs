//! Where the dispatcher listens and how a device reaches it.
//!
//! The values come from the environment, which the program reads once at
//! startup and hands over as found.

use vstd::prelude::*;
use vstd::utf8::encode_utf8;

verus! {

/// Credentials of a wireless network.
#[derive(Debug, PartialEq, Eq)]
pub struct Wifi {
    pub ssid: String,
    pub password: String,
}

/// The settings of a dispatcher or a worker.
#[derive(Debug, PartialEq, Eq)]
pub struct Config {
    pub host: String,
    pub dispatcher_port: u16,
    pub inspector_port: u16,
    pub wifi: Option<Wifi>,
}

/// The variables of the environment that matter, each as found.
#[derive(Debug, PartialEq, Eq, Default)]
pub struct Environment {
    /// `HOST`
    pub host: Option<String>,
    /// `PORT`
    pub port: Option<String>,
    /// `WEB_PORT`
    pub web_port: Option<String>,
    /// `INSPECTOR_PORT`
    pub inspector_port: Option<String>,
    /// `WIFI_SSID`
    pub wifi_ssid: Option<String>,
    /// `WIFI_PASSWORD`
    pub wifi_password: Option<String>,
}

/// The dispatcher's port where the environment names none.
pub const DEFAULT_DISPATCHER_PORT: u16 = 3000;

/// The inspector's port where the environment names none.
pub const DEFAULT_INSPECTOR_PORT: u16 = 3030;

/// Whether every byte is an ASCII digit.
pub open spec fn all_digits(bytes: Seq<u8>) -> bool {
    forall|i: int| 0 <= i < bytes.len() ==> 0x30 <= #[trigger] bytes[i] <= 0x39
}

/// The number that decimal digits stand for.
pub open spec fn digits_value(bytes: Seq<u8>) -> nat
    decreases bytes.len(),
{
    if bytes.len() == 0 {
        0
    } else {
        digits_value(bytes.drop_last()) * 10 + (bytes.last() - 0x30) as nat
    }
}

/// The port that a text stands for: decimal digits, after an optional `+`,
/// with a value that fits 16 bits.
pub open spec fn port_of(bytes: Seq<u8>) -> Option<u16> {
    let digits = if bytes.len() > 0 && bytes[0] == 0x2b {
        bytes.skip(1)
    } else {
        bytes
    };
    if digits.len() == 0 || !all_digits(digits) || digits_value(digits) > u16::MAX {
        None
    } else {
        Some(digits_value(digits) as u16)
    }
}

/// The port that an optional text stands for.
pub open spec fn port_in(text: Option<String>) -> Option<u16> {
    match text {
        Some(text) => port_of(encode_utf8(text@)),
        None => None,
    }
}

/// The settings that an environment asks for. The host is `HOST` or
/// `localhost`. The dispatcher's port is `PORT` or 3000. The inspector's port
/// is `WEB_PORT`, else `INSPECTOR_PORT`, else 3030. A port that does not read
/// as one counts as not given. The network is there where both its name and
/// its password are.
pub open spec fn configured(env: Environment, config: Config) -> bool {
    &&& config.host@ == match env.host {
        Some(host) => host@,
        None => "localhost"@,
    }
    &&& config.dispatcher_port == match port_in(env.port) {
        Some(port) => port,
        None => DEFAULT_DISPATCHER_PORT,
    }
    &&& config.inspector_port == match port_in(env.web_port) {
        Some(port) => port,
        None => match port_in(env.inspector_port) {
            Some(port) => port,
            None => DEFAULT_INSPECTOR_PORT,
        },
    }
    &&& match (env.wifi_ssid, env.wifi_password) {
        (Some(ssid), Some(password)) => config.wifi is Some && config.wifi->0.ssid@ == ssid@
            && config.wifi->0.password@ == password@,
        _ => config.wifi is None,
    }
}

/// The value of the first digits of a number is not above the number's.
pub proof fn lemma_digits_prefix(bytes: Seq<u8>, k: int)
    requires
        all_digits(bytes),
        0 <= k <= bytes.len(),
    ensures
        digits_value(bytes.take(k)) <= digits_value(bytes),
    decreases bytes.len(),
{
    if k < bytes.len() {
        let front = bytes.drop_last();
        assert forall|i: int| 0 <= i < front.len() implies 0x30 <= #[trigger] front[i] <= 0x39 by {
            assert(front[i] == bytes[i]);
        }
        lemma_digits_prefix(front, k);
        assert(front.take(k) =~= bytes.take(k));
        assert(0x30 <= bytes[bytes.len() - 1]);
    } else {
        assert(bytes.take(k) =~= bytes);
    }
}

/// Reads a port as `u16::from_str` does.
pub fn parse_port(text: &str) -> (port: Option<u16>)
    ensures
        port == port_of(encode_utf8(text@)),
{
    let bytes = text.as_bytes();
    let len = bytes.len();
    let start: usize = if len > 0 && bytes[0] == 0x2b {
        1
    } else {
        0
    };
    let ghost digits = if bytes@.len() > 0 && bytes@[0] == 0x2b {
        bytes@.skip(1)
    } else {
        bytes@
    };
    assert(bytes@.skip(0) =~= bytes@);
    if start == len {
        return None;
    }
    let mut value: u32 = 0;
    let mut i: usize = start;
    assert(digits.take(0) =~= Seq::<u8>::empty());
    while i < len
        invariant
            start <= i <= len,
            len == bytes@.len(),
            bytes@ == encode_utf8(text@),
            digits == bytes@.skip(start as int),
            digits == if bytes@.len() > 0 && bytes@[0] == 0x2b {
                bytes@.skip(1)
            } else {
                bytes@
            },
            all_digits(digits.take(i - start)),
            value == digits_value(digits.take(i - start)),
            value <= u16::MAX,
        decreases len - i,
    {
        let b = bytes[i];
        if b < 0x30 || b > 0x39 {
            assert(digits[i - start] == b);
            return None;
        }
        proof {
            assert(digits.take(i + 1 - start).drop_last() =~= digits.take(i - start));
            assert(digits.take(i + 1 - start).last() == b);
            assert forall|k: int| 0 <= k < i + 1 - start implies 0x30 <= #[trigger] digits.take(
                i + 1 - start,
            )[k] <= 0x39 by {
                if k < i - start {
                    assert(digits.take(i - start)[k] == digits.take(i + 1 - start)[k]);
                }
            }
        }
        value = value * 10 + (b - 0x30) as u32;
        if value > u16::MAX as u32 {
            proof {
                if all_digits(digits) {
                    lemma_digits_prefix(digits, i + 1 - start);
                }
            }
            return None;
        }
        i += 1;
    }
    assert(digits.take(len - start) =~= digits);
    Some(value as u16)
}

/// Reads an optional port.
fn port_from(text: &Option<String>) -> (port: Option<u16>)
    ensures
        port == port_in(*text),
{
    match text {
        Some(text) => parse_port(text.as_str()),
        None => None,
    }
}

impl Config {
    /// The settings that the environment asks for.
    pub fn new(env: &Environment) -> (config: Self)
        ensures
            configured(*env, config),
    {
        let host = match &env.host {
            Some(host) => host.clone(),
            None => "localhost".to_owned(),
        };
        let dispatcher_port = match port_from(&env.port) {
            Some(port) => port,
            None => DEFAULT_DISPATCHER_PORT,
        };
        let inspector_port = match port_from(&env.web_port) {
            Some(port) => port,
            None => match port_from(&env.inspector_port) {
                Some(port) => port,
                None => DEFAULT_INSPECTOR_PORT,
            },
        };
        let wifi = match &env.wifi_ssid {
            Some(ssid) => match &env.wifi_password {
                Some(password) => Some(Wifi { ssid: ssid.clone(), password: password.clone() }),
                None => None,
            },
            None => None,
        };
        Config { host, dispatcher_port, inspector_port, wifi }
    }
}

impl Default for Config {
    /// The settings of an empty environment.
    fn default() -> (config: Self)
        ensures
            config.host@ == "localhost"@,
            config.dispatcher_port == DEFAULT_DISPATCHER_PORT,
            config.inspector_port == DEFAULT_INSPECTOR_PORT,
            config.wifi is None,
    {
        Config {
            host: "localhost".to_owned(),
            dispatcher_port: DEFAULT_DISPATCHER_PORT,
            inspector_port: DEFAULT_INSPECTOR_PORT,
            wifi: None,
        }
    }
}

} // verus!
