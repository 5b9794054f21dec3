//! The daemon's options and the decisions of its listeners.
use vstd::prelude::*;
use crate::registry::opt_view;
use crate::text::{
    chars_of, contains_char, dec_text, parse_unsigned, parse_unsigned_in, push_decimal, push_str,
    str_eq, string_of,
};

verus! {

/// The daemon's options.
#[derive(Debug, Clone)]
pub struct Options {
    /// Address to bind; empty for the loopback address.
    pub address: String,
    /// TCP port of the WHOIS listener.
    pub port: u16,
    /// Root of the registry checkout.
    pub registry: std::path::PathBuf,
    /// How long a socket-activated instance stays idle before exiting.
    pub timeout: std::time::Duration,
    /// RDAP HTTP bind address; empty for the loopback address.
    pub rdap_address: String,
    /// RDAP HTTP port; `0` disables the RDAP listener.
    pub rdap_port: u16,
    /// Base URL for RDAP self links; empty for none.
    pub rdap_base_url: String,
    /// URL path prefix of the RDAP service.
    pub rdap_path: String,
}

/// The span of `secs` whole seconds, as `Duration::from_secs` gives it.
pub uninterp spec fn duration_from_secs(secs: u64) -> std::time::Duration;

/// `Duration::from_secs`: its result is named `duration_from_secs(secs)`;
/// nothing more of it is claimed.
#[verifier::external_body]
fn seconds(secs: u64) -> (d: std::time::Duration)
    ensures
        d == duration_from_secs(secs),
{
    std::time::Duration::from_secs(secs)
}

/// `Clone` for `Duration`, a `Copy` type: the same span. The derived `Clone`
/// of the options calls it.
pub assume_specification[ <std::time::Duration as Clone>::clone ](d: &std::time::Duration) -> (r:
    std::time::Duration)
    ensures
        r == *d,
;

/// `PathBuf::from` on a text. What path it gives is not claimed.
#[verifier::external_body]
fn path_from(s: &str) -> std::path::PathBuf {
    std::path::PathBuf::from(s)
}

impl Default for Options {
    /// The options when none are given: loopback, port 43, the registry in
    /// the working directory, 10 s of idle time, and no RDAP listener.
    fn default() -> (r: Self)
        ensures
            r.address@ == Seq::<char>::empty(),
            r.port == 43,
            r.timeout == duration_from_secs(10),
            r.rdap_address@ == Seq::<char>::empty(),
            r.rdap_port == 0,
            r.rdap_base_url@ == Seq::<char>::empty(),
            r.rdap_path@ == "/rdap"@,
    {
        Options {
            address: String::new(),
            port: 43,
            registry: path_from("."),
            timeout: seconds(10),
            rdap_address: String::new(),
            rdap_port: 0,
            rdap_base_url: String::new(),
            rdap_path: String::from_str("/rdap"),
        }
    }
}

/// The socket address `host:port` to bind for `address` (the loopback
/// address when empty) and `port`, with an IPv6 address in brackets.
pub open spec fn bind_addr(address: Seq<char>, port: u16) -> Seq<char> {
    let host = if address.len() == 0 {
        "127.0.0.1"@
    } else {
        address
    };
    if host.contains(':') {
        seq!['['] + host + seq![']', ':'] + dec_text(port as nat)
    } else {
        host + seq![':'] + dec_text(port as nat)
    }
}

/// The socket address for `address` and `port`.
pub fn socket_addr(address: &str, port: u16) -> (r: String)
    ensures
        r@ == bind_addr(address@, port),
{
    let given = chars_of(address);
    let host = if given.len() == 0 {
        chars_of("127.0.0.1")
    } else {
        given
    };
    let mut out: Vec<char> = Vec::new();
    let bracket = contains_char(&host, ':');
    if bracket {
        out.push('[');
    }
    crate::text::push_chars(&mut out, &host);
    if bracket {
        out.push(']');
    }
    out.push(':');
    push_decimal(&mut out, port as u64);
    string_of(&out)
}

impl Options {
    /// The address of the WHOIS listener.
    pub fn listen_addr(&self) -> (r: String)
        ensures
            r@ == bind_addr(self.address@, self.port),
    {
        socket_addr(self.address.as_str(), self.port)
    }

    /// The address of the RDAP listener.
    pub fn rdap_listen_addr(&self) -> (r: String)
        ensures
            r@ == bind_addr(self.rdap_address@, self.rdap_port),
    {
        socket_addr(self.rdap_address.as_str(), self.rdap_port)
    }

    /// Whether the RDAP listener is on: a port other than `0`.
    pub fn rdap_enabled(&self) -> (r: bool)
        ensures
            r == (self.rdap_port != 0),
    {
        self.rdap_port != 0
    }
}

/// Reads the `--address` and `--rdap-address` options: any text but `*`.
pub fn parse_address(value: &str) -> (r: Result<String, String>)
    ensures
        match r {
            Ok(a) => value@ != "*"@ && a@ == value@,
            Err(m) => value@ == "*"@ && m@
                == "'*' is not supported; use 0.0.0.0 or :: to bind all interfaces"@,
        },
{
    if str_eq(value, "*") {
        return Err(String::from_str("'*' is not supported; use 0.0.0.0 or :: to bind all interfaces"));
    }
    Ok(String::from_str(value))
}

/// Reads the `--timeout` option: a number of seconds, as `u64::from_str`
/// reads it, as a `Duration`.
pub fn parse_timeout(value: &str) -> (r: Result<std::time::Duration, String>)
    ensures
        match parse_unsigned(value@, u64::MAX as nat) {
            Some(n) => r == Ok::<std::time::Duration, String>(duration_from_secs(n as u64)),
            None => r matches Err(m) && m@ == "invalid timeout"@,
        },
{
    let v = chars_of(value);
    proof {
        assert(v@.subrange(0, v@.len() as int) =~= value@);
    }
    match parse_unsigned_in(&v, 0, v.len(), u64::MAX) {
        Some(s) => Ok(seconds(s)),
        None => Err(String::from_str("invalid timeout")),
    }
}

/// Reads the `--rdap-path` option: a path that starts with `/`.
pub fn parse_rdap_path(value: &str) -> (r: Result<String, String>)
    ensures
        match r {
            Ok(p) => value@.len() > 0 && value@[0] == '/' && p@ == value@,
            Err(m) => !(value@.len() > 0 && value@[0] == '/') && m@ == "path must start with '/'"@,
        },
{
    let v = chars_of(value);
    if v.len() > 0 && v[0] == '/' {
        Ok(String::from_str(value))
    } else {
        Err(String::from_str("path must start with '/'"))
    }
}

/// Whether a listener that has waited `elapsed` (in nanoseconds) since its
/// last connection has been idle for long enough to exit: an idle timeout
/// of zero never expires.
pub fn idle_expired(idle_timeout: u128, elapsed: u128) -> (r: bool)
    ensures
        r == (idle_timeout != 0 && elapsed >= idle_timeout),
{
    idle_timeout != 0 && elapsed >= idle_timeout
}

/// Which listeners the daemon runs.
pub struct ListenerPlan {
    /// The address to bind for WHOIS, when no WHOIS socket was handed over.
    pub bind_whois: Option<String>,
    /// The address to bind for RDAP, when the RDAP listener is on and no RDAP
    /// socket was handed over.
    pub bind_rdap: Option<String>,
    /// How long the WHOIS listeners may stay idle before they exit; none
    /// when they run until shutdown.
    pub idle_timeout: Option<std::time::Duration>,
    /// The base URL of RDAP self links; none for an empty option.
    pub rdap_base_url: Option<String>,
}

/// The listeners to run, given how many WHOIS and RDAP sockets a supervisor
/// handed over: without handed-over WHOIS sockets the daemon binds its own
/// and never exits for idleness; with them it exits after the idle timeout.
pub fn listener_plan(options: &Options, activated_whois: usize, activated_rdap: usize) -> (r: ListenerPlan)
    ensures
        opt_view(r.bind_whois) == (if activated_whois == 0 {
            Some(bind_addr(options.address@, options.port))
        } else {
            None::<Seq<char>>
        }),
        opt_view(r.bind_rdap) == (if activated_rdap == 0 && options.rdap_port != 0 {
            Some(bind_addr(options.rdap_address@, options.rdap_port))
        } else {
            None::<Seq<char>>
        }),
        r.idle_timeout == (if activated_whois > 0 {
            Some(options.timeout)
        } else {
            None::<std::time::Duration>
        }),
        opt_view(r.rdap_base_url) == (if options.rdap_base_url@.len() == 0 {
            None::<Seq<char>>
        } else {
            Some(options.rdap_base_url@)
        }),
{
    let bind_whois = if activated_whois == 0 {
        Some(options.listen_addr())
    } else {
        None
    };
    let bind_rdap = if activated_rdap == 0 && options.rdap_enabled() {
        Some(options.rdap_listen_addr())
    } else {
        None
    };
    let idle_timeout = if activated_whois > 0 {
        Some(options.timeout)
    } else {
        None
    };
    let base = chars_of(options.rdap_base_url.as_str());
    let rdap_base_url = if base.len() == 0 {
        None
    } else {
        Some(string_of(&base))
    };
    ListenerPlan { bind_whois, bind_rdap, idle_timeout, rdap_base_url }
}

} // verus!
