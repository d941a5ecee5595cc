//! The settings of the service: where the broker and the database are.

use vstd::prelude::*;
use vstd::string::*;

verus! {

/// The client identifier of the main connection unless one is given.
pub open spec fn default_client_id() -> Seq<char> {
    "Elo Rank Server"@
}

/// The settings read from the configuration file.
pub struct ServerSetting {
    pub server_ip: Option<String>,
    pub port: Option<String>,
    pub sql_ip: Option<String>,
    pub mysql_account: Option<String>,
    pub mysql_password: Option<String>,
}

/// The configuration file.
pub struct Setting {
    pub server_setting: Option<ServerSetting>,
}

/// What the command line gives; each value given there overrides the file.
pub struct CommandLine {
    pub server: Option<String>,
    pub port: Option<String>,
    pub client_id: Option<String>,
    pub backup: Option<String>,
}

/// What the service starts with.
pub struct Startup {
    pub server: String,
    pub port: u16,
    pub client_id: String,
    pub backup: bool,
}

/// Why the service cannot start.
#[derive(Clone, Copy, Debug, PartialEq, Eq, Structural)]
pub enum ConfigError {
    /// Neither the command line nor the file names the broker.
    NoServer,
    /// Neither the command line nor the file gives the port.
    NoPort,
    /// The port is not a number from 0 to 65535.
    BadPort,
    /// The backup flag is neither `true` nor `false`.
    BadFlag,
}

impl Setting {
    /// Whether the file says where the database is and how to log in.
    pub open spec fn names_database(&self) -> bool {
        &&& self.server_setting is Some
        &&& self.server_setting->0.sql_ip is Some
        &&& self.server_setting->0.mysql_account is Some
        &&& self.server_setting->0.mysql_password is Some
    }

    #[verifier::when_used_as_spec(names_database)]
    pub fn has_database(&self) -> (b: bool)
        ensures
            b == self.names_database(),
    {
        match &self.server_setting {
            Some(s) => s.sql_ip.is_some() && s.mysql_account.is_some() && s.mysql_password.is_some(),
            None => false,
        }
    }
}

/// The address of the database for the given account.
pub open spec fn url_text(account: Seq<char>, password: Seq<char>, ip: Seq<char>) -> Seq<char> {
    "mysql://"@ + account + ":"@ + password + "@"@ + ip + ":3306/erps"@
}

/// The address of the database that the settings name.
pub fn get_url(setting: &Setting) -> (url: String)
    requires
        setting.names_database(),
    ensures
        url@ == url_text(
            setting.server_setting->0.mysql_account->0@,
            setting.server_setting->0.mysql_password->0@,
            setting.server_setting->0.sql_ip->0@,
        ),
{
    let s = setting.server_setting.as_ref().unwrap();
    let account = s.mysql_account.as_ref().unwrap();
    let password = s.mysql_password.as_ref().unwrap();
    let ip = s.sql_ip.as_ref().unwrap();
    String::from_str("mysql://").concat(account.as_str()).concat(":").concat(password.as_str()).concat(
        "@",
    ).concat(ip.as_str()).concat(":3306/erps")
}

/// The number that a run of decimal digits stands for.
pub open spec fn digits_value(s: Seq<char>) -> int
    decreases s.len(),
{
    if s.len() == 0 {
        0
    } else {
        digits_value(s.drop_last()) * 10 + (s.last() as int - '0' as int)
    }
}

/// Whether `s` is a non-empty run of decimal digits.
pub open spec fn is_digits(s: Seq<char>) -> bool {
    &&& s.len() > 0
    &&& forall|i: int| 0 <= i < s.len() ==> '0' <= #[trigger] s[i] <= '9'
}

/// A text without the plus sign that may stand in front of a number.
pub open spec fn unsigned(s: Seq<char>) -> Seq<char> {
    if s.len() > 0 && s[0] == '+' {
        s.subrange(1, s.len() as int)
    } else {
        s
    }
}

/// The port that a text stands for: a run of digits, with or without a plus
/// sign in front, whose value is at most 65535.
pub open spec fn port_of(s: Seq<char>) -> Option<u16> {
    if is_digits(unsigned(s)) && digits_value(unsigned(s)) <= 65535 {
        Some(digits_value(unsigned(s)) as u16)
    } else {
        None
    }
}

/// The value of a run of digits is at least the value of any of its prefixes.
pub proof fn lemma_digits_grow(s: Seq<char>, k: int)
    requires
        is_digits(s),
        0 < k <= s.len(),
    ensures
        0 <= digits_value(s.take(k)) <= digits_value(s),
    decreases s.len() - k,
{
    if k < s.len() {
        lemma_digits_grow(s, k + 1);
        let longer = s.take(k + 1);
        assert(longer.drop_last() =~= s.take(k));
        assert(longer.last() == s[k]);
        lemma_digits_nonneg(s.take(k));
    } else {
        assert(s.take(k) =~= s);
        lemma_digits_nonneg(s);
    }
}

/// The value of a run of digits is not negative.
pub proof fn lemma_digits_nonneg(s: Seq<char>)
    requires
        forall|i: int| 0 <= i < s.len() ==> '0' <= #[trigger] s[i] <= '9',
    ensures
        0 <= digits_value(s),
    decreases s.len(),
{
    if s.len() > 0 {
        lemma_digits_nonneg(s.drop_last());
    }
}

/// Reads a port number.
pub fn parse_port(text: &str) -> (r: Option<u16>)
    ensures
        r == port_of(text@),
{
    if !text.is_ascii() {
        proof {
            let d = unsigned(text@);
            if is_digits(d) {
                assert forall|i: int| 0 <= i < text@.len() implies '\0' <= #[trigger] text@[i]
                    <= '\u{7f}' by {
                    if text@[0] == '+' && i > 0 {
                        assert(d[i - 1] == text@[i]);
                    }
                }
            }
        }
        return None;
    }
    let bytes = text.as_bytes();
    proof {
        vstd::utf8::is_ascii_chars_encode_utf8(text@);
    }
    let n = bytes.len();
    if n == 0 {
        return None;
    }
    assert(text@[0] as u8 == bytes@[0]);
    let start: usize = if bytes[0] == 43 {
        1
    } else {
        0
    };
    let ghost digits = unsigned(text@);
    assert(digits =~= text@.subrange(start as int, n as int));
    if start == n {
        return None;
    }
    let mut value: u32 = 0;
    let mut i: usize = start;
    assert(digits.take(0) =~= Seq::<char>::empty());
    while i < n
        invariant
            text.is_ascii(),
            n == text@.len(),
            bytes@ == text.spec_bytes(),
            bytes@.len() == n,
            forall|j: int| 0 <= j < n ==> bytes@[j] == text@[j] as u8,
            start <= i <= n,
            start < n,
            digits == text@.subrange(start as int, n as int),
            digits == unsigned(text@),
            forall|j: int| 0 <= j < i - start ==> '0' <= #[trigger] digits[j] <= '9',
            value == digits_value(digits.take(i - start)),
            value <= 65535,
        decreases n - i,
    {
        let b = bytes[i];
        let ghost c = text@[i as int];
        assert(digits[i - start] == c);
        assert('\0' <= c <= '\u{7f}');
        assert(c as u8 == b);
        if b < 48 || b > 57 {
            assert(!('0' <= c <= '9'));
            return None;
        }
        proof {
            let longer = digits.take(i - start + 1);
            assert(longer.drop_last() =~= digits.take(i - start));
            assert(longer.last() == c);
            assert(c as int - '0' as int == b - 48);
        }
        value = value * 10 + (b - 48) as u32;
        i = i + 1;
        if value > 65535 {
            proof {
                if is_digits(digits) {
                    lemma_digits_grow(digits, i - start);
                }
            }
            return None;
        }
    }
    proof {
        assert(digits.take(n - start) =~= digits);
    }
    Some(value as u16)
}

/// The flag that a text stands for: `true` or `false`.
pub open spec fn flag_of(s: Seq<char>) -> Option<bool> {
    if s == "true"@ {
        Some(true)
    } else if s == "false"@ {
        Some(false)
    } else {
        None
    }
}

/// Reads a flag.
pub fn parse_flag(text: &str) -> (r: Option<bool>)
    ensures
        r == flag_of(text@),
{
    let t = String::from_str(text);
    if t == String::from_str("true") {
        Some(true)
    } else if t == String::from_str("false") {
        Some(false)
    } else {
        None
    }
}

/// What is given on the command line if anything, else what the file says.
pub fn chosen<'a>(given: &'a Option<String>, file: Option<&'a String>) -> (r: Option<&'a String>)
    ensures
        r == (match given {
            Some(s) => Some(s),
            None => file,
        }),
{
    match given {
        Some(s) => Some(s),
        None => file,
    }
}

/// The broker address from the file, if the file gives one.
pub open spec fn file_server(setting: &Setting) -> Option<&String> {
    match setting.server_setting {
        Some(s) => match s.server_ip {
            Some(ip) => Some(&ip),
            None => None,
        },
        None => None,
    }
}

/// The port from the file, if the file gives one.
pub open spec fn file_port(setting: &Setting) -> Option<&String> {
    match setting.server_setting {
        Some(s) => match s.port {
            Some(p) => Some(&p),
            None => None,
        },
        None => None,
    }
}

/// What the command line and the file make the service start with, or why
/// they do not.
pub open spec fn startup_of(line: &CommandLine, setting: &Setting) -> Result<
    (Seq<char>, u16, Seq<char>, bool),
    ConfigError,
> {
    let server = match line.server {
        Some(s) => Some(&s),
        None => file_server(setting),
    };
    let port = match line.port {
        Some(p) => Some(&p),
        None => file_port(setting),
    };
    let backup = match line.backup {
        Some(b) => flag_of(b@),
        None => Some(false),
    };
    if server is None {
        Err(ConfigError::NoServer)
    } else if port is None {
        Err(ConfigError::NoPort)
    } else if port_of(port->0@) is None {
        Err(ConfigError::BadPort)
    } else if backup is None {
        Err(ConfigError::BadFlag)
    } else {
        Ok(
            (
                server->0@,
                port_of(port->0@)->0,
                match line.client_id {
                    Some(c) => c@,
                    None => default_client_id(),
                },
                backup->0,
            ),
        )
    }
}

/// Settles what the service starts with: the command line overrides the file.
pub fn resolve(line: &CommandLine, setting: &Setting) -> (r: Result<Startup, ConfigError>)
    ensures
        match startup_of(line, setting) {
            Err(e) => r == Err::<Startup, ConfigError>(e),
            Ok(s) => r is Ok && r->Ok_0.server@ == s.0 && r->Ok_0.port == s.1 && r->Ok_0.client_id@
                == s.2 && r->Ok_0.backup == s.3,
        },
{
    let from_file = match &setting.server_setting {
        Some(s) => (s.server_ip.as_ref(), s.port.as_ref()),
        None => (None, None),
    };
    let server = match chosen(&line.server, from_file.0) {
        Some(s) => s,
        None => {
            return Err(ConfigError::NoServer);
        },
    };
    let port_text = match chosen(&line.port, from_file.1) {
        Some(p) => p,
        None => {
            return Err(ConfigError::NoPort);
        },
    };
    let port = match parse_port(port_text.as_str()) {
        Some(p) => p,
        None => {
            return Err(ConfigError::BadPort);
        },
    };
    let backup = match &line.backup {
        Some(b) => match parse_flag(b.as_str()) {
            Some(f) => f,
            None => {
                return Err(ConfigError::BadFlag);
            },
        },
        None => false,
    };
    let client_id = match &line.client_id {
        Some(c) => c.clone(),
        None => String::from_str("Elo Rank Server"),
    };
    Ok(Startup { server: server.clone(), port, client_id, backup })
}

} // verus!
