//! Process configuration: the settings the site host needs, validated and
//! typed from a flat list of key/value pairs (however those were gathered —
//! a settings file, the environment).
//!
//! `get_config` succeeds exactly when every required key is present and
//! both port values are decimal numbers that fit a port.

use vstd::prelude::*;

verus! {

/// The settings of the site host: where to serve, where the site's
/// repository lives, which header carries the client address, and how to
/// reach the store.
#[derive(Clone)]
pub struct Config {
    pub domain: String,
    pub bind_address: String,
    pub port: u16,
    pub site_repo: String,
    pub branch: String,
    pub real_ip_header: String,
    pub pg_user: String,
    pub pg_password: String,
    pub pg_host: String,
    pub pg_port: u16,
    pub pg_dbname: String,
}

/// Why a configuration was rejected.
#[derive(Debug, PartialEq, Eq)]
pub enum ConfigError {
    /// A required key has no value.
    MissingSetting,
    /// A port value is not a decimal number between 0 and 65535.
    InvalidPort,
}

/// The first index whose key equals `key`, or the length when none does.
pub open spec fn find_key(s: Seq<(String, String)>, key: Seq<char>) -> int
    decreases s.len(),
{
    if s.len() == 0 {
        0
    } else if s[0].0@ == key {
        0
    } else {
        1 + find_key(s.drop_first(), key)
    }
}

/// Whether some pair carries this key.
pub open spec fn has_setting(s: Seq<(String, String)>, key: Seq<char>) -> bool {
    find_key(s, key) < s.len()
}

/// The value of the first pair carrying this key (meaningful only under
/// [`has_setting`]).
pub open spec fn setting(s: Seq<(String, String)>, key: Seq<char>) -> Seq<char> {
    s[find_key(s, key)].1@
}

/// Whether a character is a decimal digit.
pub open spec fn is_digit(c: char) -> bool {
    48 <= c as u32 <= 57
}

/// The number a sequence of decimal digits denotes.
pub open spec fn digits_val(s: Seq<char>) -> int
    decreases s.len(),
{
    if s.len() == 0 {
        0
    } else {
        digits_val(s.drop_last()) * 10 + (s.last() as u32 - 48)
    }
}

/// Whether a string is a valid port: nonempty, all decimal digits, and
/// denoting at most 65535.
pub open spec fn parses_u16(s: Seq<char>) -> bool {
    &&& s.len() > 0
    &&& forall|i: int| 0 <= i < s.len() ==> is_digit(#[trigger] s[i])
    &&& digits_val(s) <= 65535
}

/// Every key the configuration requires.
pub open spec fn keys_present(s: Seq<(String, String)>) -> bool {
    &&& has_setting(s, "domain"@)
    &&& has_setting(s, "bind_address"@)
    &&& has_setting(s, "port"@)
    &&& has_setting(s, "site_repo"@)
    &&& has_setting(s, "branch"@)
    &&& has_setting(s, "real_ip_header"@)
    &&& has_setting(s, "pg_user"@)
    &&& has_setting(s, "pg_password"@)
    &&& has_setting(s, "pg_host"@)
    &&& has_setting(s, "pg_port"@)
    &&& has_setting(s, "pg_dbname"@)
}

/// Both port values denote ports.
pub open spec fn ports_ok(s: Seq<(String, String)>) -> bool {
    parses_u16(setting(s, "port"@)) && parses_u16(setting(s, "pg_port"@))
}

/// The configuration the pairs describe (meaningful only when `get_config`
/// succeeds on them).
pub open spec fn config_of(s: Seq<(String, String)>, c: Config) -> bool {
    &&& c.domain@ == setting(s, "domain"@)
    &&& c.bind_address@ == setting(s, "bind_address"@)
    &&& c.port == digits_val(setting(s, "port"@))
    &&& c.site_repo@ == setting(s, "site_repo"@)
    &&& c.branch@ == setting(s, "branch"@)
    &&& c.real_ip_header@ == setting(s, "real_ip_header"@)
    &&& c.pg_user@ == setting(s, "pg_user"@)
    &&& c.pg_password@ == setting(s, "pg_password"@)
    &&& c.pg_host@ == setting(s, "pg_host"@)
    &&& c.pg_port == digits_val(setting(s, "pg_port"@))
    &&& c.pg_dbname@ == setting(s, "pg_dbname"@)
}

/// `find_key` returns the first matching index, or the length.
proof fn lemma_find_key_props(s: Seq<(String, String)>, key: Seq<char>)
    ensures
        0 <= find_key(s, key) <= s.len(),
        find_key(s, key) < s.len() ==> s[find_key(s, key)].0@ == key,
        forall|j: int| 0 <= j < find_key(s, key) ==> (#[trigger] s[j]).0@ != key,
    decreases s.len(),
{
    if s.len() > 0 && s[0].0@ != key {
        lemma_find_key_props(s.drop_first(), key);
        assert(forall|j: int| 1 <= j < s.len() ==> s[j] == s.drop_first()[j - 1]);
    }
}

/// Once a digit string outgrows a bound, appending digits keeps it above.
proof fn lemma_digits_val_monotone(s: Seq<char>, i: int)
    requires
        0 <= i <= s.len(),
        forall|j: int| 0 <= j < s.len() ==> is_digit(#[trigger] s[j]),
    ensures
        digits_val(s.take(i)) <= digits_val(s),
        digits_val(s) >= 0,
    decreases s.len() - i,
{
    if i == s.len() {
        assert(s.take(i) =~= s);
        lemma_digits_val_nonneg(s);
    } else {
        lemma_digits_val_monotone(s, i + 1);
        assert(s.take(i + 1).drop_last() =~= s.take(i));
        assert(s.take(i + 1).last() == s[i]);
        lemma_digits_val_nonneg(s.take(i));
        assert(digits_val(s.take(i + 1)) == digits_val(s.take(i)) * 10 + (s[i] as u32 - 48));
        assert(digits_val(s.take(i)) <= digits_val(s.take(i)) * 10) by (nonlinear_arith)
            requires
                digits_val(s.take(i)) >= 0,
        ;
    }
}

/// A digit string denotes a number, never a negative value.
proof fn lemma_digits_val_nonneg(s: Seq<char>)
    requires
        forall|j: int| 0 <= j < s.len() ==> is_digit(#[trigger] s[j]),
    ensures
        digits_val(s) >= 0,
    decreases s.len(),
{
    if s.len() > 0 {
        lemma_digits_val_nonneg(s.drop_last());
        assert(digits_val(s.drop_last()) * 10 >= 0) by (nonlinear_arith)
            requires
                digits_val(s.drop_last()) >= 0,
        ;
    }
}

/// Find the value stored under a key.
fn lookup(settings: &Vec<(String, String)>, key: &String) -> (r: Option<String>)
    ensures
        ({
            let k = find_key(settings@, key@);
            if k < settings@.len() {
                r matches Some(v) && v@ == settings@[k].1@
            } else {
                r is None
            }
        }),
{
    let n = settings.len();
    let mut i: usize = 0;
    while i < n
        invariant
            i <= n,
            n == settings@.len(),
            forall|j: int| 0 <= j < i ==> (#[trigger] settings@[j]).0@ != key@,
        decreases n - i,
    {
        if settings[i].0 == *key {
            proof {
                lemma_find_key_props(settings@, key@);
                let f = find_key(settings@, key@);
                if f < i as int {
                    assert(settings@[f].0@ == key@);
                }
                if f > i as int {
                    assert(settings@[i as int].0@ != key@);
                }
            }
            return Some(settings[i].1.clone());
        }
        i += 1;
    }
    proof {
        lemma_find_key_props(settings@, key@);
        let f = find_key(settings@, key@);
        if f < n as int {
            assert(settings@[f].0@ != key@);
        }
    }
    None
}

/// Parse a decimal port number; `None` exactly on strings that are empty,
/// hold a non-digit, or denote more than 65535.
fn parse_u16(s: &String) -> (r: Option<u16>)
    ensures
        r is Some <==> parses_u16(s@),
        r matches Some(v) ==> v == digits_val(s@),
{
    let st = s.as_str();
    let n = st.unicode_len();
    if n == 0 {
        return None;
    }
    let mut acc: u32 = 0;
    let mut i: usize = 0;
    proof {
        assert(s@.take(0) =~= Seq::<char>::empty());
    }
    while i < n
        invariant
            i <= n,
            n == s@.len(),
            st@ == s@,
            acc <= 65535,
            acc == digits_val(s@.take(i as int)),
            forall|j: int| 0 <= j < i ==> is_digit(#[trigger] s@[j]),
        decreases n - i,
    {
        let c = st.get_char(i);
        let d = c as u32;
        proof {
            assert(s@.take(i as int + 1).drop_last() =~= s@.take(i as int));
            assert(s@.take(i as int + 1).last() == s@[i as int]);
        }
        if d < 48 || d > 57 {
            proof {
                assert(!is_digit(s@[i as int]));
            }
            return None;
        }
        let next = acc * 10 + (d - 48);
        if next > 65535 {
            proof {
                if parses_u16(s@) {
                    lemma_digits_val_monotone(s@, i as int + 1);
                }
            }
            return None;
        }
        acc = next;
        i += 1;
    }
    proof {
        assert(s@.take(n as int) =~= s@);
    }
    Some(acc as u16)
}

impl Config {
    /// Build and validate the configuration from gathered key/value pairs.
    /// Succeeds exactly when every required key is present and both port
    /// values are decimal numbers that fit a port; reports a missing key
    /// before an unparsable port.
    pub fn get_config(settings: &Vec<(String, String)>) -> (r: Result<Config, ConfigError>)
        ensures
            r is Ok <==> keys_present(settings@) && ports_ok(settings@),
            r matches Ok(c) ==> config_of(settings@, c),
            r == Err::<Config, ConfigError>(ConfigError::MissingSetting) <==> !keys_present(
                settings@,
            ),
            r == Err::<Config, ConfigError>(ConfigError::InvalidPort) <==> keys_present(settings@)
                && !ports_ok(settings@),
    {
        let domain = lookup(settings, &String::from_str("domain"));
        let bind_address = lookup(settings, &String::from_str("bind_address"));
        let port = lookup(settings, &String::from_str("port"));
        let site_repo = lookup(settings, &String::from_str("site_repo"));
        let branch = lookup(settings, &String::from_str("branch"));
        let real_ip_header = lookup(settings, &String::from_str("real_ip_header"));
        let pg_user = lookup(settings, &String::from_str("pg_user"));
        let pg_password = lookup(settings, &String::from_str("pg_password"));
        let pg_host = lookup(settings, &String::from_str("pg_host"));
        let pg_port = lookup(settings, &String::from_str("pg_port"));
        let pg_dbname = lookup(settings, &String::from_str("pg_dbname"));
        let (
            Some(domain),
            Some(bind_address),
            Some(port),
            Some(site_repo),
            Some(branch),
            Some(real_ip_header),
            Some(pg_user),
            Some(pg_password),
            Some(pg_host),
            Some(pg_port),
            Some(pg_dbname),
        ) = (
            domain,
            bind_address,
            port,
            site_repo,
            branch,
            real_ip_header,
            pg_user,
            pg_password,
            pg_host,
            pg_port,
            pg_dbname,
        ) else {
            return Err(ConfigError::MissingSetting);
        };
        let Some(port) = parse_u16(&port) else {
            return Err(ConfigError::InvalidPort);
        };
        let Some(pg_port) = parse_u16(&pg_port) else {
            return Err(ConfigError::InvalidPort);
        };
        Ok(
            Config {
                domain,
                bind_address,
                port,
                site_repo,
                branch,
                real_ip_header,
                pg_user,
                pg_password,
                pg_host,
                pg_port,
                pg_dbname,
            },
        )
    }
}

} // verus!
