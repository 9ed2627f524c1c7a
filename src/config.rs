use vstd::prelude::*;
use vstd::utf8::is_ascii_chars;

verus! {

/// Settings of the service.
pub struct Config {
    /// Listening port; never zero.
    pub port: u16,
    pub database_url: String,
    pub bucket: String,
    pub s3_endpoint: Option<String>,
    pub s3_public_url: Option<String>,
}

/// Why the settings could not be read.
pub enum ConfigError {
    /// The port text is not a number in `1..=65535`.
    InvalidPort(String),
    /// No database address was given.
    MissingDatabaseUrl,
    /// No storage bucket was given.
    MissingBucket,
}

/// The number written by the decimal digits `d`.
pub open spec fn digits_value(d: Seq<char>) -> int
    decreases d.len(),
{
    if d.len() == 0 {
        0
    } else {
        digits_value(d.drop_last()) * 10 + (d.last() as int - '0' as int)
    }
}

/// Every character of `d` is an ASCII digit.
pub open spec fn all_digits(d: Seq<char>) -> bool {
    forall|i: int| 0 <= i < d.len() ==> '0' <= #[trigger] d[i] <= '9'
}

/// The text read as an unsigned 16-bit decimal number: an optional `+`,
/// then one or more digits, with a value that fits 16 bits.
pub open spec fn parsed_u16(s: Seq<char>) -> Option<u16> {
    let d = if s.len() > 0 && s[0] == '+' { s.drop_first() } else { s };
    if d.len() > 0 && all_digits(d) && digits_value(d) <= u16::MAX {
        Some(digits_value(d) as u16)
    } else {
        None
    }
}

/// The port that the text names: a decimal number in `1..=65535`.
pub open spec fn port_of(s: Seq<char>) -> Option<u16> {
    match parsed_u16(s) {
        Some(v) => if v != 0 { Some(v) } else { None },
        None => None,
    }
}

proof fn lemma_digits_prefix(d: Seq<char>, j: int)
    requires
        0 <= j <= d.len(),
        all_digits(d),
    ensures
        0 <= digits_value(d.take(j)) <= digits_value(d),
    decreases d.len() - j,
{
    if j < d.len() {
        assert(d.take(j + 1).drop_last() =~= d.take(j));
        assert('0' <= d[j] <= '9');
        lemma_digits_prefix(d, j + 1);
    } else {
        assert(d.take(j) =~= d);
        lemma_digits_nonneg(d);
    }
}

proof fn lemma_digits_nonneg(d: Seq<char>)
    requires
        all_digits(d),
    ensures
        digits_value(d) >= 0,
    decreases d.len(),
{
    if d.len() > 0 {
        assert('0' <= d[d.len() - 1] <= '9');
        lemma_digits_nonneg(d.drop_last());
    }
}

/// Reads a port number written in decimal; `None` unless it lies in
/// `1..=65535`.
pub fn parse_port(text: &str) -> (r: Option<u16>)
    ensures
        r == port_of(text@),
{
    broadcast use vstd::string::is_ascii_spec_bytes;
    let ghost s = text@;
    let ghost d = if s.len() > 0 && s[0] == '+' { s.drop_first() } else { s };
    if !text.is_ascii() {
        proof {
            let k = choose|k: int| 0 <= k < s.len() && !('\0' <= #[trigger] s[k] <= '\u{7f}');
            if s.len() > 0 && s[0] == '+' {
                assert(d[k - 1] == s[k]);
            } else {
                assert(d[k] == s[k]);
            }
            assert(!all_digits(d));
        }
        return None;
    }
    let b = text.as_bytes();
    assert(forall|i: int| 0 <= i < s.len() ==> b@[i] == s[i] as u8);
    let start: usize = if b.len() > 0 && b[0] == 43u8 { 1 } else { 0 };
    assert(d =~= s.subrange(start as int, s.len() as int));
    if start == b.len() {
        return None;
    }
    let mut value: u32 = 0;
    let mut i: usize = start;
    while i < b.len()
        invariant
            start <= i <= b@.len() == s.len(),
            forall|k: int| 0 <= k < s.len() ==> b@[k] == s[k] as u8,
            is_ascii_chars(s),
            d == s.subrange(start as int, s.len() as int),
            d == (if s.len() > 0 && s[0] == '+' { s.drop_first() } else { s }),
            s == text@,
            value == digits_value(d.take(i - start)),
            value <= u16::MAX,
            all_digits(d.take(i - start)),
        decreases b@.len() - i,
    {
        let c = b[i];
        assert(d.take(i - start + 1).drop_last() =~= d.take(i - start));
        assert(d[i - start] == s[i as int]);
        assert('\0' <= s[i as int] <= '\u{7f}');
        assert(c as int == s[i as int] as int);
        if c < 48u8 || c > 57u8 {
            assert(!('0' <= d[i - start] <= '9'));
            assert(!all_digits(d));
            return None;
        }
        let next = value * 10 + (c - 48u8) as u32;
        if next > 65535 {
            proof {
                assert(digits_value(d.take(i - start + 1)) == next);
                if all_digits(d) {
                    lemma_digits_prefix(d, i - start + 1);
                }
                assert(parsed_u16(s) is None);
            }
            return None;
        }
        value = next;
        i += 1;
    }
    assert(d.take(d.len() as int) =~= d);
    if value == 0 {
        None
    } else {
        Some(value as u16)
    }
}

impl Config {
    /// Builds the settings from the values given for them: the port text
    /// (3000 when absent), the database address, the bucket, and the two
    /// optional storage addresses.
    pub fn from_values(
        port: Option<String>,
        database_url: Option<String>,
        bucket: Option<String>,
        s3_endpoint: Option<String>,
        s3_public_url: Option<String>,
    ) -> (r: Result<Config, ConfigError>)
        ensures
            ({
                let port_text = match port {
                    Some(p) => p@,
                    None => "3000"@,
                };
                match r {
                    Ok(c) => {
                        &&& port matches Some(p) ==> port_of(p@) == Some(c.port)
                        &&& port is None ==> c.port == 3000
                        &&& database_url == Some(c.database_url)
                        &&& bucket == Some(c.bucket)
                        &&& c.s3_endpoint == s3_endpoint
                        &&& c.s3_public_url == s3_public_url
                    },
                    Err(ConfigError::InvalidPort(t)) => {
                        &&& port matches Some(p) && t@ == p@
                        &&& port_of(port->0@) is None
                    },
                    Err(ConfigError::MissingDatabaseUrl) => {
                        &&& (port is None || port_of(port->0@) is Some)
                        &&& database_url is None
                    },
                    Err(ConfigError::MissingBucket) => {
                        &&& (port is None || port_of(port->0@) is Some)
                        &&& database_url is Some
                        &&& bucket is None
                    },
                }
            }),
    {
        let port_value: u16 = match port {
            Some(p) => match parse_port(p.as_str()) {
                Some(v) => v,
                None => return Err(ConfigError::InvalidPort(p)),
            },
            None => 3000,
        };
        let database_url = match database_url {
            Some(u) => u,
            None => return Err(ConfigError::MissingDatabaseUrl),
        };
        let bucket = match bucket {
            Some(b) => b,
            None => return Err(ConfigError::MissingBucket),
        };
        Ok(Config { port: port_value, database_url, bucket, s3_endpoint, s3_public_url })
    }
}

} // verus!
