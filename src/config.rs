use vstd::prelude::*;
use vstd::string::*;

use crate::allow_set::texts;

verus! {

/// Seconds after which a forwarding session is cut off, whatever its traffic.
pub const IDLE_TIMEOUT_SECS: u64 = 300;

/// Settings fixed at startup.
pub struct RelayConfig {
    pub control_port: u16,
    /// Path segment of the authorize route.
    pub secret: String,
    pub listen_port: u16,
    /// Destination in `host:port` form.
    pub destination: String,
    pub idle_timeout_secs: Option<u64>,
}

/// Why the startup argument was refused.
#[derive(Debug, PartialEq, Eq, Structural)]
pub enum ConfigError {
    /// Fewer than four `-`-separated fields.
    TooFewFields,
    InvalidControlPort,
    InvalidListenPort,
    /// The destination is neither `host:port` nor a port number.
    InvalidDestination,
}

/// The `-`-separated fields of `s`, empty ones included.
pub open spec fn fields(s: Seq<char>) -> Seq<Seq<char>>
    decreases s.len(),
{
    if s.len() == 0 {
        seq![Seq::<char>::empty()]
    } else {
        let f = fields(s.drop_last());
        if s.last() == '-' {
            f.push(Seq::<char>::empty())
        } else {
            f.update(f.len() - 1, f.last().push(s.last()))
        }
    }
}

pub open spec fn is_digit(c: char) -> bool {
    '0' <= c && c <= '9'
}

pub open spec fn digit_value(c: char) -> nat {
    (c as u32 - '0' as u32) as nat
}

/// The number written by the decimal digits `s`.
pub open spec fn decimal_value(s: Seq<char>) -> nat
    decreases s.len(),
{
    if s.len() == 0 {
        0
    } else {
        decimal_value(s.drop_last()) * 10 + digit_value(s.last())
    }
}

/// The digits of a port field, after an optional leading `+`.
pub open spec fn port_digits(s: Seq<char>) -> Seq<char> {
    if s.len() > 0 && s[0] == '+' {
        s.drop_first()
    } else {
        s
    }
}

/// The port that `s` writes in decimal (optionally after `+`), if it is one.
pub open spec fn port_of(s: Seq<char>) -> Option<u16> {
    let d = port_digits(s);
    if d.len() > 0 && (forall|i: int| 0 <= i < d.len() ==> is_digit(#[trigger] d[i]))
        && decimal_value(d) <= u16::MAX {
        Some(decimal_value(d) as u16)
    } else {
        None
    }
}

pub open spec fn digit_char(d: nat) -> char {
    ('0' as u32 + d) as char
}

/// `n` in decimal, without leading zeros.
pub open spec fn decimal_text(n: nat) -> Seq<char>
    decreases n,
{
    if n < 10 {
        seq![digit_char(n)]
    } else {
        decimal_text(n / 10).push(digit_char(n % 10))
    }
}

/// The destination that a field names: itself when it holds a `:`, else the local port it
/// writes.
pub open spec fn destination_of(f: Seq<char>) -> Option<Seq<char>> {
    if f.contains(':') {
        Some(f)
    } else {
        match port_of(f) {
            Some(p) => Some("127.0.0.1:"@ + decimal_text(p as nat)),
            None => None,
        }
    }
}

/// Splits `s` at every `-`.
pub fn split_fields(s: &str) -> (r: Vec<String>)
    ensures
        texts(r@) == fields(s@),
{
    let n = s.unicode_len();
    let mut out: Vec<String> = Vec::new();
    let mut start: usize = 0;
    let mut i: usize = 0;
    proof {
        assert(texts(out@) =~= Seq::<Seq<char>>::empty());
        assert(s@.take(0) =~= Seq::<char>::empty());
        assert(s@.subrange(0, 0) =~= Seq::<char>::empty());
    }
    while i < n
        invariant
            n == s@.len(),
            start <= i <= n,
            texts(out@).push(s@.subrange(start as int, i as int)) == fields(s@.take(i as int)),
        decreases n - i,
    {
        let c = s.get_char(i);
        let ghost t = s@.take(i + 1);
        proof {
            assert(t.drop_last() =~= s@.take(i as int));
            assert(t.last() == c);
            assert(s@.subrange(i + 1, i + 1) =~= Seq::<char>::empty());
            assert(s@.subrange(start as int, i as int).push(c) =~= s@.subrange(
                start as int,
                i + 1,
            ));
        }
        if c == '-' {
            let piece = s.substring_char(start, i).to_owned();
            proof {
                assert(texts(out@.push(piece)) =~= texts(out@).push(piece@));
                assert(texts(out@.push(piece)).push(s@.subrange(i + 1, i + 1)) =~= fields(
                    s@.take(i + 1),
                ));
            }
            out.push(piece);
            start = i + 1;
        } else {
            proof {
                assert(texts(out@).push(s@.subrange(start as int, i + 1)) =~= fields(
                    s@.take(i + 1),
                ));
            }
        }
        i = i + 1;
    }
    let piece = s.substring_char(start, n).to_owned();
    proof {
        assert(s@.take(n as int) =~= s@);
        assert(texts(out@.push(piece)) =~= texts(out@).push(piece@));
    }
    out.push(piece);
    out
}

/// Reads a port number: decimal digits, optionally after a `+`, at most 65535.
pub fn parse_port(s: &str) -> (r: Option<u16>)
    ensures
        r == port_of(s@),
{
    let n = s.unicode_len();
    let mut i: usize = 0;
    if n > 0 && s.get_char(0) == '+' {
        i = 1;
    }
    let ghost first = i;
    let ghost d = port_digits(s@);
    proof {
        assert(d =~= s@.subrange(first as int, n as int));
    }
    if i == n {
        return None;
    }
    let mut acc: u32 = 0;
    let mut too_big = false;
    while i < n
        invariant
            n == s@.len(),
            d == port_digits(s@),
            d == s@.subrange(first as int, n as int),
            first <= i <= n,
            first < n,
            forall|j: int| first <= j < i ==> is_digit(#[trigger] s@[j]),
            too_big ==> decimal_value(s@.subrange(first as int, i as int)) > u16::MAX,
            !too_big ==> acc == decimal_value(s@.subrange(first as int, i as int)),
            !too_big ==> acc <= u16::MAX,
        decreases n - i,
    {
        let c = s.get_char(i);
        if !('0' <= c && c <= '9') {
            proof {
                assert(d[i - first] == c);
                assert(!is_digit(d[i - first]));
            }
            return None;
        }
        let ghost prev = s@.subrange(first as int, i as int);
        proof {
            assert(s@.subrange(first as int, i + 1).drop_last() =~= prev);
        }
        if !too_big {
            let v = acc * 10 + (c as u32 - '0' as u32);
            if v > 65535 {
                too_big = true;
            } else {
                acc = v;
            }
        } else {
            proof {
                assert(decimal_value(s@.subrange(first as int, i + 1)) >= decimal_value(prev) * 10)
                    by (nonlinear_arith)
                    requires
                        decimal_value(s@.subrange(first as int, i + 1)) == decimal_value(prev) * 10
                            + digit_value(c),
                ;
            }
        }
        i = i + 1;
    }
    proof {
        assert(s@.subrange(first as int, n as int) == d);
        assert forall|j: int| 0 <= j < d.len() implies is_digit(#[trigger] d[j]) by {
            assert(d[j] == s@[first + j]);
        }
    }
    if too_big {
        None
    } else {
        Some(acc as u16)
    }
}

/// The text of one decimal digit.
fn digit_text(d: u16) -> (r: &'static str)
    requires
        d < 10,
    ensures
        r@ == seq![digit_char(d as nat)],
{
    proof {
        reveal_strlit("0");
        reveal_strlit("1");
        reveal_strlit("2");
        reveal_strlit("3");
        reveal_strlit("4");
        reveal_strlit("5");
        reveal_strlit("6");
        reveal_strlit("7");
        reveal_strlit("8");
        reveal_strlit("9");
    }
    let r = match d {
        0 => "0",
        1 => "1",
        2 => "2",
        3 => "3",
        4 => "4",
        5 => "5",
        6 => "6",
        7 => "7",
        8 => "8",
        _ => "9",
    };
    assert(r@ =~= seq![digit_char(d as nat)]);
    r
}

/// Appends `n` in decimal to `out`.
pub fn push_decimal(out: &mut String, n: u16)
    ensures
        final(out)@ == old(out)@ + decimal_text(n as nat),
    decreases n,
{
    if n >= 10 {
        push_decimal(out, n / 10);
    }
    out.append(digit_text(n % 10));
    proof {
        if n >= 10 {
            assert(decimal_text(n as nat) == decimal_text((n / 10) as nat).push(
                digit_char((n % 10) as nat),
            ));
        }
    }
    assert(final(out)@ =~= old(out)@ + decimal_text(n as nat));
}

/// The settings that a startup argument `<control_port>-<secret>-<listen_port>-<destination>`
/// gives, where fields past the fourth are ignored.
pub open spec fn config_of(arg: Seq<char>) -> Result<
    (u16, Seq<char>, u16, Seq<char>),
    ConfigError,
> {
    let f = fields(arg);
    if f.len() < 4 {
        Err(ConfigError::TooFewFields)
    } else if port_of(f[0]) is None {
        Err(ConfigError::InvalidControlPort)
    } else if port_of(f[2]) is None {
        Err(ConfigError::InvalidListenPort)
    } else if destination_of(f[3]) is None {
        Err(ConfigError::InvalidDestination)
    } else {
        Ok((port_of(f[0])->0, f[1], port_of(f[2])->0, destination_of(f[3])->0))
    }
}

/// Reads the startup argument `<control_port>-<secret>-<listen_port>-<destination>`, where the
/// destination is `host:port` or a bare port on 127.0.0.1.
pub fn parse_config(arg: &str) -> (r: Result<RelayConfig, ConfigError>)
    ensures
        match config_of(arg@) {
            Ok((cp, secret, lp, dest)) => r matches Ok(c) && c.control_port == cp && c.secret@
                == secret && c.listen_port == lp && c.destination@ == dest && c.idle_timeout_secs
                == Some(IDLE_TIMEOUT_SECS),
            Err(e) => r == Err::<RelayConfig, ConfigError>(e),
        },
{
    let parts = split_fields(arg);
    proof {
        assert(texts(parts@).len() == parts@.len());
    }
    if parts.len() < 4 {
        return Err(ConfigError::TooFewFields);
    }
    proof {
        assert(texts(parts@)[0] == parts@[0]@);
        assert(texts(parts@)[1] == parts@[1]@);
        assert(texts(parts@)[2] == parts@[2]@);
        assert(texts(parts@)[3] == parts@[3]@);
    }
    let control_port = match parse_port(parts[0].as_str()) {
        Some(p) => p,
        None => return Err(ConfigError::InvalidControlPort),
    };
    let listen_port = match parse_port(parts[2].as_str()) {
        Some(p) => p,
        None => return Err(ConfigError::InvalidListenPort),
    };
    let destination = match parse_destination(parts[3].as_str()) {
        Some(d) => d,
        None => return Err(ConfigError::InvalidDestination),
    };
    Ok(
        RelayConfig {
            control_port,
            secret: parts[1].clone(),
            listen_port,
            destination,
            idle_timeout_secs: Some(IDLE_TIMEOUT_SECS),
        },
    )
}

/// Reads a destination field: `host:port` as it stands, or a bare port on 127.0.0.1.
pub fn parse_destination(f: &str) -> (r: Option<String>)
    ensures
        match destination_of(f@) {
            Some(d) => r matches Some(t) && t@ == d,
            None => r is None,
        },
{
    let n = f.unicode_len();
    let mut i: usize = 0;
    while i < n
        invariant
            n == f@.len(),
            i <= n,
            forall|j: int| 0 <= j < i ==> f@[j] != ':',
        decreases n - i,
    {
        if f.get_char(i) == ':' {
            proof {
                assert(f@.contains(f@[i as int]));
            }
            return Some(f.to_owned());
        }
        i = i + 1;
    }
    match parse_port(f) {
        Some(p) => {
            let mut t = String::from_str("127.0.0.1:");
            push_decimal(&mut t, p);
            Some(t)
        },
        None => None,
    }
}

} // verus!
