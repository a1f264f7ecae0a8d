//! Which server to connect to, and from where.

use crate::net::{IpAddr, SocketAddr};
use vstd::prelude::*;
use vstd::string::{StrSliceExecFns, StringExecFns};

verus! {

/// The port of a host that does not name one.
pub const DEFAULT_PORT: u16 = 443;

/// Why what stands in the place of a port is not one.
#[derive(Clone, Copy, Debug, PartialEq, Eq, Structural)]
pub enum PortError {
    /// Nothing stands there.
    Empty,
    /// A character is not a digit, or no digit follows a plus sign.
    InvalidDigit,
    /// The number is larger than a port can be.
    TooLarge,
}

impl PortError {
    /// What is said of the error, whatever its cause.
    pub fn message(&self) -> (message: String)
        ensures
            message@ == "parsing port"@,
    {
        String::from_str("parsing port")
    }

    /// What caused the error, in words.
    pub open spec fn cause_text(self) -> Seq<char> {
        match self {
            PortError::Empty => "cannot parse integer from empty string"@,
            PortError::InvalidDigit => "invalid digit found in string"@,
            PortError::TooLarge => "number too large to fit in target type"@,
        }
    }

    /// What caused the error, in words.
    pub fn cause(&self) -> (cause: String)
        ensures
            cause@ == self.cause_text(),
    {
        String::from_str(
            match self {
                PortError::Empty => "cannot parse integer from empty string",
                PortError::InvalidDigit => "invalid digit found in string",
                PortError::TooLarge => "number too large to fit in target type",
            },
        )
    }
}

/// How the address of the server is found.
pub enum Target {
    /// Look this host up.
    Resolve(String),
    /// Take this address.
    Direct(SocketAddr),
}

/// A server to connect to.
pub struct Endpoint {
    /// The name that the server has to prove.
    pub server_name: String,
    pub target: Target,
}

/// The position of the first colon of `text` from position `from` on, or the length of `text`.
pub open spec fn colon(text: Seq<char>, from: int) -> int
    decreases text.len() - from,
{
    if from >= text.len() {
        text.len() as int
    } else if text[from] == ':' {
        from
    } else {
        colon(text, from + 1)
    }
}

/// What stands before the first colon of `host`.
pub open spec fn host_name(host: Seq<char>) -> Seq<char> {
    host.subrange(0, colon(host, 0))
}

/// What stands between the first colon of `host` and the second, or the end.
pub open spec fn host_port(host: Seq<char>) -> Option<Seq<char>> {
    let first = colon(host, 0);
    if first < host.len() {
        Some(host.subrange(first + 1, colon(host, first + 1)))
    } else {
        None
    }
}

/// The number that digits spell.
pub open spec fn decimal(text: Seq<char>) -> int
    decreases text.len(),
{
    if text.len() == 0 {
        0
    } else {
        decimal(text.drop_last()) * 10 + (text.last() as int - '0' as int)
    }
}

/// `text` without a plus sign in front.
pub open spec fn unsigned(text: Seq<char>) -> Seq<char> {
    if text.len() > 0 && text[0] == '+' {
        text.subrange(1, text.len() as int)
    } else {
        text
    }
}

/// Whether `digits` are digits of a number that a port can be. True of no digits at all.
pub open spec fn spells_port(digits: Seq<char>) -> bool {
    &&& forall|i: int| 0 <= i < digits.len() ==> '0' <= #[trigger] digits[i] <= '9'
    &&& decimal(digits) <= u16::MAX
}

/// What is wrong with `digits` at the first place where something is.
pub open spec fn first_fault(digits: Seq<char>) -> PortError
    decreases digits.len(),
{
    if digits.len() > 0 && !spells_port(digits.drop_last()) {
        first_fault(digits.drop_last())
    } else if digits.len() > 0 && '0' <= digits.last() <= '9' {
        PortError::TooLarge
    } else {
        PortError::InvalidDigit
    }
}

/// The port that `text` spells: digits, perhaps after a plus sign, of a number that a port can be.
pub open spec fn port_number(text: Seq<char>) -> Result<u16, PortError> {
    let digits = unsigned(text);
    if text.len() == 0 {
        Err(PortError::Empty)
    } else if digits.len() == 0 || !spells_port(digits) {
        Err(first_fault(digits))
    } else {
        Ok(decimal(digits) as u16)
    }
}

/// The port of `host`, if what stands in its place is one.
pub open spec fn port_of(host: Seq<char>) -> Result<u16, PortError> {
    match host_port(host) {
        Some(text) => port_number(text),
        None => Ok(DEFAULT_PORT),
    }
}

proof fn lemma_front_spells_port(digits: Seq<char>)
    requires
        digits.len() > 0,
        spells_port(digits),
    ensures
        spells_port(digits.drop_last()),
{
    let front = digits.drop_last();
    assert('0' <= digits[digits.len() - 1] <= '9');
    assert forall|i: int| 0 <= i < front.len() implies '0' <= #[trigger] front[i] <= '9' by {
        assert(front[i] == digits[i]);
    }
    lemma_decimal_is_natural(front);
}

proof fn lemma_decimal_is_natural(digits: Seq<char>)
    requires
        forall|i: int| 0 <= i < digits.len() ==> '0' <= #[trigger] digits[i] <= '9',
    ensures
        decimal(digits) >= 0,
    decreases digits.len(),
{
    if digits.len() > 0 {
        let front = digits.drop_last();
        assert('0' <= digits[digits.len() - 1] <= '9');
        assert forall|i: int| 0 <= i < front.len() implies '0' <= #[trigger] front[i] <= '9' by {
            assert(front[i] == digits[i]);
        }
        lemma_decimal_is_natural(front);
    }
}

/// What is wrong with the beginning of `digits` is what is wrong with all of them.
proof fn lemma_fault_stays(digits: Seq<char>, n: int)
    requires
        0 <= n <= digits.len(),
        !spells_port(digits.take(n)),
    ensures
        !spells_port(digits),
        first_fault(digits) == first_fault(digits.take(n)),
    decreases digits.len(),
{
    if n < digits.len() {
        let front = digits.drop_last();
        assert(front.take(n) =~= digits.take(n));
        lemma_fault_stays(front, n);
        if spells_port(digits) {
            lemma_front_spells_port(digits);
        }
    } else {
        assert(digits.take(n) =~= digits);
    }
}

proof fn lemma_colon_bounds(text: Seq<char>, from: int)
    requires
        0 <= from <= text.len(),
    ensures
        from <= colon(text, from) <= text.len(),
        colon(text, from) < text.len() ==> text[colon(text, from)] == ':',
        forall|i: int| from <= i < colon(text, from) ==> text[i] != ':',
    decreases text.len() - from,
{
    if from < text.len() && text[from] != ':' {
        lemma_colon_bounds(text, from + 1);
    }
}

/// The position of the first colon of `text` from position `from` on, or the length of `text`.
fn find_colon(text: &str, len: usize, from: usize) -> (found: usize)
    requires
        len == text@.len(),
        from <= len,
    ensures
        found == colon(text@, from as int),
        from <= found <= len,
{
    let mut i: usize = from;
    while i < len && text.get_char(i) != ':'
        invariant
            len == text@.len(),
            from <= i <= len,
            colon(text@, i as int) == colon(text@, from as int),
        decreases len - i,
    {
        i += 1;
    }
    i
}

/// The port that `text` spells.
fn parse_port(text: &str) -> (port: Result<u16, PortError>)
    ensures
        port == port_number(text@),
{
    let len: usize = text.unicode_len();
    if len == 0 {
        return Err(PortError::Empty);
    }
    let start: usize = if text.get_char(0) == '+' {
        1
    } else {
        0
    };
    let ghost digits = unsigned(text@);
    assert(digits =~= text@.subrange(start as int, len as int));
    if start == len {
        return Err(PortError::InvalidDigit);
    }
    let mut value: u32 = 0;
    let mut i: usize = start;
    while i < len
        invariant
            start <= i <= len,
            len == text@.len(),
            start < len,
            digits == text@.subrange(start as int, len as int),
            digits == unsigned(text@),
            spells_port(digits.take(i - start)),
            value == decimal(digits.take(i - start)),
        decreases len - i,
    {
        let c: char = text.get_char(i);
        let ghost upto = digits.take(i - start + 1);
        assert(upto.drop_last() =~= digits.take(i - start));
        assert(upto[i - start] == c);
        if c < '0' || '9' < c {
            proof {
                lemma_fault_stays(digits, i - start + 1);
            }
            return Err(PortError::InvalidDigit);
        }
        value = value * 10 + (c as u32 - '0' as u32);
        if value > u16::MAX as u32 {
            proof {
                lemma_fault_stays(digits, i - start + 1);
            }
            return Err(PortError::TooLarge);
        }
        assert forall|j: int| 0 <= j < upto.len() implies '0' <= #[trigger] upto[j] <= '9' by {
            if j < i - start {
                assert(upto[j] == digits.take(i - start)[j]);
            }
        }
        i += 1;
    }
    assert(digits.take(len - start) =~= digits);
    Ok(value as u16)
}

/// The server that `host` names, at the address `ip` if one is given. A port that `host` names has
/// to be one, even where the address is looked up.
pub fn endpoint(host: &str, ip: Option<IpAddr>) -> (found: Result<Endpoint, PortError>)
    ensures
        match port_of(host@) {
            Err(error) => found == Err::<Endpoint, PortError>(error),
            Ok(port) => {
                &&& found matches Ok(endpoint)
                &&& endpoint.server_name@ == host_name(host@)
                &&& match ip {
                    Some(ip) => endpoint.target == Target::Direct(SocketAddr::at(ip, port)),
                    None => endpoint.target matches Target::Resolve(name) && name@ == host@,
                }
            },
        },
{
    let len: usize = host.unicode_len();
    let first: usize = find_colon(host, len, 0);
    let port: u16 = if first < len {
        let second: usize = find_colon(host, len, first + 1);
        match parse_port(host.substring_char(first + 1, second)) {
            Ok(port) => port,
            Err(error) => return Err(error),
        }
    } else {
        DEFAULT_PORT
    };
    let server_name = String::from_str(host.substring_char(0, first));
    let target = match ip {
        Some(ip) => Target::Direct(SocketAddr::new(ip, port)),
        None => Target::Resolve(String::from_str(host)),
    };
    Ok(Endpoint { server_name, target })
}

/// Where to connect from: the address that the user gave, or any address of the family of the
/// server, at any port.
pub fn bind_addr(local: Option<SocketAddr>, server: SocketAddr) -> (addr: SocketAddr)
    ensures
        addr == match local {
            Some(local) => local,
            None => SocketAddr::at(
                match server.ip {
                    IpAddr::V4(_) => IpAddr::V4(0),
                    IpAddr::V6(_) => IpAddr::V6(0),
                },
                0,
            ),
        },
{
    match local {
        Some(local) => local,
        None => match server.ip {
            IpAddr::V4(_) => SocketAddr::new(IpAddr::V4(0), 0),
            IpAddr::V6(_) => SocketAddr::new(IpAddr::V6(0), 0),
        },
    }
}

/// The name of a host holds no colon, and the host is its name alone, or its name, a colon, and
/// what follows, up to the next colon the port.
pub proof fn law_hosts_are_names_and_ports(host: Seq<char>)
    ensures
        forall|i: int| 0 <= i < host_name(host).len() ==> host_name(host)[i] != ':',
        host_port(host) matches Some(port) ==> {
            &&& (forall|i: int| 0 <= i < port.len() ==> port[i] != ':')
            &&& {
                let named = host_name(host).push(':') + port;
                named == host || named.push(':').is_prefix_of(host)
            }
        },
        host_port(host) is None ==> host_name(host) == host,
{
    let first = colon(host, 0);
    lemma_colon_bounds(host, 0);
    if first < host.len() {
        let second = colon(host, first + 1);
        lemma_colon_bounds(host, first + 1);
        let named = host_name(host).push(':') + host_port(host)->0;
        if second < host.len() {
            assert(named.push(':') =~= host.subrange(0, second + 1));
        } else {
            assert(named =~= host);
        }
    } else {
        assert(host_name(host) =~= host);
    }
}

proof fn lemma_colon_is(text: Seq<char>, from: int, at: int)
    requires
        0 <= from <= at <= text.len(),
        forall|i: int| from <= i < at ==> text[i] != ':',
        at < text.len() ==> text[at] == ':',
    ensures
        colon(text, from) == at,
{
    lemma_colon_bounds(text, from);
}

/// What `port_number` makes of one character more, in terms of what it makes of the ones before.
proof fn lemma_one_more(text: Seq<char>, c: char)
    ensures
        ({
            let more = port_number(text.push(c));
            let digit = c as int - '0' as int;
            match port_number(text) {
                Ok(port) => if !('0' <= c <= '9') {
                    more == Err::<u16, PortError>(PortError::InvalidDigit)
                } else if port * 10 + digit <= 65535 {
                    more matches Ok(longer) && longer == port * 10 + digit
                } else {
                    more == Err::<u16, PortError>(PortError::TooLarge)
                },
                Err(error) => if ('0' <= c <= '9') && (text.len() == 0 || text == seq!['+']) {
                    more matches Ok(longer) && longer == digit
                } else if text.len() == 0 {
                    more == Err::<u16, PortError>(PortError::InvalidDigit)
                } else {
                    more == Err::<u16, PortError>(error)
                },
            }
        }),
        port_number(text) == Err::<u16, PortError>(PortError::Empty) <==> text.len() == 0,
{
    let digits = unsigned(text);
    let longer = unsigned(text.push(c));
    if text.len() == 0 && c == '+' {
        assert(longer =~= Seq::<char>::empty());
    } else {
        assert(longer =~= digits.push(c));
        assert(longer.drop_last() =~= digits);
        if spells_port(digits) {
            lemma_decimal_is_natural(digits);
            if '0' <= c <= '9' {
                assert forall|i: int| 0 <= i < longer.len() implies '0' <= #[trigger] longer[i]
                    <= '9' by {
                    if i < digits.len() {
                        assert(longer[i] == digits[i]);
                    }
                }
            } else {
                assert(longer[digits.len() as int] == c);
            }
        } else {
            assert(longer.take(digits.len() as int) =~= digits);
            lemma_fault_stays(longer, digits.len() as int);
        }
        if text.len() > 0 && digits.len() == 0 {
            assert(text =~= seq!['+']);
        }
    }
    lemma_no_fault_is_empty(digits);
}

proof fn lemma_no_fault_is_empty(digits: Seq<char>)
    ensures
        first_fault(digits) != PortError::Empty,
    decreases digits.len(),
{
    if digits.len() > 0 {
        lemma_no_fault_is_empty(digits.drop_last());
    }
}

/// Without a colon a host is a name, and the server listens at the usual port.
pub proof fn law_hosts_without_a_colon_have_the_usual_port(
    host: &str,
    ip: Option<IpAddr>,
    found: Result<Endpoint, PortError>,
)
    requires
        forall|i: int| 0 <= i < host@.len() ==> #[trigger] host@[i] != ':',
        call_ensures(endpoint, (host, ip), found),
    ensures
        call_requires(endpoint, (host, ip)),
        found matches Ok(server) && server.server_name@ == host@ && match ip {
            Some(ip) => server.target matches Target::Direct(addr) && addr.ip == ip && addr.port
                == 443 && addr.flowinfo == 0 && addr.scope_id == 0,
            None => server.target matches Target::Resolve(name) && name@ == host@,
        },
{
    lemma_colon_is(host@, 0, host@.len() as int);
    assert(host_name(host@) =~= host@);
}

/// What stands before the first colon of a host is its name. What stands behind it, up to the next
/// colon or the end, alone decides on the port and on the error: they are the same as for a host
/// that is nothing but a colon and that, and the same whether or not the host is to be looked up. A
/// server that is to be looked up is looked up under all of its host.
pub proof fn law_only_what_is_between_colons_is_the_port(
    name: Seq<char>,
    text: Seq<char>,
    rest: Seq<char>,
    host: &str,
    ip: Option<IpAddr>,
    found: Result<Endpoint, PortError>,
    bare: &str,
    bare_ip: IpAddr,
    bare_found: Result<Endpoint, PortError>,
)
    requires
        forall|i: int| 0 <= i < name.len() ==> #[trigger] name[i] != ':',
        forall|i: int| 0 <= i < text.len() ==> #[trigger] text[i] != ':',
        rest.len() > 0 ==> rest[0] == ':',
        host@ == name + seq![':'] + text + rest,
        call_ensures(endpoint, (host, ip), found),
        bare@ == seq![':'] + text,
        call_ensures(endpoint, (bare, Some(bare_ip)), bare_found),
    ensures
        call_requires(endpoint, (host, ip)),
        call_requires(endpoint, (bare, Some(bare_ip))),
        match bare_found {
            Err(error) => found == Err::<Endpoint, PortError>(error),
            Ok(bare_server) => {
                &&& found matches Ok(server)
                &&& server.server_name@ == name
                &&& bare_server.target matches Target::Direct(bare_addr) && match ip {
                    Some(ip) => server.target matches Target::Direct(addr) && addr.ip == ip
                        && addr.port == bare_addr.port && addr.flowinfo == 0 && addr.scope_id == 0,
                    None => server.target matches Target::Resolve(looked_up) && looked_up@ == host@,
                }
            },
        },
{
    let first = name.len() as int;
    let second = first + 1 + text.len();
    assert forall|i: int| first < i < second implies host@[i] != ':' by {
        assert(host@[i] == text[i - first - 1]);
    }
    lemma_colon_is(host@, 0, first);
    lemma_colon_is(host@, first + 1, second);
    assert(host_name(host@) =~= name);
    assert(host@.subrange(first + 1, second) =~= text);
    assert forall|i: int| 0 < i < bare@.len() implies bare@[i] != ':' by {
        assert(bare@[i] == text[i - 1]);
    }
    lemma_colon_is(bare@, 0, 0);
    lemma_colon_is(bare@, 1, bare@.len() as int);
    assert(bare@.subrange(1, bare@.len() as int) =~= text);
}

/// A port is read digit by digit: one digit more makes it ten times as large and adds the digit,
/// unless it gets larger than 65535. Nothing at all is no port, and neither is a plus sign alone,
/// but behind either a digit is one. Anything else than a digit spoils it, and what is wrong with
/// the beginning of what stands there is wrong with all of it. `shorter` and `longer` are hosts
/// that are nothing but a colon and what stands in the place of the port, and `longer` has the
/// character `c` more.
pub proof fn law_ports_are_read_digit_by_digit(
    text: Seq<char>,
    c: char,
    shorter: &str,
    longer: &str,
    ip: IpAddr,
    found: Result<Endpoint, PortError>,
    more: Result<Endpoint, PortError>,
)
    requires
        forall|i: int| 0 <= i < text.len() ==> #[trigger] text[i] != ':',
        c != ':',
        shorter@ == seq![':'] + text,
        longer@ == shorter@.push(c),
        call_ensures(endpoint, (shorter, Some(ip)), found),
        call_ensures(endpoint, (longer, Some(ip)), more),
    ensures
        call_requires(endpoint, (shorter, Some(ip))),
        call_requires(endpoint, (longer, Some(ip))),
        found == Err::<Endpoint, PortError>(PortError::Empty) <==> text.len() == 0,
        found matches Ok(server) ==> (server.target matches Target::Direct(addr) && if !('0' <= c
            <= '9') {
            more == Err::<Endpoint, PortError>(PortError::InvalidDigit)
        } else if addr.port * 10 + (c as int - '0' as int) <= 65535 {
            more matches Ok(other) && other.target matches Target::Direct(other_addr)
                && other_addr.port == addr.port * 10 + (c as int - '0' as int)
        } else {
            more == Err::<Endpoint, PortError>(PortError::TooLarge)
        }),
        found matches Err(error) ==> if ('0' <= c <= '9') && (text.len() == 0 || text
            == seq!['+']) {
            more matches Ok(other) && other.target matches Target::Direct(other_addr)
                && other_addr.port == c as int - '0' as int
        } else if text.len() == 0 {
            more == Err::<Endpoint, PortError>(PortError::InvalidDigit)
        } else {
            more == Err::<Endpoint, PortError>(error)
        },
{
    assert forall|i: int| 0 < i < shorter@.len() implies shorter@[i] != ':' by {
        assert(shorter@[i] == text[i - 1]);
    }
    assert forall|i: int| 0 < i < longer@.len() implies longer@[i] != ':' by {
        if i < shorter@.len() {
            assert(longer@[i] == shorter@[i]);
        }
    }
    lemma_colon_is(shorter@, 0, 0);
    lemma_colon_is(shorter@, 1, shorter@.len() as int);
    lemma_colon_is(longer@, 0, 0);
    lemma_colon_is(longer@, 1, longer@.len() as int);
    assert(shorter@.subrange(1, shorter@.len() as int) =~= text);
    assert(longer@.subrange(1, longer@.len() as int) =~= text.push(c));
    lemma_one_more(text, c);
}

/// The address that the user gave is taken as it is. Without one the address depends on nothing but
/// the family of the server, is of that family, and leaves address and port open.
pub proof fn law_clients_bind_in_the_family_of_the_server(
    local: Option<SocketAddr>,
    server: SocketAddr,
    addr: SocketAddr,
)
    requires
        call_ensures(bind_addr, (local, server), addr),
    ensures
        call_requires(bind_addr, (local, server)),
        local matches Some(given) ==> addr == given,
        local is None ==> {
            &&& server.ip is V4 ==> addr.ip == IpAddr::V4(0)
            &&& server.ip is V6 ==> addr.ip == IpAddr::V6(0)
            &&& addr.port == 0
            &&& addr.flowinfo == 0
            &&& addr.scope_id == 0
        },
{
}

/// What is said of a port that is none is the same whatever is wrong with it, and what caused it
/// tells the errors apart.
pub proof fn law_port_errors_are_told_apart_by_their_causes(
    one: PortError,
    message: String,
    cause: String,
)
    requires
        call_ensures(PortError::message, (&one,), message),
        call_ensures(PortError::cause, (&one,), cause),
    ensures
        call_requires(PortError::message, (&one,)),
        call_requires(PortError::cause, (&one,)),
        message@ == "parsing port"@,
        match one {
            PortError::Empty => cause@ == "cannot parse integer from empty string"@,
            PortError::InvalidDigit => cause@ == "invalid digit found in string"@,
            PortError::TooLarge => cause@ == "number too large to fit in target type"@,
        },
{
}

} // verus!
