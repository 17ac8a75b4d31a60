use vstd::prelude::*;

use crate::text::chars_of;

verus! {

/// The pause between two requests, in nanoseconds, for a steady `rate` per second; a rate
/// of zero means no pacing.
pub open spec fn pacing_interval_spec(rate: u64) -> u64 {
    if rate == 0 {
        0
    } else {
        (1_000_000_000u64 / rate) as u64
    }
}

/// The pause between two requests for a steady rate.
pub fn pacing_interval_ns(rate_per_sec: u64) -> (r: u64)
    ensures
        r == pacing_interval_spec(rate_per_sec),
{
    if rate_per_sec == 0 {
        0
    } else {
        1_000_000_000u64 / rate_per_sec
    }
}

/// Why a connection to the connect step failed.
#[derive(Debug, Clone, Copy, PartialEq, Eq, Structural)]
pub enum ConnectErrorKind {
    AddrNotAvailable,
    AddrInUse,
    ConnectionRefused,
    Other,
}

/// The category a failed request is counted under.
#[derive(Debug, Clone, Copy, PartialEq, Eq, Structural)]
pub enum FailureKind {
    /// The client ran out of local addresses (ports).
    AddrUnavailable,
    /// Nobody listened.
    Refused,
    /// Any other connect failure.
    ConnectOther,
    /// Reading or writing after the connection was made.
    ReadWrite,
}

/// The category of a failure: during connect by its kind, otherwise a read/write failure.
pub open spec fn classify_spec(during_connect: bool, kind: ConnectErrorKind) -> FailureKind {
    if !during_connect {
        FailureKind::ReadWrite
    } else {
        match kind {
            ConnectErrorKind::AddrNotAvailable | ConnectErrorKind::AddrInUse => FailureKind::AddrUnavailable,
            ConnectErrorKind::ConnectionRefused => FailureKind::Refused,
            ConnectErrorKind::Other => FailureKind::ConnectOther,
        }
    }
}

/// Classifies a failed request.
pub fn classify_failure(during_connect: bool, kind: ConnectErrorKind) -> (r: FailureKind)
    ensures
        r == classify_spec(during_connect, kind),
{
    if !during_connect {
        FailureKind::ReadWrite
    } else {
        match kind {
            ConnectErrorKind::AddrNotAvailable | ConnectErrorKind::AddrInUse => FailureKind::AddrUnavailable,
            ConnectErrorKind::ConnectionRefused => FailureKind::Refused,
            ConnectErrorKind::Other => FailureKind::ConnectOther,
        }
    }
}

/// Whether most failures come from running out of local ports: at least half of them,
/// and at least one failure.
pub fn ports_exhausted(failures: usize, addr_unavailable: usize) -> (r: bool)
    requires
        2 * addr_unavailable <= usize::MAX,
    ensures
        r == (failures > 0 && 2 * addr_unavailable >= failures),
{
    failures > 0 && addr_unavailable * 2 >= failures
}

/// The decimal digits of `n`, without leading zeros.
pub open spec fn decimal(n: nat) -> Seq<char>
    decreases n,
{
    if n < 10 {
        seq![((n + 48) as u32) as char]
    } else {
        decimal(n / 10).push((((n % 10) + 48) as u32) as char)
    }
}

/// The decimal digits of `n`.
pub fn decimal_chars(n: u16) -> (r: Vec<char>)
    ensures
        r@ == decimal(n as nat),
    decreases n,
{
    let d = ((n % 10) as u8 + 48) as char;
    if n < 10 {
        let mut v: Vec<char> = Vec::new();
        v.push(d);
        assert(v@ =~= decimal(n as nat));
        v
    } else {
        let mut v = decimal_chars(n / 10);
        v.push(d);
        v
    }
}

/// `t` occurs in `s` as a contiguous run.
pub open spec fn occurs_in(t: Seq<char>, s: Seq<char>) -> bool {
    exists|i: int| 0 <= i && i + t.len() <= s.len() && #[trigger] s.subrange(i, i + t.len()) == t
}

/// Whether `t` occurs in `s`.
pub fn contains_chars(s: &Vec<char>, t: &Vec<char>) -> (r: bool)
    ensures
        r == occurs_in(t@, s@),
{
    let n = s.len();
    let m = t.len();
    if m > n {
        proof {
            assert forall|i: int| 0 <= i && i + t@.len() <= s@.len() implies #[trigger] s@.subrange(i, i + t@.len()) != t@ by {}
        }
        return false;
    }
    let mut i: usize = 0;
    while i <= n - m
        invariant
            m <= n,
            n == s@.len(),
            m == t@.len(),
            forall|k: int| 0 <= k < i ==> #[trigger] s@.subrange(k, k + m) != t@,
        decreases n - m + 1 - i,
    {
        let mut j: usize = 0;
        let mut same = true;
        while j < m
            invariant
                j <= m,
                i + m <= n,
                n == s@.len(),
                m == t@.len(),
                same == (forall|l: int| 0 <= l < j ==> s@[i + l] == t@[l]),
            decreases m - j,
        {
            if s[i + j] != t[j] {
                same = false;
            }
            j = j + 1;
        }
        if same {
            assert(s@.subrange(i as int, i + m) =~= t@);
            return true;
        }
        assert(s@.subrange(i as int, i + m) != t@) by {
            let l = choose|l: int| 0 <= l < m && s@[i + l] != t@[l];
            assert(s@.subrange(i as int, i + m)[l] == s@[i + l]);
        }
        i = i + 1;
    }
    proof {
        assert forall|k: int| 0 <= k && k + t@.len() <= s@.len() implies #[trigger] s@.subrange(k, k + t@.len()) != t@ by {
            assert(k < i);
        }
    }
    false
}

/// The first of `ports` whose number appears in `response`, if any.
pub open spec fn first_port_spec(response: Seq<char>, ports: Seq<u16>) -> Option<u16>
    decreases ports.len(),
{
    if ports.len() == 0 {
        None
    } else if occurs_in(decimal(ports[0] as nat), response) {
        Some(ports[0])
    } else {
        first_port_spec(response, ports.drop_first())
    }
}

/// The answer is attributed to the first port, in list order, whose number it mentions,
/// whichever position that port has (the last one included); when it mentions none it is
/// attributed to none, and whatever it is attributed to is a listed port that it mentions.
pub proof fn lemma_first_port_attribution(response: Seq<char>, ports: Seq<u16>, i: int)
    ensures
        0 <= i < ports.len() && occurs_in(decimal(ports[i] as nat), response) && (forall|j: int|
            0 <= j < i ==> !occurs_in(decimal(#[trigger] ports[j] as nat), response)) ==> first_port_spec(response, ports)
            == Some(ports[i]),
        (forall|j: int| 0 <= j < ports.len() ==> !occurs_in(decimal(#[trigger] ports[j] as nat), response))
            ==> first_port_spec(response, ports) is None,
        first_port_spec(response, ports) matches Some(p) ==> ports.contains(p) && occurs_in(decimal(p as nat), response),
    decreases ports.len(),
{
    if ports.len() > 0 {
        let rest = ports.drop_first();
        lemma_first_port_attribution(response, rest, i - 1);
        if 0 < i < ports.len() {
            if (forall|j: int| 0 <= j < i ==> !occurs_in(decimal(#[trigger] ports[j] as nat), response)) {
                assert(!occurs_in(decimal(ports[0] as nat), response));
                assert(forall|j: int| 0 <= j < i - 1 ==> !occurs_in(decimal(#[trigger] rest[j] as nat), response)) by {
                    assert forall|j: int| 0 <= j < i - 1 implies !occurs_in(decimal(#[trigger] rest[j] as nat), response) by {
                        assert(rest[j] == ports[j + 1]);
                    }
                }
            }
        }
        if forall|j: int| 0 <= j < ports.len() ==> !occurs_in(decimal(#[trigger] ports[j] as nat), response) {
            assert(!occurs_in(decimal(ports[0] as nat), response));
            assert forall|j: int| 0 <= j < rest.len() implies !occurs_in(decimal(#[trigger] rest[j] as nat), response) by {
                assert(rest[j] == ports[j + 1]);
            }
        }
        if first_port_spec(response, ports) is Some {
            let p = first_port_spec(response, ports)->0;
            if occurs_in(decimal(ports[0] as nat), response) {
                assert(ports[0] == p);
                assert(ports.contains(p));
            } else {
                let k = choose|k: int| 0 <= k < rest.len() && rest[k] == p;
                assert(ports[k + 1] == p);
            }
        }
    }
}

/// Attributes a backend's answer to the first port it mentions.
pub fn first_port_mentioned(response: &str, ports: &Vec<u16>) -> (r: Option<u16>)
    ensures
        r == first_port_spec(response@, ports@),
{
    let s = chars_of(response);
    let n = ports.len();
    assert(ports@.skip(0) =~= ports@);
    for i in 0..n
        invariant
            n == ports@.len(),
            s@ == response@,
            first_port_spec(response@, ports@) == first_port_spec(response@, ports@.skip(i as int)),
    {
        assert(ports@.skip(i as int).drop_first() =~= ports@.skip(i + 1));
        assert(ports@.skip(i as int)[0] == ports@[i as int]);
        let digits = decimal_chars(ports[i]);
        if contains_chars(&s, &digits) {
            return Some(ports[i]);
        }
    }
    assert(ports@.skip(n as int) =~= Seq::<u16>::empty());
    None
}

} // verus!
