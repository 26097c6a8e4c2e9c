//! Bootstrap entries: `host[:port][@dns_server]` texts, and the addresses
//! worth announcing this node to.
use vstd::prelude::*;
use crate::members::{acceptable_peer, filter_bootstrap, PeerAddr};
use crate::sync::sample_indices;

verus! {

/// How many bootstrap addresses are announced to at most.
pub const RANDOM_NODES_CHOICES: usize = 10;

/// The first position at or after `from` that holds `b`, or the length.
pub open spec fn find_byte(s: Seq<u8>, from: int, b: u8) -> int
    decreases s.len() - from,
{
    if from >= s.len() {
        s.len() as int
    } else if s[from] == b {
        from
    } else {
        find_byte(s, from + 1, b)
    }
}

pub proof fn lemma_find_byte(s: Seq<u8>, from: int, b: u8)
    requires
        0 <= from <= s.len(),
    ensures
        from <= find_byte(s, from, b) <= s.len(),
        find_byte(s, from, b) < s.len() ==> s[find_byte(s, from, b)] == b,
    decreases s.len() - from,
{
    if from < s.len() && s[from] != b {
        lemma_find_byte(s, from + 1, b);
    }
}

fn find(s: &[u8], from: usize, b: u8) -> (r: usize)
    requires
        from <= s@.len(),
    ensures
        r == find_byte(s@, from as int, b),
        from <= r <= s@.len(),
{
    let mut i = from;
    while i < s.len() && s[i] != b
        invariant
            from <= i <= s@.len(),
            find_byte(s@, from as int, b) == find_byte(s@, i as int, b),
        decreases s@.len() - i,
    {
        i = i + 1;
    }
    i
}

/// The value of ASCII decimal digits.
pub open spec fn decimal_value(s: Seq<u8>) -> int
    decreases s.len(),
{
    if s.len() == 0 {
        0
    } else {
        10 * decimal_value(s.drop_last()) + (s.last() - 48)
    }
}

pub open spec fn all_digits(s: Seq<u8>) -> bool {
    forall|i: int| 0 <= i < s.len() ==> 48 <= #[trigger] s[i] <= 57
}

/// The port that decimal digits spell: at least one digit, for a value that
/// fits 16 bits.
pub open spec fn digits_port(digits: Seq<u8>) -> Option<u16> {
    if digits.len() > 0 && all_digits(digits) && decimal_value(digits) <= 65535 {
        Some(decimal_value(digits) as u16)
    } else {
        None
    }
}

/// The port a text spells: optionally `+`, then the digits.
pub open spec fn port_of(s: Seq<u8>) -> Option<u16> {
    if s.len() > 0 && s[0] == 43 {
        digits_port(s.drop_first())
    } else {
        digits_port(s)
    }
}

proof fn lemma_decimal_value_nonneg(s: Seq<u8>)
    requires
        all_digits(s),
    ensures
        decimal_value(s) >= 0,
    decreases s.len(),
{
    if s.len() > 0 {
        lemma_decimal_value_nonneg(s.drop_last());
    }
}

proof fn lemma_decimal_value_grows(s: Seq<u8>)
    requires
        all_digits(s),
        s.len() > 0,
    ensures
        decimal_value(s) >= decimal_value(s.drop_last()),
{
    lemma_decimal_value_nonneg(s.drop_last());
}

/// Reads the port that `s[start..end]` spells.
pub fn parse_port(s: &[u8], start: usize, end: usize) -> (r: Option<u16>)
    requires
        start <= end <= s@.len(),
    ensures
        r == port_of(s@.subrange(start as int, end as int)),
{
    let ghost t = s@.subrange(start as int, end as int);
    let mut i = start;
    if i < end && s[i] == 43 {
        i = i + 1;
    }
    let ghost digits = s@.subrange(i as int, end as int);
    proof {
        if start < end && s@[start as int] == 43 {
            assert(t.drop_first() =~= digits);
        } else {
            assert(t =~= digits);
        }
    }
    if i == end {
        return None;
    }
    let first = i;
    let mut value: u32 = 0;
    while i < end
        invariant
            first <= i <= end <= s@.len(),
            digits == s@.subrange(first as int, end as int),
            port_of(s@.subrange(start as int, end as int)) == digits_port(digits),
            digits.len() > 0,
            all_digits(s@.subrange(first as int, i as int)),
            value as int == decimal_value(s@.subrange(first as int, i as int)),
            value <= 65535,
        decreases end - i,
    {
        let c = s[i];
        if c < 48 || c > 57 {
            proof {
                assert(digits[i - first] == c);
                assert(!all_digits(digits));
            }
            return None;
        }
        let ghost prefix = s@.subrange(first as int, i + 1);
        proof {
            assert(prefix.drop_last() =~= s@.subrange(first as int, i as int));
            assert(all_digits(prefix));
        }
        let next = value * 10 + (c - 48) as u32;
        if next > 65535 {
            proof {
                assert(prefix.last() == c);
                assert(decimal_value(prefix) == 10 * decimal_value(prefix.drop_last()) + (c - 48));
                assert(decimal_value(prefix) > 65535);
                lemma_prefix_grows(s@, first as int, i + 1, end as int);
            }
            return None;
        }
        proof {
            assert(prefix.last() == c);
        }
        value = next;
        i = i + 1;
    }
    proof {
        assert(s@.subrange(first as int, i as int) =~= digits);
    }
    Some(value as u16)
}

proof fn lemma_prefix_grows(s: Seq<u8>, first: int, k: int, end: int)
    requires
        0 <= first <= k <= end <= s.len(),
    ensures
        all_digits(s.subrange(first, end)) ==> decimal_value(s.subrange(first, k)) <= decimal_value(
            s.subrange(first, end),
        ),
    decreases end - k,
{
    if k < end && all_digits(s.subrange(first, end)) {
        lemma_prefix_grows(s, first, k + 1, end);
        let p = s.subrange(first, k + 1);
        assert(p.drop_last() =~= s.subrange(first, k));
        assert(all_digits(p)) by {
            assert forall|i: int| 0 <= i < p.len() implies 48 <= #[trigger] p[i] <= 57 by {
                assert(p[i] == s.subrange(first, end)[i]);
            }
        }
        lemma_decimal_value_grows(p);
    }
}

pub open spec fn min_int(a: int, b: int) -> int {
    if a < b {
        a
    } else {
        b
    }
}

/// A bootstrap entry that is not an address by itself:
/// `host[:port][@dns_server]`, as byte ranges of the entry.
#[derive(Clone, Copy, Debug, PartialEq, Eq)]
pub struct BootstrapEntry {
    /// The host name to resolve.
    pub host: (usize, usize),
    /// The port to use, or the default one when none is spelled.
    pub port: u16,
    /// The name server to ask, when one is given.
    pub dns_server: Option<(usize, usize)>,
}

/// Splits a bootstrap entry: the text before the first `@` holds the host
/// and, after its first `:`, the port; the text after the first `@` (up to
/// any next one) names the name server.
pub fn parse_bootstrap_entry(s: &[u8], default_port: u16) -> (r: BootstrapEntry)
    ensures
        ({
            let at = find_byte(s@, 0, 64);
            let colon = min_int(find_byte(s@, 0, 58), at);
            &&& r.host == (0usize, colon as usize)
            &&& r.port == if colon < at {
                let end = min_int(find_byte(s@, colon + 1, 58), at);
                match port_of(s@.subrange(colon + 1, end)) {
                    Some(p) => p,
                    None => default_port,
                }
            } else {
                default_port
            }
            &&& r.dns_server == if at < s@.len() {
                Some(((at + 1) as usize, find_byte(s@, at + 1, 64) as usize))
            } else {
                None::<(usize, usize)>
            }
        }),
{
    let at = find(s, 0, 64);
    let first_colon = find(s, 0, 58);
    let colon = if first_colon < at {
        first_colon
    } else {
        at
    };
    let port = if colon < at {
        let next_colon = find(s, colon + 1, 58);
        let end = if next_colon < at {
            next_colon
        } else {
            at
        };
        match parse_port(s, colon + 1, end) {
            Some(p) => p,
            None => default_port,
        }
    } else {
        default_port
    };
    let dns_server = if at < s.len() {
        Some((at + 1, find(s, at + 1, 64)))
    } else {
        None
    };
    BootstrapEntry { host: (0, colon), port, dns_server }
}

/// Up to `RANDOM_NODES_CHOICES` of `addrs`, drawn at random.
pub fn choose_bootstrap(addrs: &Vec<PeerAddr>) -> (r: Vec<PeerAddr>)
    ensures
        r@.len() == min_int(addrs@.len() as int, RANDOM_NODES_CHOICES as int),
        forall|i: int| 0 <= i < r@.len() ==> addrs@.contains(#[trigger] r@[i]),
        (forall|i: int, j: int| 0 <= i < j < addrs@.len() ==> addrs@[i] != addrs@[j]) ==> (forall|
            i: int,
            j: int,
        | 0 <= i < j < r@.len() ==> r@[i] != r@[j]),
{
    let amount = if addrs.len() < RANDOM_NODES_CHOICES {
        addrs.len()
    } else {
        RANDOM_NODES_CHOICES
    };
    let picks = sample_indices(addrs.len(), amount);
    let mut out: Vec<PeerAddr> = Vec::new();
    let mut i: usize = 0;
    while i < picks.len()
        invariant
            i <= picks@.len() == amount,
            forall|j: int| 0 <= j < picks@.len() ==> #[trigger] picks@[j] < addrs@.len(),
            forall|j: int, k: int| 0 <= j < k < picks@.len() ==> picks@[j] != picks@[k],
            out@.len() == i,
            forall|j: int| 0 <= j < i ==> #[trigger] out@[j] == addrs@[picks@[j] as int],
        decreases picks@.len() - i,
    {
        out.push(addrs[picks[i]]);
        i = i + 1;
    }
    proof {
        assert forall|j: int| 0 <= j < out@.len() implies addrs@.contains(#[trigger] out@[j]) by {
            assert(out@[j] == addrs@[picks@[j] as int]);
        }
    }
    out
}

/// No address of `s` is acceptable.
pub open spec fn none_acceptable(ours: PeerAddr, s: Seq<PeerAddr>) -> bool {
    forall|i: int| 0 <= i < s.len() ==> !acceptable_peer(ours, #[trigger] s[i])
}

/// Where bootstrap addresses come from: the resolved ones when one of them
/// is acceptable, else the stored ones.
pub open spec fn bootstrap_source(ours: PeerAddr, resolved: Seq<PeerAddr>, stored: Seq<PeerAddr>) -> Seq<
    PeerAddr,
> {
    if none_acceptable(ours, resolved) {
        stored
    } else {
        resolved
    }
}

/// The addresses to announce this node to: the acceptable ones among those
/// the bootstrap entries resolved to or, when there is none, among the
/// stored members' addresses; at most `RANDOM_NODES_CHOICES` of them, drawn
/// at random.
pub fn generate_bootstrap(ours: PeerAddr, resolved: &Vec<PeerAddr>, stored: &Vec<PeerAddr>) -> (r:
    Vec<PeerAddr>)
    ensures
        forall|i: int|
            0 <= i < r@.len() ==> bootstrap_source(ours, resolved@, stored@).contains(#[trigger] r@[i])
                && acceptable_peer(ours, r@[i]),
        forall|i: int, j: int| 0 <= i < j < r@.len() ==> r@[i] != r@[j],
        r@.len() == 0 <==> none_acceptable(ours, bootstrap_source(ours, resolved@, stored@)),
{
    let ghost source = bootstrap_source(ours, resolved@, stored@);
    let mut addrs = filter_bootstrap(ours, resolved);
    if addrs.len() == 0 {
        proof {
            assert forall|i: int| 0 <= i < resolved@.len() implies !acceptable_peer(ours, #[trigger] resolved@[i]) by {
                if acceptable_peer(ours, resolved@[i]) {
                    assert(resolved@.contains(resolved@[i]));
                    assert(addrs@.contains(resolved@[i]));
                }
            }
        }
        addrs = filter_bootstrap(ours, stored);
    } else {
        proof {
            assert(addrs@.contains(addrs@[0]));
            let k = choose|k: int| 0 <= k < resolved@.len() && resolved@[k] == addrs@[0];
            assert(acceptable_peer(ours, resolved@[k]));
        }
    }
    assert(forall|a: PeerAddr| #[trigger] addrs@.contains(a) <==> (source.contains(a) && acceptable_peer(ours, a)));
    assert(forall|i: int, j: int| 0 <= i < j < addrs@.len() ==> addrs@[i] != addrs@[j]);
    let r = choose_bootstrap(&addrs);
    proof {
        assert forall|i: int| 0 <= i < r@.len() implies source.contains(#[trigger] r@[i]) && acceptable_peer(ours, r@[i]) by {
            assert(addrs@.contains(r@[i]));
        }
        if r@.len() == 0 {
            assert forall|i: int| 0 <= i < source.len() implies !acceptable_peer(ours, #[trigger] source[i]) by {
                if acceptable_peer(ours, source[i]) {
                    assert(source.contains(source[i]));
                    assert(addrs@.contains(source[i]));
                }
            }
        } else {
            assert(addrs@.contains(r@[0]));
            assert(source.contains(r@[0]));
            let k = choose|k: int| 0 <= k < source.len() && source[k] == r@[0];
            assert(acceptable_peer(ours, source[k]));
        }
    }
    r
}

} // verus!
