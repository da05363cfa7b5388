//! Public hostnames and addresses.

use vstd::prelude::*;
use vstd::string::*;

use crate::handshake::law_typed_forms_agree;
use crate::identity::is_subdomain;
use crate::shared::{label_char, normalize, valid_label, DEFAULT_MC_PORT};
use crate::text::{
    decimal, law_decimal_reads_back, lower, number_read, push_decimal, string_from_chars, text_of,
};

verus! {

/// The public hostname of a route: `[label.]subdomain.base`.
pub open spec fn hostname_of(
    label: Option<Seq<char>>,
    subdomain: Seq<char>,
    base: Seq<char>,
) -> Seq<char> {
    match label {
        Some(l) => l + seq!['.'] + subdomain + seq!['.'] + base,
        None => subdomain + seq!['.'] + base,
    }
}

/// The address players type for a hostname on a port; the default port is left out.
pub open spec fn address_of(hostname: Seq<char>, port: u16) -> Seq<char> {
    if port == DEFAULT_MC_PORT {
        hostname
    } else {
        hostname + seq![':'] + decimal(port as nat)
    }
}

/// The hostname in an address: all before its first colon.
pub open spec fn host_of(address: Seq<char>) -> Seq<char>
    decreases address.len(),
{
    if address.len() == 0 || address[0] == ':' {
        Seq::empty()
    } else {
        seq![address[0]] + host_of(address.drop_first())
    }
}

/// The public hostname of a route.
pub fn route_hostname(label: &Option<String>, subdomain: &str, base: &str) -> (res: String)
    ensures
        res@ == hostname_of(text_of(*label), subdomain@, base@),
{
    let mut out: String = String::new();
    match label {
        Some(l) => {
            out.append(l.as_str());
            out.push('.');
        },
        None => {},
    }
    out.append(subdomain);
    out.push('.');
    out.append(base);
    assert(out@ =~= hostname_of(text_of(*label), subdomain@, base@));
    out
}

/// The address players type for a hostname on a port.
pub fn public_address(hostname: &str, port: u16) -> (res: String)
    ensures
        res@ == address_of(hostname@, port),
{
    let mut out: String = String::new();
    out.append(hostname);
    assert(out@ =~= hostname@);
    if port != DEFAULT_MC_PORT {
        out.push(':');
        push_decimal(&mut out, port as u64);
        assert(out@ =~= address_of(hostname@, port));
    }
    out
}

/// The hostname in an address.
pub fn address_host(address: &str) -> (res: String)
    ensures
        res@ == host_of(address@),
{
    let mut chars: Vec<char> = Vec::new();
    let mut ended: bool = false;
    assert(address@.skip(0) =~= address@);
    assert(chars@ + host_of(address@) =~= host_of(address@));
    for c in it: address.chars()
        invariant
            it.seq() == address@,
            !ended ==> host_of(address@) == chars@ + host_of(address@.skip(it.index() as int)),
            ended ==> host_of(address@) == chars@,
    {
        if !ended {
            let ghost rest = address@.skip(it.index() as int);
            assert(rest[0] == c);
            assert(rest.drop_first() =~= address@.skip(it.index() + 1));
            if c == ':' {
                ended = true;
                assert(host_of(rest) =~= Seq::<char>::empty());
            } else {
                chars.push(c);
            }
        }
    }
    assert(chars@ =~= host_of(address@));
    string_from_chars(chars.as_slice())
}

/// Whether a text is free of a character.
pub open spec fn free_of(s: Seq<char>, c: char) -> bool {
    forall|i: int| 0 <= i < s.len() ==> #[trigger] s[i] != c
}

proof fn lemma_host(hostname: Seq<char>, rest: Seq<char>)
    requires
        free_of(hostname, ':'),
        rest.len() > 0 ==> rest[0] == ':',
    ensures
        host_of(hostname + rest) == hostname,
    decreases hostname.len(),
{
    if hostname.len() == 0 {
        assert(host_of(hostname + rest) =~= hostname);
    } else {
        assert((hostname + rest).drop_first() =~= hostname.drop_first() + rest);
        lemma_host(hostname.drop_first(), rest);
        assert(seq![hostname[0]] + hostname.drop_first() =~= hostname);
    }
}

/// A client finds in a public address the very hostname it was made for.
pub proof fn law_address_keeps_host(hostname: Seq<char>, port: u16)
    requires
        free_of(hostname, ':'),
    ensures
        host_of(address_of(hostname, port)) == hostname,
{
    if port == DEFAULT_MC_PORT {
        lemma_host(hostname, Seq::empty());
        assert(hostname + Seq::<char>::empty() =~= hostname);
    } else {
        let rest = seq![':'] + decimal(port as nat);
        lemma_host(hostname, rest);
        assert(hostname + rest =~= address_of(hostname, port));
    }
}

proof fn lemma_label_has_no_dot(label: Seq<char>)
    requires
        valid_label(label),
    ensures
        free_of(label, '.'),
{
    assert forall|i: int| 0 <= i < label.len() implies #[trigger] label[i] != '.' by {
        assert(label_char(label[i]));
    }
}

proof fn lemma_split_at_dot(a: Seq<char>, x: Seq<char>, b: Seq<char>, y: Seq<char>)
    requires
        free_of(a, '.'),
        free_of(b, '.'),
        a + seq!['.'] + x == b + seq!['.'] + y,
    ensures
        a == b,
        x == y,
{
    let s = a + seq!['.'] + x;
    let t = b + seq!['.'] + y;
    assert(s[a.len() as int] == '.');
    assert(t[b.len() as int] == '.');
    if a.len() < b.len() {
        assert(t[a.len() as int] == b[a.len() as int]);
    } else if b.len() < a.len() {
        assert(s[b.len() as int] == a[b.len() as int]);
    }
    assert forall|i: int| 0 <= i < a.len() implies a[i] == b[i] by {
        assert(s[i] == a[i]);
        assert(t[i] == b[i]);
    }
    assert(a =~= b);
    assert(s.len() == a.len() + 1 + x.len());
    assert(t.len() == b.len() + 1 + y.len());
    assert forall|i: int| 0 <= i < x.len() implies x[i] == y[i] by {
        assert(s[a.len() + 1 + i] == x[i]);
        assert(t[a.len() + 1 + i] == y[i]);
    }
    assert(x =~= y);
}

/// Users never share a hostname: two routes have one hostname only where they have one
/// label and one subdomain.
pub proof fn law_hostnames_are_distinct(
    label1: Option<Seq<char>>,
    subdomain1: Seq<char>,
    label2: Option<Seq<char>>,
    subdomain2: Seq<char>,
    base: Seq<char>,
)
    requires
        label1 matches Some(l) ==> valid_label(l),
        label2 matches Some(l) ==> valid_label(l),
        is_subdomain(subdomain1),
        is_subdomain(subdomain2),
        hostname_of(label1, subdomain1, base) == hostname_of(label2, subdomain2, base),
    ensures
        label1 == label2,
        subdomain1 == subdomain2,
{
    assert(free_of(subdomain1, '.'));
    assert(free_of(subdomain2, '.'));
    let tail1 = subdomain1 + seq!['.'] + base;
    let tail2 = subdomain2 + seq!['.'] + base;
    match (label1, label2) {
        (Some(l1), Some(l2)) => {
            lemma_label_has_no_dot(l1);
            lemma_label_has_no_dot(l2);
            assert(hostname_of(label1, subdomain1, base) =~= l1 + seq!['.'] + tail1);
            assert(hostname_of(label2, subdomain2, base) =~= l2 + seq!['.'] + tail2);
            lemma_split_at_dot(l1, tail1, l2, tail2);
            lemma_split_at_dot(subdomain1, base, subdomain2, base);
        },
        (None, None) => {
            lemma_split_at_dot(subdomain1, base, subdomain2, base);
        },
        (Some(l1), None) => {
            lemma_label_has_no_dot(l1);
            assert(hostname_of(label1, subdomain1, base) =~= l1 + seq!['.'] + tail1);
            lemma_split_at_dot(l1, tail1, subdomain2, base);
            assert(tail1.len() > base.len());
        },
        (None, Some(l2)) => {
            lemma_label_has_no_dot(l2);
            assert(hostname_of(label2, subdomain2, base) =~= l2 + seq!['.'] + tail2);
            lemma_split_at_dot(l2, tail2, subdomain1, base);
            assert(tail2.len() > base.len());
        },
    }
}

/// A base domain as the handshake parser writes hostnames: not empty, in lower case,
/// without NUL and without a dot at its end.
pub open spec fn plain_base(base: Seq<char>) -> bool {
    base.len() > 0 && base.last() != '.' && lower(base) == base && free_of(base, '\0')
}

/// A registered hostname is what the parser makes of every form of it that a player may
/// type: in any case, with dots at its end, with what a modded client appends.
pub proof fn law_registered_hostname_is_reached(
    label: Option<Seq<char>>,
    subdomain: Seq<char>,
    base: Seq<char>,
    typed: Seq<char>,
    dots: nat,
    appended: Seq<char>,
)
    requires
        label matches Some(l) ==> valid_label(l),
        is_subdomain(subdomain),
        plain_base(base),
        lower(typed) == hostname_of(label, subdomain, base),
        appended.len() > 0 ==> appended[0] == '\0',
    ensures
        normalize(typed + Seq::new(dots, |i: int| '.') + appended) == hostname_of(
            label,
            subdomain,
            base,
        ),
{
    let name = hostname_of(label, subdomain, base);
    let n = name.len() - base.len();
    assert forall|i: int| 0 <= i < name.len() implies #[trigger] name[i] != '\0' by {
        if i >= n {
            assert(name[i] == base[i - n]);
        } else {
            match label {
                Some(l) => {
                    if i < l.len() {
                        assert(name[i] == l[i]);
                        assert(label_char(l[i]));
                    } else if l.len() < i < n - 1 {
                        assert(name[i] == subdomain[i - l.len() - 1]);
                    }
                },
                None => {
                    if i < n - 1 {
                        assert(name[i] == subdomain[i]);
                    }
                },
            }
        }
    }
    assert(name.last() == base.last());
    law_typed_forms_agree(typed, name, dots, appended);
}

/// A hostname is spelled from its parts: the label and a dot where there is one, then the
/// subdomain, a dot and the base domain.
pub proof fn law_hostname_is_spelled(
    label: Option<Seq<char>>,
    subdomain: Seq<char>,
    base: Seq<char>,
)
    ensures
        ({
            let name = hostname_of(label, subdomain, base);
            let start = match label {
                Some(l) => l.len() + 1int,
                None => 0int,
            };
            &&& name.len() == start + subdomain.len() + 1 + base.len()
            &&& label matches Some(l) ==> name.take(l.len() as int) == l && name[l.len() as int]
                == '.'
            &&& name.subrange(start, start + subdomain.len()) == subdomain
            &&& name[start + subdomain.len()] == '.'
            &&& name.skip(start + subdomain.len() + 1) == base
        }),
{
    let name = hostname_of(label, subdomain, base);
    match label {
        Some(l) => {
            let start = l.len() + 1;
            assert(name.take(l.len() as int) =~= l);
            assert(name.subrange(start as int, (start + subdomain.len()) as int) =~= subdomain);
            assert(name.skip((start + subdomain.len() + 1) as int) =~= base);
        },
        None => {
            assert(name.subrange(0, subdomain.len() as int) =~= subdomain);
            assert(name.skip(subdomain.len() + 1int) =~= base);
        },
    }
}

/// A hostname under a base domain of plain characters is read from a handshake exactly as
/// it was registered, when a player types it so.
pub proof fn law_registered_hostname_is_read_as_typed(
    label: Option<Seq<char>>,
    subdomain: Seq<char>,
    base: Seq<char>,
)
    requires
        label matches Some(l) ==> valid_label(l),
        is_subdomain(subdomain),
        base.len() > 0,
        base[base.len() - 1] != '.',
        forall|i: int| 0 <= i < base.len() ==> #[trigger] base[i] != '\0',
        forall|i: int| 0 <= i < base.len() ==> !('A' <= #[trigger] base[i] <= 'Z'),
    ensures
        lower(hostname_of(label, subdomain, base)) == hostname_of(label, subdomain, base),
        plain_base(base),
        normalize(hostname_of(label, subdomain, base)) == hostname_of(label, subdomain, base),
{
    let name = hostname_of(label, subdomain, base);
    let n = name.len() - base.len();
    assert forall|i: int| 0 <= i < name.len() implies !('A' <= #[trigger] name[i] <= 'Z') by {
        if i >= n {
            assert(name[i] == base[i - n]);
        } else {
            match label {
                Some(l) => {
                    if i < l.len() {
                        assert(name[i] == l[i]);
                        assert(label_char(l[i]));
                    } else if l.len() < i < n - 1 {
                        assert(name[i] == subdomain[i - l.len() - 1]);
                    }
                },
                None => {
                    if i < n - 1 {
                        assert(name[i] == subdomain[i]);
                    }
                },
            }
        }
    }
    assert(lower(base) =~= base);
    assert(lower(name) =~= name);
    law_registered_hostname_is_reached(label, subdomain, base, name, 0, Seq::empty());
    assert(name + Seq::new(0, |i: int| '.') + Seq::<char>::empty() =~= name);
}

/// The hostname in an address is all that stands before its first colon.
pub proof fn law_host_is_before_the_colon(address: Seq<char>)
    ensures
        host_of(address).len() <= address.len(),
        host_of(address) == address.take(host_of(address).len() as int),
        free_of(host_of(address), ':'),
        host_of(address).len() < address.len() ==> address[host_of(address).len() as int] == ':',
    decreases address.len(),
{
    if address.len() > 0 && address[0] != ':' {
        let rest = address.drop_first();
        law_host_is_before_the_colon(rest);
        let host = host_of(address);
        assert(host =~= address.take(host.len() as int)) by {
            assert forall|i: int| 0 <= i < host.len() implies host[i] == #[trigger] address[i] by {
                if i > 0 {
                    assert(host[i] == host_of(rest)[i - 1]);
                    assert(rest.take(host_of(rest).len() as int)[i - 1] == rest[i - 1]);
                }
            }
        }
        assert forall|i: int| 0 <= i < host.len() implies #[trigger] host[i] != ':' by {
            if i > 0 {
                assert(host[i] == host_of(rest)[i - 1]);
            }
        }
    } else {
        assert(host_of(address) =~= address.take(0));
    }
}

/// The port that a player reaches with an address: the number behind its colon, or the
/// default Minecraft port where it has none.
pub open spec fn port_read(address: Seq<char>) -> int {
    let n = host_of(address).len();
    if n == address.len() {
        25565
    } else {
        number_read(address.skip(n as int + 1))
    }
}

/// An address leads to the port it was made for, as well as to the host.
pub proof fn law_address_names_port(hostname: Seq<char>, port: u16)
    requires
        free_of(hostname, ':'),
    ensures
        port_read(address_of(hostname, port)) == port,
        host_of(address_of(hostname, port)) == hostname,
{
    law_address_keeps_host(hostname, port);
    if port != DEFAULT_MC_PORT {
        let digits = decimal(port as nat);
        law_decimal_reads_back(port as nat);
        assert(address_of(hostname, port).skip(hostname.len() as int + 1) =~= digits);
    }
}

/// Two routes with different hosts or ports never have the same address.
pub proof fn law_addresses_differ(host1: Seq<char>, port1: u16, host2: Seq<char>, port2: u16)
    requires
        free_of(host1, ':'),
        free_of(host2, ':'),
        address_of(host1, port1) == address_of(host2, port2),
    ensures
        host1 == host2,
        port1 == port2,
{
    law_address_names_port(host1, port1);
    law_address_names_port(host2, port2);
}

} // verus!
