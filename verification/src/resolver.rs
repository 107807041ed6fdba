//! Resolvers, their addresses, and the endpoints that they expose.

use vstd::prelude::*;

use crate::transport::Transport;

verus! {

/// The address of a host, in its usual notation.
#[derive(Clone, Debug)]
pub struct IpAddr {
    /// Whether this is an IPv4 address; an IPv6 address otherwise.
    pub v4: bool,
    /// The address as text.
    pub text: String,
}

impl IpAddr {
    /// A copy of the address.
    pub fn duplicate(&self) -> (r: IpAddr)
        ensures
            r == *self,
    {
        IpAddr { v4: self.v4, text: self.text.clone() }
    }
}

/// A DNS resolver and where it can be reached.
#[derive(Clone, Debug)]
pub struct Resolver {
    pub name: String,
    pub provider: String,
    pub ipv4: Vec<IpAddr>,
    pub ipv6: Vec<IpAddr>,
    /// The name on the certificate. Present if the operator publishes a DNS-over-TLS endpoint on
    /// the standard port at the addresses above.
    pub dot_hostname: Option<String>,
    /// The URL of the DNS-over-HTTPS endpoint.
    pub doh_url: Option<String>,
}

/// The first address of a list, as a list of at most one.
pub open spec fn first_of(addrs: Seq<IpAddr>) -> Seq<IpAddr> {
    if addrs.len() > 0 {
        seq![addrs[0]]
    } else {
        Seq::empty()
    }
}

/// The endpoints at one address: UDP, then DNS-over-TLS and DNS-over-HTTPS where offered.
pub open spec fn endpoints_at(addr: IpAddr, dot: Option<String>, doh: Option<String>) -> Seq<Transport> {
    let udp = seq![Transport::Udp { addr }];
    let dot_part = match dot {
        Some(tls_name) => seq![Transport::Dot { addr, tls_name }],
        None => Seq::empty(),
    };
    let doh_part = match doh {
        Some(url) => seq![Transport::Doh { url }],
        None => Seq::empty(),
    };
    udp + dot_part + doh_part
}

/// The endpoints at each address in turn.
pub open spec fn endpoints_at_all(addrs: Seq<IpAddr>, dot: Option<String>, doh: Option<String>) -> Seq<Transport>
    decreases addrs.len(),
{
    if addrs.len() == 0 {
        Seq::empty()
    } else {
        endpoints_at_all(addrs.drop_last(), dot, doh) + endpoints_at(addrs.last(), dot, doh)
    }
}

impl Resolver {
    /// The addresses that are probed: the first IPv4 address, and the first IPv6 address if
    /// IPv6 is enabled.
    pub open spec fn probed_addrs(self, include_ipv6: bool) -> Seq<IpAddr> {
        first_of(self.ipv4@) + (if include_ipv6 {
            first_of(self.ipv6@)
        } else {
            Seq::empty()
        })
    }

    /// The endpoints of this resolver: IPv4 first, then IPv6 if enabled.
    pub open spec fn spec_transports(self, include_ipv6: bool) -> Seq<Transport> {
        endpoints_at_all(self.probed_addrs(include_ipv6), self.dot_hostname, self.doh_url)
    }

    /// Primary address, IPv4 preferred, IPv6 fallback.
    pub fn primary_addr(&self) -> (r: Option<IpAddr>)
        ensures
            r == (if self.ipv4@.len() > 0 {
                Some(self.ipv4@[0])
            } else if self.ipv6@.len() > 0 {
                Some(self.ipv6@[0])
            } else {
                None::<IpAddr>
            }),
    {
        if self.ipv4.len() > 0 {
            Some(self.ipv4[0].duplicate())
        } else if self.ipv6.len() > 0 {
            Some(self.ipv6[0].duplicate())
        } else {
            None
        }
    }

    /// Every address, IPv4 first.
    pub fn all_addrs(&self) -> (r: Vec<IpAddr>)
        ensures
            r@ == self.ipv4@ + self.ipv6@,
    {
        let mut r: Vec<IpAddr> = Vec::new();
        append_addrs(&mut r, &self.ipv4);
        append_addrs(&mut r, &self.ipv6);
        r
    }

    /// Enumerate the transport endpoints this resolver exposes: IPv4 first, then IPv6 (if
    /// enabled), with UDP, DNS-over-TLS and DNS-over-HTTPS variants per address.
    pub fn transports(&self, include_ipv6: bool) -> (r: Vec<Transport>)
        ensures
            r@ == self.spec_transports(include_ipv6),
    {
        let mut out: Vec<Transport> = Vec::new();
        let ghost none = Seq::<IpAddr>::empty();
        assert(endpoints_at_all(none, self.dot_hostname, self.doh_url) == Seq::<Transport>::empty());
        if self.ipv4.len() > 0 {
            self.push_endpoints(&mut out, &self.ipv4[0], Ghost(none));
        }
        if include_ipv6 && self.ipv6.len() > 0 {
            self.push_endpoints(&mut out, &self.ipv6[0], Ghost(first_of(self.ipv4@)));
        }
        proof {
            let wanted = self.probed_addrs(include_ipv6);
            if self.ipv4@.len() > 0 {
                assert(none.push(self.ipv4@[0]) == first_of(self.ipv4@));
            }
            if include_ipv6 && self.ipv6@.len() > 0 {
                assert(first_of(self.ipv4@).push(self.ipv6@[0]) == wanted);
            } else {
                assert(wanted == first_of(self.ipv4@));
            }
        }
        out
    }

    fn push_endpoints(&self, out: &mut Vec<Transport>, addr: &IpAddr, before: Ghost<Seq<IpAddr>>)
        requires
            old(out)@ == endpoints_at_all(before@, self.dot_hostname, self.doh_url),
        ensures
            final(out)@ == endpoints_at_all(before@.push(*addr), self.dot_hostname, self.doh_url),
    {
        proof {
            assert(before@.push(*addr).drop_last() =~= before@);
        }
        let ghost start = out@;
        out.push(Transport::Udp { addr: addr.duplicate() });
        match &self.dot_hostname {
            Some(name) => {
                out.push(Transport::Dot { addr: addr.duplicate(), tls_name: name.clone() });
            },
            None => {},
        }
        match &self.doh_url {
            Some(url) => {
                out.push(Transport::Doh { url: url.clone() });
            },
            None => {},
        }
        assert(out@ =~= start + endpoints_at(*addr, self.dot_hostname, self.doh_url));
    }
}

fn append_addrs(r: &mut Vec<IpAddr>, more: &Vec<IpAddr>)
    ensures
        final(r)@ == old(r)@ + more@,
{
    let ghost start = r@;
    let mut i: usize = 0;
    assert(start + more@.take(0) == start);
    while i < more.len()
        invariant
            i <= more.len(),
            r@ == start + more@.take(i as int),
        decreases more.len() - i,
    {
        r.push(more[i].duplicate());
        assert(start + more@.take(i + 1) == (start + more@.take(i as int)).push(more@[i as int]));
        i = i + 1;
    }
    assert(more@.take(more.len() as int) == more@);
}

/// A resolver exposes at most six endpoints: UDP, DNS-over-TLS and DNS-over-HTTPS on IPv4, and
/// the same on IPv6.
pub proof fn law_at_most_six_endpoints(r: Resolver, include_ipv6: bool)
    ensures
        r.spec_transports(include_ipv6).len() <= 6,
        !include_ipv6 ==> r.spec_transports(include_ipv6).len() <= 3,
{
    let a = r.probed_addrs(include_ipv6);
    lemma_endpoint_count(a, r.dot_hostname, r.doh_url);
}

proof fn lemma_endpoint_count(addrs: Seq<IpAddr>, dot: Option<String>, doh: Option<String>)
    ensures
        addrs.len() <= endpoints_at_all(addrs, dot, doh).len() <= 3 * addrs.len(),
    decreases addrs.len(),
{
    if addrs.len() > 0 {
        lemma_endpoint_count(addrs.drop_last(), dot, doh);
    }
}

/// A resolver with an address of an enabled family can be probed.
pub proof fn law_addressed_resolver_has_endpoint(r: Resolver, include_ipv6: bool)
    requires
        r.ipv4@.len() > 0 || (include_ipv6 && r.ipv6@.len() > 0),
    ensures
        r.spec_transports(include_ipv6).len() > 0,
{
    lemma_endpoint_count(r.probed_addrs(include_ipv6), r.dot_hostname, r.doh_url);
}

/// `t` is an endpoint at the address `a`: over UDP, over DNS-over-TLS under the name on the
/// certificate, or over DNS-over-HTTPS at the URL.
pub open spec fn is_offered(r: Resolver, a: IpAddr, t: Transport) -> bool {
    match t {
        Transport::Udp { addr } => addr == a,
        Transport::Dot { addr, tls_name } => addr == a && r.dot_hostname == Some(tls_name),
        Transport::Doh { url } => r.doh_url == Some(url),
    }
}

/// A resolver is probed at its first IPv4 address, and at its first IPv6 address only where IPv6 is
/// enabled: over UDP always, over DNS-over-TLS under the name on the certificate where there is one,
/// and over DNS-over-HTTPS at its URL where there is one. It has no other endpoint.
pub proof fn law_endpoints_are_what_is_offered(r: Resolver, include_ipv6: bool, t: Transport)
    ensures
        r.spec_transports(include_ipv6).contains(t) <==> (r.ipv4@.len() > 0 && is_offered(r, r.ipv4@[0], t)
            || include_ipv6 && r.ipv6@.len() > 0 && is_offered(r, r.ipv6@[0], t)),
{
    let first = if r.ipv4@.len() > 0 {
        endpoints_at(r.ipv4@[0], r.dot_hostname, r.doh_url)
    } else {
        Seq::empty()
    };
    let second = if include_ipv6 && r.ipv6@.len() > 0 {
        endpoints_at(r.ipv6@[0], r.dot_hostname, r.doh_url)
    } else {
        Seq::empty()
    };
    lemma_transports_parts(r, include_ipv6);
    if r.ipv4@.len() > 0 {
        lemma_endpoints_at(r, r.ipv4@[0], t);
    }
    if include_ipv6 && r.ipv6@.len() > 0 {
        lemma_endpoints_at(r, r.ipv6@[0], t);
    }
    let all = first + second;
    if first.contains(t) {
        let i = choose|i: int| 0 <= i < first.len() && first[i] == t;
        assert(all[i] == t);
    }
    if second.contains(t) {
        let i = choose|i: int| 0 <= i < second.len() && second[i] == t;
        assert(all[first.len() + i] == t);
    }
    if all.contains(t) {
        let i = choose|i: int| 0 <= i < all.len() && all[i] == t;
        if i < first.len() {
            assert(first[i] == t);
        } else {
            assert(second[i - first.len()] == t);
        }
    }
}

proof fn lemma_endpoints_at(r: Resolver, a: IpAddr, t: Transport)
    ensures
        endpoints_at(a, r.dot_hostname, r.doh_url).contains(t) <==> is_offered(r, a, t),
{
    let part = endpoints_at(a, r.dot_hostname, r.doh_url);
    if is_offered(r, a, t) {
        match t {
            Transport::Udp { addr } => {
                assert(part[0] == t);
            },
            Transport::Dot { addr, tls_name } => {
                assert(part[1] == t);
            },
            Transport::Doh { url } => {
                assert(part[part.len() - 1] == t);
            },
        }
    }
    if part.contains(t) {
        let i = choose|i: int| 0 <= i < part.len() && part[i] == t;
        assert(part[i] == t);
    }
}

proof fn lemma_transports_parts(r: Resolver, include_ipv6: bool)
    ensures
        r.spec_transports(include_ipv6) == (if r.ipv4@.len() > 0 {
            endpoints_at(r.ipv4@[0], r.dot_hostname, r.doh_url)
        } else {
            Seq::empty()
        }) + (if include_ipv6 && r.ipv6@.len() > 0 {
            endpoints_at(r.ipv6@[0], r.dot_hostname, r.doh_url)
        } else {
            Seq::empty()
        }),
{
    let none = Seq::<IpAddr>::empty();
    let v4 = first_of(r.ipv4@);
    let all = r.probed_addrs(include_ipv6);
    assert(endpoints_at_all(none, r.dot_hostname, r.doh_url) == Seq::<Transport>::empty());
    let x = endpoints_at_all(v4, r.dot_hostname, r.doh_url);
    if r.ipv4@.len() > 0 {
        assert(v4.drop_last() =~= none);
        assert(x =~= endpoints_at(r.ipv4@[0], r.dot_hostname, r.doh_url));
    } else {
        assert(v4 =~= none);
    }
    if include_ipv6 && r.ipv6@.len() > 0 {
        assert(all.drop_last() =~= v4);
        assert(all.last() == r.ipv6@[0]);
    } else {
        assert(all =~= v4);
        assert(x + Seq::<Transport>::empty() =~= x);
    }
}

/// IPv6 adds endpoints behind those of IPv4, and changes none of them.
pub proof fn law_ipv6_comes_behind(r: Resolver)
    ensures
        r.spec_transports(false).is_prefix_of(r.spec_transports(true)),
        r.ipv6@.len() == 0 ==> r.spec_transports(true) == r.spec_transports(false),
        r.ipv6@.len() > 0 ==> r.spec_transports(true).len() > r.spec_transports(false).len(),
{
    let few = r.probed_addrs(false);
    let all = r.probed_addrs(true);
    assert(few =~= first_of(r.ipv4@));
    if r.ipv6@.len() > 0 {
        assert(all =~= few.push(r.ipv6@[0]));
        assert(all.drop_last() =~= few);
        let x = endpoints_at_all(few, r.dot_hostname, r.doh_url);
        let y = endpoints_at_all(all, r.dot_hostname, r.doh_url);
        assert(y.take(x.len() as int) =~= x);
    } else {
        assert(all =~= few);
    }
}

/// At each address UDP comes first, then DNS-over-TLS and then DNS-over-HTTPS, each where it is offered,
/// and every address has as many endpoints.
pub proof fn law_transports_come_in_order(r: Resolver)
    requires
        r.ipv4@.len() > 0,
    ensures
        ({
            let all = r.spec_transports(false);
            let n = 1 + (if r.dot_hostname is Some {
                1int
            } else {
                0
            }) + (if r.doh_url is Some {
                1int
            } else {
                0
            });
            &&& all.len() == n
            &&& all[0] == (Transport::Udp { addr: r.ipv4@[0] })
            &&& r.dot_hostname matches Some(tls_name) ==> all[1] == (Transport::Dot { addr: r.ipv4@[0], tls_name })
            &&& r.doh_url matches Some(url) ==> all[n - 1] == (Transport::Doh { url })
            &&& r.ipv6@.len() > 0 ==> {
                let both = r.spec_transports(true);
                &&& both.len() == 2 * n
                &&& both[n] == (Transport::Udp { addr: r.ipv6@[0] })
                &&& r.dot_hostname matches Some(tls_name) ==> both[n + 1] == (Transport::Dot {
                    addr: r.ipv6@[0],
                    tls_name,
                })
                &&& r.doh_url matches Some(url) ==> both[2 * n - 1] == (Transport::Doh { url })
            }
        }),
{
    lemma_transports_parts(r, false);
    lemma_transports_parts(r, true);
    let part = endpoints_at(r.ipv4@[0], r.dot_hostname, r.doh_url);
    assert(part + Seq::<Transport>::empty() =~= part);
}

} // verus!
