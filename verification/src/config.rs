//! What the command line and the route file of the program mean.

use std::ops::RangeInclusive;
use vstd::prelude::*;
use vstd::string::*;

use crate::address::{address_of, hostname_of};
use crate::client::{routes_of, Identity, Route, RouteView};
use crate::limits::IpAddr;
use crate::shared::DEFAULT_MC_PORT;
use crate::text::{text_of, texts};

verus! {

/// One route entry of a route file.
#[derive(Debug)]
pub struct RouteConfig {
    /// Optional sub-label.
    pub label: Option<String>,
    /// Local host, unless it is this machine.
    pub local_host: Option<String>,
    /// Local port.
    pub local_port: u16,
    /// Public port, unless it is the default one.
    pub public_port: Option<u16>,
}

/// What a [`RouteConfig`] says.
pub struct RouteConfigView {
    /// Optional sub-label.
    pub label: Option<Seq<char>>,
    /// Local host, unless it is this machine.
    pub local_host: Option<Seq<char>>,
    /// Local port.
    pub local_port: u16,
    /// Public port, unless it is the default one.
    pub public_port: Option<u16>,
}

impl View for RouteConfig {
    type V = RouteConfigView;

    open spec fn view(&self) -> RouteConfigView {
        RouteConfigView {
            label: text_of(self.label),
            local_host: text_of(self.local_host),
            local_port: self.local_port,
            public_port: self.public_port,
        }
    }
}

/// Why the command line cannot be followed.
#[derive(Debug, Clone, Copy, PartialEq, Eq, Structural)]
pub enum ConfigError {
    /// The route file has no routes.
    NoRoutes,
    /// There is neither a route file nor a local port.
    NoLocalPort,
    /// There is only one of subdomain and token.
    HalfIdentity,
    /// There is no port to claim.
    EmptyRange,
}

/// The text that says why the command line cannot be followed.
pub open spec fn config_error_text(error: ConfigError) -> Seq<char> {
    match error {
        ConfigError::NoRoutes => "config has no routes"@,
        ConfigError::NoLocalPort => "a local_port is required unless --config is given"@,
        ConfigError::HalfIdentity => "--subdomain and --token must be provided together"@,
        ConfigError::EmptyRange => "port range is empty"@,
    }
}

impl ConfigError {
    /// The text that says why the command line cannot be followed.
    pub fn message(&self) -> (res: String)
        ensures
            res@ == config_error_text(*self),
    {
        match self {
            ConfigError::NoRoutes => "config has no routes".to_string(),
            ConfigError::NoLocalPort => {
                "a local_port is required unless --config is given".to_string()
            },
            ConfigError::HalfIdentity => {
                "--subdomain and --token must be provided together".to_string()
            },
            ConfigError::EmptyRange => "port range is empty".to_string(),
        }
    }
}

/// The route that an entry of a route file stands for: on this machine and the default
/// port, unless it says otherwise.
pub open spec fn configured(entry: RouteConfigView) -> RouteView {
    RouteView {
        label: entry.label,
        public_port: match entry.public_port {
            Some(port) => port,
            None => DEFAULT_MC_PORT,
        },
        local_host: match entry.local_host {
            Some(host) => host,
            None => "localhost"@,
        },
        local_port: entry.local_port,
    }
}

/// The routes that the entries of a route file stand for.
pub open spec fn all_configured(entries: Seq<RouteConfig>) -> Seq<RouteView> {
    Seq::new(entries.len(), |i: int| configured(entries[i]@))
}

/// The routes to expose: those of the route file where there is one, else the one that
/// the command line names.
pub open spec fn routes_wanted(
    config: Option<Vec<RouteConfig>>,
    local_port: Option<u16>,
    local_host: Seq<char>,
    port: u16,
    label: Option<Seq<char>>,
) -> Result<Seq<RouteView>, ConfigError> {
    match config {
        Some(entries) => if entries@.len() == 0 {
            Err(ConfigError::NoRoutes)
        } else {
            Ok(all_configured(entries@))
        },
        None => match local_port {
            Some(p) => Ok(
                seq![RouteView { label, public_port: port, local_host, local_port: p }],
            ),
            None => Err(ConfigError::NoLocalPort),
        },
    }
}

/// The route that an entry of a route file stands for.
pub fn route_from(entry: &RouteConfig) -> (res: Route)
    ensures
        res@ == configured(entry@),
{
    Route {
        label: match &entry.label {
            Some(label) => Some(label.clone()),
            None => None,
        },
        public_port: match entry.public_port {
            Some(port) => port,
            None => DEFAULT_MC_PORT,
        },
        local_host: match &entry.local_host {
            Some(host) => host.clone(),
            None => "localhost".to_string(),
        },
        local_port: entry.local_port,
    }
}

/// The routes to expose, from the entries of the route file or from the command line.
pub fn load_routes(
    config: Option<Vec<RouteConfig>>,
    local_port: Option<u16>,
    local_host: String,
    port: u16,
    label: Option<String>,
) -> (res: Result<Vec<Route>, ConfigError>)
    ensures
        match res {
            Ok(routes) => routes_wanted(
                config,
                local_port,
                local_host@,
                port,
                text_of(label),
            ) == Ok::<Seq<RouteView>, ConfigError>(routes_of(routes@)),
            Err(error) => routes_wanted(
                config,
                local_port,
                local_host@,
                port,
                text_of(label),
            ) == Err::<Seq<RouteView>, ConfigError>(error),
        },
{
    match config {
        Some(entries) => {
            if entries.len() == 0 {
                return Err(ConfigError::NoRoutes);
            }
            let mut routes: Vec<Route> = Vec::new();
            let mut i: usize = 0;
            while i < entries.len()
                invariant
                    i <= entries@.len(),
                    routes@.len() == i,
                    forall|j: int|
                        0 <= j < i ==> (#[trigger] routes@[j])@ == configured(entries@[j]@),
                decreases entries@.len() - i,
            {
                routes.push(route_from(&entries[i]));
                i = i + 1;
            }
            assert(routes_of(routes@) =~= all_configured(entries@));
            Ok(routes)
        },
        None => match local_port {
            Some(local_port) => {
                let route: Route = Route { label, public_port: port, local_host, local_port };
                let mut routes: Vec<Route> = Vec::new();
                routes.push(route);
                assert(routes_of(routes@) =~= seq![route@]);
                Ok(routes)
            },
            None => Err(ConfigError::NoLocalPort),
        },
    }
}

/// The identity to authenticate with: both a subdomain and a token, or neither.
pub fn pair_identity(subdomain: Option<String>, token: Option<String>) -> (res: Result<
    Option<Identity>,
    ConfigError,
>)
    ensures
        match res {
            Ok(Some((s, t))) => text_of(subdomain) == Some(s@) && text_of(token) == Some(t@),
            Ok(None) => subdomain is None && token is None,
            Err(error) => {
                error == ConfigError::HalfIdentity && (subdomain is Some) != (token is Some)
            },
        },
{
    match (subdomain, token) {
        (Some(subdomain), Some(token)) => Ok(Some((subdomain, token))),
        (None, None) => Ok(None),
        _ => Err(ConfigError::HalfIdentity),
    }
}

/// The ports that clients may claim; there must be one.
pub fn port_range(min_port: u16, max_port: u16) -> (res: Result<RangeInclusive<u16>, ConfigError>)
    ensures
        match res {
            Ok(range) => {
                &&& min_port <= max_port
                &&& range@.start == min_port
                &&& range@.end == max_port
                &&& !range@.exhausted
            },
            Err(error) => error == ConfigError::EmptyRange && min_port > max_port,
        },
{
    if min_port > max_port {
        Err(ConfigError::EmptyRange)
    } else {
        Ok(RangeInclusive::new(min_port, max_port))
    }
}

/// The address that public listeners bind to: that of the control server, unless another
/// is given.
pub fn tunnels_or(bind_tunnels: Option<IpAddr>, bind_addr: IpAddr) -> (res: IpAddr)
    ensures
        res == (match bind_tunnels {
            Some(addr) => addr,
            None => bind_addr,
        }),
{
    match bind_tunnels {
        Some(addr) => addr,
        None => bind_addr,
    }
}

/// The line that tells of a newly issued identity.
pub open spec fn identity_line(subdomain: Seq<char>, token: Seq<char>) -> Seq<char> {
    "BFTUNNEL_IDENTITY subdomain="@ + subdomain + " token="@ + token
}

/// The line that tells of a public address.
pub open spec fn address_line(address: Seq<char>) -> Seq<char> {
    "BFTUNNEL_ADDRESS "@ + address
}

/// The machine-readable lines to print at startup: the identity, only where it is new,
/// and the address of each route.
pub open spec fn lines_at_startup(
    issued: Option<(Seq<char>, Seq<char>)>,
    addresses: Seq<Seq<char>>,
) -> Seq<Seq<char>> {
    let first = match issued {
        Some((subdomain, token)) => seq![identity_line(subdomain, token)],
        None => Seq::empty(),
    };
    first + Seq::new(addresses.len(), |i: int| address_line(addresses[i]))
}

/// The machine-readable lines to print at startup.
pub fn startup_lines(issued: Option<&Identity>, addresses: &[String]) -> (res: Vec<String>)
    ensures
        texts(res@) == lines_at_startup(
            match issued {
                Some(identity) => Some((identity.0@, identity.1@)),
                None => None,
            },
            texts(addresses@),
        ),
{
    let mut out: Vec<String> = Vec::new();
    if let Some(identity) = issued {
        let mut line: String = "BFTUNNEL_IDENTITY subdomain=".to_string();
        line.append(identity.0.as_str());
        line.append(" token=");
        line.append(identity.1.as_str());
        out.push(line);
    }
    let ghost first = texts(out@);
    let mut i: usize = 0;
    assert(texts(out@) =~= first + Seq::new(0, |j: int| address_line(addresses@[j]@)));
    while i < addresses.len()
        invariant
            i <= addresses@.len(),
            texts(out@) == first + Seq::new(i as nat, |j: int| address_line(addresses@[j]@)),
        decreases addresses@.len() - i,
    {
        let mut line: String = "BFTUNNEL_ADDRESS ".to_string();
        line.append(addresses[i].as_str());
        let ghost before = out@;
        out.push(line);
        assert(texts(out@) =~= texts(before).push(address_line(addresses@[i as int]@)));
        i = i + 1;
        assert(texts(out@) =~= first + Seq::new(
            i as nat,
            |j: int| address_line(addresses@[j]@),
        ));
    }
    assert(texts(out@) =~= lines_at_startup(
        match issued {
            Some(identity) => Some((identity.0@, identity.1@)),
            None => None,
        },
        texts(addresses@),
    ));
    out
}

/// An entry that names no public port is exposed on the default Minecraft port, whatever
/// its local side is, so that its address under a subdomain is the bare hostname.
pub proof fn law_entry_without_port_has_bare_address(
    entry: RouteConfigView,
    subdomain: Seq<char>,
    base: Seq<char>,
)
    requires
        entry.public_port is None,
    ensures
        configured(entry).public_port == 25565,
        address_of(
            hostname_of(configured(entry).label, subdomain, base),
            configured(entry).public_port,
        ) == hostname_of(entry.label, subdomain, base),
{
}

/// What an entry names is what its route has, and the local side of an entry does not
/// decide its public side: two entries with one label and one public port, or with none,
/// are exposed alike.
pub proof fn law_entry_is_followed(entry: RouteConfigView, other: RouteConfigView)
    ensures
        configured(entry).label == entry.label,
        configured(entry).local_port == entry.local_port,
        entry.public_port matches Some(port) ==> configured(entry).public_port == port,
        entry.local_host matches Some(host) ==> configured(entry).local_host == host,
        entry.local_host is None ==> configured(entry).local_host == "localhost"@,
        entry.public_port == other.public_port ==> configured(entry).public_port == configured(
            other,
        ).public_port,
{
}

/// The routes of a route file are those of its entries, one for each and in their order,
/// and no file may be without; the command line stands for one route, which has to name
/// its local port.
pub proof fn law_every_entry_is_exposed(
    entries: Vec<RouteConfig>,
    local_port: Option<u16>,
    local_host: Seq<char>,
    port: u16,
    label: Option<Seq<char>>,
)
    ensures
        ({
            let wanted = routes_wanted(Some(entries), local_port, local_host, port, label);
            if entries@.len() == 0 {
                wanted == Err::<Seq<RouteView>, ConfigError>(ConfigError::NoRoutes)
            } else {
                &&& wanted is Ok
                &&& wanted->Ok_0.len() == entries@.len()
                &&& forall|i: int|
                    0 <= i < entries@.len() ==> {
                        &&& (#[trigger] wanted->Ok_0[i]).local_port == entries@[i].local_port
                        &&& wanted->Ok_0[i].label == text_of(entries@[i].label)
                        &&& wanted->Ok_0[i].public_port == (match entries@[i].public_port {
                            Some(p) => p,
                            None => 25565,
                        })
                    }
            }
        }),
        ({
            let wanted = routes_wanted(None, local_port, local_host, port, label);
            match local_port {
                Some(p) => {
                    &&& wanted is Ok
                    &&& wanted->Ok_0.len() == 1
                    &&& wanted->Ok_0[0].label == label
                    &&& wanted->Ok_0[0].public_port == port
                    &&& wanted->Ok_0[0].local_host == local_host
                    &&& wanted->Ok_0[0].local_port == p
                },
                None => wanted == Err::<Seq<RouteView>, ConfigError>(ConfigError::NoLocalPort),
            }
        }),
{
}

/// What is printed at startup can be read back: behind the words of each line stand the
/// address it tells of, or the subdomain and the token, and there is one line for each
/// address, in order, after that of a new identity.
pub proof fn law_startup_lines_read_back(
    issued: Option<(Seq<char>, Seq<char>)>,
    addresses: Seq<Seq<char>>,
    i: int,
)
    ensures
        ({
            let lines = lines_at_startup(issued, addresses);
            let first: int = if issued is Some {
                1
            } else {
                0
            };
            &&& lines.len() == first + addresses.len()
            &&& 0 <= i < addresses.len() ==> {
                &&& lines[first + i].take(17) == "BFTUNNEL_ADDRESS "@
                &&& lines[first + i].skip(17) == addresses[i]
            }
            &&& issued matches Some((subdomain, token)) ==> {
                let n = 28 + subdomain.len() as int;
                &&& lines[0].take(28) == "BFTUNNEL_IDENTITY subdomain="@
                &&& lines[0].subrange(28, n) == subdomain
                &&& lines[0].subrange(n, n + 7) == " token="@
                &&& lines[0].skip(n + 7) == token
            }
        }),
{
    reveal_strlit("BFTUNNEL_ADDRESS ");
    reveal_strlit("BFTUNNEL_IDENTITY subdomain=");
    reveal_strlit(" token=");
    let lines = lines_at_startup(issued, addresses);
    let first: int = if issued is Some {
        1
    } else {
        0
    };
    if 0 <= i < addresses.len() {
        assert(lines[first + i] == address_line(addresses[i]));
        assert(lines[first + i].take(17) =~= "BFTUNNEL_ADDRESS "@);
        assert(lines[first + i].skip(17) =~= addresses[i]);
    }
    if let Some((subdomain, token)) = issued {
        let n = 28 + subdomain.len() as int;
        assert(lines[0] == identity_line(subdomain, token));
        assert(lines[0].take(28) =~= "BFTUNNEL_IDENTITY subdomain="@);
        assert(lines[0].subrange(28, n) =~= subdomain);
        assert(lines[0].subrange(n, n + 7) =~= " token="@);
        assert(lines[0].skip(n + 7) =~= token);
    }
}

/// Nothing of an entry is lost or changed in what it says.
pub proof fn law_entry_says_what_it_holds(entry: RouteConfig)
    ensures
        entry@.local_port == entry.local_port,
        entry@.public_port == entry.public_port,
        match entry.label {
            Some(label) => entry@.label == Some(label@),
            None => entry@.label is None,
        },
        match entry.local_host {
            Some(host) => entry@.local_host == Some(host@),
            None => entry@.local_host is None,
        },
{
}

} // verus!
