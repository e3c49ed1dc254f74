//! The servers of a configuration.
use crate::config::{
    backend_views, backends_of, parse_backends, parse_proxy_rules, rule_views, rules_of, Backend,
    BackendConfig, Failure, HostRule, ProxyConfigError, ProxyRuleConfig,
};
use crate::decimal::{decimal_string, decimal_text};
use crate::document::{
    countable_fractions, describes, get_member, get_text, json_document, member, parse_json, text_of, Json,
};
use crate::double::{double_to_uint, read_uint};
use vstd::prelude::*;
use vstd::string::*;

verus! {

/// One server: where it listens, how many workers it has, and where its requests go.
pub struct ServerConfig<A> {
    pub server_name: String,
    pub listener_addr: A,
    pub worker_count: usize,
    pub proxy_rules: Vec<ProxyRuleConfig>,
    pub backends: Vec<BackendConfig>,
}

/// A server as mathematical data.
#[verifier::ext_equal]
pub struct Server<A> {
    pub name: Seq<char>,
    pub listener: A,
    pub worker_count: nat,
    pub rules: Seq<HostRule>,
    pub backends: Seq<Backend>,
}

impl<A> View for ServerConfig<A> {
    type V = Server<A>;

    open spec fn view(&self) -> Server<A> {
        Server {
            name: self.server_name@,
            listener: self.listener_addr,
            worker_count: self.worker_count as nat,
            rules: rule_views(self.proxy_rules@),
            backends: backend_views(self.backends@),
        }
    }
}

/// What an address text stands for, or what is wrong with it.
pub type Addresses<A> = spec_fn(Seq<char>) -> Result<A, Seq<char>>;

/// `parse_addr` reads every address text as `addresses` says.
pub open spec fn reads_as<A, F: Fn(&str) -> Result<A, String>>(
    parse_addr: F,
    addresses: Addresses<A>,
) -> bool {
    forall|s: &str, r: Result<A, String>| #[trigger]
        call_ensures(parse_addr, (s,), r) ==> addresses(s@) == address_view(r)
}

/// What an address text was read as.
pub open spec fn address_view<A>(read: Result<A, String>) -> Result<A, Seq<char>> {
    match read {
        Ok(addr) => Ok(addr),
        Err(e) => Err(e@),
    }
}

/// The address text of a server, if it has one.
pub open spec fn listener_text(value: Json) -> Option<Seq<char>> {
    match value {
        Json::Object(entries) => text_of(member(entries@, "listener"@)),
        _ => None,
    }
}

/// `address` is something that `parse_addr` may give for the address text of a server. A server
/// without such a text asks for none.
pub open spec fn may_read<A, F: Fn(&str) -> Result<A, String>>(
    parse_addr: F,
    value: Json,
    address: Result<A, Seq<char>>,
) -> bool {
    listener_text(value) matches Some(text) ==> exists|s: &str, r: Result<A, String>|
        s@ == text && #[trigger] call_ensures(parse_addr, (s,), r) && address == address_view(r)
}

/// What `addresses` says of the address text of a server.
pub open spec fn address_by<A>(value: Json, addresses: Addresses<A>) -> Result<A, Seq<char>> {
    match listener_text(value) {
        Some(text) => addresses(text),
        None => Err(Seq::empty()),
    }
}

/// The largest number of workers that is taken: the largest `usize` as the nearest double.
pub open spec fn worker_limit() -> nat {
    if usize::MAX as u64 == u64::MAX {
        0x1_0000_0000_0000_0000
    } else {
        usize::MAX as nat
    }
}

/// What is wrong with a worker count that does not fit.
pub open spec fn worker_range() -> Seq<char> {
    "parameter has to be > 0 and < "@ + decimal_text(usize::MAX as nat)
}

/// The server that a value describes, where its address text was read as `address`.
pub open spec fn server_of<A>(name: Seq<char>, value: Json, address: Result<A, Seq<char>>) -> Result<
    Server<A>,
    Failure,
> {
    match value {
        Json::Object(entries) => match listener_text(value) {
            None => Err(Failure::Param("listener"@, "parameter has to be a String "@)),
            Some(_) => match address {
                Err(e) => Err(Failure::Listener(e)),
                Ok(listener) => match member(entries@, "worker_count"@) {
                    Json::Number(bits) => match double_to_uint(bits, worker_limit(), usize::MAX as nat) {
                        None => Err(Failure::Param("worker_count"@, worker_range())),
                        Some(worker_count) => match (
                            member(entries@, "proxy_rules"@),
                            member(entries@, "backends"@),
                        ) {
                            (Json::Array(rules), Json::Array(backends)) => match backends_of(backends@) {
                                Err(e) => Err(e),
                                Ok(backends) => match rules_of(rules@, backends) {
                                    Err(e) => Err(e),
                                    Ok(rules) => Ok(
                                        Server { name, listener, worker_count, rules, backends },
                                    ),
                                },
                            },
                            (Json::Array(_), _) => Err(
                                Failure::Param("backens"@, "paramter has to be an Array"@),
                            ),
                            (_, _) => Err(
                                Failure::Param("proxy_rules"@, "paramter has to be an Array"@),
                            ),
                        },
                    },
                    _ => Err(Failure::Param("worker_count"@, "paramter has to be a Number"@)),
                },
            },
        },
        _ => Err(Failure::NotAnObject(name)),
    }
}

/// What reading a server may come to with `parse_addr`.
pub open spec fn server_reads<A, F: Fn(&str) -> Result<A, String>>(
    parse_addr: F,
    name: Seq<char>,
    value: Json,
    outcome: Result<Server<A>, Failure>,
) -> bool {
    exists|address: Result<A, Seq<char>>| #[trigger]
        may_read(parse_addr, value, address) && outcome == server_of(name, value, address)
}

pub open spec fn server_view<A>(server: Result<ServerConfig<A>, ProxyConfigError>) -> Result<Server<A>, Failure> {
    match server {
        Ok(server) => Ok(server@),
        Err(e) => Err(e@),
    }
}

/// Some parameter of a server that is not what it has to be.
fn invalid_param<A>(param: &str, error: &str) -> (e: Result<A, ProxyConfigError>)
    ensures
        e is Err,
        e->Err_0@ == Failure::Param(param@, error@),
{
    Err(ProxyConfigError::ConfigParamInvalid(param.to_owned(), error.to_owned()))
}

/// Reads one server. `parse_addr` reads the address that it listens on.
pub fn parse_server_object<A, F: Fn(&str) -> Result<A, String>>(
    server_name: &str,
    server_config: &Json,
    parse_addr: &F,
) -> (server: Result<ServerConfig<A>, ProxyConfigError>)
    requires
        forall|s: &str| call_requires(*parse_addr, (s,)),
    ensures
        server_reads(*parse_addr, server_name@, *server_config, server_view(server)),
        forall|addresses: Addresses<A>| #[trigger]
            reads_as(*parse_addr, addresses) ==> server_view(server) == server_of(
                server_name@,
                *server_config,
                address_by(*server_config, addresses),
            ),
{
    let server = read_server(server_name, server_config, parse_addr);
    proof {
        let outcome = server_view(server);
        assert forall|addresses: Addresses<A>| #[trigger]
            reads_as(*parse_addr, addresses) implies outcome == server_of(
            server_name@,
            *server_config,
            address_by(*server_config, addresses),
        ) by {
            lemma_reads_as(*parse_addr, server_name@, *server_config, outcome, addresses);
        }
    }
    server
}

/// With a parser that goes by the text alone, reading a server comes to one thing.
proof fn lemma_reads_as<A, F: Fn(&str) -> Result<A, String>>(
    parse_addr: F,
    name: Seq<char>,
    value: Json,
    outcome: Result<Server<A>, Failure>,
    addresses: Addresses<A>,
)
    requires
        server_reads(parse_addr, name, value, outcome),
        reads_as(parse_addr, addresses),
    ensures
        outcome == server_of(name, value, address_by(value, addresses)),
{
    let address = choose|address: Result<A, Seq<char>>| #[trigger]
        may_read(parse_addr, value, address) && outcome == server_of(name, value, address);
    if let Some(text) = listener_text(value) {
        let (s, r) = choose|s: &str, r: Result<A, String>|
            s@ == text && #[trigger] call_ensures(parse_addr, (s,), r) && address == address_view(r);
        assert(addresses(s@) == address_view(r));
    }
}

/// Reads one server.
fn read_server<A, F: Fn(&str) -> Result<A, String>>(
    server_name: &str,
    server_config: &Json,
    parse_addr: &F,
) -> (server: Result<ServerConfig<A>, ProxyConfigError>)
    requires
        forall|s: &str| call_requires(*parse_addr, (s,)),
    ensures
        server_reads(*parse_addr, server_name@, *server_config, server_view(server)),
{
    let ghost none: Result<A, Seq<char>> = Err(Seq::empty());
    let entries = match server_config {
        Json::Object(entries) => entries,
        _ => {
            assert(may_read(*parse_addr, *server_config, none));
            return Err(ProxyConfigError::ServerConfigIsNotAnObject(server_name.to_owned()));
        },
    };
    let listener = match get_text(entries, "listener") {
        Some(listener) => listener,
        None => {
            assert(may_read(*parse_addr, *server_config, none));
            return invalid_param("listener", "parameter has to be a String ");
        },
    };
    let parsed = parse_addr(listener.as_str());
    assert(may_read(*parse_addr, *server_config, address_view(parsed)));
    let listener_addr = match parsed {
        Ok(listener_addr) => listener_addr,
        Err(e) => return Err(ProxyConfigError::InvalidListnerAddr(e)),
    };
    let bits = match get_member(entries, "worker_count") {
        Some(Json::Number(bits)) => *bits,
        _ => return invalid_param("worker_count", "paramter has to be a Number"),
    };
    let limit: u128 = if usize::MAX as u64 == u64::MAX {
        0x1_0000_0000_0000_0000
    } else {
        usize::MAX as u128
    };
    let worker_count: usize = match read_uint(bits, limit, usize::MAX as u64) {
        Some(worker_count) => worker_count as usize,
        None => {
            let mut range = "parameter has to be > 0 and < ".to_owned();
            range.append(decimal_string(usize::MAX as u64).as_str());
            return invalid_param("worker_count", range.as_str());
        },
    };
    let proxy_rules = match get_member(entries, "proxy_rules") {
        Some(Json::Array(proxy_rules)) => proxy_rules,
        _ => return invalid_param("proxy_rules", "paramter has to be an Array"),
    };
    let backends = match get_member(entries, "backends") {
        Some(Json::Array(backends)) => backends,
        _ => return invalid_param("backens", "paramter has to be an Array"),
    };
    let backends = match parse_backends(backends) {
        Ok(backends) => backends,
        Err(e) => return Err(e),
    };
    let proxy_rules = match parse_proxy_rules(proxy_rules, &backends) {
        Ok(proxy_rules) => proxy_rules,
        Err(e) => return Err(e),
    };
    Ok(
        ServerConfig {
            server_name: server_name.to_owned(),
            listener_addr,
            worker_count,
            proxy_rules,
            backends,
        },
    )
}

/// The servers that the members of an object describe.
pub open spec fn servers_of<A>(entries: Seq<(String, Json)>, addresses: Addresses<A>) -> Result<
    Seq<Server<A>>,
    Failure,
>
    decreases entries.len(),
{
    if entries.len() == 0 {
        Ok(Seq::empty())
    } else {
        match servers_of(entries.drop_last(), addresses) {
            Err(e) => Err(e),
            Ok(servers) => match server_of(
                entries.last().0@,
                entries.last().1,
                address_by(entries.last().1, addresses),
            ) {
                Err(e) => Err(e),
                Ok(server) => Ok(servers.push(server)),
            },
        }
    }
}

/// The servers that a document describes.
pub open spec fn config_of<A>(document: Json, addresses: Addresses<A>) -> Result<
    Seq<Server<A>>,
    Failure,
> {
    match document {
        Json::Object(entries) => servers_of(entries@, addresses),
        _ => Err(Failure::Format("Expected json Object in {config_json}"@)),
    }
}

pub open spec fn server_views<A>(servers: Seq<ServerConfig<A>>) -> Seq<Server<A>> {
    Seq::new(servers.len(), |i: int| servers[i]@)
}

pub open spec fn config_view<A>(parsed: Result<Vec<ServerConfig<A>>, ProxyConfigError>) -> Result<
    Seq<Server<A>>,
    Failure,
> {
    match parsed {
        Ok(servers) => Ok(server_views(servers@)),
        Err(e) => Err(e@),
    }
}

/// What reading a document may come to with `parse_addr`: its servers, in order, or what is wrong
/// with the first that cannot be read.
pub open spec fn config_reads<A, F: Fn(&str) -> Result<A, String>>(
    parse_addr: F,
    document: Json,
    outcome: Result<Seq<Server<A>>, Failure>,
) -> bool {
    match document {
        Json::Object(entries) => match outcome {
            Ok(servers) => all_read(parse_addr, entries@, servers) && servers.len() == entries@.len(),
            Err(e) => exists|servers: Seq<Server<A>>| #[trigger]
                all_read(parse_addr, entries@, servers) && servers.len() < entries@.len() && server_reads(
                    parse_addr,
                    entries@[servers.len() as int].0@,
                    entries@[servers.len() as int].1,
                    Err::<Server<A>, Failure>(e),
                ),
        },
        _ => outcome == Err::<Seq<Server<A>>, Failure>(
            Failure::Format("Expected json Object in {config_json}"@),
        ),
    }
}

/// The first members of an object may be read as these servers.
pub open spec fn all_read<A, F: Fn(&str) -> Result<A, String>>(
    parse_addr: F,
    entries: Seq<(String, Json)>,
    servers: Seq<Server<A>>,
) -> bool {
    &&& servers.len() <= entries.len()
    &&& forall|i: int|
        #![trigger servers[i]]
        #![trigger entries[i]]
        0 <= i < servers.len() ==> server_reads(
            parse_addr,
            entries[i].0@,
            entries[i].1,
            Ok::<Server<A>, Failure>(servers[i]),
        )
}

/// What is wrong with the first members of an object is wrong with the object.
proof fn lemma_servers_of_prefix<A>(entries: Seq<(String, Json)>, addresses: Addresses<A>, k: int)
    requires
        0 <= k <= entries.len(),
        servers_of(entries.take(k), addresses) is Err,
    ensures
        servers_of(entries, addresses) == servers_of(entries.take(k), addresses),
    decreases entries.len() - k,
{
    if k < entries.len() {
        assert(entries.take(k + 1).drop_last() =~= entries.take(k));
        lemma_servers_of_prefix(entries, addresses, k + 1);
    } else {
        assert(entries.take(k) =~= entries);
    }
}

/// Reads the servers out of a document. `parse_addr` reads the addresses that they listen on.
pub fn parse_config_json<A, F: Fn(&str) -> Result<A, String>>(config_json: &Json, parse_addr: &F) -> (parsed:
    Result<Vec<ServerConfig<A>>, ProxyConfigError>)
    requires
        forall|s: &str| call_requires(*parse_addr, (s,)),
    ensures
        config_reads(*parse_addr, *config_json, config_view(parsed)),
        forall|addresses: Addresses<A>| #[trigger]
            reads_as(*parse_addr, addresses) ==> config_view(parsed) == config_of(*config_json, addresses),
{
    let config = match config_json {
        Json::Object(config) => config,
        _ => return Err(
            ProxyConfigError::BadConfigFormat("Expected json Object in {config_json}".to_owned()),
        ),
    };
    let mut result: Vec<ServerConfig<A>> = Vec::new();
    let n: usize = config.len();
    let mut i: usize = 0;
    assert(server_views(result@) =~= Seq::empty());
    while i < n
        invariant
            *config_json == Json::Object(*config),
            n == config@.len(),
            i <= n,
            forall|s: &str| call_requires(*parse_addr, (s,)),
            all_read(*parse_addr, config@, server_views(result@)),
            result@.len() == i,
            forall|addresses: Addresses<A>| #[trigger]
                reads_as(*parse_addr, addresses) ==> servers_of(config@.take(i as int), addresses) == Ok::<
                    Seq<Server<A>>,
                    Failure,
                >(server_views(result@)),
        decreases n - i,
    {
        let ghost before = server_views(result@);
        let ghost next = config@.take(i + 1);
        assert(next.drop_last() =~= config@.take(i as int));
        assert(next.last() == config@[i as int]);
        let entry = &config[i];
        match parse_server_object(entry.0.as_str(), &entry.1, parse_addr) {
            Ok(server) => {
                result.push(server);
                assert(server_views(result@) =~= before.push(server@));
            },
            Err(e) => {
                proof {
                    assert forall|addresses: Addresses<A>| #[trigger]
                        reads_as(*parse_addr, addresses) implies servers_of(config@, addresses) == Err::<
                        Seq<Server<A>>,
                        Failure,
                    >(e@) by {
                        lemma_servers_of_prefix(config@, addresses, i + 1);
                    }
                }
                return Err(e);
            },
        }
        i += 1;
    }
    assert(config@.take(n as int) =~= config@);
    Ok(result)
}

/// Reads the servers out of what was read of a configuration file, or says why there are none.
pub fn parse_config_file<A, F: Fn(&str) -> Result<A, String>>(
    contents: Result<String, String>,
    parse_addr: &F,
) -> (parsed: Result<Vec<ServerConfig<A>>, ProxyConfigError>)
    requires
        contents is Ok ==> countable_fractions(contents->Ok_0@),
        forall|s: &str| call_requires(*parse_addr, (s,)),
    ensures
        match contents {
            Err(e) => parsed is Err && parsed->Err_0@ == Failure::Read(e@),
            Ok(text) => match json_document(text@) {
                Err(e) => parsed is Err && parsed->Err_0@ == Failure::Parse(e),
                Ok(tree) => exists|document: Json|
                    {
                        &&& #[trigger] describes(tree, document)
                        &&& config_reads(*parse_addr, document, config_view(parsed))
                        &&& forall|addresses: Addresses<A>| #[trigger]
                            reads_as(*parse_addr, addresses) ==> config_view(parsed) == config_of(
                                document,
                                addresses,
                            )
                    },
            },
        },
{
    match contents {
        Err(e) => Err(ProxyConfigError::FailedToReadFile(e)),
        Ok(text) => match parse_json(text.as_str()) {
            Err(e) => Err(ProxyConfigError::FailedToParseConfig(e)),
            Ok(document) => parse_config_json(&document, parse_addr),
        },
    }
}

} // verus!
