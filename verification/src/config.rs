//! The configuration: servers, their backends and their proxy rules, out of a JSON document.
use crate::decimal::{decimal_string, decimal_text};
use crate::document::{get_member, get_text, member, text_of, Json};
use crate::double::{double_to_uint, read_uint};
use crate::http::{Head, MessageKind, Request};
use crate::rewrite::{is_for_host, request_is_for, set_request_host, with_host, ProxtRule};
use crate::text::str_eq;
use crate::transmittable::{valid_head, HttpTransmittable};
use std::sync::Arc;
use vstd::prelude::*;
use vstd::string::*;

verus! {

/// Why a configuration cannot be used. Errors of the file system, of the JSON library and of
/// address parsing come with their texts.
#[derive(Debug)]
pub enum ProxyConfigError {
    FailedToReadFile(String),
    FailedToParseConfig(String),
    BadConfigFormat(String),
    ServerConfigIsNotAnObject(String),
    ConfigParamInvalid(String, String),
    InvalidListnerAddr(String),
}

/// A configuration error as mathematical data.
pub enum Failure {
    Read(Seq<char>),
    Parse(Seq<char>),
    Format(Seq<char>),
    NotAnObject(Seq<char>),
    Param(Seq<char>, Seq<char>),
    Listener(Seq<char>),
}

impl View for ProxyConfigError {
    type V = Failure;

    open spec fn view(&self) -> Failure {
        match self {
            ProxyConfigError::FailedToReadFile(e) => Failure::Read(e@),
            ProxyConfigError::FailedToParseConfig(e) => Failure::Parse(e@),
            ProxyConfigError::BadConfigFormat(e) => Failure::Format(e@),
            ProxyConfigError::ServerConfigIsNotAnObject(name) => Failure::NotAnObject(name@),
            ProxyConfigError::ConfigParamInvalid(param, e) => Failure::Param(param@, e@),
            ProxyConfigError::InvalidListnerAddr(e) => Failure::Listener(e@),
        }
    }
}

/// The message of an error.
pub open spec fn failure_text(failure: Failure) -> Seq<char> {
    match failure {
        Failure::Read(e) => "Failed to read config file\n"@ + e,
        Failure::Parse(e) => "Failed to parse json\n"@ + e,
        Failure::Format(e) => "Config file format incorrect \n"@ + e,
        Failure::NotAnObject(name) => "Server config is not an object. ServerName - "@ + name,
        Failure::Param(param, e) => "Server config paramter:["@ + param + "] Error:["@ + e + "]"@,
        Failure::Listener(e) => "Invalid SocketAddr in listener\n "@ + e,
    }
}

impl ProxyConfigError {
    /// The message of the error.
    pub fn to_string(&self) -> (text: String)
        ensures
            text@ == failure_text(self@),
    {
        match self {
            ProxyConfigError::FailedToReadFile(e) => joined("Failed to read config file\n", e.as_str()),
            ProxyConfigError::FailedToParseConfig(e) => joined("Failed to parse json\n", e.as_str()),
            ProxyConfigError::BadConfigFormat(e) => joined("Config file format incorrect \n", e.as_str()),
            ProxyConfigError::ServerConfigIsNotAnObject(name) => joined(
                "Server config is not an object. ServerName - ",
                name.as_str(),
            ),
            ProxyConfigError::ConfigParamInvalid(param, e) => {
                let mut text = "Server config paramter:[".to_owned();
                text.append(param.as_str());
                text.append("] Error:[");
                text.append(e.as_str());
                text.append("]");
                text
            },
            ProxyConfigError::InvalidListnerAddr(e) => joined("Invalid SocketAddr in listener\n ", e.as_str()),
        }
    }
}

/// Two texts, one behind the other.
fn joined(first: &str, second: &str) -> (text: String)
    ensures
        text@ == first@ + second@,
{
    let mut text = first.to_owned();
    text.append(second);
    text
}

/// A parameter that is not what it has to be.
fn invalid(param: &str, error: &str) -> (e: ProxyConfigError)
    ensures
        e@ == Failure::Param(param@, error@),
{
    ProxyConfigError::ConfigParamInvalid(param.to_owned(), error.to_owned())
}

/// Where requests go. `host` is the name or address to connect to; `hostname`, where it is given,
/// is what the host header says; `port`, where it is given, goes behind the host to connect to.
#[derive(PartialEq)]
pub struct BackendConfig {
    pub name: String,
    pub host: String,
    pub hostname: Option<String>,
    pub port: Option<u16>,
    pub https: bool,
}

/// A backend as mathematical data.
pub struct Backend {
    pub name: Seq<char>,
    pub host: Seq<char>,
    pub hostname: Option<Seq<char>>,
    pub port: Option<u16>,
    pub https: bool,
}

impl View for BackendConfig {
    type V = Backend;

    open spec fn view(&self) -> Backend {
        Backend {
            name: self.name@,
            host: self.host@,
            hostname: match self.hostname {
                Some(s) => Some(s@),
                None => None,
            },
            port: self.port,
            https: self.https,
        }
    }
}

impl Clone for BackendConfig {
    fn clone(&self) -> (copy: Self)
        ensures
            copy@ == self@,
    {
        let hostname = match &self.hostname {
            Some(s) => Some(s.clone()),
            None => None,
        };
        BackendConfig {
            name: self.name.clone(),
            host: self.host.clone(),
            hostname,
            port: self.port,
            https: self.https,
        }
    }
}

/// What the host header says of requests to a backend.
pub open spec fn host_header(backend: Backend) -> Seq<char> {
    match backend.hostname {
        Some(hostname) => hostname,
        None => backend.host,
    }
}

/// The address that connections to a backend go to.
pub open spec fn connect_address(backend: Backend) -> Seq<char> {
    match backend.port {
        Some(port) => backend.host + ":"@ + decimal_text(port as nat),
        None => backend.host,
    }
}

impl BackendConfig {
    /// What the host header says of requests to this backend.
    pub fn host_header(&self) -> (host: &str)
        ensures
            host@ == host_header(self@),
    {
        match &self.hostname {
            Some(hostname) => hostname.as_str(),
            None => self.host.as_str(),
        }
    }

    /// The address that connections to this backend go to.
    pub fn connect_address(&self) -> (address: String)
        ensures
            address@ == connect_address(self@),
    {
        let mut address = self.host.clone();
        if let Some(port) = self.port {
            address.append(":");
            address.append(decimal_string(port as u64).as_str());
        }
        address
    }
}

/// A rule that sends requests to a backend.
pub trait ProxyRule: ProxtRule {
    spec fn target(&self) -> Backend;

    fn backend(&self) -> (backend: &BackendConfig)
        ensures
            backend@ == self.target(),
    ;
}

/// Sends the requests for one host to a backend.
pub struct ProxyRuleHost {
    pub from: String,
    pub to: BackendConfig,
}

/// A host rule as mathematical data.
pub struct HostRule {
    pub from: Seq<char>,
    pub to: Backend,
}

impl View for ProxyRuleHost {
    type V = HostRule;

    open spec fn view(&self) -> HostRule {
        HostRule { from: self.from@, to: self.to@ }
    }
}

impl ProxtRule for ProxyRuleHost {
    open spec fn applies(&self, head: Head) -> bool {
        is_for_host(head, self@.from)
    }

    open spec fn rewritten(&self, head: Head) -> Head {
        with_host(head, host_header(self@.to))
    }

    fn matches(&self, request: &Request) -> (yes: bool) {
        request_is_for(request, self.from.as_str())
    }

    fn rewrite(&self, request: &mut Request) {
        set_request_host(request, self.to.host_header());
    }
}

impl ProxyRule for ProxyRuleHost {
    open spec fn target(&self) -> Backend {
        self@.to
    }

    fn backend(&self) -> (backend: &BackendConfig) {
        &self.to
    }
}

impl ProxyRuleHost {
    pub fn new(from: &str, backend: BackendConfig) -> (rule: Arc<Self>)
        ensures
            rule@ == (HostRule { from: from@, to: backend@ }),
    {
        Arc::new(ProxyRuleHost { from: from.to_owned(), to: backend })
    }

    /// Reads a host rule out of the members of its object.
    pub fn parse(value: &Vec<(String, Json)>, backends: &Vec<BackendConfig>) -> (rule: Result<
        Self,
        ProxyConfigError,
    >)
        ensures
            match rule {
                Ok(rule) => host_rule_of(value@, backend_views(backends@)) == Ok::<HostRule, Failure>(rule@),
                Err(e) => host_rule_of(value@, backend_views(backends@)) == Err::<HostRule, Failure>(e@),
            },
    {
        let from = match get_member(value, "from") {
            Some(Json::Text(from)) => from,
            None | Some(Json::Null) => return Err(invalid("proxy_rule", "must have [from] paramter")),
            _ => return Err(invalid("proxy_rule->from", "paramter must be a String")),
        };
        let to = match get_member(value, "to") {
            Some(Json::Text(to)) => to,
            None | Some(Json::Null) => return Err(
                invalid("proxy_rule", "proxy_rule must have [to] paramter"),
            ),
            _ => return Err(invalid("proxy_rule->to", "paramter must be a String")),
        };
        match find_backend(backends, to.as_str()) {
            Some(i) => Ok(ProxyRuleHost { from: from.clone(), to: backends[i].clone() }),
            None => Err(invalid("proxy_rule->to", "Must be a valid backend name")),
        }
    }
}

pub open spec fn backend_views(backends: Seq<BackendConfig>) -> Seq<Backend> {
    Seq::new(backends.len(), |i: int| backends[i]@)
}

/// `i` is the first backend of a name.
pub open spec fn is_backend(backends: Seq<Backend>, name: Seq<char>, i: int) -> bool {
    &&& 0 <= i < backends.len()
    &&& backends[i].name == name
    &&& forall|j: int| 0 <= j < i ==> (#[trigger] backends[j]).name != name
}

/// The first backend of a name.
pub open spec fn backend_named(backends: Seq<Backend>, name: Seq<char>) -> Option<Backend> {
    if exists|i: int| is_backend(backends, name, i) {
        Some(backends[choose|i: int| is_backend(backends, name, i)])
    } else {
        None
    }
}

/// The position of the first backend of a name.
fn find_backend(backends: &Vec<BackendConfig>, name: &str) -> (found: Option<usize>)
    ensures
        match found {
            Some(i) => {
                &&& i < backends@.len()
                &&& backend_named(backend_views(backends@), name@) == Some(backends@[i as int]@)
            },
            None => backend_named(backend_views(backends@), name@) is None,
        },
{
    let ghost all = backend_views(backends@);
    let n: usize = backends.len();
    let mut i: usize = 0;
    while i < n
        invariant
            n == backends@.len(),
            i <= n,
            all == backend_views(backends@),
            forall|j: int| 0 <= j < i ==> (#[trigger] all[j]).name != name@,
        decreases n - i,
    {
        if str_eq(backends[i].name.as_str(), name) {
            assert(is_backend(all, name@, i as int));
            assert forall|k: int| is_backend(all, name@, k) implies k == i by {
                if i < k {
                    assert(all[i as int].name != name@);
                }
            }
            return Some(i);
        }
        i += 1;
    }
    None
}

/// The host rule that the members of an object describe.
pub open spec fn host_rule_of(entries: Seq<(String, Json)>, backends: Seq<Backend>) -> Result<
    HostRule,
    Failure,
> {
    match (member(entries, "from"@), member(entries, "to"@)) {
        (Json::Text(from), Json::Text(to)) => match backend_named(backends, to@) {
            Some(backend) => Ok(HostRule { from: from@, to: backend }),
            None => Err(Failure::Param("proxy_rule->to"@, "Must be a valid backend name"@)),
        },
        (Json::Text(_), Json::Null) => Err(
            Failure::Param("proxy_rule"@, "proxy_rule must have [to] paramter"@),
        ),
        (Json::Text(_), _) => Err(Failure::Param("proxy_rule->to"@, "paramter must be a String"@)),
        (Json::Null, _) => Err(Failure::Param("proxy_rule"@, "must have [from] paramter"@)),
        (_, _) => Err(Failure::Param("proxy_rule->from"@, "paramter must be a String"@)),
    }
}

/// A rule out of the configuration.
#[derive(Clone)]
pub struct ProxyRuleConfig {
    rule: Arc<ProxyRuleHost>,
}

impl View for ProxyRuleConfig {
    type V = HostRule;

    closed spec fn view(&self) -> HostRule {
        self.rule@
    }
}

impl ProxyRuleConfig {
    /// Whether a request is for the host that the rule is about.
    pub fn matches(&self, request: &Request) -> (yes: bool)
        requires
            valid_head(MessageKind::Request, request.head()),
        ensures
            yes == is_for_host(request.head(), self@.from),
    {
        self.rule.matches(request)
    }

    /// Gives a request the host header that the rule's backend expects.
    pub fn rewrite(&self, request: &mut Request)
        requires
            valid_head(MessageKind::Request, old(request).head()),
        ensures
            final(request).head() == with_host(old(request).head(), host_header(self@.to)),
            final(request).body() == old(request).body(),
            valid_head(MessageKind::Request, final(request).head()),
    {
        self.rule.rewrite(request)
    }
}

impl ProxtRule for ProxyRuleConfig {
    open spec fn applies(&self, head: Head) -> bool {
        is_for_host(head, self@.from)
    }

    open spec fn rewritten(&self, head: Head) -> Head {
        with_host(head, host_header(self@.to))
    }

    fn matches(&self, request: &Request) -> (yes: bool) {
        ProxyRuleConfig::matches(self, request)
    }

    fn rewrite(&self, request: &mut Request) {
        ProxyRuleConfig::rewrite(self, request)
    }
}

impl ProxyRule for ProxyRuleConfig {
    open spec fn target(&self) -> Backend {
        self@.to
    }

    fn backend(&self) -> (backend: &BackendConfig) {
        self.rule.backend()
    }
}

/// The port that a value stands for, if it stands for one.
pub open spec fn port_of(value: Json) -> Option<u16> {
    match value {
        Json::Number(bits) => match double_to_uint(bits, 65535, 65535) {
            Some(port) => Some(port as u16),
            None => None,
        },
        _ => None,
    }
}

/// The backend that a value describes. A hostname that is no text, a port that is no number up to
/// 65535 and an `https` that is no boolean count as left out.
pub open spec fn backend_of(value: Json) -> Result<Backend, Failure> {
    match value {
        Json::Object(entries) => match (
            text_of(member(entries@, "host"@)),
            text_of(member(entries@, "name"@)),
        ) {
            (None, _) => Err(Failure::Param("backends->host"@, "must be a string"@)),
            (Some(_), None) => Err(Failure::Param("backends->name"@, "must be a string"@)),
            (Some(host), Some(name)) => Ok(
                Backend {
                    name,
                    host,
                    hostname: text_of(member(entries@, "hostname"@)),
                    port: port_of(member(entries@, "port"@)),
                    https: member(entries@, "https"@) == Json::Boolean(true),
                },
            ),
        },
        _ => Err(Failure::Format("backend paramter should be an object"@)),
    }
}

/// Reads one backend.
pub fn parse_backend_config(object: &Json) -> (backend: Result<BackendConfig, ProxyConfigError>)
    ensures
        match backend {
            Ok(backend) => backend_of(*object) == Ok::<Backend, Failure>(backend@),
            Err(e) => backend_of(*object) == Err::<Backend, Failure>(e@),
        },
{
    let entries = match object {
        Json::Object(entries) => entries,
        _ => return Err(
            ProxyConfigError::BadConfigFormat("backend paramter should be an object".to_owned()),
        ),
    };
    let host = match get_text(entries, "host") {
        Some(host) => host,
        None => return Err(invalid("backends->host", "must be a string")),
    };
    let name = match get_text(entries, "name") {
        Some(name) => name,
        None => return Err(invalid("backends->name", "must be a string")),
    };
    let hostname = match get_text(entries, "hostname") {
        Some(hostname) => Some(hostname.clone()),
        None => None,
    };
    let port = match get_member(entries, "port") {
        Some(Json::Number(bits)) => match read_uint(*bits, 65535, 65535) {
            Some(port) => Some(port as u16),
            None => None,
        },
        _ => None,
    };
    let https = match get_member(entries, "https") {
        Some(Json::Boolean(https)) => *https,
        _ => false,
    };
    Ok(BackendConfig { name: name.clone(), host: host.clone(), hostname, port, https })
}

/// Some backend has this name.
pub open spec fn has_backend(backends: Seq<Backend>, name: Seq<char>) -> bool {
    exists|i: int| 0 <= i < backends.len() && (#[trigger] backends[i]).name == name
}

/// The backends that the values of an array describe. Each has a name of its own.
pub open spec fn backends_of(values: Seq<Json>) -> Result<Seq<Backend>, Failure>
    decreases values.len(),
{
    if values.len() == 0 {
        Ok(Seq::empty())
    } else {
        match backends_of(values.drop_last()) {
            Err(e) => Err(e),
            Ok(backends) => match backend_of(values.last()) {
                Err(e) => Err(e),
                Ok(backend) => if has_backend(backends, backend.name) {
                    Err(Failure::Param("backends->name"@, "has to be unique in the server scope"@))
                } else {
                    Ok(backends.push(backend))
                },
            },
        }
    }
}

/// What is wrong with the first values of an array is wrong with the array.
proof fn lemma_backends_of_prefix(values: Seq<Json>, k: int)
    requires
        0 <= k <= values.len(),
        backends_of(values.take(k)) is Err,
    ensures
        backends_of(values) == backends_of(values.take(k)),
    decreases values.len() - k,
{
    if k < values.len() {
        assert(values.take(k + 1).drop_last() =~= values.take(k));
        lemma_backends_of_prefix(values, k + 1);
    } else {
        assert(values.take(k) =~= values);
    }
}

/// Reads the backends of a server.
pub fn parse_backends(backends: &Vec<Json>) -> (list: Result<Vec<BackendConfig>, ProxyConfigError>)
    ensures
        match list {
            Ok(list) => backends_of(backends@) == Ok::<Seq<Backend>, Failure>(backend_views(list@)),
            Err(e) => backends_of(backends@) == Err::<Seq<Backend>, Failure>(e@),
        },
{
    let mut list: Vec<BackendConfig> = Vec::new();
    let n: usize = backends.len();
    let mut i: usize = 0;
    assert(backend_views(list@) =~= Seq::empty());
    while i < n
        invariant
            n == backends@.len(),
            i <= n,
            backends_of(backends@.take(i as int)) == Ok::<Seq<Backend>, Failure>(backend_views(list@)),
        decreases n - i,
    {
        let ghost before = backend_views(list@);
        let ghost next = backends@.take(i + 1);
        assert(next.drop_last() =~= backends@.take(i as int));
        assert(next.last() == backends@[i as int]);
        let backend = match parse_backend_config(&backends[i]) {
            Ok(backend) => backend,
            Err(e) => {
                proof {
                    lemma_backends_of_prefix(backends@, i + 1);
                }
                return Err(e);
            },
        };
        if let Some(k) = find_backend(&list, backend.name.as_str()) {
            proof {
                let j = choose|j: int| is_backend(before, backend@.name, j);
                assert(before[j].name == backend@.name);
                lemma_backends_of_prefix(backends@, i + 1);
            }
            return Err(invalid("backends->name", "has to be unique in the server scope"));
        }
        proof {
            if has_backend(before, backend@.name) {
                lemma_some_backend(before, backend@.name);
            }
        }
        list.push(backend);
        assert(backend_views(list@) =~= before.push(backend@));
        i += 1;
    }
    assert(backends@.take(n as int) =~= backends@);
    Ok(list)
}

/// Where there is a backend of a name, there is a first one.
proof fn lemma_some_backend(backends: Seq<Backend>, name: Seq<char>)
    requires
        has_backend(backends, name),
    ensures
        exists|i: int| is_backend(backends, name, i),
    decreases backends.len(),
{
    let i = choose|i: int| 0 <= i < backends.len() && (#[trigger] backends[i]).name == name;
    if has_backend(backends.take(i), name) {
        lemma_some_backend(backends.take(i), name);
        let k = choose|k: int| is_backend(backends.take(i), name, k);
        assert forall|j: int| 0 <= j < k implies (#[trigger] backends[j]).name != name by {
            assert(backends.take(i)[j].name != name);
        }
        assert(is_backend(backends, name, k));
    } else {
        assert forall|j: int| 0 <= j < i implies (#[trigger] backends[j]).name != name by {
            assert(backends.take(i)[j] == backends[j]);
        }
        assert(is_backend(backends, name, i));
    }
}

/// The rule that a value describes.
pub open spec fn rule_of(value: Json, backends: Seq<Backend>) -> Result<HostRule, Failure> {
    match value {
        Json::Object(entries) => match text_of(member(entries@, "type"@)) {
            None => Err(Failure::Param("proxy_rule->type"@, "must be a string"@)),
            Some(rule_type) => if rule_type == "proxy_rule_host"@ {
                host_rule_of(entries@, backends)
            } else {
                Err(Failure::Param("proxy_rule->type"@, "Rule type[{type}] unsupported"@))
            },
        },
        _ => Err(Failure::Format("proxy_rule paramter should be an object"@)),
    }
}

/// Reads one rule.
pub fn parse_config_rule(object: &Json, backends: &Vec<BackendConfig>) -> (rule: Result<
    ProxyRuleConfig,
    ProxyConfigError,
>)
    ensures
        match rule {
            Ok(rule) => rule_of(*object, backend_views(backends@)) == Ok::<HostRule, Failure>(rule@),
            Err(e) => rule_of(*object, backend_views(backends@)) == Err::<HostRule, Failure>(e@),
        },
{
    let entries = match object {
        Json::Object(entries) => entries,
        _ => return Err(
            ProxyConfigError::BadConfigFormat("proxy_rule paramter should be an object".to_owned()),
        ),
    };
    let rule_type = match get_text(entries, "type") {
        Some(rule_type) => rule_type,
        None => return Err(invalid("proxy_rule->type", "must be a string")),
    };
    if str_eq(rule_type.as_str(), "proxy_rule_host") {
        match ProxyRuleHost::parse(entries, backends) {
            Ok(rule) => Ok(ProxyRuleConfig { rule: Arc::new(rule) }),
            Err(e) => Err(e),
        }
    } else {
        Err(invalid("proxy_rule->type", "Rule type[{type}] unsupported"))
    }
}

pub open spec fn rule_views(rules: Seq<ProxyRuleConfig>) -> Seq<HostRule> {
    Seq::new(rules.len(), |i: int| rules[i]@)
}

/// The rules that the values of an array describe.
pub open spec fn rules_of(values: Seq<Json>, backends: Seq<Backend>) -> Result<Seq<HostRule>, Failure>
    decreases values.len(),
{
    if values.len() == 0 {
        Ok(Seq::empty())
    } else {
        match rules_of(values.drop_last(), backends) {
            Err(e) => Err(e),
            Ok(rules) => match rule_of(values.last(), backends) {
                Err(e) => Err(e),
                Ok(rule) => Ok(rules.push(rule)),
            },
        }
    }
}

/// What is wrong with the first values of an array is wrong with the array.
proof fn lemma_rules_of_prefix(values: Seq<Json>, backends: Seq<Backend>, k: int)
    requires
        0 <= k <= values.len(),
        rules_of(values.take(k), backends) is Err,
    ensures
        rules_of(values, backends) == rules_of(values.take(k), backends),
    decreases values.len() - k,
{
    if k < values.len() {
        assert(values.take(k + 1).drop_last() =~= values.take(k));
        lemma_rules_of_prefix(values, backends, k + 1);
    } else {
        assert(values.take(k) =~= values);
    }
}

/// Reads the rules of a server.
pub fn parse_proxy_rules(proxy_rules: &Vec<Json>, backends: &Vec<BackendConfig>) -> (list: Result<
    Vec<ProxyRuleConfig>,
    ProxyConfigError,
>)
    ensures
        match list {
            Ok(list) => rules_of(proxy_rules@, backend_views(backends@)) == Ok::<Seq<HostRule>, Failure>(
                rule_views(list@),
            ),
            Err(e) => rules_of(proxy_rules@, backend_views(backends@)) == Err::<Seq<HostRule>, Failure>(e@),
        },
{
    let ghost all = backend_views(backends@);
    let mut list: Vec<ProxyRuleConfig> = Vec::new();
    let n: usize = proxy_rules.len();
    let mut i: usize = 0;
    assert(rule_views(list@) =~= Seq::empty());
    while i < n
        invariant
            n == proxy_rules@.len(),
            i <= n,
            all == backend_views(backends@),
            rules_of(proxy_rules@.take(i as int), all) == Ok::<Seq<HostRule>, Failure>(rule_views(list@)),
        decreases n - i,
    {
        let ghost before = rule_views(list@);
        let ghost next = proxy_rules@.take(i + 1);
        assert(next.drop_last() =~= proxy_rules@.take(i as int));
        assert(next.last() == proxy_rules@[i as int]);
        match parse_config_rule(&proxy_rules[i], backends) {
            Ok(rule) => {
                list.push(rule);
                assert(rule_views(list@) =~= before.push(rule@));
            },
            Err(e) => {
                proof {
                    lemma_rules_of_prefix(proxy_rules@, all, i + 1);
                }
                return Err(e);
            },
        }
        i += 1;
    }
    assert(proxy_rules@.take(n as int) =~= proxy_rules@);
    Ok(list)
}

} // verus!
