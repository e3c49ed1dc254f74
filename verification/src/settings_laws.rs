//! What holds of reading backends, rules and servers, for every document.
use crate::config::{
    backend_named, backend_of, backends_of, connect_address, failure_text, has_backend, host_header, host_rule_of,
    is_backend, port_of, rule_of, rules_of, Backend, Failure, HostRule,
};
use crate::decimal::{decimal_text, unsigned};
use crate::document::{member, text_of, Json};
use crate::double::double_to_uint;
use crate::server::{
    address_by, config_of, listener_text, server_of, servers_of, worker_limit, worker_range, Addresses, Server,
};
use crate::word_laws::law_number_text;
use vstd::prelude::*;

verus! {

/// A backend is connected to at its host. Where it has a port, a colon and the port in digits
/// follow, whatever the rest of the backend says.
pub proof fn law_connect_address(backend: Backend)
    ensures
        backend.port is None ==> connect_address(backend) == backend.host,
        backend.port matches Some(port) ==> {
            let host = backend.host;
            let address = connect_address(backend);
            &&& address.len() > host.len() + 1
            &&& address.take(host.len() as int) == host
            &&& address[host.len() as int] == ':'
            &&& unsigned(address.skip(host.len() as int + 1)) == Some(port as nat)
            &&& forall|i: int| host.len() < i < address.len() ==> '0' <= #[trigger] address[i] <= '9'
            &&& address[host.len() as int + 1] == '0' ==> address.len() == host.len() + 2
        },
{
    if let Some(port) = backend.port {
        let host = backend.host;
        let text = decimal_text(port as nat);
        let address = connect_address(backend);
        law_number_text(port as nat);
        reveal_strlit(":");
        assert(address =~= host + seq![':'] + text);
        assert(address.take(host.len() as int) =~= host);
        assert(address.skip(host.len() as int + 1) =~= text);
        assert forall|i: int| host.len() < i < address.len() implies '0' <= #[trigger] address[i] <= '9' by {
            assert(address[i] == text[i - host.len() - 1]);
        }
    }
}

/// The host header is the hostname, and the host where there is none, whatever the rest of the
/// backend says.
pub proof fn law_host_header(backend: Backend)
    ensures
        backend.hostname matches Some(hostname) ==> host_header(backend) == hostname,
        backend.hostname is None ==> host_header(backend) == backend.host,
{
}

/// Every error has its text, with what it carries in it.
pub proof fn law_failure_texts(a: Seq<char>, b: Seq<char>)
    ensures
        failure_text(Failure::Read(a)) == "Failed to read config file\n"@ + a,
        failure_text(Failure::Parse(a)) == "Failed to parse json\n"@ + a,
        failure_text(Failure::Format(a)) == "Config file format incorrect \n"@ + a,
        failure_text(Failure::NotAnObject(a)) == "Server config is not an object. ServerName - "@ + a,
        failure_text(Failure::Param(a, b)) == "Server config paramter:["@ + (a + ("] Error:["@ + (b + "]"@))),
        failure_text(Failure::Listener(a)) == "Invalid SocketAddr in listener\n "@ + a,
{
    assert(failure_text(Failure::Param(a, b)) =~= "Server config paramter:["@ + (a + ("] Error:["@ + (b + "]"@))));
}

/// A value is a port if and only if it is a number that is read as one up to 65535.
pub proof fn law_port_of(value: Json, port: u16)
    ensures
        port_of(value) == Some(port) ==> (value matches Json::Number(bits) && double_to_uint(
            bits,
            65535,
            65535,
        ) is Some),
        value matches Json::Number(bits) ==> (double_to_uint(bits, 65535, 65535) == Some(port as nat) ==> port_of(
            value,
        ) == Some(port)),
        value matches Json::Number(bits) ==> (double_to_uint(bits, 65535, 65535) is None ==> port_of(value) is None),
{
}

/// A backend has what the members of its object say: a host and a name, which have to be texts, and
/// the rest where it is there.
pub proof fn law_backend(value: Json, host: Seq<char>, name: Seq<char>)
    ensures
        value matches Json::Object(entries) ==> {
            let read = backend_of(value);
            &&& text_of(member(entries@, "host"@)) is None ==> read == Err::<Backend, Failure>(
                Failure::Param("backends->host"@, "must be a string"@),
            )
            &&& text_of(member(entries@, "host"@)) is Some && text_of(member(entries@, "name"@)) is None ==> read
                == Err::<Backend, Failure>(Failure::Param("backends->name"@, "must be a string"@))
            &&& text_of(member(entries@, "host"@)) == Some(host) && text_of(member(entries@, "name"@)) == Some(name)
                ==> (read matches Ok(backend) && backend.host == host && backend.name == name && backend.hostname
                == text_of(member(entries@, "hostname"@)) && backend.port == port_of(member(entries@, "port"@))
                && (backend.https <==> member(entries@, "https"@) == Json::Boolean(true)))
        },
        value !is Object ==> backend_of(value) == Err::<Backend, Failure>(
            Failure::Format("backend paramter should be an object"@),
        ),
{
}

/// One more backend in a list is added at its end, unless the list is refused already, the backend
/// is, or an earlier one has its name.
pub proof fn law_backends_longer(values: Seq<Json>, value: Json)
    ensures
        backends_of(Seq::empty()) == Ok::<Seq<Backend>, Failure>(Seq::empty()),
        match (backends_of(values), backend_of(value)) {
            (Err(e), _) => backends_of(values.push(value)) == Err::<Seq<Backend>, Failure>(e),
            (Ok(_), Err(e)) => backends_of(values.push(value)) == Err::<Seq<Backend>, Failure>(e),
            (Ok(backends), Ok(backend)) => {
                let read = backends_of(values.push(value));
                let taken = exists|i: int| 0 <= i < backends.len() && (#[trigger] backends[i]).name == backend.name;
                &&& taken ==> read == Err::<Seq<Backend>, Failure>(
                    Failure::Param("backends->name"@, "has to be unique in the server scope"@),
                )
                &&& !taken ==> read == Ok::<Seq<Backend>, Failure>(backends.push(backend))
            },
        },
{
    assert(values.push(value).drop_last() =~= values);
    if let (Ok(backends), Ok(backend)) = (backends_of(values), backend_of(value)) {
        if has_backend(backends, backend.name) {
            let i = choose|i: int| 0 <= i < backends.len() && (#[trigger] backends[i]).name == backend.name;
            assert(backends[i].name == backend.name);
        }
    }
}

/// A name stands for the first backend that bears it.
pub proof fn law_backend_named(before: Seq<Backend>, backend: Backend, after: Seq<Backend>)
    requires
        forall|i: int| 0 <= i < before.len() ==> (#[trigger] before[i]).name != backend.name,
    ensures
        backend_named(before + seq![backend] + after, backend.name) == Some(backend),
        backend_named(before, backend.name) is None,
{
    let all = before + seq![backend] + after;
    let n = before.len() as int;
    assert(is_backend(all, backend.name, n)) by {
        assert forall|j: int| 0 <= j < n implies (#[trigger] all[j]).name != backend.name by {
            assert(all[j] == before[j]);
        }
    }
    assert forall|k: int| is_backend(all, backend.name, k) implies k == n by {
        if k < n {
            assert(all[k] == before[k]);
        } else if n < k {
            assert(all[n].name != backend.name);
        }
    }
    assert forall|k: int| !#[trigger] is_backend(before, backend.name, k) by {
        if is_backend(before, backend.name, k) {
            assert(before[k].name != backend.name);
        }
    }
}

/// A host rule says which host it is about and which backend it goes to, by a name that has to be
/// one.
pub proof fn law_host_rule_of(entries: Seq<(String, Json)>, backends: Seq<Backend>)
    ensures
        ({
            let read = host_rule_of(entries, backends);
            let from = member(entries, "from"@);
            let to = member(entries, "to"@);
            &&& from is Null ==> read == Err::<HostRule, Failure>(
                Failure::Param("proxy_rule"@, "must have [from] paramter"@),
            )
            &&& from !is Null && from !is Text ==> read == Err::<HostRule, Failure>(
                Failure::Param("proxy_rule->from"@, "paramter must be a String"@),
            )
            &&& from is Text && to is Null ==> read == Err::<HostRule, Failure>(
                Failure::Param("proxy_rule"@, "proxy_rule must have [to] paramter"@),
            )
            &&& from is Text && to !is Null && to !is Text ==> read == Err::<HostRule, Failure>(
                Failure::Param("proxy_rule->to"@, "paramter must be a String"@),
            )
            &&& from is Text && to is Text ==> match backend_named(backends, to->Text_0@) {
                Some(backend) => read matches Ok(rule) && rule.from == from->Text_0@ && rule.to == backend,
                None => read == Err::<HostRule, Failure>(
                    Failure::Param("proxy_rule->to"@, "Must be a valid backend name"@),
                ),
            }
        }),
{
}

/// A rule is an object that says that it is a host rule.
pub proof fn law_rule_of(value: Json, backends: Seq<Backend>)
    ensures
        value !is Object ==> rule_of(value, backends) == Err::<HostRule, Failure>(
            Failure::Format("proxy_rule paramter should be an object"@),
        ),
        value matches Json::Object(entries) ==> {
            let kind = member(entries@, "type"@);
            &&& kind !is Text ==> rule_of(value, backends) == Err::<HostRule, Failure>(
                Failure::Param("proxy_rule->type"@, "must be a string"@),
            )
            &&& kind is Text && kind->Text_0@ == "proxy_rule_host"@ ==> rule_of(value, backends) == host_rule_of(
                entries@,
                backends,
            )
            &&& kind is Text && kind->Text_0@ != "proxy_rule_host"@ ==> rule_of(value, backends) == Err::<
                HostRule,
                Failure,
            >(Failure::Param("proxy_rule->type"@, "Rule type[{type}] unsupported"@))
        },
{
}

/// One more rule in a list is added at its end, unless the list is refused already or the rule is.
pub proof fn law_rules_longer(values: Seq<Json>, value: Json, backends: Seq<Backend>)
    ensures
        rules_of(Seq::empty(), backends) == Ok::<Seq<HostRule>, Failure>(Seq::empty()),
        match (rules_of(values, backends), rule_of(value, backends)) {
            (Err(e), _) => rules_of(values.push(value), backends) == Err::<Seq<HostRule>, Failure>(e),
            (Ok(_), Err(e)) => rules_of(values.push(value), backends) == Err::<Seq<HostRule>, Failure>(e),
            (Ok(rules), Ok(rule)) => rules_of(values.push(value), backends) == Ok::<Seq<HostRule>, Failure>(
                rules.push(rule),
            ),
        },
{
    assert(values.push(value).drop_last() =~= values);
}

/// The worker count may be as large as a count can be, as nearly as a double can say it; what is
/// larger is answered with the largest count.
pub proof fn law_worker_range()
    ensures
        usize::MAX <= worker_limit() <= usize::MAX + 1,
        usize::MAX == 0xffff_ffff_ffff_ffff ==> worker_limit() == 0x1_0000_0000_0000_0000,
        usize::MAX < 0xffff_ffff_ffff_ffff ==> worker_limit() == usize::MAX,
        worker_range().len() > 30,
        worker_range().take(30) == "parameter has to be > 0 and < "@,
        unsigned(worker_range().skip(30)) == Some(usize::MAX as nat),
{
    reveal_strlit("parameter has to be > 0 and < ");
    law_number_text(usize::MAX as nat);
    assert(worker_range().take(30) =~= "parameter has to be > 0 and < "@);
    assert(worker_range().skip(30) =~= decimal_text(usize::MAX as nat));
}

/// What is wrong with a server is the first of: it is no object; its listener is no text; the
/// listener is no address; its worker count is no number; the count is out of range; its rules are
/// no list; its backends are no list; a backend is refused; a rule is refused.
pub proof fn law_server_refused<A>(name: Seq<char>, value: Json, address: Result<A, Seq<char>>)
    ensures
        ({
            let read = server_of(name, value, address);
            value !is Object ==> read == Err::<Server<A>, Failure>(Failure::NotAnObject(name))
        }),
        value matches Json::Object(entries) ==> {
            let read = server_of(name, value, address);
            let listener = member(entries@, "listener"@);
            let count = member(entries@, "worker_count"@);
            let rules = member(entries@, "proxy_rules"@);
            let backends = member(entries@, "backends"@);
            let fits = count is Number && double_to_uint(count->Number_0, worker_limit(), usize::MAX as nat) is Some;
            &&& listener !is Text ==> read == Err::<Server<A>, Failure>(
                Failure::Param("listener"@, "parameter has to be a String "@),
            )
            &&& listener is Text && address is Err ==> read == Err::<Server<A>, Failure>(
                Failure::Listener(address->Err_0),
            )
            &&& listener is Text && address is Ok ==> {
                &&& count !is Number ==> read == Err::<Server<A>, Failure>(
                    Failure::Param("worker_count"@, "paramter has to be a Number"@),
                )
                &&& count is Number && !fits ==> read == Err::<Server<A>, Failure>(
                    Failure::Param("worker_count"@, worker_range()),
                )
                &&& fits && rules !is Array ==> read == Err::<Server<A>, Failure>(
                    Failure::Param("proxy_rules"@, "paramter has to be an Array"@),
                )
                &&& fits && rules is Array && backends !is Array ==> read == Err::<Server<A>, Failure>(
                    Failure::Param("backens"@, "paramter has to be an Array"@),
                )
                &&& fits && rules is Array && backends is Array ==> match backends_of(backends->Array_0@) {
                    Err(e) => read == Err::<Server<A>, Failure>(e),
                    Ok(list) => rules_of(rules->Array_0@, list) matches Err(e) ==> read == Err::<Server<A>, Failure>(
                        e,
                    ),
                }
            }
        },
{
}

/// A server that has nothing wrong with it is accepted, with what its object says.
pub proof fn law_server_accepted<A>(
    name: Seq<char>,
    value: Json,
    listener: A,
    backends: Seq<Backend>,
    rules: Seq<HostRule>,
    count: nat,
)
    requires
        value is Object,
        member(value->Object_0@, "listener"@) is Text,
        member(value->Object_0@, "worker_count"@) matches Json::Number(bits) && double_to_uint(
            bits,
            worker_limit(),
            usize::MAX as nat,
        ) == Some(count),
        member(value->Object_0@, "backends"@) matches Json::Array(list) && backends_of(list@) == Ok::<
            Seq<Backend>,
            Failure,
        >(backends),
        member(value->Object_0@, "proxy_rules"@) matches Json::Array(list) && rules_of(list@, backends) == Ok::<
            Seq<HostRule>,
            Failure,
        >(rules),
    ensures
        server_of(name, value, Ok::<A, Seq<char>>(listener)) matches Ok(server) && server.name == name
            && server.listener == listener && server.worker_count == count && server.rules == rules
            && server.backends == backends,
{
}

/// The address text of a server is its listener, where that is a text.
pub proof fn law_listener_text<A>(value: Json, text: Seq<char>, addresses: Addresses<A>)
    ensures
        listener_text(value) == Some(text) <==> (value matches Json::Object(entries) && (member(
            entries@,
            "listener"@,
        ) matches Json::Text(s) && s@ == text)),
        listener_text(value) == Some(text) ==> address_by(value, addresses) == addresses(text),
{
}

/// One more server in a document is added at the end, unless the servers are refused already or it
/// is. What is no object holds no servers.
pub proof fn law_servers_longer<A>(
    entries: Seq<(String, Json)>,
    entry: (String, Json),
    addresses: Addresses<A>,
    document: Json,
)
    ensures
        servers_of(Seq::empty(), addresses) == Ok::<Seq<Server<A>>, Failure>(Seq::empty()),
        match (servers_of(entries, addresses), server_of(entry.0@, entry.1, address_by(entry.1, addresses))) {
            (Err(e), _) => servers_of(entries.push(entry), addresses) == Err::<Seq<Server<A>>, Failure>(e),
            (Ok(_), Err(e)) => servers_of(entries.push(entry), addresses) == Err::<Seq<Server<A>>, Failure>(e),
            (Ok(servers), Ok(server)) => servers_of(entries.push(entry), addresses) == Ok::<
                Seq<Server<A>>,
                Failure,
            >(servers.push(server)),
        },
        document matches Json::Object(all) ==> config_of(document, addresses) == servers_of(all@, addresses),
        document !is Object ==> config_of(document, addresses) == Err::<Seq<Server<A>>, Failure>(
            Failure::Format("Expected json Object in {config_json}"@),
        ),
{
    assert(entries.push(entry).drop_last() =~= entries);
}

} // verus!
