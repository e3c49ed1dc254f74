use reverse_proxy::config::{
    parse_backend_config, parse_backends, parse_config_rule, parse_proxy_rules, BackendConfig, ProxyConfigError,
    ProxyRule, ProxyRuleConfig, ProxyRuleHost,
};
use reverse_proxy::document::{parse_json, Json};
use reverse_proxy::http::Request;
use reverse_proxy::rewrite::{proxy_rewrite_request, ProxtRule};
use reverse_proxy::server::{parse_config_file, parse_config_json, parse_server_object, ServerConfig};
use reverse_proxy::transmittable::HttpTransmittable;
use std::str::FromStr;

/// An address: a host and a port.
#[derive(Debug, PartialEq)]
struct Address {
    host: String,
    port: u16,
}

impl FromStr for Address {
    type Err = String;

    fn from_str(s: &str) -> Result<Self, String> {
        let (host, port) = s.rsplit_once(':').ok_or("no port")?;
        let port = port.parse::<u16>().map_err(|e| e.to_string())?;
        Ok(Address { host: host.to_string(), port })
    }
}

fn addr(s: &str) -> Result<Address, String> {
    s.parse::<Address>()
}

fn array(text: &str) -> Vec<Json> {
    match parse_json(text).expect("Failed to parse json") {
        Json::Array(array) => array,
        _ => panic!("Backends should be json array"),
    }
}

fn object(text: &str) -> Vec<(String, Json)> {
    match parse_json(text).expect("Failed to parse json") {
        Json::Object(object) => object,
        _ => panic!("Expected json object"),
    }
}

fn member<'a>(document: &'a Json, key: &str) -> &'a Json {
    match document {
        Json::Object(entries) => &entries.iter().find(|e| e.0 == key).unwrap().1,
        _ => panic!("Expected json object"),
    }
}

fn param(e: ProxyConfigError) -> (String, String) {
    match e {
        ProxyConfigError::ConfigParamInvalid(param, error) => (param, error),
        _ => panic!("Bad error type"),
    }
}

fn request(text: &str) -> Request {
    let (request, _) = Request::parse_headers(text.as_bytes()).unwrap();
    request
}

fn config(text: &str) -> Result<Vec<ServerConfig<Address>>, ProxyConfigError> {
    parse_config_file(Ok(text.to_string()), &addr)
}

fn config_error(text: &str) -> ProxyConfigError {
    match config(text) {
        Ok(_) => panic!("Expected an error"),
        Err(e) => e,
    }
}

#[test]
fn test_json_parse_config_rule() {
    let backend_intput = r#"
        [
            {
                "name": "backend_1",
                "host": "localhost:8000"
            },
            {
                "name": "backend_2",
                "host": "localhost:8081"
            }
        ]
        "#;

    let json_input = parse_json(backend_intput).expect("Failed to parse json");
    assert!(matches!(json_input, Json::Array(_)));
    let json_input = match json_input {
        Json::Array(array) => array,
        _ => panic!("Backends should be json array"),
    };

    let backends = parse_backends(&json_input);

    let input = r#"{
                "type": "proxy_rule_host",
                "from": "127.0.0.1:8080",
                "to": "backend_2"
            }"#;

    let json_input = parse_json(input).expect("Failed to parse json");
    assert!(matches!(json_input, Json::Object(_)));
    let rule = parse_config_rule(&json_input, &backends.unwrap());
    assert!(rule.is_ok());
}

#[test]
fn test_json_parse_proxy_rule_host() {
    let backend_intput = r#"
        [
            {
                "name": "backend_1",
                "host": "localhost:8000"
            },
            {
                "name": "backend_2",
                "host": "localhost:8081"
            }
        ]
        "#;

    let json_input = parse_json(backend_intput).expect("Failed to parse json");
    assert!(matches!(json_input, Json::Array(_)));
    let json_input = match json_input {
        Json::Array(array) => array,
        _ => panic!("Backends should be json array"),
    };

    let backends = parse_backends(&json_input);

    let input = r#"{
                "type": "proxy_rule_host",
                "from": "127.0.0.1:8080",
                "to": "backend_1"
            }"#;

    let json_input = parse_json(input).expect("Failed to parse json");
    let proxy_rule = match json_input {
        Json::Object(ref object) => ProxyRuleHost::parse(object, &backends.unwrap()),
        _ => {
            assert!(false);
            return;
        }
    };
    assert!(proxy_rule.is_ok());
    let proxy_rule = proxy_rule.unwrap();
    assert!(proxy_rule.from == "127.0.0.1:8080");
    assert!(proxy_rule.to.host == "localhost:8000");
}

#[test]
fn test_json_parse_server() {
    let input = r#"
        {
            "test" : {
                "listener": "127.0.0.1:8081",
                "worker_count": 5,
                "backends": [
                    {
                        "name": "backend_1",
                        "host": "localhost:8000"
                    },
                    {
                        "name": "backend_2",
                        "host": "localhost:8081"
                    }
                ],
                "proxy_rules": [
                    {
                        "type": "proxy_rule_host",
                        "from": "127.0.0.1:8081",
                        "to": "backend_1"
                    },
                    {
                        "type": "proxy_rule_host",
                        "from": "localhost:8081",
                        "to": "backend_2"
                    }
                ]
            }
        }"#;

    let json_input = parse_json(input).expect("Failed to parse json");
    match parse_server_object("test", member(&json_input, "test"), &addr) {
        Ok(server_config) => {
            assert!(server_config.server_name == "test");
            assert!(server_config.listener_addr == "127.0.0.1:8081".parse().unwrap());
            assert!(server_config.worker_count == 5);
            assert!(server_config.proxy_rules.len() == 2);
            assert!(server_config.backends.len() == 2);
        }
        Err(e) => panic!("{}", e.to_string()),
    }
}

#[test]
fn test_json_parse_config() {
    let input = r#"
        {
            "test" : {
                "listener": "127.0.0.1:8081",
                "worker_count": 5,
                "backends" : [
                    {
                        "name": "backend_1",
                        "host": "0.0.0.0:80"
                    }
                ],
                "proxy_rules": [
                    {
                        "type": "proxy_rule_host",
                        "from": "127.0.0.1:8081",
                        "to": "backend_1"
                    }
                ]
            },
            "test2" : {
                "listener": "127.0.0.1:8081",
                "worker_count": 2,
                "backends" : [
                    {
                        "name": "backend_1",
                        "host": "0.0.0.0:80"
                    },
                    {
                        "name": "backend_2",
                        "host": "0.0.0.0:80"
                    },
                    {
                        "name": "backend_3",
                        "host": "0.0.0.0:80"
                    }
                ],

                "proxy_rules": [
                    {
                        "type": "proxy_rule_host",
                        "from": "127.0.0.1:8081",
                        "to": "backend_1"
                    },
                    {
                        "type": "proxy_rule_host",
                        "from": "localhost:8081",
                        "to": "backend_3"
                    }
                ]
            }
        }"#;

    let json_input = parse_json(input).expect("Failed to parse json");

    match parse_config_json(&json_input, &addr) {
        Ok(config) => {
            assert!(config.len() == 2);
            assert!(config.first().unwrap().worker_count == 5);
            assert!(config.first().unwrap().proxy_rules.len() == 1);
            assert!(config.first().unwrap().server_name == "test");

            assert!(config.last().unwrap().server_name == "test2");
            assert!(config.last().unwrap().worker_count == 2);
            assert!(config.last().unwrap().proxy_rules.len() == 2);
        }
        Err(e) => panic!("{}", e.to_string()),
    }
}

#[test]
fn test_json_parse_proxy_rule_host_failed() {
    let backend_intput = r#"
        [
            {
                "name": "backend_1",
                "host": "localhost:8000"
            },
            {
                "name": "backend_2",
                "host": "localhost:8081"
            }
        ]
        "#;

    let json_input = parse_json(backend_intput).expect("Failed to parse json");
    assert!(matches!(json_input, Json::Array(_)));
    let json_input = match json_input {
        Json::Array(array) => array,
        _ => panic!("Backends should be json array"),
    };

    let backends = parse_backends(&json_input).unwrap();

    // Fail because from not present
    let input = r#"{
                "type": "proxy_rule_host",
                "fro": "127.0.0.1:8080",
                "to": "backend_1"
            }"#;

    let json_input = parse_json(input).expect("Failed to parse json");
    let proxy_rule = match json_input {
        Json::Object(ref object) => ProxyRuleHost::parse(object, &backends),
        _ => {
            assert!(false);
            return;
        }
    };
    assert!(proxy_rule.is_err());

    match proxy_rule.err().unwrap() {
        ProxyConfigError::ConfigParamInvalid(param_name, _) => {
            assert!(param_name == "proxy_rule");
        }
        _ => panic!("Bad error type"),
    }

    // Fail because to is not present
    let input = r#"{
                "type": "proxy_rule_host",
                "from": "127.0.0.1:8080",
                "t": "backend_1" }"#;

    let json_input = parse_json(input).expect("Failed to parse json");
    let proxy_rule = match json_input {
        Json::Object(ref object) => ProxyRuleHost::parse(object, &backends),
        _ => {
            assert!(false);
            return;
        }
    };
    assert!(proxy_rule.is_err());
    match proxy_rule.err().unwrap() {
        ProxyConfigError::ConfigParamInvalid(param_name, _) => {
            assert!(param_name == "proxy_rule");
        }
        _ => panic!("Bad error type"),
    }

    // Fail because from is not a string
    let input = r#"{
                "type": "proxy_rule_host",
                "from": 5,
                "to": "backend_2"
            }"#;

    let json_input = parse_json(input).expect("Failed to parse json");
    let proxy_rule = match json_input {
        Json::Object(ref object) => ProxyRuleHost::parse(object, &backends),
        _ => {
            assert!(false);
            return;
        }
    };
    assert!(proxy_rule.is_err());
    match proxy_rule.err().unwrap() {
        ProxyConfigError::ConfigParamInvalid(param_name, _) => {
            assert!(param_name == "proxy_rule->from");
        }
        _ => panic!("Bad error type"),
    }

    // Fail because not pointing to a backend
    let input = r#"{
                "type": "proxy_rule_host",
                "from": "0.0.0.0:8080",
                "to": "backend_21"
            }"#;

    let json_input = parse_json(input).expect("Failed to parse json");
    let proxy_rule = match json_input {
        Json::Object(ref object) => ProxyRuleHost::parse(object, &backends),
        _ => {
            assert!(false);
            return;
        }
    };
    assert!(proxy_rule.is_err());
    match proxy_rule.err().unwrap() {
        ProxyConfigError::ConfigParamInvalid(param_name, _) => {
            assert!(param_name == "proxy_rule->to");
        }
        _ => panic!("Bad error type"),
    }
}

#[test]
fn test_json_parse_backends() {
    let input = r#"
        [
            {
                "name": "backend_1",
                "host": "localhost:8000"
            },
            {
                "name": "backend_2",
                "host": "localhost:8081"
            }
        ]
        "#;

    let json_input = parse_json(input).expect("Failed to parse json");
    assert!(matches!(json_input, Json::Array(_)));
    let json_input = match json_input {
        Json::Array(array) => array,
        _ => panic!("Backends should be json array"),
    };

    let parsed = parse_backends(&json_input);
    assert!(parsed.is_ok());
    let backends = parsed.unwrap();
    let backend_1 = backends.get(0).unwrap();
    let backend_2 = backends.get(1).unwrap();

    assert!(backend_1.name == "backend_1");
    assert!(backend_2.name == "backend_2");
    assert!(backend_2.host == "localhost:8081");
}

const EXAMPLE: &str = r#"{
    "example_config_1" : {
        "listener": "127.0.0.1:8080",
        "worker_count": 1,
        "backends" : [
            {
                "name": "backend_1",
                "host": "homeassistant.local",
                "hostname": "homeassistant.local",
                "port": 32400
            },
            {
                "name": "backend_2",
                "host": "www.google.com",
                "hostname": "www.google.com",
                "port": 443,
                "https": true 
            }
        ],
        "proxy_rules": [
            {
                "type": "proxy_rule_host",
                "from": "127.0.0.1:8080",
                "to": "backend_1"
            },
            {
                "type": "proxy_rule_host",
                "from": "0.0.0.0:8080",
                "to": "backend_1"
            },
            {
                "type": "proxy_rule_host",
                "from": "localhost:8080",
                "to": "backend_2"
            }
        ]
    },
    "example_config_2" : { 
        "listener": "127.0.0.1:8081",
        "worker_count": 1,
        "backends" : [
            {
                "name": "backend_1",
                "host": "localhost",
                "hostname": "testwebsite.com",
                "port": 8000
            }
        ],
        "proxy_rules": [
            {
                "type": "proxy_rule_host",
                "from": "127.0.0.1:8081",
                "to": "backend_1"
            }
        ]
    }   
}"#;

#[test]
fn example_configuration_is_accepted() {
    let servers = match config(EXAMPLE) {
        Ok(servers) => servers,
        Err(e) => panic!("{}", e.to_string()),
    };
    assert_eq!(servers.len(), 2);
    assert_eq!(servers[0].server_name, "example_config_1");
    assert_eq!(servers[0].listener_addr, "127.0.0.1:8080".parse().unwrap());
    assert_eq!(servers[0].worker_count, 1);
    assert_eq!(servers[0].backends.len(), 2);
    let home = &servers[0].backends[0];
    assert_eq!(home.hostname.as_deref(), Some("homeassistant.local"));
    assert_eq!(home.port, Some(32400));
    assert!(!home.https);
    assert_eq!(home.connect_address(), "homeassistant.local:32400");
    let google = &servers[0].backends[1];
    assert!(google.https);
    assert_eq!(google.connect_address(), "www.google.com:443");
    assert_eq!(servers[0].proxy_rules.len(), 3);
    assert_eq!(servers[0].proxy_rules[1].backend().name, "backend_1");
    assert_eq!(servers[0].proxy_rules[2].backend().name, "backend_2");
    assert_eq!(servers[1].server_name, "example_config_2");
    assert_eq!(servers[1].backends[0].connect_address(), "localhost:8000");
    assert_eq!(servers[1].backends[0].host_header(), "testwebsite.com");
}

#[test]
fn the_first_rule_for_the_host_rewrites_the_request() {
    let servers = match config(EXAMPLE) {
        Ok(servers) => servers,
        Err(e) => panic!("{}", e.to_string()),
    };
    let mut other = request("GET / HTTP/1.1\r\nHost: 127.0.0.1:8081\r\nAccept: */*\r\n\r\n");
    assert_eq!(proxy_rewrite_request(&mut other, &servers[1].proxy_rules), Ok(0));
    assert_eq!(other.get_headers().get("Host"), Some("testwebsite.com"));
    assert_eq!(other.get_headers().get("Accept"), Some("*/*"));
    let rule: &ProxyRuleConfig = &servers[0].proxy_rules[2];
    let mut local = request("GET / HTTP/1.1\r\nHost: localhost:8080\r\n\r\n");
    assert!(rule.matches(&local));
    assert!(!servers[0].proxy_rules[0].matches(&local));
    rule.rewrite(&mut local);
    assert_eq!(local.get_headers().get("Host"), Some("www.google.com"));
    assert!(!rule.matches(&local));
}

#[test]
fn a_backend_without_hostname_and_port_goes_by_its_host() {
    let backend = parse_backend_config(&parse_json(r#"{"name": "a", "host": "localhost:8000"}"#).unwrap()).unwrap();
    assert_eq!(backend.hostname, None);
    assert_eq!(backend.port, None);
    assert!(!backend.https);
    assert_eq!(backend.host_header(), "localhost:8000");
    assert_eq!(backend.connect_address(), "localhost:8000");
    let rule = ProxyRuleHost::new("here", backend.clone());
    let mut request = request("GET / HTTP/1.1\r\nHost: here\r\n\r\n");
    assert!(ProxtRule::matches(&rule, &request));
    ProxtRule::rewrite(&rule, &mut request);
    assert_eq!(request.get_headers().get("Host"), Some("localhost:8000"));
    assert!(*rule.backend() == backend);
}

#[test]
fn odd_optional_members_of_a_backend_count_as_left_out() {
    let text = r#"{"name": "a", "host": "h", "hostname": 7, "port": "80", "https": "yes"}"#;
    let backend = parse_backend_config(&parse_json(text).unwrap()).unwrap();
    assert!(
        backend
            == BackendConfig {
                name: "a".to_string(),
                host: "h".to_string(),
                hostname: None,
                port: None,
                https: false,
            }
    );
    let port = |n: &str| {
        let text = format!("{{\"name\": \"a\", \"host\": \"h\", \"port\": {n}}}");
        parse_backend_config(&parse_json(&text).unwrap()).unwrap().port
    };
    assert_eq!(port("0"), Some(0));
    assert_eq!(port("65535"), Some(65535));
    assert_eq!(port("65536"), None);
    assert_eq!(port("8.08e3"), Some(8080));
    assert_eq!(port("443.0"), Some(443));
    assert_eq!(port("-1"), None);
}

#[test]
fn backends_that_are_refused() {
    let e = parse_backend_config(&parse_json("5").unwrap()).err().unwrap();
    assert_eq!(e.to_string(), "Config file format incorrect \nbackend paramter should be an object");
    let e = parse_backend_config(&parse_json(r#"{"name": 1}"#).unwrap()).err().unwrap();
    assert_eq!(param(e), ("backends->host".to_string(), "must be a string".to_string()));
    let e = parse_backend_config(&parse_json(r#"{"host": "h"}"#).unwrap()).err().unwrap();
    assert_eq!(param(e), ("backends->name".to_string(), "must be a string".to_string()));
    let e = parse_backends(&array(r#"[{"name": "a", "host": "h"}, {"name": "a", "host": "i"}, 5]"#)).err().unwrap();
    assert_eq!(
        param(e),
        ("backends->name".to_string(), "has to be unique in the server scope".to_string())
    );
}

#[test]
fn rules_that_are_refused() {
    let backends = parse_backends(&array(r#"[{"name": "a", "host": "h"}]"#)).unwrap();
    let refused = |text: &str| parse_config_rule(&parse_json(text).unwrap(), &backends).err().unwrap();
    assert_eq!(
        refused("[]").to_string(),
        "Config file format incorrect \nproxy_rule paramter should be an object"
    );
    assert_eq!(
        param(refused(r#"{"from": "x", "to": "a"}"#)),
        ("proxy_rule->type".to_string(), "must be a string".to_string())
    );
    assert_eq!(
        param(refused(r#"{"type": "other", "from": "x", "to": "a"}"#)),
        ("proxy_rule->type".to_string(), "Rule type[{type}] unsupported".to_string())
    );
    assert_eq!(
        param(refused(r#"{"type": "proxy_rule_host", "from": "x", "to": 3}"#)),
        ("proxy_rule->to".to_string(), "paramter must be a String".to_string())
    );
    assert_eq!(
        param(refused(r#"{"type": "proxy_rule_host", "to": "a"}"#)),
        ("proxy_rule".to_string(), "must have [from] paramter".to_string())
    );
    assert_eq!(
        param(refused(r#"{"type": "proxy_rule_host", "from": "x", "to": null}"#)),
        ("proxy_rule".to_string(), "proxy_rule must have [to] paramter".to_string())
    );
    let rules = array(r#"[{"type": "proxy_rule_host", "from": "x", "to": "a"}, 1, 2]"#);
    assert!(matches!(parse_proxy_rules(&rules, &backends), Err(ProxyConfigError::BadConfigFormat(_))));
}

fn server(members: &str) -> String {
    format!("{{\"s\": {{{members}}}}}")
}

#[test]
fn servers_that_are_refused() {
    assert!(matches!(
        config_error(r#"{"s": 5}"#),
        ProxyConfigError::ServerConfigIsNotAnObject(name) if name == "s"
    ));
    assert_eq!(
        param(config_error(&server(""))),
        ("listener".to_string(), "parameter has to be a String ".to_string())
    );
    match config_error(&server(r#""listener": "nowhere""#)) {
        ProxyConfigError::InvalidListnerAddr(e) => {
            assert_eq!(e, addr("nowhere").err().unwrap());
        }
        _ => panic!("Bad error type"),
    }
    let listener = r#""listener": "127.0.0.1:80""#;
    assert_eq!(
        param(config_error(&server(listener))),
        ("worker_count".to_string(), "paramter has to be a Number".to_string())
    );
    let range = (
        "worker_count".to_string(),
        format!("parameter has to be > 0 and < {}", usize::MAX),
    );
    assert_eq!(param(config_error(&server(&format!("{listener}, \"worker_count\": -1")))), range);
    assert_eq!(param(config_error(&server(&format!("{listener}, \"worker_count\": 1e30")))), range);
    assert_eq!(
        param(config_error(&server(&format!("{listener}, \"worker_count\": 1")))),
        ("proxy_rules".to_string(), "paramter has to be an Array".to_string())
    );
    assert_eq!(
        param(config_error(&server(&format!("{listener}, \"worker_count\": 1, \"proxy_rules\": []")))),
        ("backens".to_string(), "paramter has to be an Array".to_string())
    );
}

#[test]
fn the_worker_count_is_a_whole_number() {
    let count = |n: &str| {
        let text = server(&format!(
            "\"listener\": \"[::1]:80\", \"worker_count\": {n}, \"proxy_rules\": [], \"backends\": []"
        ));
        match config(&text) {
            Ok(servers) => Some(servers[0].worker_count),
            Err(_) => None,
        }
    };
    assert_eq!(count("0"), Some(0));
    assert_eq!(count("4"), Some(4));
    assert_eq!(count("4.9"), Some(4));
    assert_eq!(count("5.0"), Some(5));
    assert_eq!(count("5e0"), Some(5));
    assert_eq!(count("50e-1"), Some(5));
    assert_eq!(count("5e3"), Some(5000));
    assert_eq!(count("1200.00"), Some(1200));
    assert_eq!(count("0e5"), Some(0));
    assert_eq!(count("-5.0"), None);
    assert_eq!(count("-0"), Some(0));
    assert_eq!(count("-0.0"), Some(0));
    assert_eq!(count("9007199254740992"), Some(9007199254740992));
    assert_eq!(count("18446744073709551615"), Some(usize::MAX));
    assert_eq!(count("-0.5"), None);
    assert_eq!(count("\"4\""), None);
}

#[test]
fn files_that_are_refused() {
    let e = parse_config_file::<Address, _>(Err("gone".to_string()), &addr).err().unwrap();
    assert_eq!(e.to_string(), "Failed to read config file\ngone");
    let e = config_error("{");
    assert!(matches!(e, ProxyConfigError::FailedToParseConfig(_)));
    assert!(e.to_string().starts_with("Failed to parse json\n"));
    assert_eq!(
        config_error("[]").to_string(),
        "Config file format incorrect \nExpected json Object in {config_json}"
    );
    assert_eq!(
        config_error(r#"{"s": null}"#).to_string(),
        "Server config is not an object. ServerName - s"
    );
    assert_eq!(
        config_error(&server("")).to_string(),
        "Server config paramter:[listener] Error:[parameter has to be a String ]"
    );
    assert!(config_error(&server(r#""listener": "x""#))
        .to_string()
        .starts_with("Invalid SocketAddr in listener\n "));
}

#[test]
fn an_empty_configuration_has_no_servers() {
    assert_eq!(config("{}").ok().unwrap().len(), 0);
    assert_eq!(object("{}").len(), 0);
}

#[test]
fn addresses_are_read_only_where_there_is_a_text() {
    let never = |_: &str| -> Result<Address, String> { panic!("Nothing to read") };
    assert!(parse_config_json(&parse_json("{}").unwrap(), &never).is_ok());
    assert!(parse_config_json(&parse_json("5").unwrap(), &never).is_err());
    let e = parse_server_object("s", &parse_json("{\"listener\": 5}").unwrap(), &never).err().unwrap();
    assert_eq!(param(e).0, "listener");
    let e = parse_server_object("s", &parse_json("null").unwrap(), &never).err().unwrap();
    assert!(matches!(e, ProxyConfigError::ServerConfigIsNotAnObject(name) if name == "s"));
}
