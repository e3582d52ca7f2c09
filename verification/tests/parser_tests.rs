use rbm::config::{APIConfig, APIEndpoint, APIMethod, Config};
use rbm::config::create_default_config;
use rbm::error::ExecutorError;
use rbm::parser::{parse_key_val, validate, CmdArgs, Commands};

fn apis_with(api_name: &str, endpoint_name: &str) -> Vec<(String, APIConfig)> {
    let ep = APIEndpoint {
        method: APIMethod::GET,
        url: "http://h/x".to_string(),
        headers: None,
        body: None,
        auth: None,
    };
    let config = APIConfig::new(None, vec![(endpoint_name.to_string(), ep)]);
    vec![(api_name.to_string(), config)]
}

fn run_args(api: &str, endpoint: &str) -> CmdArgs {
    CmdArgs {
        config: None,
        command: Commands::Run {
            api: api.to_string(),
            context: None,
            endpoint: endpoint.to_string(),
            input: vec![],
            verbose: false,
        },
    }
}

#[test]
fn parse_key_val_splits_on_first_equals() {
    let (k, v) = parse_key_val("key=value").unwrap();
    assert_eq!(k, "key");
    assert_eq!(v, "value");
}

#[test]
fn parse_key_val_keeps_later_equals_in_value() {
    let (k, v) = parse_key_val("a=b=c").unwrap();
    assert_eq!(k, "a");
    assert_eq!(v, "b=c");
}

#[test]
fn parse_key_val_allows_empty_key_and_value() {
    let (k, v) = parse_key_val("=v").unwrap();
    assert_eq!(k, "");
    assert_eq!(v, "v");
    let (k2, v2) = parse_key_val("k=").unwrap();
    assert_eq!(k2, "k");
    assert_eq!(v2, "");
}

#[test]
fn parse_key_val_rejects_missing_equals() {
    assert!(parse_key_val("justakey").is_none());
}

#[test]
fn validate_accepts_list_without_apis() {
    let args = CmdArgs { config: None, command: Commands::List };
    assert!(validate(&args, &vec![]).is_ok());
}

#[test]
fn validate_accepts_known_api_and_endpoint() {
    let apis = apis_with("svc", "ping");
    assert!(validate(&run_args("svc", "ping"), &apis).is_ok());
}

#[test]
fn validate_rejects_unknown_api() {
    let apis = apis_with("svc", "ping");
    match validate(&run_args("nosuch", "ping"), &apis) {
        Err(ExecutorError::APINotFound(name)) => assert_eq!(name, "nosuch"),
        _ => panic!("expected api-not-found"),
    }
}

#[test]
fn validate_rejects_unknown_endpoint() {
    let apis = apis_with("svc", "ping");
    match validate(&run_args("svc", "nosuch"), &apis) {
        Err(ExecutorError::EndpointNotFound(name)) => assert_eq!(name, "nosuch"),
        _ => panic!("expected endpoint-not-found"),
    }
}

#[test]
fn default_config_points_at_apis_directory() {
    let config = create_default_config("/home/u/.config/rbm".to_string());
    assert_eq!(config.config_directory(), "/home/u/.config/rbm");
    assert_eq!(config.api_collection_directories().len(), 1);
    assert_eq!(config.api_collection_directories()[0], "apis");
}

#[test]
fn set_config_path_replaces_only_the_directory() {
    let mut config = Config::new("/old".to_string(), vec!["apis".to_string()], None);
    config.set_config_path("/new".to_string());
    assert_eq!(config.config_directory(), "/new");
    assert_eq!(config.api_collection_directories().len(), 1);
}

#[test]
fn api_config_lookups_find_what_was_stored() {
    let apis = apis_with("svc", "ping");
    let config = &apis[0].1;
    assert!(config.contains_endpoint("ping"));
    assert!(!config.contains_endpoint("pong"));
    let ep = config.get_api_endpoint("ping").unwrap();
    assert_eq!(ep.url, "http://h/x");
    assert!(config.get_api_endpoint("pong").is_none());
    assert!(!config.contains_context("local"));
    assert!(config.get_api_context("local").is_none());
}

#[test]
fn api_config_context_lookup_returns_group() {
    let group = vec![("k".to_string(), "v".to_string())];
    let config = APIConfig::new(Some(vec![("local".to_string(), group)]), vec![]);
    assert!(config.contains_context("local"));
    let found = config.get_api_context("local").unwrap();
    assert_eq!(found.len(), 1);
    assert_eq!(found[0].0, "k");
    assert_eq!(found[0].1, "v");
}
