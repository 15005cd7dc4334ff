use mcp_client::cli::{parse_args, parse_cli, Command};
use mcp_client::json::Json;

fn tokens(words: &[&str]) -> Vec<Vec<u8>> {
    words.iter().map(|w| w.as_bytes().to_vec()).collect()
}

#[test]
fn test_cli_parsing() {
    let cli = parse_cli(&tokens(&["test", "list-tools"])).unwrap();
    assert!(!cli.verbose);
    assert_eq!(cli.server, b"./server".to_vec());
    assert!(matches!(cli.command, Command::ListTools));
}

#[test]
fn test_args_parsing() {
    let args_json = r#"{"key": "value", "number": 42}"#;
    let args = parse_args(args_json.as_bytes()).unwrap();
    assert_eq!(args.len(), 2);
    let obj = Json::Obj(args);
    assert_eq!(
        obj.obj_get(b"key").unwrap().as_str().unwrap(),
        &b"value".to_vec()
    );
    assert_eq!(obj.obj_get(b"number").unwrap().as_i64().unwrap(), 42);
}

#[test]
fn cli_flags_before_subcommand() {
    let cli = parse_cli(&tokens(&["prog", "--verbose", "-s", "srv", "call-tool", "echo"])).unwrap();
    assert!(cli.verbose);
    assert_eq!(cli.server, b"srv".to_vec());
    match cli.command {
        Command::CallTool { tool, args } => {
            assert_eq!(tool, b"echo".to_vec());
            assert_eq!(args, b"{}".to_vec());
        }
        _ => panic!("wrong command"),
    }
}

#[test]
fn cli_call_tool_with_args() {
    let cli = parse_cli(&tokens(&["prog", "call-tool", "sum", "--args", "{\"a\":1}"])).unwrap();
    match cli.command {
        Command::CallTool { tool, args } => {
            assert_eq!(tool, b"sum".to_vec());
            assert_eq!(args, b"{\"a\":1}".to_vec());
        }
        _ => panic!("wrong command"),
    }
}

#[test]
fn cli_rejects_unknown() {
    assert!(parse_cli(&tokens(&["prog", "frobnicate"])).is_err());
    assert!(parse_cli(&tokens(&["prog"])).is_err());
    assert!(parse_cli(&tokens(&["prog", "read-resource"])).is_err());
    assert!(parse_cli(&tokens(&["prog", "list-tools", "extra"])).is_err());
}

#[test]
fn args_blank_and_empty_object_mean_no_arguments() {
    assert_eq!(parse_args(b"").unwrap().len(), 0);
    assert_eq!(parse_args(b"   ").unwrap().len(), 0);
    assert_eq!(parse_args(b"{}").unwrap().len(), 0);
    assert_eq!(parse_args(b" {} ").unwrap().len(), 0);
}

#[test]
fn args_rejects_malformed() {
    assert!(parse_args(b"{\"a\":").is_err());
    assert!(parse_args(b"[1,2]").is_err());
    assert!(parse_args(b"not json").is_err());
}

#[test]
fn args_accept_fractional_numbers() {
    let args = parse_args(b"{\"t\": 1.5, \"n\": 42}").unwrap();
    assert_eq!(args.len(), 2);
    let obj = Json::Obj(args);
    assert!(matches!(
        obj.obj_get(b"t").unwrap(),
        Json::Num(lex) if lex == &b"1.5".to_vec()
    ));
    assert_eq!(obj.obj_get(b"n").unwrap().as_i64().unwrap(), 42);
}
