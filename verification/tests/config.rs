use rkv::config::{ClientConfig, ServerConfig};

fn args(list: &[&str]) -> Vec<String> {
    list.iter().map(|s| s.to_string()).collect()
}

#[test]
fn parse_server_args() {
    let cfg = ServerConfig::from_args(
        ["--addr", "0.0.0.0:9000", "--data", "/tmp/a.log"].map(String::from).to_vec(),
    )
    .unwrap();
    assert_eq!(cfg.addr, "0.0.0.0:9000");
    assert_eq!(cfg.data_file, "/tmp/a.log");
}

#[test]
fn reject_unknown_arg() {
    assert!(ServerConfig::from_args(vec!["--xxx".to_string()]).is_err());
    assert!(ServerConfig::from_args(vec!["--addr".to_string()]).is_err());
}

#[test]
fn defaults_and_messages() {
    let cfg = ServerConfig::from_args(Vec::new()).unwrap();
    assert_eq!(cfg.addr, "127.0.0.1:7878");
    assert_eq!(cfg.data_file, "data/rkv.log");
    assert_eq!(ServerConfig::from_args(args(&["--data"])).unwrap_err(), "--data 缺少参数");
    assert_eq!(ServerConfig::from_args(args(&["--addr"])).unwrap_err(), "--addr 缺少参数");
    assert_eq!(
        ServerConfig::from_args(args(&["-h"])).unwrap_err(),
        "用法: rkv-server [--addr 127.0.0.1:7878] [--data data/rkv.log]"
    );
    assert_eq!(
        ServerConfig::from_args(args(&["--xxx"])).unwrap_err(),
        format!("未知参数: --xxx\n{}", ServerConfig::usage())
    );
    let last = ServerConfig::from_args(args(&["--addr", "a:1", "--addr", "b:2"])).unwrap();
    assert_eq!(last.addr, "b:2");
}

#[test]
fn client_args() {
    assert_eq!(ClientConfig::from_args(Vec::new()).unwrap().addr, "127.0.0.1:7878");
    assert_eq!(ClientConfig::from_args(args(&["--addr", "h:1"])).unwrap().addr, "h:1");
    assert_eq!(ClientConfig::from_args(args(&["--help"])).unwrap_err(), ClientConfig::usage());
    assert_eq!(ClientConfig::usage(), "用法: rkv-client [--addr 127.0.0.1:7878]");
    assert_eq!(
        ClientConfig::from_args(args(&["--data", "x"])).unwrap_err(),
        format!("未知参数: --data\n{}", ClientConfig::usage())
    );
}
