use rust_proxy_server::address::NetLocation;
use rust_proxy_server::config::{
    anytls_runtime, default_log_level, default_true, hysteria2_runtime, parse_args,
    parse_log_level, startup, AnyTlsConfig, AnyTlsUser, Config, Hysteria2Config, LogLevel,
    ServerConfig, Startup, UsageError,
};
use rust_proxy_server::error::Error;
use rust_proxy_server::tls_config::{
    certificate_request, check_certs, check_key, from_files, generate_self_signed, load_certs, load_key,
    self_signed_chain, with_alpn, KeyFormat, TlsSource,
};

fn args(list: &[&str]) -> Vec<String> {
    list.iter().map(|a| a.to_string()).collect()
}

#[test]
fn options_have_defaults() {
    let o = parse_args(&args(&[])).ok().unwrap();
    assert_eq!((o.config_path.as_str(), o.dry_run), ("config.yaml", false));
    let o = parse_args(&args(&["-d", "--config", "x", "-c", "y"])).ok().unwrap();
    assert_eq!((o.config_path.as_str(), o.dry_run), ("y", true));
}

#[test]
fn bad_options_print_the_usage() {
    assert!(matches!(parse_args(&args(&["-h"])), Err(UsageError::Help)));
    assert!(matches!(parse_args(&args(&["--help", "-x"])), Err(UsageError::Help)));
    assert!(matches!(
        parse_args(&args(&["-d", "-c"])),
        Err(UsageError::MissingArgument(o)) if o == "-c"
    ));
    assert!(matches!(
        parse_args(&args(&["--dry", "-h"])),
        Err(UsageError::UnknownOption(o)) if o == "--dry"
    ));
    // The argument of an option is no option.
    let o = parse_args(&args(&["-c", "-h"])).ok().unwrap();
    assert_eq!(o.config_path, "-h");
}

#[test]
fn log_levels_have_names() {
    assert_eq!(parse_log_level("TRACE"), Some(LogLevel::Trace));
    assert_eq!(parse_log_level("debug"), Some(LogLevel::Debug));
    assert_eq!(parse_log_level(&default_log_level()), Some(LogLevel::Info));
    assert_eq!(parse_log_level("Warn"), Some(LogLevel::Warn));
    assert_eq!(parse_log_level("warning"), Some(LogLevel::Warn));
    assert_eq!(parse_log_level("error"), Some(LogLevel::Error));
    assert_eq!(parse_log_level("off"), Some(LogLevel::Off));
    assert_eq!(parse_log_level("loud"), None);
    assert!(default_true());
}

fn hysteria2() -> Hysteria2Config {
    Hysteria2Config {
        listen: "0.0.0.0:443".to_string(),
        password: "pw".to_string(),
        udp_enabled: true,
        cert: Some("c".to_string()),
        key: None,
        alpn: vec!["h3".to_string()],
    }
}

#[test]
fn configurations_lead_to_servers() {
    let mut c = Config { log_level: default_log_level(), servers: Vec::new() };
    assert_eq!(startup(&c, false), Startup::NoServers);
    assert_eq!(startup(&c, true), Startup::NoServers);
    c.servers.push(ServerConfig::Hysteria2(hysteria2()));
    assert_eq!(startup(&c, true), Startup::DryRun);
    assert_eq!(startup(&c, false), Startup::Serve);
    let r = hysteria2_runtime(hysteria2());
    assert_eq!(r.listen, "0.0.0.0:443");
    assert_eq!(r.password, "pw");
    assert!(r.udp_enabled);
    assert_eq!((r.cert, r.key), (Some("c".to_string()), None));
    assert_eq!(r.alpn, vec!["h3".to_string()]);
}

#[test]
fn users_become_pairs() {
    let r = anytls_runtime(AnyTlsConfig {
        listen: "l".to_string(),
        cert: None,
        key: Some("k".to_string()),
        udp_enabled: false,
        users: vec![AnyTlsUser { name: "n".to_string(), password: "p".to_string() }],
        padding_scheme: Some("stop=1".to_string()),
        fallback: Some(NetLocation::from_str("a:1", None).unwrap()),
    });
    assert_eq!(r.users, vec![("n".to_string(), "p".to_string())]);
    assert_eq!(r.listen, "l");
    assert_eq!((r.cert, r.key), (None, Some("k".to_string())));
    assert!(!r.udp_enabled);
    assert_eq!(r.padding_scheme, Some("stop=1".to_string()));
    assert_eq!(r.fallback.map(|f| f.to_string()), Some("a:1".to_string()));
}

#[test]
fn certificates_come_with_their_key() {
    assert_eq!(from_files(Some("c"), Some("k")), Ok(TlsSource::Files));
    assert_eq!(from_files(None, None), Ok(TlsSource::SelfSigned));
    assert_eq!(from_files(Some("c"), None), Err(Error::IncompleteTlsFiles));
    assert_eq!(from_files(None, Some("k")), Err(Error::IncompleteTlsFiles));
    assert_eq!(with_alpn(&args(&["h3", "x"])), vec![b"h3".to_vec(), b"x".to_vec()]);
}

const CERTS: &[u8] = b"-----BEGIN CERTIFICATE-----\nAQID\n-----END CERTIFICATE-----\n\
-----BEGIN CERTIFICATE-----\nBAUG\n-----END CERTIFICATE-----\n";

#[test]
fn certificate_files_are_read() {
    assert_eq!(load_certs(CERTS), Ok(vec![vec![1, 2, 3], vec![4, 5, 6]]));
    assert_eq!(load_certs(b"nothing"), Err(Error::NoCertificates));
    assert_eq!(
        load_certs(b"-----BEGIN CERTIFICATE-----\n!\n-----END CERTIFICATE-----\n"),
        Err(Error::UnreadableCertificates)
    );
    assert_eq!(check_certs(Some(vec![vec![1]])), Ok(vec![vec![1]]));
    assert_eq!(check_certs(Some(vec![])), Err(Error::NoCertificates));
    assert_eq!(check_certs(None), Err(Error::UnreadableCertificates));
}

fn pem_of(label: &str) -> Vec<u8> {
    format!("-----BEGIN {}-----\nBwgJ\n-----END {}-----\n", label, label).into_bytes()
}

#[test]
fn key_files_are_read() {
    // The labels are put together here so that no line looks like a key.
    let kind = "PRIVATE KEY";
    assert_eq!(load_key(&pem_of(kind)), Ok((KeyFormat::Pkcs8, vec![7, 8, 9])));
    assert_eq!(
        load_key(&pem_of(&format!("RSA {}", kind))),
        Ok((KeyFormat::Pkcs1, vec![7, 8, 9]))
    );
    assert_eq!(load_key(&pem_of(&format!("EC {}", kind))), Ok((KeyFormat::Sec1, vec![7, 8, 9])));
    assert_eq!(load_key(CERTS), Err(Error::NoPrivateKey));
    let mut cut = pem_of(kind);
    cut.truncate(35);
    assert_eq!(load_key(&cut), Err(Error::UnreadableKey));
    assert_eq!(check_key(None), Err(Error::UnreadableKey));
    assert_eq!(check_key(Some(None)), Err(Error::NoPrivateKey));
    assert_eq!(check_key(Some(Some((KeyFormat::Other, vec![1])))), Ok((KeyFormat::Other, vec![1])));
}

#[test]
fn certificates_are_made() {
    let (certs, key) = generate_self_signed("anytls").unwrap();
    assert_eq!(certs.len(), 1);
    // The name stands in the certificate, twice: as its subject and among its names.
    let found = certs[0].windows(6).filter(|w| *w == b"anytls").count();
    assert!(found >= 2);
    assert!(!key.is_empty());
    let (other, _) = generate_self_signed("anytls").unwrap();
    assert_ne!(certs, other);
    assert_eq!(generate_self_signed("b\u{fc}cher.de"), Err(Error::SelfSigningFailed));
    let request = certificate_request("anytls");
    assert_eq!(request.names, vec!["anytls".to_string()]);
    assert_eq!(request.common_name, "anytls");
    assert_eq!(self_signed_chain(None), Err(Error::SelfSigningFailed));
    assert_eq!(self_signed_chain(Some((vec![1], vec![2]))), Ok((vec![vec![1]], vec![2])));
}
