use broker_core::broker::Broker;
use broker_core::config::AppConfig;
use broker_core::domain::{CollabModule, DomainError};
use broker_core::names::valid_name;

#[test]
fn load_gives_defaults() {
    let c = AppConfig::load().unwrap();
    assert_eq!(c.gateway_port, 8080);
    assert_eq!(c.broker_queue_size, 1000);
    assert_eq!(c.broker_storage_dir, "./data");
    assert_eq!(c.collab_max_document_size, 10 * 1024 * 1024);
    assert_eq!(c.collab_timeout_seconds, 30);
    assert_eq!(c.log_level, "info");
}

#[test]
fn error_messages() {
    assert_eq!(
        DomainError::Validation("bad email".to_string()).message(),
        "Erro de validação: bad email"
    );
    assert_eq!(DomainError::NotFound("u1".to_string()).message(), "Recurso não encontrado: u1");
}

#[test]
fn every_error_kind_names_itself() {
    let d = || "x".to_string();
    assert_eq!(DomainError::Persistence(d()).message(), "Erro de persistência: x");
    assert_eq!(DomainError::Authentication(d()).message(), "Erro de autenticação: x");
    assert_eq!(DomainError::Authorization(d()).message(), "Erro de autorização: x");
}

#[test]
fn collab_lifecycle() {
    let config = AppConfig::load().unwrap();
    let broker = Broker::new(config.broker_queue_size, config.collab_max_document_size);
    let c = CollabModule::new(&broker, &config).unwrap();
    assert!(c.start().is_ok());
    assert!(c.shutdown().is_ok());
}

#[test]
fn names() {
    assert!(valid_name(&"orders-v1_2".to_string()));
    assert!(!valid_name(&"".to_string()));
    assert!(!valid_name(&"é".to_string()));
    assert!(!valid_name(&"../etc".to_string()));
}
