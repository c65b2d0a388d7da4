//! Domain types shared by the service's modules.
use crate::broker::Broker;
use crate::config::AppConfig;
use vstd::prelude::*;

verus! {

/// Errors common to the service's modules, each with a detail message.
#[derive(Debug, Clone)]
pub enum DomainError {
    Persistence(String),
    Validation(String),
    NotFound(String),
    Authentication(String),
    Authorization(String),
}

impl DomainError {
    /// The prefix that names the kind of error in its message.
    pub open spec fn prefix_of(&self) -> Seq<char> {
        match self {
            DomainError::Persistence(_) => "Erro de persistência: "@,
            DomainError::Validation(_) => "Erro de validação: "@,
            DomainError::NotFound(_) => "Recurso não encontrado: "@,
            DomainError::Authentication(_) => "Erro de autenticação: "@,
            DomainError::Authorization(_) => "Erro de autorização: "@,
        }
    }

    pub open spec fn detail_of(&self) -> Seq<char> {
        match self {
            DomainError::Persistence(s) => s@,
            DomainError::Validation(s) => s@,
            DomainError::NotFound(s) => s@,
            DomainError::Authentication(s) => s@,
            DomainError::Authorization(s) => s@,
        }
    }

    /// The error's message: its kind, then its detail.
    pub fn message(&self) -> (r: String)
        ensures
            r@ == self.prefix_of() + self.detail_of(),
    {
        let (prefix, detail) = match self {
            DomainError::Persistence(s) => (String::from_str("Erro de persistência: "), s),
            DomainError::Validation(s) => (String::from_str("Erro de validação: "), s),
            DomainError::NotFound(s) => (String::from_str("Recurso não encontrado: "), s),
            DomainError::Authentication(s) => (String::from_str("Erro de autenticação: "), s),
            DomainError::Authorization(s) => (String::from_str("Erro de autorização: "), s),
        };
        prefix.concat(detail.as_str())
    }
}

/// Identifier of a user.
#[derive(Debug, Clone, PartialEq, Eq, Hash)]
pub struct UserID(pub String);

/// What a client supplies to register a user.
#[derive(Debug, Clone)]
pub struct NewUser {
    pub username: String,
    pub email: String,
    pub password: String,
}

/// The collaboration module, which consumes commands from the broker.
pub struct CollabModule {}

impl CollabModule {
    /// The module, given the broker it consumes from and the configuration.
    pub fn new(_broker: &Broker, _config: &AppConfig) -> (r: Result<CollabModule, DomainError>)
        ensures
            r matches Ok(c) && c == (CollabModule {}),
    {
        Ok(CollabModule {  })
    }

    /// Starts consuming commands.
    pub fn start(&self) -> (r: Result<(), DomainError>)
        ensures
            r is Ok,
    {
        Ok(())
    }

    /// Stops consuming commands.
    pub fn shutdown(&self) -> (r: Result<(), DomainError>)
        ensures
            r is Ok,
    {
        Ok(())
    }
}

} // verus!
