//! The engine's configuration.

use vstd::prelude::*;

use std::sync::Arc;

verus! {

/// Where the event bus is.
pub struct KafkaConfig {
    /// Comma-separated broker list.
    pub brokers: String,
}

/// A MySQL connection string.
pub struct MysqlConfig {
    pub url: String,
}

/// A PostgreSQL connection string.
pub struct PostgresqlConfig {
    pub url: String,
}

/// The configuration: the bus and the database that holds the symbol
/// catalog.
pub struct Config {
    pub kafka_config: KafkaConfig,
    pub mysql_config: Option<MysqlConfig>,
    pub postgresql_config: Option<PostgresqlConfig>,
}

/// The database that holds the symbol catalog.
#[derive(Debug, Clone, Copy, PartialEq, Eq, Structural)]
pub enum CatalogDb {
    Mysql,
    Postgresql,
}

/// Why a configuration cannot start the engine.
#[derive(Debug, Clone, Copy, PartialEq, Eq, Structural)]
pub enum ConfigError {
    /// Neither database is configured.
    MissingCatalog,
    /// Both databases are configured.
    AmbiguousCatalog,
}

impl Config {
    /// The catalog database and its connection string: exactly one of the
    /// two databases must be configured.
    pub fn catalog(&self) -> (r: Result<(CatalogDb, String), ConfigError>)
        ensures
            self.mysql_config is None && self.postgresql_config is None ==> r == Err::<(CatalogDb, String), ConfigError>(
                ConfigError::MissingCatalog,
            ),
            self.mysql_config is Some && self.postgresql_config is Some ==> r == Err::<(CatalogDb, String), ConfigError>(
                ConfigError::AmbiguousCatalog,
            ),
            self.mysql_config is Some && self.postgresql_config is None ==> r is Ok && r->Ok_0.0 == CatalogDb::Mysql
                && r->Ok_0.1@ == self.mysql_config->Some_0.url@,
            self.mysql_config is None && self.postgresql_config is Some ==> r is Ok && r->Ok_0.0 == CatalogDb::Postgresql
                && r->Ok_0.1@ == self.postgresql_config->Some_0.url@,
    {
        match (&self.mysql_config, &self.postgresql_config) {
            (None, None) => Err(ConfigError::MissingCatalog),
            (Some(_), Some(_)) => Err(ConfigError::AmbiguousCatalog),
            (Some(m), None) => Ok((CatalogDb::Mysql, m.url.clone())),
            (None, Some(p)) => Ok((CatalogDb::Postgresql, p.url.clone())),
        }
    }

    /// The configuration as a shared, read-only handle for the engines.
    pub fn global(self) -> (r: Arc<Config>)
        ensures
            *r == self,
    {
        Arc::new(self)
    }
}

} // verus!
