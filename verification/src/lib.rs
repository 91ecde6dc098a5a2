pub mod json;
pub mod protocol;
pub mod query;
pub mod retry_strategy;
pub mod score;
pub mod service;
pub mod settings;
pub mod tester;
pub mod watchdog;

pub use json::Json;
pub use protocol::Protocol;
pub use query::QueryCmd;
pub use retry_strategy::RetryStrategy;
pub use score::Score;
pub use score::SCORE_ONE;
pub use service::ConfigError;
pub use service::Service;
pub use settings::ResultOutput;
pub use settings::Settings;
pub use settings::TestResult;
pub use tester::SpawnOutcome;
pub use tester::Tester;
pub use watchdog::StopSignal;
