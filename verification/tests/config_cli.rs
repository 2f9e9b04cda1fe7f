use tbd_iac::cli::{Cli, CliCommand};
use tbd_iac::config::{Config, ProjectConfig, ProviderConfig};
use tbd_iac::store::StateStore;

fn provider(name: &str) -> ProviderConfig {
    ProviderConfig {
        name: name.to_string(),
        source: format!("registry/{name}"),
        version: "1.0.0".to_string(),
    }
}

#[test]
fn test_provider_lookup_by_name() {
    let config = Config {
        project: ProjectConfig { name: "demo".to_string(), version: "0.1.0".to_string() },
        providers: vec![provider("local"), provider("cloud")],
    };
    let hit = config.provider_named(&"cloud".to_string()).expect("cloud is configured");
    assert_eq!(hit.source, "registry/cloud");
    assert!(config.provider_named(&"absent".to_string()).is_none());
}

#[test]
fn test_cli_stack_selection() {
    let cli = Cli {
        config: None,
        debug: 0,
        command: CliCommand::PlanStack {
            stack: "dev".to_string(),
            dir: None,
            format: "text".to_string(),
        },
    };
    assert_eq!(cli.stack().expect("plan names a stack"), "dev");
    let init = Cli {
        config: None,
        debug: 1,
        command: CliCommand::Init { name: "demo".to_string(), dir: None },
    };
    assert!(init.stack().is_none());
}

#[test]
fn test_fingerprint_tracks_commits() {
    let mut store = StateStore::new();
    let fp0 = store.snapshot().fingerprint();
    let fp0_again = store.snapshot().fingerprint();
    assert_eq!(fp0, fp0_again);
    store
        .commit_put(
            "a".to_string(),
            "local".to_string(),
            "vpc".to_string(),
            tbd_iac::props::Props::empty(),
            None,
        )
        .expect("fresh id commits");
    let fp1 = store.snapshot().fingerprint();
    assert_ne!(fp0, fp1);
}
