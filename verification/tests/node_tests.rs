use dfs_core::client;
use dfs_core::config::Config;
use dfs_core::dfs::DistributedFileSystem;
use dfs_core::errors::{AppError, ProtocolError, StorageError};
use dfs_core::logging::{LogLevel, parse_level, should_log};
use dfs_core::server;
use dfs_core::topology::NetworkTopology;

#[test]
fn add_file_and_get_file_content_round_trip() {
    let mut dfs = DistributedFileSystem::new();
    assert_eq!(
        dfs.add_file("example.txt".to_string(), "Hello, Distributed World!".to_string()),
        Ok(())
    );
    assert_eq!(
        dfs.get_file_content("example.txt".to_string()),
        Ok("Hello, Distributed World!".to_string())
    );
}

#[test]
fn get_file_content_of_missing_file_is_not_found() {
    let dfs = DistributedFileSystem::new();
    assert_eq!(
        dfs.get_file_content("missing".to_string()),
        Err(StorageError::NotFound)
    );
}

#[test]
fn get_file_content_of_non_text_bytes_is_a_medium_error() {
    let mut dfs = DistributedFileSystem::new();
    assert_eq!(dfs.store("raw", vec![0xFFu8, 0xFE]), Ok(()));
    assert_eq!(
        dfs.get_file_content("raw".to_string()),
        Err(StorageError::MediumError)
    );
}

#[test]
fn list_file_names_is_sorted() {
    let mut dfs = DistributedFileSystem::new();
    dfs.add_file("b.txt".to_string(), "2".to_string()).unwrap();
    dfs.add_file("a.txt".to_string(), "1".to_string()).unwrap();
    assert_eq!(
        dfs.list_file_names(),
        Ok(vec!["a.txt".to_string(), "b.txt".to_string()])
    );
}

#[test]
fn generate_file_path_joins_root_and_name() {
    let dfs = DistributedFileSystem::new();
    assert_eq!(dfs.generate_file_path("example.txt"), "./data/example.txt");
    let config = Config { file_path: "/srv/files".to_string(), max_connections: 4 };
    let dfs = DistributedFileSystem::from_config(&config).unwrap();
    assert_eq!(dfs.generate_file_path("x"), "/srv/files/x");
}

#[test]
fn from_config_requires_a_valid_configuration() {
    let bad = Config { file_path: "".to_string(), max_connections: 4 };
    assert!(DistributedFileSystem::from_config(&bad).is_err());
}

#[test]
fn config_validation_names_each_rejection() {
    let low = Config { file_path: "data".to_string(), max_connections: 0 };
    assert_eq!(low.validate(), Err("Max connections must be at least 1"));
    let empty = Config { file_path: "".to_string(), max_connections: 3 };
    assert_eq!(empty.validate(), Err("File path must not be empty"));
    let good = Config { file_path: "data".to_string(), max_connections: 1 };
    assert_eq!(good.validate(), Ok(()));
}

#[test]
fn server_start_seeds_the_store_and_reports_failure() {
    let mut dfs = DistributedFileSystem::new();
    let result = server::start(&mut dfs, "127.0.0.1:8080");
    match result {
        Err(AppError::ServerError(message)) => {
            assert_eq!(message, "Failed to start the server");
        }
        other => panic!("unexpected result: {:?}", other.map_err(|e| e.message())),
    }
    assert_eq!(
        dfs.get_file_content("example.txt".to_string()),
        Ok("Hello, Distributed World!".to_string())
    );
}

#[test]
fn client_start_reads_the_example_file_or_reports_it_missing() {
    let empty = DistributedFileSystem::new();
    match client::start(&empty, "127.0.0.1:8080") {
        Err(AppError::FileSystemError(message)) => assert_eq!(message, "File not found"),
        other => panic!("unexpected result: {:?}", other.map_err(|e| e.message())),
    }

    let mut seeded = DistributedFileSystem::new();
    let _ = server::start(&mut seeded, "127.0.0.1:8080");
    match client::start(&seeded, "127.0.0.1:8080") {
        Err(AppError::ClientError(message)) => {
            assert_eq!(message, "Failed to connect to the server");
        }
        other => panic!("unexpected result: {:?}", other.map_err(|e| e.message())),
    }
}

#[test]
fn generate_response_is_the_fixed_acknowledgement() {
    assert_eq!(server::generate_response("anything"), "Response from server\n");
}

#[test]
fn topology_tracks_peer_addresses() {
    let mut topology = NetworkTopology::new();
    topology.add_peer("p1".to_string(), "10.0.0.1:4000".to_string());
    topology.add_peer("p2".to_string(), "10.0.0.2:4000".to_string());
    assert_eq!(topology.peer_address("p1"), Some("10.0.0.1:4000".to_string()));
    topology.add_peer("p1".to_string(), "10.0.0.9:4000".to_string());
    assert_eq!(topology.peer_address("p1"), Some("10.0.0.9:4000".to_string()));
    topology.remove_peer(&"p2".to_string());
    assert_eq!(topology.peer_address("p2"), None);
    topology.remove_peer(&"absent".to_string());
    assert_eq!(topology.peer_address("p1"), Some("10.0.0.9:4000".to_string()));
}

#[test]
fn log_levels_rank_and_filter() {
    assert!(should_log(LogLevel::Debug, LogLevel::Error));
    assert!(should_log(LogLevel::Debug, LogLevel::Debug));
    assert!(should_log(LogLevel::Warning, LogLevel::Error));
    assert!(!should_log(LogLevel::Error, LogLevel::Warning));
    assert!(!should_log(LogLevel::Info, LogLevel::Debug));
    assert_eq!(parse_level("ERROR"), LogLevel::Error);
    assert_eq!(parse_level("WARNING"), LogLevel::Warning);
    assert_eq!(parse_level("INFO"), LogLevel::Info);
    assert_eq!(parse_level("DEBUG"), LogLevel::Debug);
    assert_eq!(parse_level("anything else"), LogLevel::Debug);
    assert_eq!(LogLevel::Warning.label(), "Warning");
}

#[test]
fn error_codes_are_stable() {
    assert_eq!(StorageError::InvalidName.code(), "invalid_name");
    assert_eq!(StorageError::NotFound.code(), "not_found");
    assert_eq!(StorageError::MediumError.code(), "medium_error");
    assert_eq!(ProtocolError::Truncated.code(), "protocol_error:truncated");
    assert_eq!(ProtocolError::UnknownTag.code(), "protocol_error:unknown_tag");
    assert_eq!(ProtocolError::BadText.code(), "protocol_error:bad_text");
    assert_eq!(ProtocolError::TrailingBytes.code(), "protocol_error:trailing_bytes");
    assert_eq!(ProtocolError::Oversize.code(), "protocol_error:oversize");
    assert_eq!(
        AppError::EnvVarError("SERVER_ADDRESS must be set".to_string()).message(),
        "SERVER_ADDRESS must be set"
    );
}

#[test]
fn add_file_rejects_traversal_names() {
    let mut dfs = DistributedFileSystem::new();
    assert_eq!(
        dfs.add_file("../secrets".to_string(), "x".to_string()),
        Err(StorageError::InvalidName)
    );
    assert_eq!(dfs.list_file_names(), Ok(Vec::new()));
}
