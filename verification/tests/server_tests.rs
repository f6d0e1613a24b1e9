//! The server handle and its configuration.

use messenger_core::MessengerConfig;
use messenger_core::MessengerServer;
use messenger_core::protocol::WebSocketError;

#[test]
fn server_keeps_its_configuration() {
    let config = MessengerConfig {
        database_url: String::from("postgres://localhost/messenger"),
        websocket_addr: String::from("127.0.0.1:8080"),
        jwt_secret: String::from("SECRET-REDACTED"),
    };
    let server = MessengerServer::new(config);
    assert_eq!(server.config.database_url, "postgres://localhost/messenger");
    assert_eq!(server.config.websocket_addr, "127.0.0.1:8080");
}

#[test]
fn websocket_error_kinds_are_distinct() {
    assert_ne!(WebSocketError::ConnectionError, WebSocketError::MessageSendError);
}
