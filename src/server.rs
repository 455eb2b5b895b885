use vstd::prelude::*;
use crate::auth::{rules_view, AuthConfig, AuthService};
use crate::text::utf8_of;

verus! {

/// Main server configuration.
pub struct ServerConfig {
    /// HTTP server bind address.
    pub http_addr: String,
    /// WebSocket server bind address.
    pub ws_addr: String,
    /// Enable the LSP server (stdio).
    pub enable_lsp: bool,
    /// Enable the HTTP server.
    pub enable_http: bool,
    /// Enable the WebSocket server.
    pub enable_websocket: bool,
    /// Secret for token signing.
    pub jwt_secret: String,
    /// Enable authentication.
    pub enable_auth: bool,
}

impl Default for ServerConfig {
    fn default() -> (r: Self)
        ensures
            r.http_addr@ == "0.0.0.0:8080"@,
            r.ws_addr@ == "0.0.0.0:8081"@,
            r.enable_lsp && r.enable_http && r.enable_websocket,
            r.jwt_secret@ == "dev-secret-change-in-production"@,
            !r.enable_auth,
    {
        ServerConfig {
            http_addr: String::from_str("0.0.0.0:8080"),
            ws_addr: String::from_str("0.0.0.0:8081"),
            enable_lsp: true,
            enable_http: true,
            enable_websocket: true,
            jwt_secret: String::from_str("dev-secret-change-in-production"),
            enable_auth: false,
        }
    }
}

/// Shared server state.
pub struct ServerState {
    /// Server configuration.
    pub config: ServerConfig,
    /// Authentication service, present when authentication is enabled.
    pub auth_service: Option<AuthService>,
}

impl ServerState {
    /// Builds the state; with authentication on, the service signs with the
    /// configured secret, issues 24-hour tokens and requires no scopes.
    pub fn new(config: ServerConfig) -> (r: Self)
        ensures
            r.config == config,
            r.auth_service.is_some() == config.enable_auth,
            r.auth_service matches Some(s) ==> {
                &&& s.enabled()
                &&& s.key() == utf8_of(config.jwt_secret@)
                &&& s.lifetime() == 86400
                &&& s.rules().len() == 0
            },
    {
        let auth_service = if config.enable_auth {
            let auth_config = AuthConfig {
                secret: config.jwt_secret.clone(),
                expiration_secs: 86400,
                required_scopes: Vec::new(),
                enabled: true,
            };
            Some(AuthService::new(auth_config))
        } else {
            None
        };
        ServerState { config, auth_service }
    }
}

} // verus!
