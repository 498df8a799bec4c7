//! Settings of the backup and sync workers, their defaults, and what is
//! written to the settings store when a setting is missing.

use vstd::prelude::*;

verus! {

/// How the backup worker authenticates against a WebDAV server.
#[derive(Clone, Copy, Debug, PartialEq, Eq, Structural)]
pub enum WebDavAuthMethod {
    Basic,
    Digest,
}

/// How the backup worker uploads the database.
#[derive(Clone, Copy, Debug, PartialEq, Eq, Structural)]
pub enum BackupProtocol {
    WebDAV,
    HttpPut,
}

/// Settings of the sync worker.
#[derive(Clone, Debug)]
pub struct SyncWorkerConfig {
    pub enabled: bool,
    pub central_api_base_url: String,
}

/// Settings of the backup worker.
#[derive(Clone, Debug)]
pub struct BackupWorkerConfig {
    pub protocol: BackupProtocol,
    pub webdav_url: String,
    pub username: String,
    pub password: String,
    pub auth_method: WebDavAuthMethod,
    pub enabled: bool,
}

/// The view of the sync worker's settings.
pub struct SyncWorkerConfigV {
    pub enabled: bool,
    pub central_api_base_url: Seq<char>,
}

/// The view of the backup worker's settings.
pub struct BackupWorkerConfigV {
    pub protocol: BackupProtocol,
    pub webdav_url: Seq<char>,
    pub username: Seq<char>,
    pub password: Seq<char>,
    pub auth_method: WebDavAuthMethod,
    pub enabled: bool,
}

impl View for SyncWorkerConfig {
    type V = SyncWorkerConfigV;

    open spec fn view(&self) -> SyncWorkerConfigV {
        SyncWorkerConfigV { enabled: self.enabled, central_api_base_url: self.central_api_base_url@ }
    }
}

impl View for BackupWorkerConfig {
    type V = BackupWorkerConfigV;

    open spec fn view(&self) -> BackupWorkerConfigV {
        BackupWorkerConfigV {
            protocol: self.protocol,
            webdav_url: self.webdav_url@,
            username: self.username@,
            password: self.password@,
            auth_method: self.auth_method,
            enabled: self.enabled,
        }
    }
}

/// The backup settings a fresh installation starts with: WebDAV with
/// digest authentication against the local development server, enabled.
pub open spec fn default_backup_view() -> BackupWorkerConfigV {
    BackupWorkerConfigV {
        protocol: BackupProtocol::WebDAV,
        webdav_url: "http://localhost:8080"@,
        username: "alice"@,
        password: "secret1234"@,
        auth_method: WebDavAuthMethod::Digest,
        enabled: true,
    }
}

/// The sync settings a fresh installation starts with: disabled, pointing
/// at the local development server.
pub open spec fn default_sync_view() -> SyncWorkerConfigV {
    SyncWorkerConfigV { enabled: false, central_api_base_url: "http://localhost:8080/api/v1"@ }
}

/// The default backup settings.
pub fn default_backup_config() -> (r: BackupWorkerConfig)
    ensures
        r@ == default_backup_view(),
{
    BackupWorkerConfig {
        protocol: BackupProtocol::WebDAV,
        webdav_url: String::from_str("http://localhost:8080"),
        username: String::from_str("alice"),
        password: String::from_str("secret1234"),
        auth_method: WebDavAuthMethod::Digest,
        enabled: true,
    }
}

/// The default sync settings.
pub fn default_sync_config() -> (r: SyncWorkerConfig)
    ensures
        r@ == default_sync_view(),
{
    SyncWorkerConfig {
        enabled: false,
        central_api_base_url: String::from_str("http://localhost:8080/api/v1"),
    }
}

/// The backup settings in effect: the stored ones, or the defaults where
/// none are stored.
pub fn backup_config_or_default(stored: Option<BackupWorkerConfig>) -> (r: BackupWorkerConfig)
    ensures
        stored matches Some(c) ==> r@ == c@,
        stored is None ==> r@ == default_backup_view(),
{
    match stored {
        Some(c) => c,
        None => default_backup_config(),
    }
}

/// The sync settings in effect: the stored ones, or the defaults where none
/// are stored.
pub fn sync_config_or_default(stored: Option<SyncWorkerConfig>) -> (r: SyncWorkerConfig)
    ensures
        stored matches Some(c) ==> r@ == c@,
        stored is None ==> r@ == default_sync_view(),
{
    match stored {
        Some(c) => c,
        None => default_sync_config(),
    }
}

/// What initialising the backup settings writes to the store: the defaults
/// where nothing readable is stored, else nothing.
pub fn backup_config_to_initialise(stored: &Option<BackupWorkerConfig>) -> (r: Option<BackupWorkerConfig>)
    ensures
        stored is Some ==> r is None,
        stored is None ==> (r matches Some(c) && c@ == default_backup_view()),
{
    match stored {
        Some(_) => None,
        None => Some(default_backup_config()),
    }
}

/// What initialising the sync settings writes to the store: the defaults
/// where nothing readable is stored, else nothing.
pub fn sync_config_to_initialise(stored: &Option<SyncWorkerConfig>) -> (r: Option<SyncWorkerConfig>)
    ensures
        stored is Some ==> r is None,
        stored is None ==> (r matches Some(c) && c@ == default_sync_view()),
{
    match stored {
        Some(_) => None,
        None => Some(default_sync_config()),
    }
}

/// The id of this installation: the one stored, or a fresh one, which must
/// then be stored (the second component says so).
pub fn resolve_instance_id(stored: Option<String>, fresh: String) -> (r: (String, bool))
    ensures
        stored matches Some(s) ==> r.0@ == s@ && !r.1,
        stored is None ==> r.0@ == fresh@ && r.1,
{
    match stored {
        Some(s) => (s, false),
        None => (fresh, true),
    }
}

} // verus!
