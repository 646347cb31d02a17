//! The data that the library hands to its callers and takes from them.
use vstd::prelude::*;

verus! {

/// A language runtime that the library manages.
#[derive(Debug, Clone, Copy, PartialEq, Eq, Structural, Hash)]
pub enum RuntimeKind {
    Java,
    Node,
    Go,
    Maven,
    Python,
    Rust,
}

/// The name shown for a runtime.
pub open spec fn display_name_of(kind: RuntimeKind) -> Seq<char> {
    match kind {
        RuntimeKind::Java => "Java"@,
        RuntimeKind::Node => "Node.js"@,
        RuntimeKind::Go => "Go"@,
        RuntimeKind::Maven => "Maven"@,
        RuntimeKind::Python => "Python"@,
        RuntimeKind::Rust => "Rust"@,
    }
}

/// The environment variable that names the home of a runtime.
pub open spec fn env_var_of(kind: RuntimeKind) -> Seq<char> {
    match kind {
        RuntimeKind::Java => "JAVA_HOME"@,
        RuntimeKind::Node => "NODE_HOME"@,
        RuntimeKind::Go => "GOROOT"@,
        RuntimeKind::Maven => "MAVEN_HOME"@,
        RuntimeKind::Python => "PYTHON_HOME"@,
        RuntimeKind::Rust => "RUST_HOME"@,
    }
}

impl RuntimeKind {
    /// The name shown for the runtime.
    pub fn display_name(self) -> (r: &'static str)
        ensures
            r@ == display_name_of(self),
    {
        match self {
            RuntimeKind::Java => "Java",
            RuntimeKind::Node => "Node.js",
            RuntimeKind::Go => "Go",
            RuntimeKind::Maven => "Maven",
            RuntimeKind::Python => "Python",
            RuntimeKind::Rust => "Rust",
        }
    }

    /// The environment variable that an activation sets.
    pub fn env_var_name(self) -> (r: &'static str)
        ensures
            r@ == env_var_of(self),
    {
        match self {
            RuntimeKind::Java => "JAVA_HOME",
            RuntimeKind::Node => "NODE_HOME",
            RuntimeKind::Go => "GOROOT",
            RuntimeKind::Maven => "MAVEN_HOME",
            RuntimeKind::Python => "PYTHON_HOME",
            RuntimeKind::Rust => "RUST_HOME",
        }
    }
}

/// One installed version of a runtime.
#[derive(Debug, Clone)]
pub struct RuntimeVersion {
    pub kind: RuntimeKind,
    /// The version number, such as 17.0.10 or 1.23.4.
    pub version: String,
    /// Where it comes from (Temurin, nvm, homebrew, ...).
    pub vendor: String,
    /// Its home directory.
    pub path: String,
    /// Whether it is the current default.
    pub is_default: bool,
    /// Whether it lies under the managed installation directory.
    pub managed: bool,
}

/// What a `RuntimeVersion` holds.
pub struct VersionView {
    pub kind: RuntimeKind,
    pub version: Seq<char>,
    pub vendor: Seq<char>,
    pub path: Seq<char>,
    pub is_default: bool,
    pub managed: bool,
}

impl View for RuntimeVersion {
    type V = VersionView;

    open spec fn view(&self) -> VersionView {
        VersionView {
            kind: self.kind,
            version: self.version@,
            vendor: self.vendor@,
            path: self.path@,
            is_default: self.is_default,
            managed: self.managed,
        }
    }
}

/// One version that a release source offers.
#[derive(Debug, Clone)]
pub struct AvailableVersion {
    pub version: String,
    pub is_lts: bool,
}

/// What a `AvailableVersion` holds.
pub struct AvailableView {
    pub version: Seq<char>,
    pub is_lts: bool,
}

impl View for AvailableVersion {
    type V = AvailableView;

    open spec fn view(&self) -> AvailableView {
        AvailableView { version: self.version@, is_lts: self.is_lts }
    }
}

/// The versions offered for one major version, newest first.
#[derive(Debug, Clone)]
pub struct AvailableVersionGroup {
    /// The major version (`21`, `24`; for Go the first two fields, `1.24`).
    pub major: String,
    /// Whether any version of the group is long-term supported.
    pub is_lts: bool,
    /// The versions, newest first.
    pub versions: Vec<String>,
    /// The newest version.
    pub latest: String,
}

/// What an `AvailableVersionGroup` holds.
pub struct GroupView {
    pub major: Seq<char>,
    pub is_lts: bool,
    pub versions: Seq<Seq<char>>,
    pub latest: Seq<char>,
}

impl View for AvailableVersionGroup {
    type V = GroupView;

    open spec fn view(&self) -> GroupView {
        GroupView {
            major: self.major@,
            is_lts: self.is_lts,
            versions: Seq::new(self.versions@.len(), |i: int| self.versions@[i]@),
            latest: self.latest@,
        }
    }
}

/// A request to install a version.
#[derive(Debug, Clone)]
pub struct InstallRequest {
    pub kind: RuntimeKind,
    /// For Java the feature release (such as 21); otherwise the version.
    pub version: String,
}

/// A progress event of an installation.
#[derive(Debug, Clone)]
pub struct InstallProgress {
    pub kind: RuntimeKind,
    pub version: String,
    /// downloading / extracting / installing / done / error
    pub stage: String,
    /// Download progress in percent, outside the download `None`.
    pub percent: Option<u32>,
    pub message: String,
}

/// The versions currently in effect.
#[derive(Debug, Clone, Default)]
pub struct RuntimeOverview {
    pub java: Option<String>,
    pub node: Option<String>,
    pub go: Option<String>,
    pub maven: Option<String>,
    pub python: Option<String>,
    pub rust: Option<String>,
    /// The value of `JAVA_HOME`.
    pub java_home: Option<String>,
}

/// What a scan of all runtimes returns.
#[derive(Debug, Clone)]
pub struct RuntimesPayload {
    pub overview: RuntimeOverview,
    pub versions: Vec<RuntimeVersion>,
}

/// A service that the library installs and runs.
#[derive(Debug, Clone, Copy, PartialEq, Eq, Structural, Hash)]
pub enum ServiceKind {
    Redis,
    MySql,
}

/// The name shown for a service.
pub open spec fn service_name_of(kind: ServiceKind) -> Seq<char> {
    match kind {
        ServiceKind::Redis => "Redis"@,
        ServiceKind::MySql => "MySQL"@,
    }
}

/// The port a service listens on unless configured otherwise.
pub open spec fn default_port_of(kind: ServiceKind) -> u16 {
    match kind {
        ServiceKind::Redis => 6379,
        ServiceKind::MySql => 3306,
    }
}

impl ServiceKind {
    /// The name shown for the service.
    pub fn display_name(self) -> (r: &'static str)
        ensures
            r@ == service_name_of(self),
    {
        match self {
            ServiceKind::Redis => "Redis",
            ServiceKind::MySql => "MySQL",
        }
    }

    /// The port the service listens on unless configured otherwise.
    pub fn default_port(self) -> (r: u16)
        ensures
            r == default_port_of(self),
    {
        match self {
            ServiceKind::Redis => 6379,
            ServiceKind::MySql => 3306,
        }
    }
}

/// The run configuration of a service.
#[derive(Debug, Clone)]
pub struct ServiceConfig {
    pub port: u16,
    pub password: String,
    /// The password in force before a change (MySQL needs it to change it).
    pub old_password: String,
}

/// The state of one installed version of a service.
#[derive(Debug, Clone)]
pub struct ServiceVersionInfo {
    pub version: String,
    pub running: bool,
    pub port: u16,
    pub autostart: bool,
}

/// The state of a service.
#[derive(Debug, Clone)]
pub struct ServiceInfo {
    pub kind: ServiceKind,
    pub name: String,
    pub installed: bool,
    pub version: Option<String>,
    pub versions: Vec<ServiceVersionInfo>,
    pub running: bool,
    pub port: u16,
    pub pid: Option<u32>,
    pub password: String,
    pub autostart: bool,
    pub data_dir: String,
    pub note: Option<String>,
}

/// A progress event of a service installation.
#[derive(Debug, Clone)]
pub struct ServiceProgress {
    pub kind: ServiceKind,
    pub version: String,
    pub stage: String,
    pub percent: Option<u32>,
    pub message: String,
}

/// A request to install a service.
#[derive(Debug, Clone)]
pub struct ServiceInstallRequest {
    pub kind: ServiceKind,
    pub version: String,
    pub port: Option<u16>,
    pub password: Option<String>,
}

/// The versions of one runtime in the managed directory.
#[derive(Debug, Clone)]
pub struct ManagedRuntimeInfo {
    pub kind: RuntimeKind,
    pub versions: Vec<String>,
}

/// The managed directory: where it is, how many versions, how large.
#[derive(Debug, Clone)]
pub struct ManageInfo {
    pub path: String,
    pub version_count: usize,
    pub size_bytes: u64,
    pub runtimes: Vec<ManagedRuntimeInfo>,
}

} // verus!
