use vstd::prelude::*;

verus! {

/// Enum representing all the possible errors that can be thrown by
/// carbon. Most variants carry a string: the piece that goes into the
/// eventual error message (an offending name, a path, or the raw
/// standard-error text of an external tool), not the message itself.
#[derive(Debug, PartialEq, Eq)]
pub enum CarbonError {
    /// Given service name doesn't exist in the active environment
    ServiceNotDefined(String),
    /// Given service name is not a running service
    ServiceNotRunning(String),
    /// Given service name is already running
    ServiceAlreadyRunning(String),
    /// A descriptor file holds a document that is not a single-key mapping
    /// with a well-formed dependency list; carries the file's path
    MalformedService(String),
    /// Variable not defined in active environment
    UndefinedEnvVar(String, String),
    /// There is no active environment
    NoActiveEnv,
    /// There was an error reading a file
    FileReadError(String),
    /// There was an error writing a file
    FileWriteError(String),
    /// Failed starting a docker service
    DockerServiceStartup(String),
    /// Failed stopping a docker service
    DockerServiceShutdown(String),
    /// Failed creating a docker network
    DockerNetworkCreate(String),
    /// Failed removing a docker network
    DockerNetworkRemove(String),
    /// Failed inspecting a docker network
    DockerNetworkInspect(String),
    /// Failed connecting to a docker network
    DockerNetworkConnect(String),
    /// The docker daemon itself could not be reached
    Docker(String),
}

} // verus!
