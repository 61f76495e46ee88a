use vstd::prelude::*;
use vstd::string::*;

verus! {

/// Individual network spec for a network that a container is connected
/// to.
pub struct Network {
    pub aliases: Option<Vec<String>>,
}

/// Network settings for the container: the networks it is connected to,
/// by name.
pub struct NetworkSettings {
    pub networks: Vec<(String, Network)>,
}

/// Current container state.
pub struct State {
    pub status: String,
}

/// Current container configuration.
pub struct Config {
    pub image: String,
}

/// Code representation of the values the container runtime yields when a
/// container is inspected.
pub struct Container {
    /// The name of the container, as the runtime reports it: with a
    /// leading slash attached. Read it through `name`, which strips the
    /// slash.
    pub raw_name: String,
    /// Network settings for the container
    pub settings: NetworkSettings,
    /// Current container state
    pub state: State,
    /// Current container configuration
    pub config: Config,
    /// Current container platform
    pub platform: String,
}

impl Container {
    /// Package inspection data for one container. The reported name must
    /// carry the runtime's leading slash.
    pub fn new(
        name: String,
        settings: NetworkSettings,
        state: State,
        config: Config,
        platform: String,
    ) -> (r: Container)
        requires
            name@.len() >= 1,
        ensures
            r.raw_name@ == name@,
            r.settings == settings,
            r.state == state,
            r.config == config,
            r.platform == platform,
    {
        Container { raw_name: name, settings, state, config, platform }
    }

    /// Get the name of the container. This is the main getter since the
    /// runtime adds a slash to the container name, and it needs to be
    /// removed: the container is not actually called by that name.
    pub fn name(&self) -> (r: &str)
        requires
            self.raw_name@.len() >= 1,
        ensures
            r@ == self.raw_name@.skip(1),
    {
        let n = self.raw_name.as_str();
        let len = n.unicode_len();
        n.substring_char(1, len)
    }
}

} // verus!
