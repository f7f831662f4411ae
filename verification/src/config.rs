//! The settings of the command-line client.

use crate::text::{str_eq, str_to_string};
use vstd::prelude::*;

verus! {

/// How the client authenticates.
#[derive(Debug)]
pub enum AuthMethod {
    LocalIdentity,
    ApiKey(String),
    AccessToken(String),
}

/// The settings of the client.
#[derive(Debug)]
pub struct Config {
    pub auth_method: AuthMethod,
    pub network: String,
    pub canister_id: String,
    pub openai_api_key: Option<String>,
}

/// The address of a network: that of the local replica for `local`, that
/// of the public network for `ic`, and any other name as it is.
pub open spec fn network_url(network: Seq<char>) -> Seq<char> {
    if network == "local"@ {
        "http://localhost:4943"@
    } else if network == "ic"@ {
        "https://ic0.app"@
    } else {
        network
    }
}

impl Config {
    /// The address of the network of the settings.
    pub fn get_network_url(&self) -> (r: String)
        ensures
            r@ == network_url(self.network@),
    {
        if str_eq(self.network.as_str(), "local") {
            str_to_string("http://localhost:4943")
        } else if str_eq(self.network.as_str(), "ic") {
            str_to_string("https://ic0.app")
        } else {
            self.network.clone()
        }
    }
}

impl Default for Config {
    fn default() -> (c: Self)
        ensures
            c.auth_method is LocalIdentity,
            c.network@ == "ic"@,
            c.canister_id@ == "77fv5-oiaaa-aaaal-qsoea-cai"@,
            c.openai_api_key is None,
    {
        Config {
            auth_method: AuthMethod::LocalIdentity,
            network: str_to_string("ic"),
            canister_id: str_to_string("77fv5-oiaaa-aaaal-qsoea-cai"),
            openai_api_key: None,
        }
    }
}

} // verus!
