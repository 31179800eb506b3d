use vstd::prelude::*;
use crate::types::{Address, Context};
use crate::registry::CallRegistry;
use crate::outcome::OutcomeManager;

verus! {

/// Sets up the two components: a fresh registry, and an outcome manager paired
/// with the registry's address and owned by the deployer.
pub struct BackItDeployScript;

impl BackItDeployScript {
    /// Deploys the registry, then the manager that refers to it at `registry_address`.
    pub fn deploy(&self, deployer: Context, registry_address: Address) -> (r: (
        CallRegistry,
        OutcomeManager,
    ))
        ensures
            r.0.wf(),
            r.0@.len() == 0,
            r.1@.registry == registry_address,
            r.1@.owner == deployer.caller,
            r.1@.oracles.is_empty(),
            r.1@.settlements.is_empty(),
            r.1@.withdrawn.is_empty(),
    {
        let registry = CallRegistry::init();
        let manager = OutcomeManager::init(deployer, registry_address);
        (registry, manager)
    }
}

} // verus!
