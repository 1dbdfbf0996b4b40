//! Data sources that hand entities to the pipeline.  Inter-canister calls
//! are host I/O; what is verified here is the configuration lookup that
//! decides which canister and method to call.

use vstd::prelude::*;
use crate::config::EntityConfig;
use crate::entity::RagEntity;
use crate::error::ContragError;

verus! {

/// Reads entities out of the canister's own stable memory.  The storage
/// medium is the host's; this source currently holds nothing.
pub struct StableMemorySource {
}

impl StableMemorySource {
    pub fn new() -> Self {
        StableMemorySource {  }
    }

    /// Reads an entity by key; an empty source never finds one.
    pub fn read<T: RagEntity>(&self, _key: &str) -> (r: Result<Option<T>, ContragError>)
        ensures
            r matches Ok(v) && v is None,
    {
        Ok(None)
    }

    /// Writes an entity under a key; an empty source accepts and drops it.
    pub fn write<T: RagEntity>(&self, _key: &str, _entity: &T) -> (r: Result<(), ContragError>)
        ensures
            r is Ok,
    {
        Ok(())
    }
}

impl Default for StableMemorySource {
    fn default() -> Self {
        StableMemorySource::new()
    }
}

/// Index of the configuration governing `name`: the last one with that
/// entity name wins, or -1 when none is configured.
pub open spec fn config_index(cs: Seq<EntityConfig>, name: Seq<char>) -> int
    decreases cs.len(),
{
    if cs.len() == 0 {
        -1
    } else if cs.last().name@ == name {
        cs.len() - 1
    } else {
        config_index(cs.drop_last(), name)
    }
}

pub proof fn lemma_config_index(cs: Seq<EntityConfig>, name: Seq<char>)
    ensures
        -1 <= config_index(cs, name) < cs.len(),
        config_index(cs, name) >= 0 ==> cs[config_index(cs, name)].name@ == name && forall|j: int|
            config_index(cs, name) < j < cs.len() ==> (#[trigger] cs[j]).name@ != name,
        config_index(cs, name) < 0 ==> forall|j: int| 0 <= j < cs.len()
            ==> (#[trigger] cs[j]).name@ != name,
    decreases cs.len(),
{
    if cs.len() > 0 && cs.last().name@ != name {
        lemma_config_index(cs.drop_last(), name);
        assert forall|j: int| 0 <= j < cs.len() - 1 implies cs.drop_last()[j]
            == #[trigger] cs[j] by {}
    }
}

/// Reads entities from other canisters through inter-canister calls; the
/// calls are the host's, the per-entity-type configuration lookup is here.
pub struct CanisterStateSource {
    entity_configs: Vec<EntityConfig>,
}

impl CanisterStateSource {
    /// The configurations this source was created with, in order.
    pub closed spec fn configs(&self) -> Seq<EntityConfig> {
        self.entity_configs@
    }

    /// Creates a source over the given entity configurations.  A name
    /// configured twice is governed by its later configuration.
    pub fn new(entity_configs: Vec<EntityConfig>) -> (r: Self)
        ensures
            r.configs() == entity_configs@,
    {
        CanisterStateSource { entity_configs }
    }

    /// The configuration governing `entity_type`, or a configuration error
    /// when none is configured.
    pub fn get_config(&self, entity_type: &str) -> (r: Result<&EntityConfig, ContragError>)
        ensures
            config_index(self.configs(), entity_type@) >= 0 ==> (r matches Ok(c) && *c
                == self.configs()[config_index(self.configs(), entity_type@)]),
            config_index(self.configs(), entity_type@) < 0 ==> (r matches Err(e)
                && (e matches ContragError::ConfigError(msg)
                    && msg@ == "No configuration found for entity type: "@ + entity_type@)),
    {
        proof {
            lemma_config_index(self.configs(), entity_type@);
        }
        let key: String = entity_type.to_owned();
        let n = self.entity_configs.len();
        let mut i: usize = n;
        while i > 0
            invariant
                0 <= i <= n,
                n == self.configs().len(),
                key@ == entity_type@,
                forall|j: int| i <= j < n ==> (#[trigger] self.configs()[j]).name@ != key@,
            decreases i,
        {
            i = i - 1;
            if self.entity_configs[i].name == key {
                proof {
                    lemma_config_index(self.configs(), entity_type@);
                    let c = config_index(self.configs(), entity_type@);
                    if c > i {
                        assert(self.configs()[c].name@ != key@);
                    }
                    if 0 <= c < i {
                        assert(self.configs()[i as int].name@ != key@);
                    }
                }
                return Ok(&self.entity_configs[i]);
            }
        }
        proof {
            lemma_config_index(self.configs(), entity_type@);
        }
        let mut msg = String::from_str("No configuration found for entity type: ");
        msg.append(entity_type);
        Err(ContragError::ConfigError(msg))
    }
}

/// Creates a canister-state source from entity configurations.
pub fn create_from_config(entity_configs: Vec<EntityConfig>) -> (r: CanisterStateSource)
    ensures
        r.configs() == entity_configs@,
{
    CanisterStateSource::new(entity_configs)
}

} // verus!
