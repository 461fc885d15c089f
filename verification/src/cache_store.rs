//! The whole cache: files of chunks and artifacts on disk, and project
//! sources and bake outputs in memory, sized from the configuration and the
//! process's limit on open files.
use vstd::prelude::*;

use crate::cache::{ResourceCache, ValueCache};
use crate::config::CacheConfig;
use crate::lru_cache::CacheSlot;
use crate::models::HashId;

verus! {

#[verifier::external_type_specification]
#[verifier::external_body]
pub struct ExIoError(std::io::Error);

/// Calls `rlimit::getrlimit` for the open-file limit: the soft and the hard
/// limit, as the operating system has them now.
#[verifier::external_body]
fn nofile_limits() -> (r: Result<(u64, u64), std::io::Error>) {
    rlimit::getrlimit(rlimit::Resource::NOFILE)
}

/// Calls `rlimit::increase_nofile_limit`, which tries to raise the soft
/// open-file limit to `lim` and hands back the soft limit that then holds;
/// what that is depends on the operating system, so nothing is claimed of it.
#[verifier::external_body]
fn raise_nofile_limit(lim: u64) -> (r: Result<u64, std::io::Error>) {
    rlimit::increase_nofile_limit(lim)
}

/// Which cached resource a file is.
#[derive(Clone, Copy, Debug, PartialEq, Eq)]
pub enum CacheResourceId {
    Chunk { chunk_id: HashId },
    Artifact { artifact_id: HashId },
}

/// The kind tags of cache keys.
pub open spec fn chunk_kind() -> u8 {
    0
}

pub open spec fn artifact_kind() -> u8 {
    1
}

pub open spec fn project_source_kind() -> u8 {
    2
}

pub open spec fn bake_output_kind() -> u8 {
    3
}

impl CacheResourceId {
    /// The cache key of the resource: its kind and its hash.
    pub fn key(&self) -> (key: (u8, [u8; 32]))
        ensures
            match self {
                CacheResourceId::Chunk { chunk_id } => key.0 == chunk_kind() && key.1@ == chunk_id@,
                CacheResourceId::Artifact { artifact_id } => key.0 == artifact_kind() && key.1@
                    == artifact_id@,
            },
    {
        match self {
            CacheResourceId::Chunk { chunk_id } => (0, chunk_id.to_bytes()),
            CacheResourceId::Artifact { artifact_id } => (1, artifact_id.to_bytes()),
        }
    }

    /// The resource whose cache key `key` is, if it is one.
    pub fn from_key(key: (u8, [u8; 32])) -> (r: Option<CacheResourceId>)
        ensures
            key.0 == chunk_kind() ==> (r matches Some(CacheResourceId::Chunk { chunk_id })
                && chunk_id@ == key.1@),
            key.0 == artifact_kind() ==> (r matches Some(CacheResourceId::Artifact { artifact_id })
                && artifact_id@ == key.1@),
            key.0 > artifact_kind() ==> r is None,
    {
        if key.0 == 0 {
            Some(CacheResourceId::Chunk { chunk_id: HashId::from_bytes(key.1) })
        } else if key.0 == 1 {
            Some(CacheResourceId::Artifact { artifact_id: HashId::from_bytes(key.1) })
        } else {
            None
        }
    }

    /// The name of the resource's kind, as metrics label it.
    pub fn variant_label(&self) -> (label: &'static str)
        ensures
            match self {
                CacheResourceId::Chunk { .. } => label@ == "chunk"@,
                CacheResourceId::Artifact { .. } => label@ == "artifact"@,
            },
    {
        match self {
            CacheResourceId::Chunk { .. } => "chunk",
            CacheResourceId::Artifact { .. } => "artifact",
        }
    }
}

/// The cache key of a project's source.
pub fn project_source_key(project_id: HashId) -> (key: (u8, [u8; 32]))
    ensures
        key.0 == project_source_kind(),
        key.1@ == project_id@,
{
    (2, project_id.to_bytes())
}

/// The cache key of a recipe's bake output.
pub fn bake_output_key(recipe_id: HashId) -> (key: (u8, [u8; 32]))
    ensures
        key.0 == bake_output_kind(),
        key.1@ == recipe_id@,
{
    (3, recipe_id.to_bytes())
}

/// The soft open-file limit the cache needs: the files left for other uses,
/// plus room for at least one cache file.
pub open spec fn min_soft_limit_spec(min_non_cache_files: u64, min_cache_files: u64) -> int {
    min_non_cache_files + if min_cache_files > 1 {
        min_cache_files as int
    } else {
        1
    }
}

/// What to do with the soft open-file limit.
#[derive(Clone, Copy, Debug, PartialEq, Eq)]
pub enum SoftLimitPlan {
    /// It is high enough already.
    Keep { soft_limit: u64 },
    /// Raise it to this.
    Raise { to: u64 },
    /// Even the hard limit is below what the cache needs.
    HardLimitTooLow,
}

/// What to do with the soft limit given the current limits: refuse when the
/// hard limit is below the need, raise a soft limit that is below it, and
/// otherwise keep it.
pub open spec fn plan_soft_limit_spec(soft_limit: u64, hard_limit: u64, min_soft_limit: u64) -> SoftLimitPlan {
    if min_soft_limit > hard_limit {
        SoftLimitPlan::HardLimitTooLow
    } else if soft_limit < min_soft_limit {
        SoftLimitPlan::Raise { to: min_soft_limit }
    } else {
        SoftLimitPlan::Keep { soft_limit }
    }
}

/// Decides from the current limits, as `plan_soft_limit_spec` says.
pub fn plan_soft_limit(soft_limit: u64, hard_limit: u64, min_soft_limit: u64) -> (plan:
    SoftLimitPlan)
    ensures
        plan == plan_soft_limit_spec(soft_limit, hard_limit, min_soft_limit),
{
    if min_soft_limit > hard_limit {
        SoftLimitPlan::HardLimitTooLow
    } else if soft_limit < min_soft_limit {
        SoftLimitPlan::Raise { to: min_soft_limit }
    } else {
        SoftLimitPlan::Keep { soft_limit }
    }
}

/// How many cache files fit under a soft limit once the other files are
/// left for: none when that is not at least one.
pub fn cache_file_budget(soft_limit: u64, min_non_cache_files: u64) -> (budget: Option<usize>)
    ensures
        soft_limit > min_non_cache_files && soft_limit - min_non_cache_files <= usize::MAX
            ==> budget == Some((soft_limit - min_non_cache_files) as usize),
        soft_limit <= min_non_cache_files || soft_limit - min_non_cache_files > usize::MAX
            ==> budget is None,
{
    if soft_limit <= min_non_cache_files {
        return None;
    }
    let budget = soft_limit - min_non_cache_files;
    if budget as u128 > usize::MAX as u128 {
        None
    } else {
        Some(budget as usize)
    }
}

/// Why the cache could not be set up.
#[derive(Debug)]
pub enum CacheSetupError {
    /// The open-file limits could not be read.
    GetRlimit(std::io::Error),
    /// The hard open-file limit is below what the configuration needs.
    HardLimitTooLow { hard_limit: u64, min_soft_limit: u64 },
    /// The soft open-file limit could not be raised.
    IncreaseRlimit(std::io::Error),
    /// The soft limit that the operating system settled on leaves no room for
    /// cache files.
    SoftLimitTooLow { soft_limit: u64, min_non_cache_files: u64 },
}

/// The open-file limits that a cache was set up under: the soft and hard
/// limits read at start, the soft limit asked for (when it had to be raised)
/// and the soft limit that then held.
#[derive(Clone, Copy, Debug, PartialEq, Eq)]
pub struct FileLimits {
    pub soft_limit_before: u64,
    pub hard_limit: u64,
    pub requested_soft_limit: Option<u64>,
    pub soft_limit: u64,
}

/// The cache of chunk and artifact files, and of project sources and bake
/// outputs.
pub struct CacheState {
    /// How many files the file cache may hold.
    pub max_cache_files: usize,
    pub resources: ResourceCache,
    pub project_sources: ValueCache,
    pub bake_outputs: ValueCache,
}

impl CacheState {
    /// All three caches are well formed.
    pub open spec fn wf(&self) -> bool {
        &&& self.resources@.wf()
        &&& self.resources@.slots == self.max_cache_files
        &&& self.project_sources@.wf()
        &&& self.bake_outputs@.wf()
    }

    /// Empty caches: `max_cache_files` files within the configured disk
    /// space, and the configured numbers of records.
    pub fn with_file_budget(config: &CacheConfig, max_cache_files: usize) -> (state: CacheState)
        requires
            max_cache_files > 0,
            config.max_project_sources > 0,
            config.max_bake_outputs > 0,
        ensures
            state.wf(),
            state.resources@.entries == Seq::<((u8, [u8; 32]), CacheSlot)>::empty(),
            state.resources@.slots == max_cache_files,
            state.resources@.available == config.max_disk_capacity,
            state.resources@.disk_capacity == config.max_disk_capacity,
            state.project_sources@.entries == Seq::<((u8, [u8; 32]), CacheSlot)>::empty(),
            state.project_sources@.slots == config.max_project_sources,
            state.bake_outputs@.entries == Seq::<((u8, [u8; 32]), CacheSlot)>::empty(),
            state.bake_outputs@.slots == config.max_bake_outputs,
    {
        CacheState {
            max_cache_files,
            resources: ResourceCache::new(max_cache_files, config.max_disk_capacity),
            project_sources: ValueCache::new(config.max_project_sources),
            bake_outputs: ValueCache::new(config.max_bake_outputs),
        }
    }

    /// Sets the cache up: reads the open-file limits, refuses when the hard
    /// limit is below the need, raises the soft limit when it is below it,
    /// and gives cache files what the soft limit then leaves beyond the other
    /// files. Also gives the limits it went by.
    pub fn new(config: &CacheConfig) -> (r: Result<(CacheState, FileLimits), CacheSetupError>)
        requires
            config.max_project_sources > 0,
            config.max_bake_outputs > 0,
            min_soft_limit_spec(config.min_non_cache_files, config.min_cache_files) <= u64::MAX,
        ensures
            r matches Ok((state, limits)) ==> {
                let plan = plan_soft_limit_spec(
                    limits.soft_limit_before,
                    limits.hard_limit,
                    min_soft_limit_spec(config.min_non_cache_files, config.min_cache_files) as u64,
                );
                &&& state.wf()
                &&& state.resources@.entries == Seq::<((u8, [u8; 32]), CacheSlot)>::empty()
                &&& state.resources@.available == config.max_disk_capacity
                &&& state.resources@.disk_capacity == config.max_disk_capacity
                &&& state.project_sources@.entries == Seq::<((u8, [u8; 32]), CacheSlot)>::empty()
                &&& state.project_sources@.slots == config.max_project_sources
                &&& state.bake_outputs@.entries == Seq::<((u8, [u8; 32]), CacheSlot)>::empty()
                &&& state.bake_outputs@.slots == config.max_bake_outputs
                &&& plan !is HardLimitTooLow
                &&& limits.requested_soft_limit == match plan {
                    SoftLimitPlan::Raise { to } => Some(to),
                    _ => None::<u64>,
                }
                &&& plan is Keep ==> limits.soft_limit == limits.soft_limit_before
                &&& limits.soft_limit > config.min_non_cache_files
                &&& state.max_cache_files == limits.soft_limit - config.min_non_cache_files
                &&& limits.hard_limit >= config.min_non_cache_files + config.min_cache_files
                &&& limits.hard_limit > config.min_non_cache_files
                &&& limits.requested_soft_limit is None ==> {
                    &&& limits.soft_limit_before >= config.min_non_cache_files
                        + config.min_cache_files
                    &&& limits.soft_limit_before > config.min_non_cache_files
                    &&& state.max_cache_files >= config.min_cache_files
                    &&& state.max_cache_files >= 1
                }
                &&& limits.requested_soft_limit matches Some(to) ==> {
                    &&& limits.soft_limit_before < to
                    &&& to <= limits.hard_limit
                    &&& config.min_cache_files <= 1 ==> to == config.min_non_cache_files + 1
                    &&& config.min_cache_files >= 1 ==> to == config.min_non_cache_files
                        + config.min_cache_files
                }
            },
            r matches Err(CacheSetupError::HardLimitTooLow { hard_limit, min_soft_limit }) ==> {
                &&& min_soft_limit == min_soft_limit_spec(
                    config.min_non_cache_files,
                    config.min_cache_files,
                )
                &&& hard_limit < min_soft_limit
                &&& config.min_cache_files <= 1 ==> min_soft_limit == config.min_non_cache_files
                    + 1
                &&& config.min_cache_files >= 1 ==> min_soft_limit == config.min_non_cache_files
                    + config.min_cache_files
            },
            r matches Err(CacheSetupError::SoftLimitTooLow { soft_limit, min_non_cache_files })
                ==> {
                &&& min_non_cache_files == config.min_non_cache_files
                &&& (soft_limit <= min_non_cache_files || soft_limit - min_non_cache_files
                    > usize::MAX)
            },
    {
        let (soft_limit_before, hard_limit) = match nofile_limits() {
            Ok(limits) => limits,
            Err(e) => {
                return Err(CacheSetupError::GetRlimit(e));
            },
        };
        let min_cache_files = if config.min_cache_files > 1 {
            config.min_cache_files
        } else {
            1
        };
        let min_soft_limit = config.min_non_cache_files + min_cache_files;
        let (requested_soft_limit, soft_limit) = match plan_soft_limit(
            soft_limit_before,
            hard_limit,
            min_soft_limit,
        ) {
            SoftLimitPlan::HardLimitTooLow => {
                return Err(CacheSetupError::HardLimitTooLow { hard_limit, min_soft_limit });
            },
            SoftLimitPlan::Raise { to } => match raise_nofile_limit(to) {
                Ok(raised) => (Some(to), raised),
                Err(e) => {
                    return Err(CacheSetupError::IncreaseRlimit(e));
                },
            },
            SoftLimitPlan::Keep { soft_limit } => (None, soft_limit),
        };
        let limits = FileLimits { soft_limit_before, hard_limit, requested_soft_limit, soft_limit };
        match cache_file_budget(soft_limit, config.min_non_cache_files) {
            Some(max_cache_files) => Ok(
                (CacheState::with_file_budget(config, max_cache_files), limits),
            ),
            None => Err(
                CacheSetupError::SoftLimitTooLow {
                    soft_limit,
                    min_non_cache_files: config.min_non_cache_files,
                },
            ),
        }
    }
}

/// The soft limit the cache needs is the files left for other uses plus the
/// configured number of cache files, and never less than one cache file:
/// at least both sums, and equal to one of them.
pub proof fn law_min_soft_limit(min_non_cache_files: u64, min_cache_files: u64)
    ensures
        min_soft_limit_spec(min_non_cache_files, min_cache_files) >= min_non_cache_files
            + min_cache_files,
        min_soft_limit_spec(min_non_cache_files, min_cache_files) >= min_non_cache_files + 1,
        min_soft_limit_spec(min_non_cache_files, min_cache_files) == min_non_cache_files
            + min_cache_files || min_soft_limit_spec(min_non_cache_files, min_cache_files)
            == min_non_cache_files + 1,
{
}

/// A soft limit below the need is raised to exactly the need whenever the
/// hard limit allows it; one at or above the need is kept as it is; a hard
/// limit below the need is refused. So a kept soft limit always covers the
/// need, and a raise never asks for more than the hard limit.
pub proof fn law_soft_limit_plan(soft_limit: u64, hard_limit: u64, min_soft_limit: u64)
    ensures
        soft_limit < min_soft_limit <= hard_limit ==> plan_soft_limit_spec(
            soft_limit,
            hard_limit,
            min_soft_limit,
        ) == (SoftLimitPlan::Raise { to: min_soft_limit }),
        min_soft_limit <= soft_limit && min_soft_limit <= hard_limit ==> plan_soft_limit_spec(
            soft_limit,
            hard_limit,
            min_soft_limit,
        ) == (SoftLimitPlan::Keep { soft_limit }),
        hard_limit < min_soft_limit ==> plan_soft_limit_spec(soft_limit, hard_limit, min_soft_limit)
            == SoftLimitPlan::HardLimitTooLow,
        plan_soft_limit_spec(soft_limit, hard_limit, min_soft_limit) matches SoftLimitPlan::Keep {
            soft_limit: kept,
        } ==> kept == soft_limit && kept >= min_soft_limit,
        plan_soft_limit_spec(soft_limit, hard_limit, min_soft_limit) matches SoftLimitPlan::Raise {
            to,
        } ==> to == min_soft_limit && soft_limit < to <= hard_limit,
{
}

} // verus!
