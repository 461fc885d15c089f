//! How a request that fails is answered.
use vstd::prelude::*;
use vstd::string::*;

use crate::encoding::hex_chars;
use crate::models::HashId;

verus! {

/// A resource that the store does not have.
#[derive(Clone, Copy, Debug, PartialEq, Eq)]
pub enum ResourceNotFound {
    Chunk { chunk_id: HashId },
    Artifact { artifact_id: HashId },
    ProjectSource { project_id: HashId },
    BakeOutput { recipe_id: HashId },
}

impl ResourceNotFound {
    /// The message a client is told.
    pub open spec fn message_spec(self) -> Seq<char> {
        match self {
            ResourceNotFound::Chunk { chunk_id } => "chunk not found in store: "@ + hex_chars(
                chunk_id@,
            ),
            ResourceNotFound::Artifact { artifact_id } => "artifact not found in store: "@
                + hex_chars(artifact_id@),
            ResourceNotFound::ProjectSource { project_id } => "project source not found in store: "@
                + hex_chars(project_id@),
            ResourceNotFound::BakeOutput { recipe_id } => "recipe bake output not found in store: "@
                + hex_chars(recipe_id@),
        }
    }

    /// The message a client is told.
    pub fn message(&self) -> (m: String)
        ensures
            m@ == self.message_spec(),
    {
        let (prefix, id) = match self {
            ResourceNotFound::Chunk { chunk_id } => ("chunk not found in store: ", chunk_id),
            ResourceNotFound::Artifact { artifact_id } => (
                "artifact not found in store: ",
                artifact_id,
            ),
            ResourceNotFound::ProjectSource { project_id } => (
                "project source not found in store: ",
                project_id,
            ),
            ResourceNotFound::BakeOutput { recipe_id } => (
                "recipe bake output not found in store: ",
                recipe_id,
            ),
        };
        let mut m = prefix.to_owned();
        let hex = id.to_hex_string();
        m.append(hex.as_str());
        m
    }
}

/// A request that failed: the store failed, or it has no such resource.
#[derive(Debug)]
pub enum AppError<E> {
    Store(E),
    NotFound(ResourceNotFound),
}

/// The HTTP status for a store failure.
pub open spec fn internal_server_error() -> u16 {
    500
}

/// The HTTP status for a missing resource.
pub open spec fn not_found() -> u16 {
    404
}

impl<E> AppError<E> {
    /// The HTTP status of the answer: 500 for a store failure, 404 for a
    /// missing resource.
    pub fn status_code(&self) -> (status: u16)
        ensures
            self is Store ==> status == internal_server_error(),
            self is NotFound ==> status == not_found(),
    {
        match self {
            AppError::Store(_) => 500,
            AppError::NotFound(_) => 404,
        }
    }
}

} // verus!
