//! The engine and its configuration.

use vstd::prelude::*;

verus! {

/// An engine with its configuration, fixed for its lifetime.
///
/// Similarities are integers on a scale of the caller's choosing, on which a
/// greater number means more alike; the threshold is on the same scale.
pub struct Shapeshift {
    embedding_client: String,
    api_key: String,
    embedding_model: String,
    similarity_threshold: i64,
}

impl Shapeshift {
    /// The least similarity at which a match is accepted.
    pub closed spec fn threshold(&self) -> i64 {
        self.similarity_threshold
    }

    /// The name of the embedding provider.
    pub closed spec fn client(&self) -> Seq<char> {
        self.embedding_client@
    }

    /// The credential handed to the embedding provider.
    pub closed spec fn credential(&self) -> Seq<char> {
        self.api_key@
    }

    /// The name of the embedding model.
    pub closed spec fn model(&self) -> Seq<char> {
        self.embedding_model@
    }

    /// An engine that hands the three strings to the embedding provider as
    /// they are and accepts a match from `similarity_threshold` on.
    pub fn new(
        embedding_client: String,
        api_key: String,
        embedding_model: String,
        similarity_threshold: i64,
    ) -> (engine: Self)
        ensures
            engine.client() == embedding_client@,
            engine.credential() == api_key@,
            engine.model() == embedding_model@,
            engine.threshold() == similarity_threshold,
    {
        Self { embedding_client, api_key, embedding_model, similarity_threshold }
    }

    /// The least similarity at which a match is accepted.
    pub fn similarity_threshold(&self) -> (threshold: i64)
        ensures
            threshold == self.threshold(),
    {
        self.similarity_threshold
    }

    /// The name of the embedding provider.
    pub fn embedding_client(&self) -> (name: &String)
        ensures
            name@ == self.client(),
    {
        &self.embedding_client
    }

    /// The credential handed to the embedding provider.
    pub fn api_key(&self) -> (key: &String)
        ensures
            key@ == self.credential(),
    {
        &self.api_key
    }

    /// The name of the embedding model.
    pub fn embedding_model(&self) -> (name: &String)
        ensures
            name@ == self.model(),
    {
        &self.embedding_model
    }
}

} // verus!
