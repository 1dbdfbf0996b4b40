//! Configuration of the OpenAI embedding provider.  The HTTP calls
//! themselves are host I/O; what is verified here is the model-to-dimension
//! mapping and the request parameters the host reads off.

use vstd::prelude::*;
use crate::http_client::HttpClient;

verus! {

/// The embedding width of an OpenAI model name.
pub open spec fn spec_openai_dimensions(model: Seq<char>) -> int {
    if model == "text-embedding-3-small"@ {
        1536
    } else if model == "text-embedding-3-large"@ {
        3072
    } else if model == "text-embedding-ada-002"@ {
        1536
    } else {
        1536
    }
}

/// OpenAI embedding provider settings.
pub struct OpenAIEmbedder {
    api_key: String,
    model: String,
    dimensions: usize,
    api_endpoint: String,
    http_client: HttpClient,
}

impl OpenAIEmbedder {
    pub closed spec fn spec_api_key(&self) -> Seq<char> {
        self.api_key@
    }

    pub closed spec fn spec_model(&self) -> Seq<char> {
        self.model@
    }

    pub closed spec fn spec_dimensions(&self) -> int {
        self.dimensions as int
    }

    pub closed spec fn spec_endpoint(&self) -> Seq<char> {
        self.api_endpoint@
    }

    /// Creates a provider for `model`, deriving its embedding width and
    /// using the default API endpoint.
    pub fn new(api_key: String, model: String) -> (r: Self)
        ensures
            r.spec_api_key() == api_key@,
            r.spec_model() == model@,
            r.spec_dimensions() == spec_openai_dimensions(model@),
            r.spec_endpoint() == "https://api.openai.com/v1/embeddings"@,
    {
        let small = String::from_str("text-embedding-3-small");
        let large = String::from_str("text-embedding-3-large");
        let ada = String::from_str("text-embedding-ada-002");
        let dimensions: usize = if model == small {
            1536
        } else if model == large {
            3072
        } else if model == ada {
            1536
        } else {
            1536
        };
        OpenAIEmbedder {
            api_key,
            model,
            dimensions,
            api_endpoint: String::from_str("https://api.openai.com/v1/embeddings"),
            http_client: HttpClient::new(),
        }
    }

    /// The same provider aimed at a custom API endpoint.
    pub fn with_endpoint(self, endpoint: String) -> (r: Self)
        ensures
            r.spec_api_key() == self.spec_api_key(),
            r.spec_model() == self.spec_model(),
            r.spec_dimensions() == self.spec_dimensions(),
            r.spec_endpoint() == endpoint@,
    {
        OpenAIEmbedder {
            api_key: self.api_key,
            model: self.model,
            dimensions: self.dimensions,
            api_endpoint: endpoint,
            http_client: self.http_client,
        }
    }

    /// This provider's name.
    pub fn name(&self) -> (r: &'static str)
        ensures
            r@ == "openai"@,
    {
        "openai"
    }

    /// The embedding width this provider produces.
    pub fn dimensions(&self) -> (r: usize)
        ensures
            r == self.spec_dimensions(),
    {
        self.dimensions
    }

    /// The API key, for the host layer making the call.
    pub fn api_key(&self) -> (r: &String)
        ensures
            r@ == self.spec_api_key(),
    {
        &self.api_key
    }

    /// The model name, for the host layer making the call.
    pub fn model(&self) -> (r: &String)
        ensures
            r@ == self.spec_model(),
    {
        &self.model
    }

    /// The API endpoint, for the host layer making the call.
    pub fn api_endpoint(&self) -> (r: &String)
        ensures
            r@ == self.spec_endpoint(),
    {
        &self.api_endpoint
    }
}

} // verus!
