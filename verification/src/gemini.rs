//! Configuration of the Google Gemini embedding provider: the
//! model-to-dimension mapping and the request URLs the host layer calls.

use vstd::prelude::*;
use crate::http_client::HttpClient;

verus! {

/// The embedding width of a Gemini model name.
pub open spec fn spec_gemini_dimensions(model: Seq<char>) -> int {
    if model == "embedding-001"@ {
        768
    } else if model == "text-embedding-004"@ {
        768
    } else {
        768
    }
}

/// Gemini embedding provider settings.
pub struct GeminiEmbedder {
    api_key: String,
    model: String,
    dimensions: usize,
    api_endpoint: String,
    http_client: HttpClient,
}

impl GeminiEmbedder {
    pub closed spec fn spec_api_key(&self) -> Seq<char> {
        self.api_key@
    }

    pub closed spec fn spec_model(&self) -> Seq<char> {
        self.model@
    }

    pub closed spec fn spec_dimensions(&self) -> int {
        self.dimensions as int
    }

    pub closed spec fn spec_endpoint(&self) -> Seq<char> {
        self.api_endpoint@
    }

    /// Creates a provider for `model`, deriving its embedding width and
    /// using the default API endpoint.
    pub fn new(api_key: String, model: String) -> (r: Self)
        ensures
            r.spec_api_key() == api_key@,
            r.spec_model() == model@,
            r.spec_dimensions() == spec_gemini_dimensions(model@),
            r.spec_endpoint() == "https://generativelanguage.googleapis.com/v1beta/models"@,
    {
        let one = String::from_str("embedding-001");
        let four = String::from_str("text-embedding-004");
        let dimensions: usize = if model == one {
            768
        } else if model == four {
            768
        } else {
            768
        };
        GeminiEmbedder {
            api_key,
            model,
            dimensions,
            api_endpoint: String::from_str(
                "https://generativelanguage.googleapis.com/v1beta/models",
            ),
            http_client: HttpClient::new(),
        }
    }

    /// The same provider aimed at a custom API endpoint.
    pub fn with_endpoint(self, endpoint: String) -> (r: Self)
        ensures
            r.spec_api_key() == self.spec_api_key(),
            r.spec_model() == self.spec_model(),
            r.spec_dimensions() == self.spec_dimensions(),
            r.spec_endpoint() == endpoint@,
    {
        GeminiEmbedder {
            api_key: self.api_key,
            model: self.model,
            dimensions: self.dimensions,
            api_endpoint: endpoint,
            http_client: self.http_client,
        }
    }

    /// This provider's name.
    pub fn name(&self) -> (r: &'static str)
        ensures
            r@ == "gemini"@,
    {
        "gemini"
    }

    /// The embedding width this provider produces.
    pub fn dimensions(&self) -> (r: usize)
        ensures
            r == self.spec_dimensions(),
    {
        self.dimensions
    }

    /// The API key, for the host layer making the call.
    pub fn api_key(&self) -> (r: &String)
        ensures
            r@ == self.spec_api_key(),
    {
        &self.api_key
    }

    /// The model name, for the host layer making the call.
    pub fn model(&self) -> (r: &String)
        ensures
            r@ == self.spec_model(),
    {
        &self.model
    }

    /// The URL of the single-text embedding endpoint.
    pub fn get_embed_url(&self) -> (r: String)
        ensures
            r@ == self.spec_endpoint() + "/"@ + self.spec_model() + ":embedContent?key="@
                + self.spec_api_key(),
    {
        proof {
            reveal_strlit("/");
            reveal_strlit(":embedContent?key=");
        }
        let mut url = self.api_endpoint.clone();
        url.append("/");
        url.append(self.model.as_str());
        url.append(":embedContent?key=");
        url.append(self.api_key.as_str());
        url
    }

    /// The URL of the batched embedding endpoint.
    pub fn get_batch_embed_url(&self) -> (r: String)
        ensures
            r@ == self.spec_endpoint() + "/"@ + self.spec_model()
                + ":batchEmbedContents?key="@ + self.spec_api_key(),
    {
        proof {
            reveal_strlit("/");
            reveal_strlit(":batchEmbedContents?key=");
        }
        let mut url = self.api_endpoint.clone();
        url.append("/");
        url.append(self.model.as_str());
        url.append(":batchEmbedContents?key=");
        url.append(self.api_key.as_str());
        url
    }
}

} // verus!
