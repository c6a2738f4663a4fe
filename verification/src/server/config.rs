//! Server configuration.
use vstd::prelude::*;
use crate::provider::Provider;

use crate::text::{decimal, owned, parse_i32, parse_unsigned, push_str, str_eq, unsigned_of, i32_of};

verus! {

/// Settings of the server, read once at startup.
pub struct AppConfig {
    pub database_url: String,
    pub aws_access_key_id: String,
    pub aws_secret_access_key: String,
    pub aws_endpoint_url_s3: String,
    pub aws_region: String,
    pub bucket_name: String,
    pub anthropic_api_key: String,
    pub google_tts_api_key: String,
    pub google_studio_api_key: String,
    pub admin_token: String,
    pub google_tts_voice: String,
    pub host: String,
    pub port: u16,
    pub worker_poll_interval: u64,
    pub worker_count: usize,
    pub max_job_attempts: i32,
    pub public_url: String,
    pub generate_images: bool,
    /// Provider for clean/summarize: "gemini", or Anthropic otherwise.
    pub ai_provider: String,
    /// PDF extractor: "gemini", or page-by-page Anthropic vision otherwise.
    pub pdf_extractor: String,
}

impl AppConfig {
    /// The configured cleaning/summarizing provider: Gemini (default model,
    /// studio key) when `ai_provider` is `"gemini"`, Anthropic otherwise.
    pub fn make_provider(&self) -> (p: Provider)
        ensures
            self.ai_provider@ == "gemini"@ ==> (p matches Provider::Gemini { api_key: k, model: m }
                && k@ == self.google_studio_api_key@ && m@ == crate::provider::gemini_default_model()),
            self.ai_provider@ != "gemini"@ ==> (p matches Provider::Anthropic { api_key: k } && k@
                == self.anthropic_api_key@),
    {
        if crate::text::str_eq(self.ai_provider.as_str(), "gemini") {
            Provider::gemini_default(self.google_studio_api_key.clone())
        } else {
            Provider::anthropic(self.anthropic_api_key.clone())
        }
    }
}

/// The environment variables the server reads (`None` when unset).
pub struct ServerEnv {
    pub host: Option<String>,
    pub port: Option<String>,
    pub public_url: Option<String>,
    pub database_url: Option<String>,
    pub aws_access_key_id: Option<String>,
    pub aws_secret_access_key: Option<String>,
    pub aws_endpoint_url_s3: Option<String>,
    pub aws_region: Option<String>,
    pub bucket_name: Option<String>,
    pub anthropic_api_key: Option<String>,
    pub google_tts_api_key: Option<String>,
    pub google_studio_api_key: Option<String>,
    pub admin_token: Option<String>,
    pub google_tts_voice: Option<String>,
    pub worker_poll_interval_secs: Option<String>,
    pub worker_count: Option<String>,
    pub max_job_attempts: Option<String>,
    pub generate_images: Option<String>,
    pub ai_provider: Option<String>,
    pub pdf_extractor: Option<String>,
}

/// Why the configuration could not be read; the message is the one the
/// server stops with.
pub struct ConfigError {
    pub message: String,
}

/// The variable's value, or the default when unset.
pub open spec fn or_default(v: Option<String>, d: Seq<char>) -> Seq<char> {
    match v {
        Some(s) => s@,
        None => d,
    }
}

/// The value of a numeric variable, parsed from its text or its default.
pub open spec fn num_text(v: Option<String>, d: Seq<char>) -> Seq<char> {
    or_default(v, d)
}

/// The checks of the configuration, in the order they are made: whether
/// each passes, and the message when it does not.
pub open spec fn server_checks(e: ServerEnv) -> Seq<(bool, Seq<char>)> {
    seq![
        (unsigned_of(num_text(e.port, "8080"@), 65535) is Some, "PORT must be a valid u16"@),
        (e.database_url is Some, "DATABASE_URL environment variable is required"@),
        (e.aws_access_key_id is Some, "AWS_ACCESS_KEY_ID environment variable is required"@),
        (e.aws_secret_access_key is Some, "AWS_SECRET_ACCESS_KEY environment variable is required"@),
        (e.aws_endpoint_url_s3 is Some, "AWS_ENDPOINT_URL_S3 environment variable is required"@),
        (e.bucket_name is Some, "BUCKET_NAME environment variable is required"@),
        (e.anthropic_api_key is Some, "ANTHROPIC_API_KEY environment variable is required"@),
        (e.google_tts_api_key is Some, "GOOGLE_TTS_API_KEY environment variable is required"@),
        (e.google_studio_api_key is Some, "GOOGLE_STUDIO_API_KEY environment variable is required"@),
        (e.admin_token is Some, "ADMIN_TOKEN environment variable is required"@),
        (
            unsigned_of(num_text(e.worker_poll_interval_secs, "5"@), 18446744073709551615) is Some,
            "WORKER_POLL_INTERVAL_SECS must be a valid u64"@,
        ),
        (
            unsigned_of(num_text(e.worker_count, "2"@), usize::MAX as nat) is Some,
            "WORKER_COUNT must be a valid usize"@,
        ),
        (i32_of(num_text(e.max_job_attempts, "3"@)) is Some, "MAX_JOB_ATTEMPTS must be a valid i32"@),
    ]
}

/// The message of the first check that fails.
pub open spec fn first_failure(cs: Seq<(bool, Seq<char>)>) -> Option<Seq<char>>
    decreases cs.len(),
{
    if cs.len() == 0 {
        None
    } else if !cs[0].0 {
        Some(cs[0].1)
    } else {
        first_failure(cs.drop_first())
    }
}

/// An image-generation flag: any value but "false" and "0" turns it on;
/// unset means on.
pub open spec fn flag_on(v: Option<String>) -> bool {
    match v {
        Some(s) => s@ != "false"@ && s@ != "0"@,
        None => true,
    }
}

/// The configuration a complete environment gives.
pub open spec fn server_config_ok(e: ServerEnv, c: AppConfig) -> bool {
    let host = or_default(e.host, "0.0.0.0"@);
    let port = unsigned_of(num_text(e.port, "8080"@), 65535)->Some_0;
    &&& c.host@ == host
    &&& c.port == port
    &&& c.public_url@ == or_default(e.public_url, "http://"@ + host + seq![':'] + decimal(port))
    &&& c.database_url@ == or_default(e.database_url, seq![])
    &&& c.aws_access_key_id@ == or_default(e.aws_access_key_id, seq![])
    &&& c.aws_secret_access_key@ == or_default(e.aws_secret_access_key, seq![])
    &&& c.aws_endpoint_url_s3@ == or_default(e.aws_endpoint_url_s3, seq![])
    &&& c.aws_region@ == or_default(e.aws_region, "auto"@)
    &&& c.bucket_name@ == or_default(e.bucket_name, seq![])
    &&& c.anthropic_api_key@ == or_default(e.anthropic_api_key, seq![])
    &&& c.google_tts_api_key@ == or_default(e.google_tts_api_key, seq![])
    &&& c.google_studio_api_key@ == or_default(e.google_studio_api_key, seq![])
    &&& c.admin_token@ == or_default(e.admin_token, seq![])
    &&& c.google_tts_voice@ == or_default(e.google_tts_voice, "en-US-Journey-D"@)
    &&& c.worker_poll_interval == unsigned_of(num_text(e.worker_poll_interval_secs, "5"@), 18446744073709551615)->Some_0
    &&& c.worker_count == unsigned_of(num_text(e.worker_count, "2"@), usize::MAX as nat)->Some_0
    &&& c.max_job_attempts == i32_of(num_text(e.max_job_attempts, "3"@))->Some_0
    &&& c.generate_images == flag_on(e.generate_images)
    &&& c.ai_provider@ == or_default(e.ai_provider, "anthropic"@)
    &&& c.pdf_extractor@ == or_default(e.pdf_extractor, "gemini"@)
}

/// The value of a variable, or the default.
fn var_or(v: &Option<String>, d: &str) -> (r: String)
    ensures
        r@ == or_default(*v, d@),
{
    match v {
        Some(s) => s.clone(),
        None => owned(d),
    }
}

/// The configuration from the environment's variables, with the defaults
/// of the optional ones; the first invalid or missing variable, in the
/// order they are read, is reported.
#[verifier::rlimit(60)]
pub fn server_config_from_env(e: &ServerEnv) -> (r: Result<AppConfig, ConfigError>)
    ensures
        match first_failure(server_checks(*e)) {
            Some(m) => r matches Err(err) && err.message@ == m,
            None => r matches Ok(c) && server_config_ok(*e, c),
        },
{
    proof {
        reveal_with_fuel(first_failure, 14);
    }
    let ghost cs = server_checks(*e);
    let host = var_or(&e.host, "0.0.0.0");
    let port_text = var_or(&e.port, "8080");
    let port = match parse_unsigned(port_text.as_str(), 65535) {
        Some(p) => p as u16,
        None => {
            return Err(ConfigError { message: owned("PORT must be a valid u16") });
        },
    };
    let public_url = match &e.public_url {
        Some(u) => u.clone(),
        None => {
            let mut u = owned("http://");
            push_str(&mut u, host.as_str());
            crate::text::push_char(&mut u, ':');
            crate::text::push_decimal(&mut u, port as u64);
            proof {
                assert(u@ =~= "http://"@ + host@ + seq![':'] + decimal(port as nat));
            }
            u
        },
    };
    let database_url = match &e.database_url {
        Some(v) => v.clone(),
        None => {
            return Err(ConfigError { message: owned("DATABASE_URL environment variable is required") });
        },
    };
    let aws_access_key_id = match &e.aws_access_key_id {
        Some(v) => v.clone(),
        None => {
            return Err(ConfigError { message: owned("AWS_ACCESS_KEY_ID environment variable is required") });
        },
    };
    let aws_secret_access_key = match &e.aws_secret_access_key {
        Some(v) => v.clone(),
        None => {
            return Err(ConfigError { message: owned("AWS_SECRET_ACCESS_KEY environment variable is required") });
        },
    };
    let aws_endpoint_url_s3 = match &e.aws_endpoint_url_s3 {
        Some(v) => v.clone(),
        None => {
            return Err(ConfigError { message: owned("AWS_ENDPOINT_URL_S3 environment variable is required") });
        },
    };
    let aws_region = var_or(&e.aws_region, "auto");
    let bucket_name = match &e.bucket_name {
        Some(v) => v.clone(),
        None => {
            return Err(ConfigError { message: owned("BUCKET_NAME environment variable is required") });
        },
    };
    let anthropic_api_key = match &e.anthropic_api_key {
        Some(v) => v.clone(),
        None => {
            return Err(ConfigError { message: owned("ANTHROPIC_API_KEY environment variable is required") });
        },
    };
    let google_tts_api_key = match &e.google_tts_api_key {
        Some(v) => v.clone(),
        None => {
            return Err(ConfigError { message: owned("GOOGLE_TTS_API_KEY environment variable is required") });
        },
    };
    let google_studio_api_key = match &e.google_studio_api_key {
        Some(v) => v.clone(),
        None => {
            return Err(ConfigError { message: owned("GOOGLE_STUDIO_API_KEY environment variable is required") });
        },
    };
    let admin_token = match &e.admin_token {
        Some(v) => v.clone(),
        None => {
            return Err(ConfigError { message: owned("ADMIN_TOKEN environment variable is required") });
        },
    };
    let google_tts_voice = var_or(&e.google_tts_voice, "en-US-Journey-D");
    let poll_text = var_or(&e.worker_poll_interval_secs, "5");
    let worker_poll_interval = match parse_unsigned(poll_text.as_str(), 18446744073709551615) {
        Some(v) => v,
        None => {
            return Err(ConfigError { message: owned("WORKER_POLL_INTERVAL_SECS must be a valid u64") });
        },
    };
    let count_text = var_or(&e.worker_count, "2");
    let worker_count = match parse_unsigned(count_text.as_str(), usize::MAX as u64) {
        Some(v) => v,
        None => {
            return Err(ConfigError { message: owned("WORKER_COUNT must be a valid usize") });
        },
    };
    let attempts_text = var_or(&e.max_job_attempts, "3");
    let max_job_attempts = match parse_i32(attempts_text.as_str()) {
        Some(v) => v,
        None => {
            return Err(ConfigError { message: owned("MAX_JOB_ATTEMPTS must be a valid i32") });
        },
    };
    let generate_images = match &e.generate_images {
        Some(v) => !str_eq(v.as_str(), "false") && !str_eq(v.as_str(), "0"),
        None => true,
    };
    let ai_provider = var_or(&e.ai_provider, "anthropic");
    let pdf_extractor = var_or(&e.pdf_extractor, "gemini");
    Ok(AppConfig {
        database_url,
        aws_access_key_id,
        aws_secret_access_key,
        aws_endpoint_url_s3,
        aws_region,
        bucket_name,
        anthropic_api_key,
        google_tts_api_key,
        google_studio_api_key,
        admin_token,
        google_tts_voice,
        host,
        port,
        worker_poll_interval,
        worker_count: worker_count as usize,
        max_job_attempts,
        public_url,
        generate_images,
        ai_provider,
        pdf_extractor,
    })
}

} // verus!
