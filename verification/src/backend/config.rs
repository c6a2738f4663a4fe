//! Configuration of the first server generation.
use vstd::prelude::*;
use crate::document::opt_view;
use crate::server::config::{first_failure, flag_on, or_default, ConfigError};
use crate::text::{decimal, i32_of, owned, parse_i32, parse_unsigned, push_str, str_eq, unsigned_of};

verus! {

/// Settings of the server, read once at startup.
pub struct AppConfig {
    pub database_url: String,
    pub aws_access_key_id: String,
    pub aws_secret_access_key: String,
    pub aws_endpoint_url_s3: String,
    pub aws_region: String,
    pub bucket_name: String,
    pub anthropic_api_key: String,
    pub google_api_key: Option<String>,
    pub admin_token: String,
    pub openai_api_key: Option<String>,
    pub elevenlabs_api_key: Option<String>,
    pub elevenlabs_voice_id: String,
    pub openai_tts_voice: String,
    pub google_tts_voice: String,
    pub host: String,
    pub port: u16,
    pub worker_poll_interval: u64,
    pub max_job_attempts: i32,
    pub public_url: String,
    pub generate_images: bool,
}

/// The environment variables this server reads (`None` when unset).
pub struct BackendEnv {
    pub openai_api_key: Option<String>,
    pub elevenlabs_api_key: Option<String>,
    pub google_api_key: Option<String>,
    pub host: Option<String>,
    pub port: Option<String>,
    pub public_url: Option<String>,
    pub database_url: Option<String>,
    pub aws_access_key_id: Option<String>,
    pub aws_secret_access_key: Option<String>,
    pub aws_endpoint_url_s3: Option<String>,
    pub aws_region: Option<String>,
    pub bucket_name: Option<String>,
    pub anthropic_api_key: Option<String>,
    pub admin_token: Option<String>,
    pub elevenlabs_voice_id: Option<String>,
    pub openai_tts_voice: Option<String>,
    pub google_tts_voice: Option<String>,
    pub worker_poll_interval_secs: Option<String>,
    pub max_job_attempts: Option<String>,
    pub generate_images: Option<String>,
}

/// The checks of the configuration, in the order they are made.
pub open spec fn backend_checks(e: BackendEnv) -> Seq<(bool, Seq<char>)> {
    seq![
        (
            e.openai_api_key is Some || e.elevenlabs_api_key is Some || e.google_api_key is Some,
            "At least one TTS provider key must be set (OPENAI_API_KEY, ELEVENLABS_API_KEY, or GOOGLE_API_KEY)"@,
        ),
        (unsigned_of(or_default(e.port, "8080"@), 65535) is Some, "PORT must be a valid u16"@),
        (e.database_url is Some, "DATABASE_URL environment variable is required"@),
        (e.aws_access_key_id is Some, "AWS_ACCESS_KEY_ID environment variable is required"@),
        (e.aws_secret_access_key is Some, "AWS_SECRET_ACCESS_KEY environment variable is required"@),
        (e.aws_endpoint_url_s3 is Some, "AWS_ENDPOINT_URL_S3 environment variable is required"@),
        (e.bucket_name is Some, "BUCKET_NAME environment variable is required"@),
        (e.anthropic_api_key is Some, "ANTHROPIC_API_KEY environment variable is required"@),
        (e.admin_token is Some, "ADMIN_TOKEN environment variable is required"@),
        (
            unsigned_of(or_default(e.worker_poll_interval_secs, "5"@), 18446744073709551615) is Some,
            "WORKER_POLL_INTERVAL_SECS must be a valid u64"@,
        ),
        (i32_of(or_default(e.max_job_attempts, "3"@)) is Some, "MAX_JOB_ATTEMPTS must be a valid i32"@),
    ]
}

/// The configuration a complete environment gives.
pub open spec fn backend_config_ok(e: BackendEnv, c: AppConfig) -> bool {
    let host = or_default(e.host, "0.0.0.0"@);
    let port = unsigned_of(or_default(e.port, "8080"@), 65535)->Some_0;
    &&& opt_view(c.openai_api_key) == opt_view(e.openai_api_key)
    &&& opt_view(c.elevenlabs_api_key) == opt_view(e.elevenlabs_api_key)
    &&& opt_view(c.google_api_key) == opt_view(e.google_api_key)
    &&& c.host@ == host
    &&& c.port == port
    &&& c.public_url@ == or_default(e.public_url, "http://"@ + host + seq![':'] + decimal(port))
    &&& c.database_url@ == or_default(e.database_url, seq![])
    &&& c.aws_access_key_id@ == or_default(e.aws_access_key_id, seq![])
    &&& c.aws_secret_access_key@ == or_default(e.aws_secret_access_key, seq![])
    &&& c.aws_endpoint_url_s3@ == or_default(e.aws_endpoint_url_s3, seq![])
    &&& c.aws_region@ == or_default(e.aws_region, "auto"@)
    &&& c.bucket_name@ == or_default(e.bucket_name, seq![])
    &&& c.anthropic_api_key@ == or_default(e.anthropic_api_key, seq![])
    &&& c.admin_token@ == or_default(e.admin_token, seq![])
    &&& c.elevenlabs_voice_id@ == or_default(e.elevenlabs_voice_id, "Rachel"@)
    &&& c.openai_tts_voice@ == or_default(e.openai_tts_voice, "onyx"@)
    &&& c.google_tts_voice@ == or_default(e.google_tts_voice, "en-US-Journey-D"@)
    &&& c.worker_poll_interval == unsigned_of(or_default(e.worker_poll_interval_secs, "5"@), 18446744073709551615)->Some_0
    &&& c.max_job_attempts == i32_of(or_default(e.max_job_attempts, "3"@))->Some_0
    &&& c.generate_images == flag_on(e.generate_images)
}

fn var_or(v: &Option<String>, d: &str) -> (r: String)
    ensures
        r@ == or_default(*v, d@),
{
    match v {
        Some(s) => s.clone(),
        None => owned(d),
    }
}

fn required(v: &Option<String>, message: &str) -> (r: Result<String, ConfigError>)
    ensures
        match v {
            Some(s) => r matches Ok(x) && x@ == s@,
            None => r matches Err(err) && err.message@ == message@,
        },
{
    match v {
        Some(s) => Ok(s.clone()),
        None => Err(ConfigError { message: owned(message) }),
    }
}

/// The configuration from the environment's variables, with the defaults
/// of the optional ones; the first failing check, in the order they are
/// made, is reported.
#[verifier::rlimit(60)]
pub fn backend_config_from_env(e: &BackendEnv) -> (r: Result<AppConfig, ConfigError>)
    ensures
        match first_failure(backend_checks(*e)) {
            Some(m) => r matches Err(err) && err.message@ == m,
            None => r matches Ok(c) && backend_config_ok(*e, c),
        },
{
    proof {
        reveal_with_fuel(first_failure, 12);
    }
    if e.openai_api_key.is_none() && e.elevenlabs_api_key.is_none() && e.google_api_key.is_none() {
        return Err(ConfigError { message: owned("At least one TTS provider key must be set (OPENAI_API_KEY, ELEVENLABS_API_KEY, or GOOGLE_API_KEY)") });
    }
    let host = var_or(&e.host, "0.0.0.0");
    let port_text = var_or(&e.port, "8080");
    let port = match parse_unsigned(port_text.as_str(), 65535) {
        Some(p) => p as u16,
        None => {
            return Err(ConfigError { message: owned("PORT must be a valid u16") });
        },
    };
    let public_url = match &e.public_url {
        Some(u) => u.clone(),
        None => {
            let mut u = owned("http://");
            push_str(&mut u, host.as_str());
            crate::text::push_char(&mut u, ':');
            crate::text::push_decimal(&mut u, port as u64);
            proof {
                assert(u@ =~= "http://"@ + host@ + seq![':'] + decimal(port as nat));
            }
            u
        },
    };
    let database_url = required(&e.database_url, "DATABASE_URL environment variable is required")?;
    let aws_access_key_id = required(&e.aws_access_key_id, "AWS_ACCESS_KEY_ID environment variable is required")?;
    let aws_secret_access_key = required(&e.aws_secret_access_key, "AWS_SECRET_ACCESS_KEY environment variable is required")?;
    let aws_endpoint_url_s3 = required(&e.aws_endpoint_url_s3, "AWS_ENDPOINT_URL_S3 environment variable is required")?;
    let aws_region = var_or(&e.aws_region, "auto");
    let bucket_name = required(&e.bucket_name, "BUCKET_NAME environment variable is required")?;
    let anthropic_api_key = required(&e.anthropic_api_key, "ANTHROPIC_API_KEY environment variable is required")?;
    let admin_token = required(&e.admin_token, "ADMIN_TOKEN environment variable is required")?;
    let elevenlabs_voice_id = var_or(&e.elevenlabs_voice_id, "Rachel");
    let openai_tts_voice = var_or(&e.openai_tts_voice, "onyx");
    let google_tts_voice = var_or(&e.google_tts_voice, "en-US-Journey-D");
    let poll_text = var_or(&e.worker_poll_interval_secs, "5");
    let worker_poll_interval = match parse_unsigned(poll_text.as_str(), 18446744073709551615) {
        Some(v) => v,
        None => {
            return Err(ConfigError { message: owned("WORKER_POLL_INTERVAL_SECS must be a valid u64") });
        },
    };
    let attempts_text = var_or(&e.max_job_attempts, "3");
    let max_job_attempts = match parse_i32(attempts_text.as_str()) {
        Some(v) => v,
        None => {
            return Err(ConfigError { message: owned("MAX_JOB_ATTEMPTS must be a valid i32") });
        },
    };
    let generate_images = match &e.generate_images {
        Some(v) => !str_eq(v.as_str(), "false") && !str_eq(v.as_str(), "0"),
        None => true,
    };
    Ok(AppConfig {
        database_url,
        aws_access_key_id,
        aws_secret_access_key,
        aws_endpoint_url_s3,
        aws_region,
        bucket_name,
        anthropic_api_key,
        google_api_key: crate::document::clone_opt(&e.google_api_key),
        admin_token,
        openai_api_key: crate::document::clone_opt(&e.openai_api_key),
        elevenlabs_api_key: crate::document::clone_opt(&e.elevenlabs_api_key),
        elevenlabs_voice_id,
        openai_tts_voice,
        google_tts_voice,
        host,
        port,
        worker_poll_interval,
        max_job_attempts,
        public_url,
        generate_images,
    })
}

} // verus!
