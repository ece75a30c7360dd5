//! The bot's settings, read from its environment variables.
use vstd::prelude::*;
use crate::commands::{number_or, parse_usize};
use crate::models::{opt_view, ModelStrategy};
use crate::runner::owned;
use crate::runtime_env::EnvVars;
use crate::task_service::ServiceConfig;
use crate::text::chars_of;
use crate::util::{normalize_thinking, normalized_thinking};

verus! {

/// What the bot needs to start: its token, where projects and the task history
/// live, and how the task service is set up.
pub struct BotSettings {
    pub bot_token: String,
    pub workspace_root: String,
    pub history_file: String,
    pub config: ServiceConfig,
}

/// A variable's value, or a default when it is not set.
pub open spec fn env_or(m: Map<Seq<char>, Seq<char>>, name: Seq<char>, default: Seq<char>) -> Seq<char> {
    if m.contains_key(name) {
        m[name]
    } else {
        default
    }
}

/// The settings taken from the variables `m`: `BOT_TOKEN` is required; the others
/// have defaults (workspace "workspace", models "gpt-5.3-codex" and "GLM-5", history
/// "data/task-history.json", no output limit, agent "build", project "main", no
/// thinking); `MAX_OUTPUT_CHARS` counts only when it is a number; a blank
/// `DEFAULT_THINKING` means none; project folders are joined as on Windows when
/// `windows`.
pub open spec fn settings_from(m: Map<Seq<char>, Seq<char>>, windows: bool, r: Result<BotSettings, String>) -> bool {
    if !m.contains_key("BOT_TOKEN"@) {
        r matches Err(e) && e@ == "Missing BOT_TOKEN in environment."@
    } else {
        &&& r is Ok
        &&& r->Ok_0.bot_token@ == m["BOT_TOKEN"@]
        &&& r->Ok_0.workspace_root@ == env_or(m, "WORKSPACE_ROOT"@, "workspace"@)
        &&& r->Ok_0.history_file@ == env_or(m, "TASK_HISTORY_FILE"@, "data/task-history.json"@)
        &&& r->Ok_0.config.sandbox_root@ == r->Ok_0.workspace_root@
        &&& r->Ok_0.config.windows == windows
        &&& r->Ok_0.config.strategy.default_model@ == env_or(m, "DEFAULT_MODEL"@, "gpt-5.3-codex"@)
        &&& r->Ok_0.config.strategy.fallback_model@ == env_or(m, "FALLBACK_MODEL"@, "GLM-5"@)
        &&& r->Ok_0.config.max_output_chars as nat == if m.contains_key("MAX_OUTPUT_CHARS"@) {
            number_or(m["MAX_OUTPUT_CHARS"@], 0)
        } else {
            0
        }
        &&& r->Ok_0.config.default_agent@ == env_or(m, "DEFAULT_AGENT"@, "build"@)
        &&& r->Ok_0.config.default_project@ == env_or(m, "DEFAULT_PROJECT_NAME"@, "main"@)
        &&& opt_view(r->Ok_0.config.default_thinking) == normalized_thinking(
            if m.contains_key("DEFAULT_THINKING"@) {
                Some(m["DEFAULT_THINKING"@])
            } else {
                None
            },
        )
    }
}

fn var_or(env: &EnvVars, name: &str, default: &str) -> (r: String)
    requires
        env.wf(),
    ensures
        r@ == env_or(env.map(), name@, default@),
{
    match env.get(&owned(name)) {
        Some(v) => v,
        None => owned(default),
    }
}

pub fn settings_from_env(env: &EnvVars, windows: bool) -> (r: Result<BotSettings, String>)
    requires
        env.wf(),
    ensures
        settings_from(env.map(), windows, r),
{
    let bot_token = match env.get(&owned("BOT_TOKEN")) {
        Some(t) => t,
        None => {
            return Err(owned("Missing BOT_TOKEN in environment."));
        },
    };
    let workspace_root = var_or(env, "WORKSPACE_ROOT", "workspace");
    let default_model = var_or(env, "DEFAULT_MODEL", "gpt-5.3-codex");
    let fallback_model = var_or(env, "FALLBACK_MODEL", "GLM-5");
    let history_file = var_or(env, "TASK_HISTORY_FILE", "data/task-history.json");
    let max_output_chars: usize = match env.get(&owned("MAX_OUTPUT_CHARS")) {
        Some(v) => {
            let cv = chars_of(v.as_str());
            match parse_usize(cv.as_slice()) {
                Some(n) => n,
                None => 0,
            }
        },
        None => 0,
    };
    let default_agent = var_or(env, "DEFAULT_AGENT", "build");
    let default_project = var_or(env, "DEFAULT_PROJECT_NAME", "main");
    let thinking_var = env.get(&owned("DEFAULT_THINKING"));
    let default_thinking = match &thinking_var {
        Some(t) => normalize_thinking(Some(t.as_str())),
        None => normalize_thinking(None),
    };
    let config = ServiceConfig {
        sandbox_root: workspace_root.clone(),
        strategy: ModelStrategy { default_model, fallback_model },
        max_output_chars,
        default_agent,
        default_project,
        default_thinking,
        windows,
    };
    Ok(BotSettings { bot_token, workspace_root, history_file, config })
}

} // verus!
