//! On-demand lifecycle of the WSL2 SearXNG stack: the decisions.
//!
//! The stack is booted only when a search meets a refused connection, and an
//! idle watchdog is armed only after successful searches, so a stack the
//! engine never touched is never terminated. Spawning `wsl` and waiting on
//! it happen in `app/`.

use vstd::prelude::*;
use crate::config::Config;
use crate::error::{ArgosError, ArgosErrorV};
use crate::text::{
    chars_of, decimal, decimal_string, extend_chars, lower_char, lower_char_exec, string_of, trim,
    trim_chars,
};
use crate::types::strings_view;

verus! {

/// Backslashes turned into forward slashes.
pub open spec fn forward_slashes(s: Seq<char>) -> Seq<char> {
    s.map_values(|c: char| if c == '\\' {
        '/'
    } else {
        c
    })
}

/// The WSL form of a path: absolute Unix paths pass through, an absolute
/// Windows path `D:\a\b` (or `D:/a/b`) becomes `/mnt/d/a/b`, anything else
/// has no WSL form. Surrounding whitespace is ignored.
pub open spec fn wsl_path(path: Seq<char>) -> Option<Seq<char>> {
    let t = trim(path);
    if t.len() > 0 && t[0] == '/' {
        Some(t)
    } else if t.len() > 2 && (t[0] as u32) < 128 && t[1] == ':' && (t[2] == '\\' || t[2] == '/') {
        Some("/mnt/"@ + seq![lower_char(t[0])] + forward_slashes(t.skip(2)))
    } else {
        None
    }
}

/// Convert an absolute Windows path (`D:\a\b`) to its WSL form (`/mnt/d/a/b`).
/// Unix-style paths pass through unchanged; anything else yields `None`.
pub fn win_to_wsl(path: &str) -> (r: Option<String>)
    ensures
        match r {
            Some(s) => wsl_path(path@) == Some(s@),
            None => wsl_path(path@) is None,
        },
{
    let cs = chars_of(path);
    let t = trim_chars(&cs);
    if t.len() > 0 && t[0] == '/' {
        return Some(string_of(t.as_slice()));
    }
    if t.len() > 2 && (t[0] as u32) < 128 && t[1] == ':' && (t[2] == '\\' || t[2] == '/') {
        let mut out = chars_of("/mnt/");
        out.push(lower_char_exec(t[0]));
        let ghost head = out@;
        let mut i: usize = 2;
        while i < t.len()
            invariant
                2 <= i <= t.len(),
                out@ == head + forward_slashes(t@.subrange(2, i as int)),
            decreases t.len() - i,
        {
            let c = t[i];
            out.push(if c == '\\' {
                '/'
            } else {
                c
            });
            i = i + 1;
            assert(out@ =~= head + forward_slashes(t@.subrange(2, i as int)));
        }
        assert(t@.subrange(2, t.len() as int) =~= t@.skip(2));
        return Some(string_of(out.as_slice()));
    }
    None
}

/// The error when the stack script has no WSL form.
pub fn script_path_error(script: &str) -> (r: ArgosError)
    ensures
        r@ == (ArgosErrorV::StackBoot {
            detail: "cannot convert stack script path to WSL: "@ + script@,
        }),
{
    let mut d = String::from_str("cannot convert stack script path to WSL: ");
    d.append(script);
    ArgosError::StackBoot { detail: d }
}

/// The error when `wsl` cannot be spawned.
pub fn spawn_error(cause: &str) -> (r: ArgosError)
    ensures
        r@ == (ArgosErrorV::StackBoot { detail: "cannot spawn wsl: "@ + cause@ }),
{
    let mut d = String::from_str("cannot spawn wsl: ");
    d.append(cause);
    ArgosError::StackBoot { detail: d }
}

/// The arguments of `wsl` that boot the stack: run the script as root in
/// the configured distro with `--up`.
pub open spec fn boot_args(distro: Seq<char>, script: Seq<char>) -> Seq<Seq<char>> {
    seq!["-d"@, distro, "-u"@, "root"@, "-e"@, "bash"@, script, "--up"@]
}

/// The arguments of `wsl` that boot the stack.
pub fn boot_command_args(config: &Config, unix_script: &str) -> (r: Vec<String>)
    ensures
        strings_view(r@) == boot_args(config.wsl_distro@, unix_script@),
{
    let mut v: Vec<String> = Vec::new();
    v.push(String::from_str("-d"));
    v.push(config.wsl_distro.clone());
    v.push(String::from_str("-u"));
    v.push(String::from_str("root"));
    v.push(String::from_str("-e"));
    v.push(String::from_str("bash"));
    v.push(String::from_str(unix_script));
    v.push(String::from_str("--up"));
    assert(strings_view(v@) =~= boot_args(config.wsl_distro@, unix_script@));
    v
}

/// The arguments of `wsl` that terminate the distro (its docker daemon and
/// containers stop with it).
pub fn terminate_args(distro: &str) -> (r: Vec<String>)
    ensures
        strings_view(r@) == seq!["--terminate"@, distro@],
{
    let mut v: Vec<String> = Vec::new();
    v.push(String::from_str("--terminate"));
    v.push(String::from_str(distro));
    assert(strings_view(v@) =~= seq!["--terminate"@, distro@]);
    v
}

/// How waiting on the boot script ended.
#[derive(Clone, Debug)]
pub enum BootOutcome {
    /// The script exited; `code` is absent when a signal ended it.
    Exited { success: bool, code: Option<i32> },
    /// Waiting on the child failed.
    WaitFailed { detail: String },
    /// The boot budget elapsed first; the child keeps running detached.
    TimedOut,
}

/// A signed integer in decimal.
pub open spec fn signed_decimal(i: int) -> Seq<char> {
    if i < 0 {
        "-"@ + decimal((-i) as nat)
    } else {
        decimal(i as nat)
    }
}

/// What a boot attempt answers: success, a boot failure naming the exit
/// code (`-1` when there is none) or the wait error, or "still starting"
/// when the budget elapsed.
pub open spec fn boot_verdict(outcome: BootOutcome, boot_timeout_secs: u64) -> Result<(), ArgosErrorV> {
    match outcome {
        BootOutcome::Exited { success, code } => if success {
            Ok(())
        } else {
            Err(
                ArgosErrorV::StackBoot {
                    detail: "exited with code "@ + signed_decimal(
                        match code {
                            Some(c) => c as int,
                            None => -1,
                        },
                    ),
                },
            )
        },
        BootOutcome::WaitFailed { detail } => Err(
            ArgosErrorV::StackBoot { detail: "wait failed: "@ + detail@ },
        ),
        BootOutcome::TimedOut => Err(ArgosErrorV::StackStarting { secs: boot_timeout_secs }),
    }
}

fn signed_decimal_string(i: i32) -> (r: String)
    ensures
        r@ == signed_decimal(i as int),
{
    if i < 0 {
        let m: i64 = -(i as i64);
        let mut s = String::from_str("-");
        let d = decimal_string(m as u64);
        s.append(d.as_str());
        s
    } else {
        decimal_string(i as u64)
    }
}

/// Decide what a boot attempt answers.
pub fn boot_result(outcome: BootOutcome, boot_timeout_secs: u64) -> (r: Result<(), ArgosError>)
    ensures
        crate::providers::unit_result_view(r) == boot_verdict(outcome, boot_timeout_secs),
{
    match outcome {
        BootOutcome::Exited { success, code } => if success {
            Ok(())
        } else {
            let c: i32 = match code {
                Some(c) => c,
                None => -1,
            };
            let mut d = String::from_str("exited with code ");
            let n = signed_decimal_string(c);
            d.append(n.as_str());
            Err(ArgosError::StackBoot { detail: d })
        },
        BootOutcome::WaitFailed { detail } => {
            let mut d = String::from_str("wait failed: ");
            d.append(detail.as_str());
            Err(ArgosError::StackBoot { detail: d })
        },
        BootOutcome::TimedOut => Err(ArgosError::StackStarting { secs: boot_timeout_secs }),
    }
}

/// Whether successful searches arm the idle watchdog (`0` keeps the stack up).
pub fn tracks_idle(config: &Config) -> (r: bool)
    ensures
        r == (config.idle_stop_secs != 0),
{
    config.idle_stop_secs != 0
}

/// Time since `used_at`, as a monotonic clock reports it (never negative).
pub open spec fn elapsed_since(used_at: u64, now: u64) -> nat {
    if now >= used_at {
        (now - used_at) as nat
    } else {
        0
    }
}

/// Whether the watchdog should terminate the stack: it was used, and not
/// for at least `idle_stop_ms`.
pub fn idle_expired(last_used: Option<u64>, now: u64, idle_stop_ms: u64) -> (r: bool)
    ensures
        r == match last_used {
            Some(t) => elapsed_since(t, now) >= idle_stop_ms,
            None => false,
        },
{
    match last_used {
        Some(t) => {
            let elapsed: u64 = if now >= t {
                now - t
            } else {
                0
            };
            elapsed >= idle_stop_ms
        },
        None => false,
    }
}

} // verus!
