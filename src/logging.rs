use vstd::prelude::*;

verus! {

/// Maximum level of log records that are kept.
#[derive(PartialEq, Eq, Structural, Clone, Copy, Debug)]
pub enum LogLevel {
    Off,
    Error,
    Warn,
    Info,
    Debug,
    Trace,
}

/// Code of `c` with ASCII upper-case letters lowered.
pub open spec fn ascii_lower(c: char) -> int {
    if 65 <= c as u32 <= 90 {
        c as u32 + 32
    } else {
        c as u32 as int
    }
}

/// `a` and `b` are equal but for the case of ASCII letters.
pub open spec fn eq_ignore_ascii_case(a: Seq<char>, b: Seq<char>) -> bool {
    a.len() == b.len() && forall|i: int| 0 <= i < a.len() ==> #[trigger] ascii_lower(a[i]) == ascii_lower(b[i])
}

/// The level that a name gives, in any case of its letters.
pub open spec fn parsed_level(s: Seq<char>) -> Option<LogLevel> {
    if eq_ignore_ascii_case(s, "OFF"@) {
        Some(LogLevel::Off)
    } else if eq_ignore_ascii_case(s, "ERROR"@) {
        Some(LogLevel::Error)
    } else if eq_ignore_ascii_case(s, "WARN"@) {
        Some(LogLevel::Warn)
    } else if eq_ignore_ascii_case(s, "INFO"@) {
        Some(LogLevel::Info)
    } else if eq_ignore_ascii_case(s, "DEBUG"@) {
        Some(LogLevel::Debug)
    } else if eq_ignore_ascii_case(s, "TRACE"@) {
        Some(LogLevel::Trace)
    } else {
        None
    }
}

/// Relies on `<log::LevelFilter as FromStr>::from_str`: the first of "OFF",
/// "ERROR", "WARN", "INFO", "DEBUG", "TRACE" that equals `s` but for ASCII
/// case, or an error.
#[verifier::external_body]
fn parse_level_filter(s: &str) -> (r: Option<LogLevel>)
    ensures
        r == parsed_level(s@),
{
    match s.parse::<log::LevelFilter>() {
        Ok(log::LevelFilter::Off) => Some(LogLevel::Off),
        Ok(log::LevelFilter::Error) => Some(LogLevel::Error),
        Ok(log::LevelFilter::Warn) => Some(LogLevel::Warn),
        Ok(log::LevelFilter::Info) => Some(LogLevel::Info),
        Ok(log::LevelFilter::Debug) => Some(LogLevel::Debug),
        Ok(log::LevelFilter::Trace) => Some(LogLevel::Trace),
        Err(_) => None,
    }
}

/// Relies on `log::set_max_level`: sets the global maximum level.
#[verifier::external_body]
fn apply_max_level(level: LogLevel) {
    log::set_max_level(match level {
        LogLevel::Off => log::LevelFilter::Off,
        LogLevel::Error => log::LevelFilter::Error,
        LogLevel::Warn => log::LevelFilter::Warn,
        LogLevel::Info => log::LevelFilter::Info,
        LogLevel::Debug => log::LevelFilter::Debug,
        LogLevel::Trace => log::LevelFilter::Trace,
    })
}

/// Sets the maximum log level by name; an unknown name turns logging off.
/// Returns the level set.
pub fn set_max_level(level: &str) -> (r: LogLevel)
    ensures
        r == match parsed_level(level@) {
            Some(l) => l,
            None => LogLevel::Off,
        },
{
    let l = match parse_level_filter(level) {
        Some(l) => l,
        None => LogLevel::Off,
    };
    apply_max_level(l);
    l
}

} // verus!
