//! What may be downloaded, how often it is tried, and for how long.

use crate::text::{joined3, quote, quoted, starts_with};
use vstd::prelude::*;
use vstd::string::*;

verus! {

/// How often a download is tried.
pub const ATTEMPTS: u32 = 2;

/// How many milliseconds pass between two tries.
pub const RETRY_DELAY_MS: u64 = 500;

/// How many bytes a download may have.
pub const MAX_BODY_BYTES: u64 = 104_857_600;

/// How many seconds a download may take: to connect, and in all. Nothing is no bound.
#[derive(Debug, Clone, Copy, PartialEq, Eq, Structural)]
pub struct Timeouts {
    /// To connect.
    pub connect: Option<u64>,
    /// For one request from the connection to the last byte.
    pub global: Option<u64>,
}

impl Default for Timeouts {
    /// Thirty seconds to connect, two minutes for a request.
    fn default() -> (r: Timeouts)
        ensures
            r == default_timeouts(),
    {
        Timeouts { connect: Some(30), global: Some(120) }
    }
}

/// The bounds where none are set: thirty seconds to connect, two minutes for a request.
pub open spec fn default_timeouts() -> Timeouts {
    Timeouts { connect: Some(30), global: Some(120) }
}

impl Timeouts {
    /// The bounds by the flags of the command line: `no_timeout` removes them all, and
    /// `timeout_secs` is for a request.
    pub fn from_cli(timeout_secs: Option<u64>, no_timeout: bool) -> (r: Timeouts)
        ensures
            r == (if no_timeout {
                Timeouts { connect: None, global: None }
            } else {
                match timeout_secs {
                    Some(secs) => Timeouts { global: Some(secs), ..default_timeouts() },
                    None => default_timeouts(),
                }
            }),
    {
        if no_timeout {
            Timeouts { connect: None, global: None }
        } else {
            match timeout_secs {
                Some(secs) => Timeouts { connect: Some(30), global: Some(secs) },
                None => Timeouts { connect: Some(30), global: Some(120) },
            }
        }
    }
}

/// The bounds of a process, which can be set once.
#[derive(Debug)]
pub struct TimeoutSetting {
    value: Option<Timeouts>,
}

impl TimeoutSetting {
    /// The bounds that hold.
    pub closed spec fn in_force(&self) -> Timeouts {
        match self.value {
            Some(t) => t,
            None => default_timeouts(),
        }
    }

    /// Whether the bounds were set.
    pub closed spec fn is_set(&self) -> bool {
        self.value is Some
    }

    /// Bounds that were not set.
    pub fn new() -> (r: TimeoutSetting)
        ensures
            !r.is_set(),
            r.in_force() == default_timeouts(),
    {
        TimeoutSetting { value: None }
    }

    /// Sets the bounds, unless they were set before.
    pub fn set_timeouts(&mut self, timeouts: Timeouts)
        ensures
            final(self).is_set(),
            final(self).in_force() == (if old(self).is_set() {
                old(self).in_force()
            } else {
                timeouts
            }),
    {
        if self.value.is_none() {
            self.value = Some(timeouts);
        }
    }

    /// The bounds that hold.
    pub fn timeouts(&self) -> (r: Timeouts)
        ensures
            r == self.in_force(),
    {
        match self.value {
            Some(t) => t,
            None => Timeouts { connect: Some(30), global: Some(120) },
        }
    }
}

/// The refusal of a URL.
#[derive(Debug, PartialEq, Eq)]
pub struct NotHttps {
    pub url: String,
}

impl NotHttps {
    /// What is said of the refusal.
    pub fn message(&self) -> (r: String)
        ensures
            r@ == "refusing to fetch non-https URL "@ + quoted(self.url@)
                + ": npm-utils downloads over https only"@,
    {
        joined3(
            "refusing to fetch non-https URL ",
            quote(self.url.as_str()).as_str(),
            ": npm-utils downloads over https only",
        )
    }
}

/// What a download does next.
#[derive(Debug, PartialEq, Eq)]
pub enum FetchStep {
    /// Try to get the URL.
    Try,
    /// Wait this many milliseconds and try again.
    RetryAfter(u64),
    /// Give the last outcome back, whatever it is.
    Finish,
    /// Refuse the URL.
    Refuse(NotHttps),
}

/// The first step of a download: only https is fetched.
pub fn fetch(url: &str) -> (r: FetchStep)
    ensures
        if "https://"@.is_prefix_of(url@) {
            r == FetchStep::Try
        } else {
            r matches FetchStep::Refuse(e) && e.url@ == url@
        },
{
    if starts_with(url, "https://") {
        FetchStep::Try
    } else {
        FetchStep::Refuse(NotHttps { url: url.to_owned() })
    }
}

/// The step after a try: a success ends the download, a failure is tried again once.
pub fn after_try(attempt: u32, succeeded: bool) -> (r: FetchStep)
    ensures
        r == (if !succeeded && attempt < ATTEMPTS {
            FetchStep::RetryAfter(RETRY_DELAY_MS)
        } else {
            FetchStep::Finish
        }),
{
    if !succeeded && attempt < ATTEMPTS {
        FetchStep::RetryAfter(RETRY_DELAY_MS)
    } else {
        FetchStep::Finish
    }
}

/// The URL of the archive of a GitHub repository at a branch, tag or commit.
pub fn github_archive_url(owner: &str, repo: &str, git_ref: &str) -> (r: String)
    ensures
        r@ == "https://github.com/"@ + owner@ + "/"@ + repo@ + "/archive/"@ + git_ref@ + ".zip"@,
{
    let mut out = joined3("https://github.com/", owner, "/");
    out.append(repo);
    out.append("/archive/");
    out.append(git_ref);
    out.append(".zip");
    out
}

} // verus!
