//! Plain data describing what the remote bug tracker reports: issues,
//! projects and their statistics, and teams. The HTTP layer around the
//! library fills these from wire responses and hands them to callers.
use vstd::prelude::*;

verus! {

/// A reported issue.
#[derive(Debug)]
pub struct Issue {
    pub id: String,
    pub title: String,
    pub status: String,
    pub level: String,
    pub culprit: String,
    pub last_seen: String,
    pub count: u32,
    pub user_count: u32,
}

/// Event counts over a window: (timestamp, count) pairs.
#[derive(Debug)]
pub struct ProjectStats {
    pub last_24h: Vec<(i64, i64)>,
    pub last_30d: Vec<(i64, i64)>,
}

/// A team that a project belongs to.
#[derive(Debug)]
pub struct Team {
    pub id: String,
    pub name: String,
    pub slug: String,
}

/// A remote project with its optional metadata.
#[derive(Debug)]
pub struct Project {
    pub slug: String,
    pub name: String,
    pub platform: Option<String>,
    pub status: String,
    pub first_event: Option<String>,
    pub last_event: Option<String>,
    pub stats: Option<ProjectStats>,
    pub id: Option<String>,
    pub is_bookmarked: Option<bool>,
    pub is_member: Option<bool>,
    pub has_access: Option<bool>,
    pub teams: Option<Vec<Team>>,
}

} // verus!
