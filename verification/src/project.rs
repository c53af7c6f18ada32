//! A named group of repository records: at most one main record and an
//! ordered set of sub-records.

use vstd::prelude::*;

use crate::repo::Repo;
use crate::repo::RepoView;
use crate::repo_set::RepoSet;

verus! {

/// The mathematical shape of a `Project` value.
pub struct ProjectView {
    pub name: Seq<char>,
    pub description: Option<Seq<char>>,
    pub main: Option<RepoView>,
    pub subs: Seq<RepoView>,
}

/// How many records a project holds: its main, if any, plus its subs.
pub open spec fn member_count(p: ProjectView) -> int {
    (if p.main is Some {
        1int
    } else {
        0int
    }) + p.subs.len()
}

/// The sole record of a single-member project: the main when there is one,
/// else the greatest sub.
pub open spec fn single_member(p: ProjectView) -> RepoView {
    match p.main {
        Some(m) => m,
        None => p.subs[p.subs.len() - 1],
    }
}

/// A named group of repositories sharing a declared project name.
#[derive(Debug, PartialEq)]
pub struct Project {
    pub name: String,
    pub description: Option<String>,
    pub repo_main: Option<Repo>,
    pub repo_sub: RepoSet,
}

impl View for Project {
    type V = ProjectView;

    open spec fn view(&self) -> ProjectView {
        ProjectView {
            name: self.name@,
            description: self.description.deep_view(),
            main: match self.repo_main {
                Some(m) => Some(m@),
                None => None,
            },
            subs: self.repo_sub@,
        }
    }
}

impl Project {
    /// The sub-set holds its ordering invariant.
    pub open spec fn wf(&self) -> bool {
        self.repo_sub.wf()
    }

    /// Whether the project holds exactly one record.
    pub fn is_single(&self) -> (r: bool)
        ensures
            r == (member_count(self@) == 1),
    {
        let has_main: usize = if self.repo_main.is_some() {
            1
        } else {
            0
        };
        let subs = self.repo_sub.len();
        has_main == 1 && subs == 0 || has_main == 0 && subs == 1
    }

    /// Consumes the project; yields its sole record when it holds exactly
    /// one, and nothing otherwise.
    pub fn get_single(self) -> (r: Option<Repo>)
        requires
            self.wf(),
        ensures
            member_count(self@) == 1 ==> r is Some && r->0@ == single_member(self@),
            member_count(self@) != 1 ==> r is None,
    {
        let has_main = self.repo_main.is_some();
        let single = if has_main {
            self.repo_sub.len() == 0
        } else {
            self.repo_sub.len() == 1
        };
        if single {
            if has_main {
                self.repo_main
            } else {
                let mut subs = self.repo_sub;
                subs.pop_last()
            }
        } else {
            None
        }
    }
}

} // verus!
