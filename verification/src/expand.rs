//! Project aggregation: turning the cached record set into a partitioned
//! view of standalone repositories and multi-record projects.
//!
//! Records are drained greatest-first. A record without a declared project
//! goes straight into the flat repository map. A record with one joins its
//! project as main or sub: it is a main candidate when it carries an
//! explicit main marker or its name equals the project's; when two
//! candidates collide, an explicit marker on the resident main wins,
//! otherwise the resident is demoted into the subs. Finally every project
//! left holding exactly one record is dissolved, its record moved to the
//! flat map.

use vstd::prelude::*;

use crate::cache::RepoScrapeCache;
use crate::chars::str_eq;
use crate::project::member_count;
use crate::project::single_member;
use crate::project::Project;
use crate::project::ProjectView;
use crate::repo::clone_opt_string;
use crate::repo::DetailsView;
use crate::repo::Repo;
use crate::repo::RepoView;
use crate::repo_set::has_uid;
use crate::repo_set::spec_set_insert;
use crate::repo_set::RepoSet;

verus! {

/// The views of a list of records.
pub open spec fn repo_views(s: Seq<Repo>) -> Seq<RepoView> {
    Seq::new(s.len(), |i: int| s[i]@)
}

/// The views of a list of projects.
pub open spec fn proj_views(s: Seq<Project>) -> Seq<ProjectView> {
    Seq::new(s.len(), |i: int| s[i]@)
}

/// Some project in the sequence carries this name.
pub open spec fn has_name(ps: Seq<ProjectView>, name: Seq<char>) -> bool {
    exists|i: int| 0 <= i < ps.len() && (#[trigger] ps[i]).name == name
}

/// The position of the first project with this name, or the length.
pub open spec fn proj_idx(ps: Seq<ProjectView>, name: Seq<char>) -> int
    decreases ps.len(),
{
    if ps.len() == 0 {
        0
    } else if ps[0].name == name {
        0
    } else {
        1 + proj_idx(ps.drop_first(), name)
    }
}

/// Characterization of `proj_idx`.
pub proof fn lemma_proj_idx_is(ps: Seq<ProjectView>, name: Seq<char>, i: int)
    requires
        0 <= i <= ps.len(),
        forall|j: int| 0 <= j < i ==> (#[trigger] ps[j]).name != name,
        i == ps.len() || ps[i].name == name,
    ensures
        proj_idx(ps, name) == i,
    decreases i,
{
    if i > 0 {
        lemma_proj_idx_is(ps.drop_first(), name, i - 1);
    }
}

/// Keyed insertion by name: the resident entry with the same name is
/// replaced in place; a fresh name is appended.
pub open spec fn proj_upsert(ps: Seq<ProjectView>, p: ProjectView) -> Seq<ProjectView> {
    if has_name(ps, p.name) {
        ps.update(proj_idx(ps, p.name), p)
    } else {
        ps.push(p)
    }
}

/// The position of the first record with this identity, or the length.
pub open spec fn repo_idx(rs: Seq<RepoView>, uid: Seq<char>) -> int
    decreases rs.len(),
{
    if rs.len() == 0 {
        0
    } else if rs[0].uid == uid {
        0
    } else {
        1 + repo_idx(rs.drop_first(), uid)
    }
}

/// Characterization of `repo_idx`.
pub proof fn lemma_repo_idx_is(rs: Seq<RepoView>, uid: Seq<char>, i: int)
    requires
        0 <= i <= rs.len(),
        forall|j: int| 0 <= j < i ==> (#[trigger] rs[j]).uid != uid,
        i == rs.len() || rs[i].uid == uid,
    ensures
        repo_idx(rs, uid) == i,
    decreases i,
{
    if i > 0 {
        lemma_repo_idx_is(rs.drop_first(), uid, i - 1);
    }
}

/// Keyed insertion by identity: the resident record with the same identity
/// is replaced in place; a fresh identity is appended.
pub open spec fn repos_insert(rs: Seq<RepoView>, r: RepoView) -> Seq<RepoView> {
    if has_uid(rs, r.uid) {
        rs.update(repo_idx(rs, r.uid), r)
    } else {
        rs.push(r)
    }
}

/// The aggregation state: the flat records and the projects built so far,
/// each keyed by insertion order.
pub struct AggState {
    pub repos: Seq<RepoView>,
    pub projects: Seq<ProjectView>,
}

/// The state before any record is placed.
pub open spec fn empty_state() -> AggState {
    AggState { repos: Seq::empty(), projects: Seq::empty() }
}

/// The name a record goes by: its declared title, else its plain name.
pub open spec fn repo_name_of(r: RepoView, d: DetailsView) -> Seq<char> {
    match d.title {
        Some(t) => t,
        None => r.name,
    }
}

/// A project that does not exist yet.
pub open spec fn fresh_project(name: Seq<char>) -> ProjectView {
    ProjectView { name: name, description: None, main: None, subs: Seq::empty() }
}

/// Placing one record. A record without a declared project is filed flat.
/// Otherwise it joins its project: a main candidate carries an explicit
/// marker or a name equal to the project's; on a main collision, an
/// explicit marker on the resident main demotes the newcomer, else the
/// resident is demoted into the subs. The winning main also donates its
/// description.
pub open spec fn spec_place(st: AggState, r: RepoView) -> AggState {
    match r.details {
        None => AggState { repos: repos_insert(st.repos, r), ..st },
        Some(d) => match d.project {
            None => AggState { repos: repos_insert(st.repos, r), ..st },
            Some(pname) => {
                let is_main0 = d.main is Some || pname == repo_name_of(r, d);
                let proj = if has_name(st.projects, pname) {
                    st.projects[proj_idx(st.projects, pname)]
                } else {
                    fresh_project(pname)
                };
                let step = (if is_main0 && proj.main is Some {
                    match proj.main->0.details {
                        Some(exd) => if exd.main is Some {
                            (false, proj)
                        } else {
                            (
                                true,
                                ProjectView {
                                    main: None,
                                    subs: spec_set_insert(proj.subs, proj.main->0),
                                    ..proj
                                },
                            )
                        },
                        None => (true, proj),
                    }
                } else {
                    (is_main0, proj)
                });
                let proj2 = (if step.0 {
                    ProjectView { description: d.description, main: Some(r), ..step.1 }
                } else {
                    ProjectView { subs: spec_set_insert(step.1.subs, r), ..step.1 }
                });
                AggState { projects: proj_upsert(st.projects, proj2), ..st }
            },
        },
    }
}

/// The state after draining a record sequence greatest-first: the last
/// record is placed first.
pub open spec fn spec_run(s: Seq<RepoView>) -> AggState
    decreases s.len(),
{
    if s.len() == 0 {
        empty_state()
    } else {
        spec_place(spec_run(s.drop_first()), s.first())
    }
}

/// Dissolving single-member projects, in order: each one's sole record
/// moves to the flat records, every other project is kept.
pub open spec fn spec_collapse(rs: Seq<RepoView>, ps: Seq<ProjectView>) -> AggState
    decreases ps.len(),
{
    if ps.len() == 0 {
        AggState { repos: rs, projects: Seq::empty() }
    } else {
        let prev = spec_collapse(rs, ps.drop_last());
        let p = ps.last();
        if member_count(p) == 1 {
            AggState { repos: repos_insert(prev.repos, single_member(p)), projects: prev.projects }
        } else {
            AggState { repos: prev.repos, projects: prev.projects.push(p) }
        }
    }
}

/// The whole aggregation: drain, then dissolve the degenerate projects.
pub open spec fn spec_aggregate(s: Seq<RepoView>) -> AggState {
    let st = spec_run(s);
    spec_collapse(st.repos, st.projects)
}

/// Every project in the list holds its invariant.
pub open spec fn projs_wf(s: Seq<Project>) -> bool {
    forall|i: int| 0 <= i < s.len() ==> (#[trigger] s[i]).wf()
}

/// The flat repository map of the aggregated view, keyed by identity.
#[derive(Debug, PartialEq)]
pub struct RepoMap {
    items: Vec<Repo>,
}

impl View for RepoMap {
    type V = Seq<RepoView>;

    closed spec fn view(&self) -> Seq<RepoView> {
        repo_views(self.items@)
    }
}

impl RepoMap {
    /// An empty map.
    pub fn new() -> (r: RepoMap)
        ensures
            r@ == Seq::<RepoView>::empty(),
    {
        let r = RepoMap { items: Vec::new() };
        proof {
            assert(r@ =~= Seq::<RepoView>::empty());
        }
        r
    }

    /// The number of records held.
    pub fn len(&self) -> (r: usize)
        ensures
            r == self@.len(),
    {
        self.items.len()
    }

    /// The record at a position.
    pub fn at(&self, i: usize) -> (r: &Repo)
        requires
            i < self@.len(),
        ensures
            r@ == self@[i as int],
    {
        &self.items[i]
    }

    /// The record carrying this identity, if one is held.
    pub fn get(&self, uid: &str) -> (r: Option<&Repo>)
        ensures
            match r {
                Some(x) => has_uid(self@, uid@) && x@ == self@[repo_idx(self@, uid@)] && x@.uid
                    == uid@,
                None => !has_uid(self@, uid@),
            },
    {
        let mut i: usize = 0;
        let n = self.items.len();
        while i < n
            invariant
                i <= n,
                n == self.items@.len(),
                self@.len() == n,
                forall|j: int| 0 <= j < i ==> (#[trigger] self@[j]).uid != uid@,
            decreases n - i,
        {
            if str_eq(self.items[i].uid.as_str(), uid) {
                proof {
                    assert((self@[i as int]).uid == uid@);
                    lemma_repo_idx_is(self@, uid@, i as int);
                }
                return Some(&self.items[i]);
            }
            i = i + 1;
        }
        None
    }
}

/// The project map of the aggregated view, keyed by name.
#[derive(Debug, PartialEq)]
pub struct ProjectMap {
    items: Vec<Project>,
}

impl View for ProjectMap {
    type V = Seq<ProjectView>;

    closed spec fn view(&self) -> Seq<ProjectView> {
        proj_views(self.items@)
    }
}

impl ProjectMap {
    /// An empty map.
    pub fn new() -> (r: ProjectMap)
        ensures
            r@ == Seq::<ProjectView>::empty(),
    {
        let r = ProjectMap { items: Vec::new() };
        proof {
            assert(r@ =~= Seq::<ProjectView>::empty());
        }
        r
    }

    /// The number of projects held.
    pub fn len(&self) -> (r: usize)
        ensures
            r == self@.len(),
    {
        self.items.len()
    }

    /// The project at a position.
    pub fn at(&self, i: usize) -> (r: &Project)
        requires
            i < self@.len(),
        ensures
            r@ == self@[i as int],
    {
        &self.items[i]
    }

    /// The project carrying this name, if one is held.
    pub fn get(&self, name: &str) -> (r: Option<&Project>)
        ensures
            match r {
                Some(x) => has_name(self@, name@) && x@ == self@[proj_idx(self@, name@)] && x@.name
                    == name@,
                None => !has_name(self@, name@),
            },
    {
        let mut i: usize = 0;
        let n = self.items.len();
        while i < n
            invariant
                i <= n,
                n == self.items@.len(),
                self@.len() == n,
                forall|j: int| 0 <= j < i ==> (#[trigger] self@[j]).name != name@,
            decreases n - i,
        {
            if str_eq(self.items[i].name.as_str(), name) {
                proof {
                    assert((self@[i as int]).name == name@);
                    lemma_proj_idx_is(self@, name@, i as int);
                }
                return Some(&self.items[i]);
            }
            i = i + 1;
        }
        None
    }
}

/// Inserts a record into the flat list, keyed by identity.
fn repo_vec_insert(items: &mut Vec<Repo>, r: Repo)
    ensures
        repo_views(final(items)@) == repos_insert(repo_views(old(items)@), r@),
{
    let ghost pre = repo_views(items@);
    let ghost rv = r@;
    let mut i: usize = 0;
    let n = items.len();
    while i < n
        invariant
            i <= n,
            n == items@.len(),
            repo_views(items@) == pre,
            pre == repo_views(old(items)@),
            r@ == rv,
            forall|j: int| 0 <= j < i ==> (#[trigger] pre[j]).uid != rv.uid,
        decreases n - i,
    {
        if str_eq(items[i].uid.as_str(), r.uid.as_str()) {
            proof {
                assert((pre[i as int]).uid == rv.uid);
                lemma_repo_idx_is(pre, rv.uid, i as int);
            }
            let _ = items.set(i, r);
            proof {
                assert(has_uid(pre, rv.uid));
                assert(repo_views(items@) =~= pre.update(i as int, rv));
                assert(repo_views(items@) == repos_insert(pre, rv));
            }
            return ;
        }
        i = i + 1;
    }
    items.push(r);
    proof {
        assert(!has_uid(pre, rv.uid));
        assert(repo_views(items@) =~= pre.push(rv));
    }
}

/// A placeholder project, used only to swap a real one out of the list.
fn dummy_project() -> (r: Project)
    ensures
        r.wf(),
        r@ == fresh_project(Seq::<char>::empty()),
{
    let r = Project {
        name: String::new(),
        description: None,
        repo_main: None,
        repo_sub: RepoSet::new(),
    };
    r
}

/// Places one drained record into the aggregation state.
fn place_one(repos: &mut Vec<Repo>, projects: &mut Vec<Project>, r: Repo)
    requires
        projs_wf(old(projects)@),
    ensures
        projs_wf(final(projects)@),
        repo_views(final(repos)@) == spec_place(
            AggState {
                repos: repo_views(old(repos)@),
                projects: proj_views(old(projects)@),
            },
            r@,
        ).repos,
        proj_views(final(projects)@) == spec_place(
            AggState {
                repos: repo_views(old(repos)@),
                projects: proj_views(old(projects)@),
            },
            r@,
        ).projects,
{
    let ghost st = AggState { repos: repo_views(repos@), projects: proj_views(projects@) };
    let ghost rv = r@;
    let pname_opt: Option<String> = match &r.details {
        Some(d) => match &d.project {
            Some(p) => Some(p.clone()),
            None => None,
        },
        None => None,
    };
    match pname_opt {
        None => {
            repo_vec_insert(repos, r);
            proof {
                assert(proj_views(projects@) == spec_place(st, rv).projects);
            }
        },
        Some(pname) => {
            let ghost d = rv.details->0;
            let ghost pn = pname@;
            let is_main0: bool = {
                let explicit = match &r.details {
                    Some(dd) => dd.main.is_some(),
                    None => false,
                };
                if explicit {
                    true
                } else {
                    match &r.details {
                        Some(dd) => match &dd.title {
                            Some(t) => str_eq(pname.as_str(), t.as_str()),
                            None => str_eq(pname.as_str(), r.name.as_str()),
                        },
                        None => false,
                    }
                }
            };
            proof {
                assert(is_main0 == (d.main is Some || pn == repo_name_of(rv, d)));
            }
            let mut i: usize = 0;
            let n = projects.len();
            while i < n && !str_eq(projects[i].name.as_str(), pname.as_str())
                invariant
                    i <= n,
                    n == projects@.len(),
                    proj_views(projects@) == st.projects,
                    pname@ == pn,
                    forall|j: int| 0 <= j < i ==> (#[trigger] st.projects[j]).name != pn,
                decreases n - i,
            {
                i = i + 1;
            }
            proof {
                if i < n {
                    assert((st.projects[i as int]).name == pn);
                }
                lemma_proj_idx_is(st.projects, pn, i as int);
            }
            let mut proj: Project;
            if i < n {
                let mut tmp = dummy_project();
                projects.set_and_swap(i, &mut tmp);
                proj = tmp;
                proof {
                    assert(proj@ == st.projects[proj_idx(st.projects, pn)]);
                    assert(proj.wf()) by {
                        assert(old(projects)@[i as int].wf());
                    }
                }
            } else {
                proj = Project {
                    name: pname,
                    description: None,
                    repo_main: None,
                    repo_sub: RepoSet::new(),
                };
                proof {
                    assert(proj@ == fresh_project(pn));
                }
            }
            let ghost proj0 = (if has_name(st.projects, pn) {
                st.projects[proj_idx(st.projects, pn)]
            } else {
                fresh_project(pn)
            });
            proof {
                assert(proj@ == proj0);
            }
            let mut is_main = is_main0;
            if is_main && proj.repo_main.is_some() {
                let shape: (bool, bool) = match &proj.repo_main {
                    Some(ex) => match &ex.details {
                        Some(exd) => (true, exd.main.is_some()),
                        None => (false, false),
                    },
                    None => (false, false),
                };
                if shape.0 && shape.1 {
                    is_main = false;
                } else if shape.0 {
                    let mut tmp: Option<Repo> = None;
                    core::mem::swap(&mut proj.repo_main, &mut tmp);
                    match tmp {
                        Some(ex) => {
                            proj.repo_sub.insert(ex);
                        },
                        None => {},
                    }
                }
            }
            let ghost step = (if is_main0 && proj0.main is Some {
                match proj0.main->0.details {
                    Some(exd) => if exd.main is Some {
                        (false, proj0)
                    } else {
                        (
                            true,
                            ProjectView {
                                main: None,
                                subs: spec_set_insert(proj0.subs, proj0.main->0),
                                ..proj0
                            },
                        )
                    },
                    None => (true, proj0),
                }
            } else {
                (is_main0, proj0)
            });
            proof {
                assert(is_main == step.0);
                assert(proj@ == step.1);
                assert(proj.wf());
            }
            if is_main {
                proj.description = match &r.details {
                    Some(dd) => clone_opt_string(&dd.description),
                    None => None,
                };
                proj.repo_main = Some(r);
            } else {
                proj.repo_sub.insert(r);
            }
            let ghost proj2 = (if step.0 {
                ProjectView { description: d.description, main: Some(rv), ..step.1 }
            } else {
                ProjectView { subs: spec_set_insert(step.1.subs, rv), ..step.1 }
            });
            proof {
                assert(proj@ == proj2);
                assert(proj.wf());
            }
            if i < n {
                let _ = projects.set(i, proj);
                proof {
                    assert(proj_views(projects@) =~= st.projects.update(i as int, proj2));
                    assert(proj_views(projects@) == spec_place(st, rv).projects);
                    assert(projs_wf(projects@)) by {
                        assert(forall|j: int|
                            0 <= j < projects@.len() && j != i ==> projects@[j]
                                == old(projects)@[j]);
                    }
                }
            } else {
                projects.push(proj);
                proof {
                    assert(proj_views(projects@) =~= st.projects.push(proj2));
                    assert(proj_views(projects@) == spec_place(st, rv).projects);
                    assert(projs_wf(projects@)) by {
                        assert(forall|j: int|
                            0 <= j < projects@.len() - 1 ==> projects@[j] == old(projects)@[j]);
                    }
                }
            }
            proof {
                assert(repo_views(repos@) == spec_place(st, rv).repos);
            }
        },
    }
}

/// The aggregated view: a flat repository map and a project map that
/// together partition the drained records. Child-link reconciliation is
/// owed before single-member projects dissolve, so the checks those
/// projects would have raised are carried along: each dissolved project
/// that still declared children with a URL count differing from its sub
/// count is listed by name with its declared child URLs. Projects that
/// survive answer `children_to_check` themselves.
#[derive(Debug, PartialEq)]
pub struct ExpandedRepoCache {
    pub repos: RepoMap,
    pub projects: ProjectMap,
    pub dissolved_children: Vec<(String, Vec<String>)>,
}

/// The views of a dissolved-check list.
pub open spec fn check_views(v: Seq<(String, Vec<String>)>) -> Seq<(Seq<char>, Seq<Seq<char>>)> {
    Seq::new(v.len(), |i: int| (v[i].0@, v[i].1.deep_view()))
}

/// The child-link checks that dissolving would otherwise silence: each
/// single-member project, in order, whose record still declares children
/// with a URL count differing from its sub count, listed by name with
/// those URLs.
pub open spec fn spec_dissolved_checks(ps: Seq<ProjectView>) -> Seq<(Seq<char>, Seq<Seq<char>>)>
    decreases ps.len(),
{
    if ps.len() == 0 {
        Seq::<(Seq<char>, Seq<Seq<char>>)>::empty()
    } else {
        let prev = spec_dissolved_checks(ps.drop_last());
        let p = ps.last();
        if member_count(p) == 1 && spec_children_urls(p) is Some && spec_children_urls(p)->0.len()
            != p.subs.len() {
            prev.push((p.name, spec_children_urls(p)->0))
        } else {
            prev
        }
    }
}

impl ExpandedRepoCache {
    /// Every project in the view holds its ordering invariant.
    pub open spec fn wf(&self) -> bool {
        forall|k: int|
            0 <= k < self.projects@.len() ==> crate::repo_set::repo_sorted(
                (#[trigger] self.projects@[k]).subs,
            ) && crate::repo_set::unique_uids(self.projects@[k].subs)
    }

    /// Aggregates the cached records, consuming the cache: drains them
    /// greatest-first into flat records and projects, then dissolves every
    /// single-member project into the flat records.
    pub fn new(cache: RepoScrapeCache) -> (r: ExpandedRepoCache)
        requires
            cache.repos.data.wf(),
        ensures
            r.wf(),
            r.repos@ == spec_aggregate(cache.repos.data@).repos,
            r.projects@ == spec_aggregate(cache.repos.data@).projects,
            check_views(r.dissolved_children@) == spec_dissolved_checks(
                spec_run(cache.repos.data@).projects,
            ),
    {
        let ghost s = cache.repos.data@;
        let mut data = cache.repos.data;
        let mut repos_v: Vec<Repo> = Vec::new();
        let mut projects_v: Vec<Project> = Vec::new();
        proof {
            assert(s.take(s.len() as int) =~= s);
            assert(repo_views(repos_v@) =~= Seq::<RepoView>::empty());
            assert(proj_views(projects_v@) =~= Seq::<ProjectView>::empty());
            assert(s.skip(s.len() as int) =~= Seq::<RepoView>::empty());
        }
        while data.len() > 0
            invariant
                data.wf(),
                data@.len() <= s.len(),
                data@ == s.take(data@.len() as int),
                projs_wf(projects_v@),
                repo_views(repos_v@) == spec_run(s.skip(data@.len() as int)).repos,
                proj_views(projects_v@) == spec_run(s.skip(data@.len() as int)).projects,
            decreases data@.len(),
        {
            let ghost m = data@.len() as int;
            let popped = data.pop_last();
            match popped {
                Some(repo) => {
                    proof {
                        assert(repo@ == s[m - 1]);
                        assert(data@ =~= s.take(m - 1));
                        assert(s.skip(m - 1).first() == s[m - 1]);
                        assert(s.skip(m - 1).drop_first() =~= s.skip(m));
                    }
                    place_one(&mut repos_v, &mut projects_v, repo);
                    proof {
                        assert(spec_run(s.skip(m - 1)) == spec_place(spec_run(s.skip(m)), s[m - 1]));
                    }
                },
                None => {},
            }
        }
        proof {
            assert(data@.len() == 0);
            assert(s.skip(0) =~= s);
        }
        let ghost st = spec_run(s);
        let n = projects_v.len();
        let mut kept: Vec<Project> = Vec::new();
        let mut checks: Vec<(String, Vec<String>)> = Vec::new();
        let mut i: usize = 0;
        proof {
            assert(st.projects.take(0) =~= Seq::<ProjectView>::empty());
            assert(proj_views(kept@) =~= Seq::<ProjectView>::empty());
            assert(check_views(checks@) =~= Seq::<(Seq<char>, Seq<Seq<char>>)>::empty());
            assert(spec_collapse(st.repos, st.projects.take(0)).repos == st.repos);
        }
        while i < n
            invariant
                i <= n,
                n == projects_v@.len(),
                n == st.projects.len(),
                projs_wf(kept@),
                forall|j: int| i <= j < n ==> (#[trigger] projects_v@[j])@ == st.projects[j],
                forall|j: int| i <= j < n ==> (#[trigger] projects_v@[j]).wf(),
                repo_views(repos_v@) == spec_collapse(st.repos, st.projects.take(i as int)).repos,
                proj_views(kept@) == spec_collapse(st.repos, st.projects.take(i as int)).projects,
                check_views(checks@) == spec_dissolved_checks(st.projects.take(i as int)),
            decreases n - i,
        {
            proof {
                assert(st.projects.take(i + 1).drop_last() =~= st.projects.take(i as int));
                assert(st.projects.take(i + 1).last() == st.projects[i as int]);
            }
            let ghost pvs_pre = projects_v@;
            let mut tmp = dummy_project();
            projects_v.set_and_swap(i, &mut tmp);
            let p = tmp;
            proof {
                assert(p@ == st.projects[i as int]);
                assert(p.wf());
                assert(forall|j: int| i < j < n ==> (#[trigger] projects_v@[j]) == pvs_pre[j]);
            }
            let ghost pv = p@;
            let ghost kept_pre = proj_views(kept@);
            let ghost checks_pre = check_views(checks@);
            if p.is_single() {
                match p.children_to_check() {
                    Some(urls) => {
                        let ghost uv = urls.deep_view();
                        let nm = p.name.clone();
                        checks.push((nm, urls));
                        proof {
                            assert(check_views(checks@) =~~= checks_pre.push((pv.name, uv)));
                        }
                    },
                    None => {},
                }
                match p.get_single() {
                    Some(m) => {
                        proof {
                            assert(m@ == single_member(pv));
                        }
                        repo_vec_insert(&mut repos_v, m);
                    },
                    None => {},
                }
            } else {
                kept.push(p);
                proof {
                    assert(proj_views(kept@) =~= kept_pre.push(pv));
                }
            }
            i = i + 1;
        }
        proof {
            assert(st.projects.take(n as int) =~= st.projects);
        }
        let r = ExpandedRepoCache {
            repos: RepoMap { items: repos_v },
            projects: ProjectMap { items: kept },
            dissolved_children: checks,
        };
        proof {
            assert(r.wf()) by {
                assert(forall|k: int|
                    0 <= k < r.projects@.len() ==> r.projects@[k] == (#[trigger] kept@[k])@);
            }
        }
        r
    }
}

/// A project holds an identity: as its main or among its subs.
pub open spec fn proj_has_uid(p: ProjectView, u: Seq<char>) -> bool {
    (p.main is Some && p.main->0.uid == u) || has_uid(p.subs, u)
}

/// A sound project: ordered, identity-unique subs; a main that carries
/// details and does not reappear among the subs.
pub open spec fn proj_wf_v(p: ProjectView) -> bool {
    &&& crate::repo_set::repo_sorted(p.subs)
    &&& crate::repo_set::unique_uids(p.subs)
    &&& (p.main is Some ==> p.main->0.details is Some && !has_uid(p.subs, p.main->0.uid))
}

/// A sound aggregation state: identity-unique flat records, name-unique and
/// sound projects, and no identity held in two places.
pub open spec fn state_wf(st: AggState) -> bool {
    &&& crate::repo_set::unique_uids(st.repos)
    &&& (forall|k1: int, k2: int|
        0 <= k1 < k2 < st.projects.len() ==> (#[trigger] st.projects[k1]).name
            != (#[trigger] st.projects[k2]).name)
    &&& (forall|k: int| 0 <= k < st.projects.len() ==> proj_wf_v(#[trigger] st.projects[k]))
    &&& (forall|k: int, u: Seq<char>|
        0 <= k < st.projects.len() && #[trigger] proj_has_uid(st.projects[k], u) ==> !has_uid(
            st.repos,
            u,
        ))
    &&& (forall|k1: int, k2: int, u: Seq<char>|
        0 <= k1 < k2 < st.projects.len() ==> !(#[trigger] proj_has_uid(st.projects[k1], u)
            && #[trigger] proj_has_uid(st.projects[k2], u)))
}

/// The state holds an identity somewhere: flat, or inside some project.
pub open spec fn state_has_uid(st: AggState, u: Seq<char>) -> bool {
    has_uid(st.repos, u) || exists|k: int|
        0 <= k < st.projects.len() && #[trigger] proj_has_uid(st.projects[k], u)
}

/// Appending a fresh identity to the flat records keeps them unique and
/// grows the identity set by exactly that identity.
proof fn lemma_repos_push_fresh(rs: Seq<RepoView>, r: RepoView)
    requires
        crate::repo_set::unique_uids(rs),
        !has_uid(rs, r.uid),
    ensures
        crate::repo_set::unique_uids(rs.push(r)),
        forall|u: Seq<char>| has_uid(rs.push(r), u) <==> has_uid(rs, u) || u == r.uid,
        repos_insert(rs, r) == rs.push(r),
{
    let ins = rs.push(r);
    assert(crate::repo_set::unique_uids(ins)) by {
        assert forall|p: int, q: int| 0 <= p < q < ins.len() implies (#[trigger] ins[p]).uid != (
        #[trigger] ins[q]).uid by {
            if q == ins.len() - 1 {
                assert(ins[p] == rs[p]);
                if rs[p].uid == r.uid {
                    assert(has_uid(rs, r.uid));
                }
            } else {
                assert(ins[p] == rs[p] && ins[q] == rs[q]);
            }
        }
    }
    assert forall|u: Seq<char>| has_uid(ins, u) <==> has_uid(rs, u) || u == r.uid by {
        if has_uid(ins, u) {
            let p = choose|p: int| 0 <= p < ins.len() && (#[trigger] ins[p]).uid == u;
            if p < rs.len() {
                assert(rs[p].uid == u);
            }
        }
        if has_uid(rs, u) {
            let p = choose|p: int| 0 <= p < rs.len() && (#[trigger] rs[p]).uid == u;
            assert(ins[p].uid == u);
        }
        if u == r.uid {
            assert(ins[ins.len() - 1].uid == u);
        }
    }
}

/// What one placement does to a sound state: it stays sound, and the held
/// identities grow by exactly the placed record's identity.
proof fn lemma_place_partition(st: AggState, r: RepoView)
    requires
        state_wf(st),
        !state_has_uid(st, r.uid),
    ensures
        state_wf(spec_place(st, r)),
        forall|u: Seq<char>|
            state_has_uid(spec_place(st, r), u) <==> state_has_uid(st, u) || u == r.uid,
        spec_place(st, r).projects.len() >= st.projects.len(),
{
    let post = spec_place(st, r);
    if r.details is None || r.details->0.project is None {
        assert(!has_uid(st.repos, r.uid));
        lemma_repos_push_fresh(st.repos, r);
        assert(post.repos == st.repos.push(r));
        assert(post.projects == st.projects);
        assert(state_wf(post)) by {
            assert forall|k: int, u: Seq<char>|
                0 <= k < post.projects.len() && #[trigger] proj_has_uid(post.projects[k], u)
                    implies !has_uid(post.repos, u) by {
                assert(!has_uid(st.repos, u));
                if u == r.uid {
                    assert(state_has_uid(st, u));
                }
            }
        }
        assert forall|u: Seq<char>|
            state_has_uid(post, u) <==> state_has_uid(st, u) || u == r.uid by {}
    } else {
        let d = r.details->0;
        let pn = d.project->0;
        let is_main0 = d.main is Some || pn == repo_name_of(r, d);
        let proj0 = if has_name(st.projects, pn) {
            st.projects[proj_idx(st.projects, pn)]
        } else {
            fresh_project(pn)
        };
        let idx = proj_idx(st.projects, pn);
        if has_name(st.projects, pn) {
            lemma_proj_idx_in_range(st.projects, pn);
            assert(proj_wf_v(proj0));
            assert(!proj_has_uid(proj0, r.uid)) by {
                if proj_has_uid(proj0, r.uid) {
                    assert(state_has_uid(st, r.uid));
                }
            }
        }
        let step = (if is_main0 && proj0.main is Some {
            match proj0.main->0.details {
                Some(exd) => if exd.main is Some {
                    (false, proj0)
                } else {
                    (
                        true,
                        ProjectView {
                            main: None,
                            subs: spec_set_insert(proj0.subs, proj0.main->0),
                            ..proj0
                        },
                    )
                },
                None => (true, proj0),
            }
        } else {
            (is_main0, proj0)
        });
        let proj2 = (if step.0 {
            ProjectView { description: d.description, main: Some(r), ..step.1 }
        } else {
            ProjectView { subs: spec_set_insert(step.1.subs, r), ..step.1 }
        });
        // soundness of the touched project, and its member growth
        assert(proj_wf_v(proj0)) by {
            if !has_name(st.projects, pn) {
            }
        }
        if is_main0 && proj0.main is Some && proj0.main->0.details is Some && !(proj0.main->0.details->0.main is Some) {
            crate::repo_set::lemma_set_insert_props(proj0.subs, proj0.main->0);
        }
        assert(proj_wf_v(step.1));
        assert(forall|u: Seq<char>|
            proj_has_uid(step.1, u) <==> proj_has_uid(proj0, u)) by {
            if is_main0 && proj0.main is Some && proj0.main->0.details is Some && !(proj0.main->0.details->0.main is Some) {
                assert forall|u: Seq<char>|
                    proj_has_uid(step.1, u) <==> proj_has_uid(proj0, u) by {
                    assert(has_uid(step.1.subs, u) <==> has_uid(proj0.subs, u) || u
                        == proj0.main->0.uid);
                }
            }
        }
        if !step.0 {
            crate::repo_set::lemma_set_insert_props(step.1.subs, r);
        }
        assert(proj_wf_v(proj2)) by {
            if step.0 {
                assert(r.details is Some);
                assert(!has_uid(proj2.subs, r.uid)) by {
                    if has_uid(step.1.subs, r.uid) {
                        assert(proj_has_uid(proj0, r.uid));
                        assert(state_has_uid(st, r.uid) || !has_name(st.projects, pn));
                    }
                }
            }
        }
        assert(forall|u: Seq<char>|
            proj_has_uid(proj2, u) <==> proj_has_uid(proj0, u) || u == r.uid) by {
            if step.0 {
                assert(step.1.main is None || step.1.main == proj0.main);
                assert forall|u: Seq<char>|
                    proj_has_uid(proj2, u) <==> proj_has_uid(proj0, u) || u == r.uid by {
                    if step.1.main is Some && is_main0 {
                        assert(proj0.main->0.details is None);
                    }
                }
            } else {
                assert forall|u: Seq<char>|
                    proj_has_uid(proj2, u) <==> proj_has_uid(proj0, u) || u == r.uid by {
                    assert(has_uid(proj2.subs, u) <==> has_uid(step.1.subs, u) || u == r.uid);
                }
            }
        }
        assert(proj2.name == pn);
        // the updated project list
        let ps2 = proj_upsert(st.projects, proj2);
        assert(post.projects == ps2);
        assert(post.repos == st.repos);
        if has_name(st.projects, pn) {
            lemma_proj_idx_in_range(st.projects, pn);
            assert(ps2 == st.projects.update(idx, proj2));
            assert(forall|k: int|
                0 <= k < ps2.len() && k != idx ==> ps2[k] == st.projects[k]);
            assert(ps2[idx] == proj2);
        } else {
            assert(ps2 == st.projects.push(proj2));
            assert(forall|k: int|
                0 <= k < st.projects.len() ==> #[trigger] ps2[k] == st.projects[k]);
            assert(ps2[ps2.len() - 1] == proj2);
        }
        assert(state_wf(post)) by {
            assert forall|k1: int, k2: int|
                0 <= k1 < k2 < ps2.len() implies (#[trigger] ps2[k1]).name != (
            #[trigger] ps2[k2]).name by {
                if has_name(st.projects, pn) {
                } else {
                    if k2 == ps2.len() - 1 {
                        assert(ps2[k1] == st.projects[k1]);
                        if st.projects[k1].name == pn {
                            assert(has_name(st.projects, pn));
                        }
                    }
                }
            }
            assert forall|k: int| 0 <= k < ps2.len() implies proj_wf_v(#[trigger] ps2[k]) by {
            }
            assert forall|k: int, u: Seq<char>|
                0 <= k < ps2.len() && #[trigger] proj_has_uid(ps2[k], u) implies !has_uid(
                st.repos,
                u,
            ) by {
                if (has_name(st.projects, pn) && k == idx) || (!has_name(st.projects, pn) && k
                    == ps2.len() - 1) {
                    if u == r.uid {
                        assert(!state_has_uid(st, u));
                    } else {
                        assert(proj_has_uid(proj0, u));
                        if has_name(st.projects, pn) {
                            assert(proj_has_uid(st.projects[idx], u));
                        }
                    }
                }
            }
            assert forall|k1: int, k2: int, u: Seq<char>|
                0 <= k1 < k2 < ps2.len() implies !(#[trigger] proj_has_uid(ps2[k1], u)
                && #[trigger] proj_has_uid(ps2[k2], u)) by {
                let new_k: int = if has_name(st.projects, pn) {
                    idx
                } else {
                    ps2.len() - 1
                };
                if k1 == new_k || k2 == new_k {
                    let other: int = if k1 == new_k {
                        k2
                    } else {
                        k1
                    };
                    if other < st.projects.len() && proj_has_uid(ps2[other], u) && proj_has_uid(
                        ps2[new_k],
                        u,
                    ) {
                        assert(ps2[other] == st.projects[other]);
                        if u == r.uid {
                            assert(state_has_uid(st, u));
                        } else {
                            assert(proj_has_uid(proj0, u));
                            if has_name(st.projects, pn) {
                                assert(proj_has_uid(st.projects[idx], u));
                                assert(other != idx);
                            } else {
                                assert(proj0 == fresh_project(pn));
                                assert(!proj_has_uid(proj0, u));
                            }
                        }
                    }
                }
            }
        }
        assert forall|u: Seq<char>|
            state_has_uid(post, u) <==> state_has_uid(st, u) || u == r.uid by {
            let new_k: int = if has_name(st.projects, pn) {
                idx
            } else {
                ps2.len() - 1
            };
            if state_has_uid(post, u) && !has_uid(post.repos, u) {
                let k = choose|k: int|
                    0 <= k < ps2.len() && #[trigger] proj_has_uid(ps2[k], u);
                if k == new_k {
                    if u != r.uid {
                        assert(proj_has_uid(proj0, u));
                        if has_name(st.projects, pn) {
                            assert(proj_has_uid(st.projects[idx], u));
                        } else {
                            assert(!proj_has_uid(proj0, u));
                        }
                    }
                } else {
                    assert(ps2[k] == st.projects[k]);
                    assert(proj_has_uid(st.projects[k], u));
                }
            }
            if state_has_uid(st, u) {
                if !has_uid(st.repos, u) {
                    let k = choose|k: int|
                        0 <= k < st.projects.len() && #[trigger] proj_has_uid(st.projects[k], u);
                    if has_name(st.projects, pn) && k == idx {
                        assert(proj_has_uid(proj2, u));
                        assert(proj_has_uid(ps2[new_k], u));
                    } else {
                        assert(ps2[k] == st.projects[k]);
                        assert(proj_has_uid(ps2[k], u));
                    }
                }
            }
            if u == r.uid {
                assert(proj_has_uid(proj2, u));
                assert(proj_has_uid(ps2[new_k], u));
            }
        }
    }
}

/// When a name is present, its position lies within the list and carries it.
proof fn lemma_proj_idx_in_range(ps: Seq<ProjectView>, name: Seq<char>)
    requires
        has_name(ps, name),
    ensures
        0 <= proj_idx(ps, name) < ps.len(),
        ps[proj_idx(ps, name)].name == name,
    decreases ps.len(),
{
    if ps.len() > 0 {
        if ps[0].name == name {
        } else {
            assert(has_name(ps.drop_first(), name)) by {
                let k = choose|k: int| 0 <= k < ps.len() && (#[trigger] ps[k]).name == name;
                assert(ps.drop_first()[k - 1].name == name);
            }
            lemma_proj_idx_in_range(ps.drop_first(), name);
            assert(ps[proj_idx(ps, name)] == ps.drop_first()[proj_idx(ps.drop_first(), name)]);
        }
    }
}

/// Draining a whole identity-unique record sequence yields a sound state
/// whose held identities are exactly the input's.
proof fn lemma_run_partition(s: Seq<RepoView>)
    requires
        crate::repo_set::unique_uids(s),
    ensures
        state_wf(spec_run(s)),
        forall|u: Seq<char>| state_has_uid(spec_run(s), u) <==> has_uid(s, u),
    decreases s.len(),
{
    if s.len() == 0 {
        assert forall|u: Seq<char>| state_has_uid(spec_run(s), u) <==> has_uid(s, u) by {}
    } else {
        let tail = s.drop_first();
        let r = s.first();
        assert(crate::repo_set::unique_uids(tail)) by {
            assert(forall|p: int, q: int|
                0 <= p < q < tail.len() ==> tail[p] == s[p + 1] && tail[q] == s[q + 1]);
        }
        lemma_run_partition(tail);
        assert(!has_uid(tail, r.uid)) by {
            if has_uid(tail, r.uid) {
                let p = choose|p: int| 0 <= p < tail.len() && (#[trigger] tail[p]).uid == r.uid;
                assert(tail[p] == s[p + 1]);
                assert(s[0].uid == s[p + 1].uid);
            }
        }
        lemma_place_partition(spec_run(tail), r);
        assert forall|u: Seq<char>| state_has_uid(spec_run(s), u) <==> has_uid(s, u) by {
            if has_uid(s, u) {
                let p = choose|p: int| 0 <= p < s.len() && (#[trigger] s[p]).uid == u;
                if p > 0 {
                    assert(tail[p - 1].uid == u);
                    assert(has_uid(tail, u));
                }
            }
            if has_uid(tail, u) {
                let p = choose|p: int| 0 <= p < tail.len() && (#[trigger] tail[p]).uid == u;
                assert(s[p + 1].uid == u);
                assert(has_uid(s, u));
            }
            if u == r.uid {
                assert(s[0].uid == u);
                assert(has_uid(s, u));
            }
        }
    }
}

/// A single-member project holds exactly its sole record's identity.
proof fn lemma_single_member_uid(p: ProjectView)
    requires
        proj_wf_v(p),
        member_count(p) == 1,
    ensures
        forall|u: Seq<char>| proj_has_uid(p, u) <==> u == single_member(p).uid,
{
    if p.main is Some {
        assert(p.subs.len() == 0);
        assert forall|u: Seq<char>| proj_has_uid(p, u) <==> u == single_member(p).uid by {
            if has_uid(p.subs, u) {
                let k = choose|k: int| 0 <= k < p.subs.len() && (#[trigger] p.subs[k]).uid == u;
            }
        }
    } else {
        assert(p.subs.len() == 1);
        assert forall|u: Seq<char>| proj_has_uid(p, u) <==> u == single_member(p).uid by {
            if has_uid(p.subs, u) {
                let k = choose|k: int| 0 <= k < p.subs.len() && (#[trigger] p.subs[k]).uid == u;
                assert(k == 0);
            }
            if u == single_member(p).uid {
                assert(p.subs[0].uid == u);
            }
        }
    }
}

/// Dissolving single-member projects keeps the state sound, keeps every
/// held identity exactly once, and leaves only the kept projects, each of
/// which comes from the input list.
proof fn lemma_collapse_partition(rs: Seq<RepoView>, ps: Seq<ProjectView>)
    requires
        state_wf(AggState { repos: rs, projects: ps }),
    ensures
        state_wf(spec_collapse(rs, ps)),
        forall|u: Seq<char>|
            state_has_uid(spec_collapse(rs, ps), u) <==> state_has_uid(
                AggState { repos: rs, projects: ps },
                u,
            ),
        forall|k: int|
            0 <= k < spec_collapse(rs, ps).projects.len() ==> exists|j: int|
                0 <= j < ps.len() && #[trigger] spec_collapse(rs, ps).projects[k] == ps[j],
    decreases ps.len(),
{
    let post = spec_collapse(rs, ps);
    if ps.len() == 0 {
        assert forall|u: Seq<char>|
            state_has_uid(post, u) <==> state_has_uid(AggState { repos: rs, projects: ps }, u) by {}
    } else {
        let front = ps.drop_last();
        let p = ps.last();
        let st_front = AggState { repos: rs, projects: front };
        assert(state_wf(st_front)) by {
            assert(forall|k: int| 0 <= k < front.len() ==> front[k] == ps[k]);
        }
        lemma_collapse_partition(rs, front);
        let prev = spec_collapse(rs, front);
        assert(proj_wf_v(p)) by {
            assert(ps[ps.len() - 1] == p);
        }
        // p's identities are fresh to prev
        assert forall|u: Seq<char>| proj_has_uid(p, u) implies !state_has_uid(prev, u) by {
            assert(proj_has_uid(ps[ps.len() - 1], u));
            assert(!has_uid(rs, u));
            if state_has_uid(prev, u) && !has_uid(prev.repos, u) {
                let k = choose|k: int|
                    0 <= k < prev.projects.len() && #[trigger] proj_has_uid(prev.projects[k], u);
                let j = choose|j: int|
                    0 <= j < front.len() && #[trigger] prev.projects[k] == front[j];
                assert(proj_has_uid(ps[j], u));
            } else if state_has_uid(prev, u) {
                assert(has_uid(prev.repos, u));
                assert(state_has_uid(st_front, u));
                if !has_uid(rs, u) {
                    let k = choose|k: int|
                        0 <= k < front.len() && #[trigger] proj_has_uid(front[k], u);
                    assert(proj_has_uid(ps[k], u));
                }
            }
        }
        if member_count(p) == 1 {
            let m = single_member(p);
            lemma_single_member_uid(p);
            assert(proj_has_uid(p, m.uid)) by {
                if p.main is None {
                    assert(p.subs[p.subs.len() - 1].uid == m.uid);
                }
            }
            assert(!has_uid(prev.repos, m.uid));
            lemma_repos_push_fresh(prev.repos, m);
            assert(post.repos == prev.repos.push(m));
            assert(post.projects == prev.projects);
            assert(state_wf(post)) by {
                assert forall|k: int, u: Seq<char>|
                    0 <= k < post.projects.len() && #[trigger] proj_has_uid(post.projects[k], u)
                        implies !has_uid(post.repos, u) by {
                    assert(!has_uid(prev.repos, u));
                    if u == m.uid {
                        assert(proj_has_uid(p, u));
                        assert(!state_has_uid(prev, u));
                        assert(state_has_uid(prev, u));
                    }
                }
            }
            assert forall|u: Seq<char>|
                state_has_uid(post, u) <==> state_has_uid(
                    AggState { repos: rs, projects: ps },
                    u,
                ) by {
                if state_has_uid(post, u) {
                    if has_uid(post.repos, u) {
                        if u == m.uid {
                            assert(proj_has_uid(ps[ps.len() - 1], u));
                        } else {
                            assert(has_uid(prev.repos, u));
                            assert(state_has_uid(prev, u));
                            assert(state_has_uid(st_front, u));
                        if !has_uid(rs, u) {
                            let kk = choose|kk: int|
                                0 <= kk < front.len() && #[trigger] proj_has_uid(front[kk], u);
                            assert(front[kk] == ps[kk]);
                            assert(proj_has_uid(ps[kk], u));
                        }
                        }
                    } else {
                        assert(state_has_uid(prev, u));
                        assert(state_has_uid(st_front, u));
                        if !has_uid(rs, u) {
                            let kk = choose|kk: int|
                                0 <= kk < front.len() && #[trigger] proj_has_uid(front[kk], u);
                            assert(front[kk] == ps[kk]);
                            assert(proj_has_uid(ps[kk], u));
                        }
                    }
                }
                if state_has_uid(AggState { repos: rs, projects: ps }, u) {
                    if has_uid(rs, u) {
                        assert(state_has_uid(prev, u));
                    } else {
                        let k = choose|k: int|
                            0 <= k < ps.len() && #[trigger] proj_has_uid(ps[k], u);
                        if k == ps.len() - 1 {
                            assert(u == m.uid);
                            assert(has_uid(post.repos, u));
                        } else {
                            assert(front[k] == ps[k]);
                            assert(state_has_uid(st_front, u));
                            assert(state_has_uid(prev, u));
                        }
                    }
                }
            }
        } else {
            assert(post.repos == prev.repos);
            assert(post.projects == prev.projects.push(p));
            assert forall|k: int|
                0 <= k < post.projects.len() implies exists|j: int|
                    0 <= j < ps.len() && #[trigger] post.projects[k] == ps[j] by {
                if k < prev.projects.len() {
                    let j = choose|j: int|
                        0 <= j < front.len() && #[trigger] prev.projects[k] == front[j];
                    assert(post.projects[k] == ps[j]);
                } else {
                    assert(post.projects[k] == ps[ps.len() - 1]);
                }
            }
            assert(state_wf(post)) by {
                let last: int = post.projects.len() - 1;
                assert forall|k1: int, k2: int|
                    0 <= k1 < k2 < post.projects.len() implies (#[trigger] post.projects[k1]).name
                    != (#[trigger] post.projects[k2]).name by {
                    if k2 == last {
                        let j = choose|j: int|
                            0 <= j < front.len() && #[trigger] prev.projects[k1] == front[j];
                        assert(post.projects[k1] == ps[j]);
                        assert(ps[j].name != ps[ps.len() - 1].name);
                    } else {
                        assert(post.projects[k1] == prev.projects[k1]);
                        assert(post.projects[k2] == prev.projects[k2]);
                    }
                }
                assert forall|k: int|
                    0 <= k < post.projects.len() implies proj_wf_v(#[trigger] post.projects[k]) by {
                    if k == last {
                        assert(post.projects[k] == p);
                    } else {
                        assert(post.projects[k] == prev.projects[k]);
                    }
                }
                assert forall|k: int, u: Seq<char>|
                    0 <= k < post.projects.len() && #[trigger] proj_has_uid(post.projects[k], u)
                        implies !has_uid(post.repos, u) by {
                    if k == last {
                        assert(proj_has_uid(p, u));
                        assert(!state_has_uid(prev, u));
                    } else {
                        assert(post.projects[k] == prev.projects[k]);
                    }
                }
                assert forall|k1: int, k2: int, u: Seq<char>|
                    0 <= k1 < k2 < post.projects.len() implies !(#[trigger] proj_has_uid(
                    post.projects[k1],
                    u,
                ) && #[trigger] proj_has_uid(post.projects[k2], u)) by {
                    if k2 == last {
                        if proj_has_uid(post.projects[k1], u) && proj_has_uid(p, u) {
                            assert(post.projects[k1] == prev.projects[k1]);
                            assert(state_has_uid(prev, u));
                            assert(!state_has_uid(prev, u));
                        }
                    } else {
                        assert(post.projects[k1] == prev.projects[k1]);
                        assert(post.projects[k2] == prev.projects[k2]);
                    }
                }
            }
            assert forall|u: Seq<char>|
                state_has_uid(post, u) <==> state_has_uid(
                    AggState { repos: rs, projects: ps },
                    u,
                ) by {
                let last: int = post.projects.len() - 1;
                if state_has_uid(post, u) {
                    if has_uid(post.repos, u) {
                        assert(state_has_uid(prev, u));
                        assert(state_has_uid(st_front, u));
                        if !has_uid(rs, u) {
                            let kk = choose|kk: int|
                                0 <= kk < front.len() && #[trigger] proj_has_uid(front[kk], u);
                            assert(front[kk] == ps[kk]);
                            assert(proj_has_uid(ps[kk], u));
                        }
                    } else {
                        let k = choose|k: int|
                            0 <= k < post.projects.len() && #[trigger] proj_has_uid(
                                post.projects[k],
                                u,
                            );
                        if k == last {
                            assert(proj_has_uid(ps[ps.len() - 1], u));
                        } else {
                            assert(post.projects[k] == prev.projects[k]);
                            assert(state_has_uid(prev, u));
                            assert(state_has_uid(st_front, u));
                        if !has_uid(rs, u) {
                            let kk = choose|kk: int|
                                0 <= kk < front.len() && #[trigger] proj_has_uid(front[kk], u);
                            assert(front[kk] == ps[kk]);
                            assert(proj_has_uid(ps[kk], u));
                        }
                        }
                    }
                }
                if state_has_uid(AggState { repos: rs, projects: ps }, u) {
                    if has_uid(rs, u) {
                        assert(state_has_uid(prev, u));
                        assert(has_uid(prev.repos, u) || !has_uid(prev.repos, u));
                        if has_uid(prev.repos, u) {
                            assert(has_uid(post.repos, u));
                        } else {
                            let k = choose|k: int|
                                0 <= k < prev.projects.len() && #[trigger] proj_has_uid(
                                    prev.projects[k],
                                    u,
                                );
                            assert(proj_has_uid(post.projects[k], u));
                        }
                    } else {
                        let k = choose|k: int|
                            0 <= k < ps.len() && #[trigger] proj_has_uid(ps[k], u);
                        if k == ps.len() - 1 {
                            assert(proj_has_uid(post.projects[last], u));
                        } else {
                            assert(front[k] == ps[k]);
                            assert(state_has_uid(st_front, u));
                            assert(state_has_uid(prev, u));
                            if has_uid(prev.repos, u) {
                                assert(has_uid(post.repos, u));
                            } else {
                                let k2 = choose|k2: int|
                                    0 <= k2 < prev.projects.len() && #[trigger] proj_has_uid(
                                        prev.projects[k2],
                                        u,
                                    );
                                assert(proj_has_uid(post.projects[k2], u));
                            }
                        }
                    }
                }
            }
        }
    }
}

/// Partition law: aggregating an identity-unique record sequence yields a
/// sound view — flat records with unique identities, projects with unique
/// names, no identity held in two places — whose held identities are exactly
/// the input's. Every input record thus ends up in exactly one of the flat
/// map or a single project.
pub proof fn lemma_aggregate_partition(s: Seq<RepoView>)
    requires
        crate::repo_set::unique_uids(s),
    ensures
        state_wf(spec_aggregate(s)),
        forall|u: Seq<char>| state_has_uid(spec_aggregate(s), u) <==> has_uid(s, u),
{
    lemma_run_partition(s);
    let st = spec_run(s);
    lemma_collapse_partition(st.repos, st.projects);
}

/// Degeneracy law: dissolving leaves no project holding exactly one record.
proof fn lemma_collapse_no_single(rs: Seq<RepoView>, ps: Seq<ProjectView>)
    ensures
        forall|k: int|
            0 <= k < spec_collapse(rs, ps).projects.len() ==> member_count(
                #[trigger] spec_collapse(rs, ps).projects[k],
            ) != 1,
    decreases ps.len(),
{
    if ps.len() > 0 {
        lemma_collapse_no_single(rs, ps.drop_last());
        let prev = spec_collapse(rs, ps.drop_last());
        if member_count(ps.last()) != 1 {
            assert(forall|k: int|
                0 <= k < prev.projects.len() ==> #[trigger] spec_collapse(rs, ps).projects[k]
                    == prev.projects[k]);
        }
    }
}

/// Degeneracy law, at the top: no project of the aggregated view holds
/// exactly one record.
pub proof fn lemma_aggregate_no_degenerate(s: Seq<RepoView>)
    ensures
        forall|k: int|
            0 <= k < spec_aggregate(s).projects.len() ==> member_count(
                #[trigger] spec_aggregate(s).projects[k],
            ) != 1,
{
    let st = spec_run(s);
    lemma_collapse_no_single(st.repos, st.projects);
}

/// Determinism law: aggregation is a function of the record sequence alone —
/// no clock, no ordering of arrival, no hidden state. Two runs over equal
/// record sequences yield equal views, so running the aggregator twice on
/// bit-identical input gives bit-identical output.
pub proof fn lemma_aggregate_deterministic(a: Seq<RepoView>, b: Seq<RepoView>)
    requires
        a == b,
    ensures
        spec_aggregate(a) == spec_aggregate(b),
{
}

/// The child URLs a project's main record declares, when it declares any.
pub open spec fn spec_children_urls(p: ProjectView) -> Option<Seq<Seq<char>>> {
    match p.main {
        Some(m) => match m.details {
            Some(d) => match d.children {
                Some(ch) => Some(crate::metadata::spec_extract_urls(
                    crate::metadata::spec_lines(ch),
                )),
                None => None,
            },
            None => None,
        },
        None => None,
    }
}

/// A string occurs in the list.
pub open spec fn seq_has_str(s: Seq<Seq<char>>, x: Seq<char>) -> bool {
    exists|i: int| 0 <= i < s.len() && s[i] == x
}

/// The child URLs that are not among the sub URLs, in order.
pub open spec fn spec_unmatched(subs: Seq<Seq<char>>, childs: Seq<Seq<char>>) -> Seq<Seq<char>>
    decreases childs.len(),
{
    if childs.len() == 0 {
        Seq::<Seq<char>>::empty()
    } else {
        let prev = spec_unmatched(subs, childs.drop_last());
        if seq_has_str(subs, childs.last()) {
            prev
        } else {
            prev.push(childs.last())
        }
    }
}

impl Project {
    /// The child URLs still to be reconciled over the network: when the main
    /// record declares children and the count of URL-like tokens in that
    /// text differs from the sub count, those tokens are handed out for
    /// resolution; when the counts agree, or nothing is declared,
    /// reconciliation is skipped.
    pub fn children_to_check(&self) -> (r: Option<Vec<String>>)
        ensures
            match spec_children_urls(self@) {
                Some(urls) => if urls.len() != self@.subs.len() {
                    r is Some && r->0.deep_view() == urls
                } else {
                    r is None
                },
                None => r is None,
            },
    {
        let ch: &String = match &self.repo_main {
            Some(m) => match &m.details {
                Some(d) => match &d.children {
                    Some(ch) => ch,
                    None => {
                        return None;
                    },
                },
                None => {
                    return None;
                },
            },
            None => {
                return None;
            },
        };
        let urls = crate::metadata::urls_of_text(ch.as_str());
        if urls.len() != self.repo_sub.len() {
            Some(urls)
        } else {
            None
        }
    }
}

/// The resolved child URLs that match no resolved sub URL; each one is a
/// declared child link that points outside the project's subs.
pub fn unmatched_urls(resolved_subs: &Vec<String>, resolved_children: &Vec<String>) -> (r: Vec<
    String,
>)
    ensures
        r.deep_view() == spec_unmatched(resolved_subs.deep_view(), resolved_children.deep_view()),
{
    let ghost sv = resolved_subs.deep_view();
    let ghost cv = resolved_children.deep_view();
    let mut r: Vec<String> = Vec::new();
    let mut i: usize = 0;
    let n = resolved_children.len();
    proof {
        assert(cv.take(0) =~= Seq::<Seq<char>>::empty());
        assert(r.deep_view() =~~= spec_unmatched(sv, cv.take(0)));
    }
    while i < n
        invariant
            i <= n,
            n == resolved_children@.len(),
            sv == resolved_subs.deep_view(),
            cv == resolved_children.deep_view(),
            r.deep_view() == spec_unmatched(sv, cv.take(i as int)),
        decreases n - i,
    {
        let child = &resolved_children[i];
        proof {
            assert(child@ == cv[i as int]);
            assert(cv.take(i + 1).drop_last() =~= cv.take(i as int));
            assert(cv.take(i + 1).last() == cv[i as int]);
        }
        let mut found = false;
        let mut j: usize = 0;
        let m = resolved_subs.len();
        while j < m
            invariant
                j <= m,
                m == resolved_subs@.len(),
                sv == resolved_subs.deep_view(),
                child@ == cv[i as int],
                i < cv.len(),
                found ==> seq_has_str(sv, cv[i as int]),
                !found ==> forall|k: int| 0 <= k < j ==> sv[k] != cv[i as int],
            decreases m - j,
        {
            if str_eq(resolved_subs[j].as_str(), child.as_str()) {
                proof {
                    assert(sv[j as int] == cv[i as int]);
                }
                found = true;
            }
            j = j + 1;
        }
        let ghost r_pre_deep = r.deep_view();
        if !found {
            let c = child.clone();
            r.push(c);
            proof {
                assert(!seq_has_str(sv, cv[i as int]));
                assert(r.deep_view() =~~= r_pre_deep.push(cv[i as int]));
            }
        }
        i = i + 1;
        proof {
            assert(r.deep_view() =~~= spec_unmatched(sv, cv.take(i as int)));
        }
    }
    proof {
        assert(cv.take(n as int) =~= cv);
    }
    r
}

} // verus!
