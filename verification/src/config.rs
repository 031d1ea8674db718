//! Configuration data: workspaces, their clone settings, and their declared
//! dependency maps. Reading and parsing the configuration file is the
//! caller's business; this module owns the data and the decisions made from
//! it.

use vstd::prelude::*;
use vstd::string::StringExecFns;

use crate::graph::DepsMap;

verus! {

/// How repositories of a workspace are cloned.
#[derive(Clone, Copy, PartialEq, Eq, Structural)]
pub enum CloneMethod {
    Ssh,
    Https,
}

/// One workspace: a named collection of repositories under a base
/// directory.
pub struct Workspace {
    /// Workspace name; doubles as the hosting organisation when `org` is
    /// not set.
    pub name: String,
    /// Hosting provider identifier.
    pub provider: String,
    /// Base directory holding the working trees; may start with a tilde.
    pub base_dir: String,
    /// How missing repositories are cloned.
    pub clone_method: CloneMethod,
    /// Whether to discover repositories from the hosting provider.
    pub discover: bool,
    /// Hosting organisation, when it differs from the workspace name.
    pub org: Option<String>,
    /// Repository names never synced.
    pub exclude: Vec<String>,
    /// Repository names always synced, beside the discovered ones.
    pub extra_repos: Vec<String>,
    /// Declared dependency names per repository, for update propagation.
    pub flake_deps: DepsMap,
}

/// The whole configuration.
pub struct Config {
    pub workspaces: Vec<Workspace>,
}

/// Options of the periodic daemon loop.
pub struct DaemonOpts {
    /// Configuration file path, when not the default.
    pub config: Option<String>,
    /// Restrict work to the workspace of this name.
    pub workspace: Option<String>,
    /// Seconds between cycles.
    pub interval: u64,
    /// Whether to fetch existing repositories each cycle.
    pub fetch: bool,
    /// Suppress per-repository output.
    pub quiet: bool,
}

/// The provider assumed when the configuration names none.
pub fn default_provider() -> (r: String)
    ensures
        r@ == "github"@,
{
    "github".to_owned()
}

/// The clone method assumed when the configuration names none.
pub fn default_clone_method() -> (r: CloneMethod)
    ensures
        r == CloneMethod::Ssh,
{
    CloneMethod::Ssh
}

/// The clone URL for `repo` under organisation `org` with `method`.
pub open spec fn clone_url_spec(method: CloneMethod, org: Seq<char>, repo: Seq<char>) -> Seq<char> {
    match method {
        CloneMethod::Ssh => "git@github.com:"@ + org + "/"@ + repo + ".git"@,
        CloneMethod::Https => "https://github.com/"@ + org + "/"@ + repo + ".git"@,
    }
}

/// Relies on shellexpand::tilde: an input that does not start with a tilde
/// is returned unchanged; a leading tilde is replaced by the user's home
/// directory where one is known.
#[verifier::external_body]
fn expand_tilde(s: &String) -> (r: String)
    ensures
        s@.len() > 0 && s@[0] != '~' ==> r@ == s@,
        s@.len() == 0 ==> r@ == s@,
{
    shellexpand::tilde(s.as_str()).into_owned()
}

impl Workspace {
    /// The organisation repositories are cloned from.
    pub open spec fn org_name(self) -> Seq<char> {
        match self.org {
            Some(o) => o@,
            None => self.name@,
        }
    }

    /// The workspace's base directory, with a leading tilde expanded to the
    /// user's home directory by the shell-expansion library; anything else
    /// is returned as written.
    pub fn resolved_base_dir(&self) -> (r: String)
        ensures
            self.base_dir@.len() > 0 && self.base_dir@[0] != '~' ==> r@ == self.base_dir@,
            self.base_dir@.len() == 0 ==> r@ == self.base_dir@,
    {
        expand_tilde(&self.base_dir)
    }

    /// Build the clone URL for a repository name.
    pub fn clone_url(&self, repo_name: &str) -> (r: String)
        ensures
            r@ == clone_url_spec(self.clone_method, self.org_name(), repo_name@),
    {
        let org: &String = match &self.org {
            Some(o) => o,
            None => &self.name,
        };
        let mut s: String = match self.clone_method {
            CloneMethod::Ssh => "git@github.com:".to_owned(),
            CloneMethod::Https => "https://github.com/".to_owned(),
        };
        s.append(org.as_str());
        s.append("/");
        s.append(repo_name);
        s.append(".git");
        s
    }
}

/// The predicate a workspace must meet to pass the name filter.
pub open spec fn ws_name_pred(filter: Option<Seq<char>>) -> spec_fn(Workspace) -> bool {
    |w: Workspace|
        match filter {
            Some(n) => w.name@ == n,
            None => true,
        }
}

/// The workspaces selected by an optional name filter, in configuration
/// order: all of them without a filter, exactly the like-named ones with
/// one.
pub fn filter_workspaces<'a>(workspaces: &'a Vec<Workspace>, filter: Option<&String>) -> (r: Vec<
    &'a Workspace,
>)
    ensures
        r@.map_values(|w: &Workspace| *w) == workspaces@.filter(
            ws_name_pred(
                match filter {
                    Some(f) => Some(f@),
                    None => None,
                },
            ),
        ),
{
    let ghost fv: Option<Seq<char>> = match filter {
        Some(f) => Some(f@),
        None => None,
    };
    let ghost pred = ws_name_pred(fv);
    let mut r: Vec<&'a Workspace> = Vec::new();
    let mut i: usize = 0;
    while i < workspaces.len()
        invariant
            i <= workspaces@.len(),
            pred == ws_name_pred(fv),
            fv == (match filter {
                Some(f) => Some(f@),
                None => None,
            }),
            r@.map_values(|w: &Workspace| *w) == workspaces@.take(i as int).filter(pred),
        decreases workspaces@.len() - i,
    {
        let keep: bool = match filter {
            Some(f) => workspaces[i].name == *f,
            None => true,
        };
        let ghost r0 = r@.map_values(|w: &Workspace| *w);
        proof {
            assert(keep == pred(workspaces@[i as int]));
            assert(workspaces@.take(i + 1).drop_last() =~= workspaces@.take(i as int));
            assert(workspaces@.take(i + 1) =~= workspaces@.take(i as int).push(
                workspaces@[i as int],
            ));
            workspaces@.take(i as int).lemma_filter_push(workspaces@[i as int], pred);
        }
        if keep {
            r.push(&workspaces[i]);
            proof {
                assert(r@.map_values(|w: &Workspace| *w) =~= r0.push(workspaces@[i as int]));
            }
        }
        i += 1;
    }
    proof {
        assert(workspaces@.take(workspaces@.len() as int) =~= workspaces@);
    }
    r
}

/// The starter configuration offered to a new installation: one workspace
/// with discovery on, cloning over SSH, and the provider's meta repository
/// excluded.
pub fn starter_config() -> (c: Config)
    ensures
        c.workspaces@.len() == 1,
        c.workspaces@[0].name@ == "my-org"@,
        c.workspaces@[0].provider@ == "github"@,
        c.workspaces@[0].base_dir@ == "~/code/github/my-org"@,
        c.workspaces@[0].clone_method == CloneMethod::Ssh,
        c.workspaces@[0].discover,
        c.workspaces@[0].org matches Some(o) && o@ == "my-org"@,
        c.workspaces@[0].exclude@.len() == 1 && c.workspaces@[0].exclude@[0]@ == ".github"@,
        c.workspaces@[0].extra_repos@.len() == 0,
        c.workspaces@[0].flake_deps.entries@.len() == 0,
{
    let mut exclude: Vec<String> = Vec::new();
    exclude.push(".github".to_owned());
    let mut workspaces: Vec<Workspace> = Vec::new();
    workspaces.push(
        Workspace {
            name: "my-org".to_owned(),
            provider: "github".to_owned(),
            base_dir: "~/code/github/my-org".to_owned(),
            clone_method: CloneMethod::Ssh,
            discover: true,
            org: Some("my-org".to_owned()),
            exclude,
            extra_repos: Vec::new(),
            flake_deps: DepsMap { entries: Vec::new() },
        },
    );
    Config { workspaces }
}

} // verus!
