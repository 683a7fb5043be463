//! What a run is asked to do: the branches, the message filters and the flags.
use vstd::prelude::*;
use crate::error::RipitError;
use crate::patterns::{compile_set, set_compiles, Filters};
use crate::text::views;

verus! {

/// A branch to synchronize.
pub struct Branch {
    /// Name of the branch, `master` for instance.
    pub name: String,
    /// Full name of the local reference, `refs/heads/<name>`.
    pub refname: String,
}

/// `refs/heads/`.
pub open spec fn heads_prefix() -> Seq<char> {
    seq!['r', 'e', 'f', 's', '/', 'h', 'e', 'a', 'd', 's', '/']
}

impl Branch {
    /// The branch `name`, with its local reference under `refs/heads/`.
    pub fn new(name: String) -> (r: Branch)
        ensures
            r.name@ == name@,
            r.refname@ == heads_prefix() + name@,
    {
        let mut refname = String::from_str("refs/heads/");
        proof { reveal_strlit("refs/heads/"); }
        refname.append(name.as_str());
        Branch { name, refname }
    }
}

/// The settings of a run.
pub struct Options {
    /// Path to the local repository.
    pub repo: String,
    /// Name of the remote to synchronize from.
    pub remote: String,
    /// Branches to synchronize, in order.
    pub branches: Vec<Branch>,
    /// A line of a commit message that one of the configured patterns
    /// matches whole is dropped; these are those patterns, anchored.
    pub commit_msg_filters: Filters,
    pub bootstrap: bool,
    pub uproot: bool,
    pub verbose: bool,
    pub yes: bool,
    pub fetch: bool,
}

/// The configuration file's contents.
pub struct Config {
    pub repo: Option<String>,
    pub remote: String,
    /// Single branch, kept for older configuration files.
    pub branch: Option<String>,
    pub branches: Option<Vec<String>>,
    /// Patterns; a message line that one of them matches whole is dropped.
    pub filters: Option<Vec<String>>,
}

/// The command-line switches.
pub struct Flags {
    pub bootstrap: bool,
    pub uproot: bool,
    pub quiet: bool,
    pub yes: bool,
    pub no_fetch: bool,
}

pub open spec fn master() -> Seq<char> {
    seq!['m', 'a', 's', 't', 'e', 'r']
}

/// The branch names a configuration selects: its `branches` when that list
/// is present and not empty, else its `branch`, else `master`.
pub open spec fn branch_names(cfg: Config) -> Seq<Seq<char>> {
    let listed = match cfg.branches {
        Some(bs) => views(bs@),
        None => Seq::<Seq<char>>::empty(),
    };
    if listed.len() > 0 {
        listed
    } else {
        match cfg.branch {
            Some(b) => seq![b@],
            None => seq![master()],
        }
    }
}

/// `p` made to match a whole line only: `^(?:p)$`.
pub open spec fn anchored(p: Seq<char>) -> Seq<char> {
    seq!['^', '(', '?', ':'] + p + seq![')', '$']
}

pub open spec fn anchored_all(ps: Seq<Seq<char>>) -> Seq<Seq<char>> {
    ps.map_values(|p: Seq<char>| anchored(p))
}

pub open spec fn filter_patterns(cfg: Config) -> Seq<Seq<char>> {
    match cfg.filters {
        Some(fs) => views(fs@),
        None => Seq::<Seq<char>>::empty(),
    }
}

pub open spec fn repo_path(cfg: Config) -> Seq<char> {
    match cfg.repo {
        Some(r) => r@,
        None => seq!['.'],
    }
}

fn anchor(p: &String) -> (r: String)
    ensures
        r@ == anchored(p@),
{
    let mut out = String::from_str("^(?:");
    proof { reveal_strlit("^(?:"); }
    out.append(p.as_str());
    out.append(")$");
    proof {
        reveal_strlit(")$");
        assert(out@ =~= anchored(p@));
    }
    out
}

fn anchor_all(ps: &Vec<String>) -> (r: Vec<String>)
    ensures
        views(r@) == anchored_all(views(ps@)),
{
    let mut out: Vec<String> = Vec::new();
    let mut i: usize = 0;
    while i < ps.len()
        invariant
            i <= ps.len(),
            views(out@) == anchored_all(views(ps@)).subrange(0, i as int),
        decreases ps.len() - i,
    {
        let a = anchor(&ps[i]);
        let ghost before = out@;
        out.push(a);
        assert(views(out@) =~= anchored_all(views(ps@)).subrange(0, i as int + 1)) by {
            assert(out@ == before.push(a));
            assert(views(out@) =~= views(before).push(a@));
            assert(views(ps@)[i as int] == ps@[i as int]@);
            assert(anchored_all(views(ps@))[i as int] == anchored(ps@[i as int]@));
        }
        i = i + 1;
    }
    assert(anchored_all(views(ps@)).subrange(0, i as int) =~= anchored_all(views(ps@)));
    out
}

fn branches_of(names: &Vec<String>) -> (r: Vec<Branch>)
    ensures
        r@.len() == names@.len(),
        forall|i: int|
            0 <= i < names@.len() ==> (#[trigger] r@[i]).name@ == names@[i]@ && r@[i].refname@
                == heads_prefix() + names@[i]@,
{
    let mut out: Vec<Branch> = Vec::new();
    let mut i: usize = 0;
    while i < names.len()
        invariant
            i <= names.len(),
            out@.len() == i,
            forall|k: int|
                0 <= k < i ==> (#[trigger] out@[k]).name@ == names@[k]@ && out@[k].refname@
                    == heads_prefix() + names@[k]@,
        decreases names.len() - i,
    {
        out.push(Branch::new(names[i].clone()));
        i = i + 1;
    }
    out
}

/// Turns the configuration and the switches into the settings of a run.
/// Fails with `InvalidConfig` for the field `filter` exactly when the
/// configured filter patterns do not compile as given, or do not compile
/// once each is anchored to match whole lines only (`^(?:p)$`).
pub fn build_options(cfg: Config, flags: Flags) -> (r: Result<Options, RipitError>)
    ensures
        r is Err <==> !set_compiles(filter_patterns(cfg)) || !set_compiles(
            anchored_all(filter_patterns(cfg)),
        ),
        r matches Err(e) ==> e matches RipitError::InvalidConfig { field } && field@ == seq![
            'f',
            'i',
            'l',
            't',
            'e',
            'r',
        ],
        r matches Ok(o) ==> {
            &&& o.repo@ == repo_path(cfg)
            &&& o.remote@ == cfg.remote@
            &&& o.branches@.len() == branch_names(cfg).len()
            &&& forall|i: int|
                0 <= i < o.branches@.len() ==> (#[trigger] o.branches@[i]).name@ == branch_names(
                    cfg,
                )[i] && o.branches@[i].refname@ == heads_prefix() + branch_names(cfg)[i]
            &&& o.commit_msg_filters.patterns() == anchored_all(filter_patterns(cfg))
            &&& o.bootstrap == flags.bootstrap
            &&& o.uproot == flags.uproot
            &&& o.verbose == !flags.quiet
            &&& o.yes == flags.yes
            &&& o.fetch == !flags.no_fetch
        },
{
    let ghost c = cfg;
    let Config { repo, remote, branch, branches, filters } = cfg;
    let mut names: Vec<String> = match branches {
        Some(bs) => bs,
        None => Vec::new(),
    };
    if names.len() == 0 {
        assert(views(names@) =~= Seq::<Seq<char>>::empty());
        let b = match branch {
            Some(b) => b,
            None => {
                proof { reveal_strlit("master"); }
                let m = String::from_str("master");
                assert(m@ =~= master());
                m
            },
        };
        let ghost bv = b@;
        assert(seq![bv] == branch_names(c));
        names.push(b);
        assert(views(names@) =~= seq![bv]);
    } else {
        assert(c.branches == Some(names));
        assert(views(names@) =~= branch_names(c));
    }
    let filters = match filters {
        Some(fs) => fs,
        None => Vec::new(),
    };
    assert(views(filters@) =~= filter_patterns(c));
    let anchored_filters = anchor_all(&filters);
    let valid = match compile_set(&filters) {
        Ok(_) => true,
        Err(_) => false,
    };
    let compiled = if valid {
        match Filters::compile(anchored_filters) {
            Ok(f) => Some(f),
            Err(_) => None,
        }
    } else {
        None
    };
    let set = match compiled {
        Some(s) => s,
        None => {
            proof { reveal_strlit("filter"); }
            let field = String::from_str("filter");
            assert(field@ =~= seq!['f', 'i', 'l', 't', 'e', 'r']);
            return Err(RipitError::InvalidConfig { field });
        },
    };
    let repo = match repo {
        Some(r) => r,
        None => {
            proof { reveal_strlit("."); }
            let dot = String::from_str(".");
            assert(dot@ =~= seq!['.']);
            dot
        },
    };
    let branches = branches_of(&names);
    Ok(
        Options {
            repo,
            remote,
            branches,
            commit_msg_filters: set,
            bootstrap: flags.bootstrap,
            uproot: flags.uproot,
            verbose: !flags.quiet,
            yes: flags.yes,
            fetch: !flags.no_fetch,
        },
    )
}

} // verus!
