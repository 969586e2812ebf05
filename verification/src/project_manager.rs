//! Listing of project directories and the addresses of their repositories.
use vstd::prelude::*;

use crate::text::{append, chars_of, contains, contains_chars, string_from};

verus! {

/// The paths among `paths` that contain `search`, in order.
pub open spec fn matching(paths: Seq<Seq<char>>, search: Seq<char>) -> Seq<Seq<char>>
    decreases paths.len(),
{
    if paths.len() == 0 {
        Seq::empty()
    } else if contains(paths.last(), search) {
        matching(paths.drop_last(), search).push(paths.last())
    } else {
        matching(paths.drop_last(), search)
    }
}

/// The listed paths are exactly the paths that contain the search text: each
/// listed path is one of the paths and contains it, and each path that
/// contains it is listed.
pub proof fn lemma_matching(paths: Seq<Seq<char>>, search: Seq<char>)
    ensures
        matching(paths, search).len() <= paths.len(),
        forall|i: int|
            0 <= i < matching(paths, search).len() ==> contains(
                #[trigger] matching(paths, search)[i],
                search,
            ) && paths.contains(matching(paths, search)[i]),
        forall|i: int|
            0 <= i < paths.len() && contains(#[trigger] paths[i], search) ==> matching(
                paths,
                search,
            ).contains(paths[i]),
    decreases paths.len(),
{
    if paths.len() > 0 {
        let prev = paths.drop_last();
        lemma_matching(prev, search);
        let m0 = matching(prev, search);
        let m = matching(paths, search);
        assert forall|i: int| 0 <= i < m.len() implies contains(#[trigger] m[i], search)
            && paths.contains(m[i]) by {
            if i < m0.len() {
                assert(m[i] == m0[i]);
                let j = choose|j: int| 0 <= j < prev.len() && prev[j] == m0[i];
                assert(paths[j] == prev[j]);
            } else {
                assert(m[i] == paths.last());
                assert(paths[paths.len() - 1] == paths.last());
            }
        }
        assert forall|i: int| 0 <= i < paths.len() && contains(#[trigger] paths[i], search)
            implies m.contains(paths[i]) by {
            if i < paths.len() - 1 {
                assert(prev[i] == paths[i]);
                let j = choose|j: int| 0 <= j < m0.len() && m0[j] == prev[i];
                assert(m[j] == m0[j]);
            } else {
                assert(m[m.len() - 1] == paths[i]);
            }
        }
    }
}

/// The address of the GitHub repository `repo` of `owner`.
pub open spec fn repository_address(owner: Seq<char>, repo: Seq<char>) -> Seq<char> {
    "https://github.com/"@ + owner + seq!['/'] + repo
}

/// The entries of a project directory that `ls` lists for `search`: those
/// whose path contains it.
pub fn matching_paths(paths: &Vec<String>, search: &str) -> (listed: Vec<String>)
    ensures
        listed.deep_view() == matching(paths.deep_view(), search@),
{
    let wanted = chars_of(search);
    let mut listed: Vec<String> = Vec::new();
    let mut i: usize = 0;
    assert(paths.deep_view().take(0) =~= Seq::<Seq<char>>::empty());
    assert(listed.deep_view() =~= Seq::<Seq<char>>::empty());
    while i < paths.len()
        invariant
            i <= paths.len(),
            wanted@ == search@,
            listed.deep_view() == matching(paths.deep_view().take(i as int), search@),
        decreases paths.len() - i,
    {
        let path = chars_of(paths[i].as_str());
        let ghost before = listed.deep_view();
        assert(paths.deep_view().take(i + 1).drop_last() =~= paths.deep_view().take(i as int));
        assert(paths.deep_view().take(i + 1).last() == paths@[i as int]@);
        if contains_chars(&path, &wanted) {
            let found = string_from(&path);
            listed.push(found);
            assert(listed.deep_view() =~= before.push(path@));
        }
        i += 1;
    }
    assert(paths.deep_view().take(i as int) =~= paths.deep_view());
    listed
}

/// Whether the entry `path` of a project directory is listed for `search`:
/// whether it contains it.
pub fn path_matches(path: &str, search: &str) -> (r: bool)
    ensures
        r == contains(path@, search@),
{
    contains_chars(&chars_of(path), &chars_of(search))
}

/// The address of the GitHub repository `repo` of `owner`.
pub fn repository_url(owner: &str, repo: &str) -> (url: String)
    ensures
        url@ == repository_address(owner@, repo@),
{
    let mut out = chars_of("https://github.com/");
    append(&mut out, &chars_of(owner));
    out.push('/');
    append(&mut out, &chars_of(repo));
    assert(out@ =~= repository_address(owner@, repo@));
    string_from(&out)
}

/// The commands of the project manager.
pub enum PrjCommands {
    /// Lists the entries of the projects directory that contain `search`.
    Ls { search: String },
    /// Removes the repository `repo` of `owner`.
    Rm { owner: String, repo: String },
    /// Adds the repository `repo` of `owner`.
    Add { owner: String, repo: String },
}

/// The arguments of the project manager: the projects directory and the
/// command.
pub struct Cli {
    pub dir: String,
    pub command: PrjCommands,
}

/// What a run of the project manager does.
pub enum Step {
    /// Read the directory `dir` and log its entries that contain `search`.
    ListMatching { dir: String, search: String },
    /// Nothing more than working out the repository's address `url`.
    Repository { url: String },
}

/// The step that `cli` asks for: `ls` lists the projects directory; `rm` and
/// `add` work out the repository address and stop there.
pub fn run(cli: &Cli) -> (step: Step)
    ensures
        match cli.command {
            PrjCommands::Ls { search } => step matches Step::ListMatching { dir, search: s }
                && dir@ == cli.dir@ && s@ == search@,
            PrjCommands::Rm { owner, repo } => step matches Step::Repository { url } && url@
                == repository_address(owner@, repo@),
            PrjCommands::Add { owner, repo } => step matches Step::Repository { url } && url@
                == repository_address(owner@, repo@),
        },
{
    match &cli.command {
        PrjCommands::Ls { search } => Step::ListMatching {
            dir: cli.dir.clone(),
            search: search.clone(),
        },
        PrjCommands::Rm { owner, repo } => Step::Repository {
            url: repository_url(owner.as_str(), repo.as_str()),
        },
        PrjCommands::Add { owner, repo } => Step::Repository {
            url: repository_url(owner.as_str(), repo.as_str()),
        },
    }
}

} // verus!
