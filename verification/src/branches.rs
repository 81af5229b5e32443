//! Branch names and the commits they point at.

use crate::commit::Commit;
use crate::text::{same_text, starts_with, strip_prefix};
use vstd::prelude::*;
use vstd::string::*;

verus! {

/// A list of names with `name` added at its end, unless it holds it already.
pub open spec fn with_name(list: Seq<Seq<char>>, name: Seq<char>) -> Seq<Seq<char>> {
    if list.contains(name) {
        list
    } else {
        list.push(name)
    }
}

/// Mathematical model of the branches of a run: every name as it was
/// added, the tips in the order in which they first came up, and for each tip
/// the names that point at it.
pub struct LabelsModel {
    pub names: Seq<Seq<char>>,
    pub tips: Seq<Seq<char>>,
    pub labels: Seq<Seq<Seq<char>>>,
}

impl LabelsModel {
    /// No branches.
    pub open spec fn empty() -> LabelsModel {
        LabelsModel { names: Seq::empty(), tips: Seq::empty(), labels: Seq::empty() }
    }

    /// No tip comes twice, and each has its names, every name once.
    pub open spec fn wf(self) -> bool {
        &&& self.tips.no_duplicates()
        &&& self.labels.len() == self.tips.len()
        &&& forall|t: int|
            0 <= t < self.labels.len() ==> (#[trigger] self.labels[t]).no_duplicates()
                && self.labels[t].len() > 0
    }

    /// The names that point at `id`, if any does.
    pub open spec fn names_of(self, id: Seq<char>) -> Option<Seq<Seq<char>>> {
        if self.tips.contains(id) {
            Some(self.labels[self.tips.index_of(id)])
        } else {
            None
        }
    }

    /// The branches with one more: `name`, which points at `id`.
    pub open spec fn with_branch(self, id: Seq<char>, name: Seq<char>) -> LabelsModel {
        if self.tips.contains(id) {
            let t = self.tips.index_of(id);
            LabelsModel {
                names: self.names.push(name),
                tips: self.tips,
                labels: self.labels.update(t, with_name(self.labels[t], name)),
            }
        } else {
            LabelsModel {
                names: self.names.push(name),
                tips: self.tips.push(id),
                labels: self.labels.push(seq![name]),
            }
        }
    }
}

/// The name of the branch that a local branch tracks, where remote branches
/// are followed and the branch's configuration names a remote and a branch
/// under `refs/heads/` to merge from: the remote, a slash, and that branch.
/// Branches that are not local (`dir` other than `heads`) track nothing.
pub open spec fn tracking_name(
    dir: Seq<char>,
    follow: bool,
    remote: Option<Seq<char>>,
    merge: Option<Seq<char>>,
) -> Option<Seq<char>> {
    if dir == "heads"@ && follow && remote is Some && merge is Some && starts_with(
        merge->0,
        "refs/heads/"@,
    ) {
        Some(
            remote->0 + "/"@ + merge->0.subrange(
                "refs/heads/"@.len() as int,
                merge->0.len() as int,
            ),
        )
    } else {
        None
    }
}

/// The text that an optional string holds.
pub open spec fn text_of(text: Option<&str>) -> Option<Seq<char>> {
    match text {
        Some(t) => Some(t@),
        None => None,
    }
}

/// The text that an optional owned string holds.
pub open spec fn owned_text_of(text: Option<String>) -> Option<Seq<char>> {
    match text {
        Some(t) => Some(t@),
        None => None,
    }
}

/// The remote-tracking branch to add after the branch whose configuration
/// holds `remote` and `merge`.
pub fn tracking_branch(dir: &str, follow: bool, remote: Option<&str>, merge: Option<&str>) -> (name:
    Option<String>)
    ensures
        owned_text_of(name) == tracking_name(dir@, follow, text_of(remote), text_of(merge)),
{
    if !same_text(dir, "heads") || !follow {
        return None;
    }
    match remote {
        None => None,
        Some(remote) => match merge {
            None => None,
            Some(merge) => match strip_prefix(merge, "refs/heads/") {
                None => None,
                Some(branch) => {
                    let mut name = remote.to_owned();
                    name.append("/");
                    name.append(branch.as_str());
                    Some(name)
                },
            },
        },
    }
}

/// The branch that a section of the configuration is about: the
/// subsection's name, where the section is called `branch` and has one.
pub fn branch_of_section(section: &str, subsection: Option<&str>) -> (branch: Option<String>)
    ensures
        owned_text_of(branch) == if section@ == "branch"@ {
            text_of(subsection)
        } else {
            None
        },
{
    if !same_text(section, "branch") {
        return None;
    }
    match subsection {
        None => None,
        Some(name) => Some(name.to_owned()),
    }
}

/// The branches of a run. Its view is a `LabelsModel`.
pub struct BranchLabels {
    names: Vec<String>,
    tips: Vec<Commit>,
    labels: Vec<Vec<String>>,
}

impl View for BranchLabels {
    type V = LabelsModel;

    closed spec fn view(&self) -> LabelsModel {
        LabelsModel {
            names: Seq::new(self.names.len() as nat, |k: int| self.names[k]@),
            tips: Seq::new(self.tips.len() as nat, |t: int| self.tips[t]@),
            labels: Seq::new(
                self.labels.len() as nat,
                |t: int| Seq::new(self.labels[t].len() as nat, |k: int| self.labels[t][k]@),
            ),
        }
    }
}

impl BranchLabels {
    /// No branches.
    pub fn new() -> (labels: BranchLabels)
        ensures
            labels@ == LabelsModel::empty(),
            labels@.wf(),
    {
        let labels = BranchLabels { names: Vec::new(), tips: Vec::new(), labels: Vec::new() };
        proof {
            assert(labels@.names =~= Seq::<Seq<char>>::empty());
            assert(labels@.tips =~= Seq::<Seq<char>>::empty());
            assert(labels@.labels =~= Seq::<Seq<Seq<char>>>::empty());
        }
        labels
    }

    /// Whether no branch has been added.
    pub fn is_empty(&self) -> (none: bool)
        ensures
            none == (self@.names.len() == 0),
    {
        self.names.len() == 0
    }

    /// Number of tips.
    pub fn len(&self) -> (n: usize)
        ensures
            n == self@.tips.len(),
    {
        self.tips.len()
    }

    /// The place of `commit` among the tips.
    fn find(&self, commit: &Commit) -> (at: Option<usize>)
        requires
            self@.wf(),
        ensures
            at is Some <==> self@.tips.contains(commit@),
            at matches Some(t) ==> t == self@.tips.index_of(commit@) && t < self@.tips.len(),
    {
        let mut t: usize = 0;
        while t < self.tips.len()
            invariant
                t <= self.tips.len(),
                self@.wf(),
                forall|u: int| 0 <= u < t ==> self@.tips[u] != commit@,
            decreases self.tips.len() - t,
        {
            if self.tips[t] == *commit {
                proof {
                    assert(self@.tips[t as int] == commit@);
                    let u = self@.tips.index_of(commit@);
                    assert(0 <= u < self@.tips.len() && self@.tips[u] == commit@);
                }
                return Some(t);
            }
            t += 1;
        }
        None
    }

    /// Adds the branch `name`, which points at `id`.
    pub fn add_branch(&mut self, id: Commit, name: String)
        requires
            old(self)@.wf(),
        ensures
            final(self)@ == old(self)@.with_branch(id@, name@),
            final(self)@.wf(),
    {
        let ghost before = self@;
        self.names.push(name.clone());
        match self.find(&id) {
            Some(t) => {
                let mut known = false;
                let mut k: usize = 0;
                while k < self.labels[t].len()
                    invariant
                        t < self.labels.len(),
                        k <= self.labels[t as int].len(),
                        known <==> exists|j: int| 0 <= j < k && self.labels[t as int][j]@ == name@,
                    decreases self.labels[t as int].len() - k,
                {
                    if self.labels[t][k] == name {
                        known = true;
                    }
                    k += 1;
                }
                proof {
                    if known {
                        let j = choose|j: int| 0 <= j < k && self.labels[t as int][j]@ == name@;
                        assert(before.labels[t as int][j] == name@);
                    }
                    if before.labels[t as int].contains(name@) {
                        let j = choose|j: int|
                            0 <= j < before.labels[t as int].len() && before.labels[t as int][j]
                                == name@;
                        assert(self.labels[t as int][j]@ == name@);
                    }
                }
                if !known {
                    self.labels[t].push(name);
                }
                proof {
                    assert(self@.names =~= before.names.push(name@));
                    assert(self@.tips =~= before.tips);
                    assert(self@.labels =~~= before.labels.update(
                        t as int,
                        with_name(before.labels[t as int], name@),
                    ));
                    assert forall|u: int| 0 <= u < self@.labels.len() implies (
                    #[trigger] self@.labels[u]).no_duplicates() && self@.labels[u].len() > 0 by {
                        if u != t {
                            assert(self@.labels[u] == before.labels[u]);
                        }
                    }
                }
            },
            None => {
                let mut list: Vec<String> = Vec::new();
                list.push(name);
                self.tips.push(id);
                self.labels.push(list);
                proof {
                    assert(self@.names =~= before.names.push(name@));
                    assert(self@.tips =~= before.tips.push(id@));
                    assert(self@.labels =~~= before.labels.push(seq![name@]));
                    assert forall|u: int| 0 <= u < self@.labels.len() implies (
                    #[trigger] self@.labels[u]).no_duplicates() && self@.labels[u].len() > 0 by {
                        if u < before.labels.len() {
                            assert(self@.labels[u] == before.labels[u]);
                        }
                    }
                }
            },
        }
    }

    /// The tips, in the order in which they first came up.
    pub fn tips(&self) -> (tips: &Vec<Commit>)
        ensures
            tips.len() == self@.tips.len(),
            forall|t: int| 0 <= t < tips.len() ==> (#[trigger] tips[t])@ == self@.tips[t],
    {
        &self.tips
    }

    /// Every branch name, in the order in which it was added.
    pub fn branch_names(&self) -> (names: &Vec<String>)
        ensures
            names.len() == self@.names.len(),
            forall|k: int| 0 <= k < names.len() ==> (#[trigger] names[k])@ == self@.names[k],
    {
        &self.names
    }

    /// The names of the branches that point at `commit`, if any does.
    pub fn names_of(&self, commit: &Commit) -> (found: Option<&Vec<String>>)
        requires
            self@.wf(),
        ensures
            found is Some <==> self@.names_of(commit@) is Some,
            found matches Some(list) ==> list.len() == self@.names_of(commit@)->0.len()
                && forall|k: int|
                0 <= k < list.len() ==> (#[trigger] list[k])@ == self@.names_of(commit@)->0[k],
    {
        match self.find(commit) {
            Some(t) => Some(&self.labels[t]),
            None => None,
        }
    }
}

} // verus!
