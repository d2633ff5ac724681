//! The list of recently opened projects: newest first, without repeats,
//! and capped in length.
//!
//! Two entries name the same directory when their paths have the same
//! components, as paths compare; the path itself is kept as it was given.

use vstd::prelude::*;

verus! {

/// How many recent projects are kept.
pub const MAX_RECENT_PROJECTS: usize = 10;

/// A recently opened project directory: its path as given, and the
/// components of that path, by which entries are told apart.
#[derive(Debug)]
pub struct RecentProject {
    pub path: String,
    pub components: Vec<String>,
}

/// What a list entry holds: the path, and the components that name the
/// directory.
pub type Entry = (Seq<char>, Seq<Seq<char>>);

/// The text of each string of `v`.
pub open spec fn texts(v: Seq<String>) -> Seq<Seq<char>> {
    v.map_values(|s: String| s@)
}

impl View for RecentProject {
    type V = Entry;

    open spec fn view(&self) -> Entry {
        (self.path@, texts(self.components@))
    }
}

/// The entries of `v`.
pub open spec fn entries_of(v: Seq<RecentProject>) -> Seq<Entry> {
    v.map_values(|p: RecentProject| p@)
}

/// Whether an entry of `s` names the directory with components `key`.
pub open spec fn has_key(s: Seq<Entry>, key: Seq<Seq<char>>) -> bool {
    exists|i: int| 0 <= i < s.len() && (#[trigger] s[i]).1 == key
}

/// `s` with each directory only where it first appears.
pub open spec fn first_occurrences(s: Seq<Entry>) -> Seq<Entry>
    decreases s.len(),
{
    if s.len() == 0 {
        seq![]
    } else if has_key(s.drop_last(), s.last().1) {
        first_occurrences(s.drop_last())
    } else {
        first_occurrences(s.drop_last()).push(s.last())
    }
}

/// At most the first `MAX_RECENT_PROJECTS` entries.
pub open spec fn capped(s: Seq<Entry>) -> Seq<Entry> {
    if s.len() <= MAX_RECENT_PROJECTS {
        s
    } else {
        s.take(MAX_RECENT_PROJECTS as int)
    }
}

/// The test passed by every entry that names another directory than `key`.
pub open spec fn differs(key: Seq<Seq<char>>) -> spec_fn(Entry) -> bool {
    |e: Entry| e.1 != key
}

/// The list with `e` moved (or added) to the front.
pub open spec fn pushed(s: Seq<Entry>, e: Entry) -> Seq<Entry> {
    capped(seq![e] + s.filter(differs(e.1)))
}

/// No directory appears twice.
pub open spec fn no_repeats(s: Seq<Entry>) -> bool {
    forall|i: int, j: int| 0 <= i < j < s.len() ==> s[i].1 != s[j].1
}

proof fn lemma_first_occurrences(s: Seq<Entry>)
    ensures
        no_repeats(first_occurrences(s)),
        forall|k: Seq<Seq<char>>| #[trigger] has_key(first_occurrences(s), k) <==> has_key(s, k),
    decreases s.len(),
{
    if s.len() > 0 {
        let d = s.drop_last();
        lemma_first_occurrences(d);
        assert forall|k: Seq<Seq<char>>| #[trigger] has_key(s, k) <==> (has_key(d, k) || k == s.last().1) by {
            if has_key(s, k) {
                let i = choose|i: int| 0 <= i < s.len() && (#[trigger] s[i]).1 == k;
                if i < s.len() - 1 {
                    assert(d[i] == s[i]);
                }
            }
            if has_key(d, k) {
                let i = choose|i: int| 0 <= i < d.len() && (#[trigger] d[i]).1 == k;
                assert(s[i] == d[i]);
            }
            if k == s.last().1 {
                assert(s[s.len() - 1] == s.last());
            }
        }
        let f = first_occurrences(d);
        if !has_key(d, s.last().1) {
            let g = f.push(s.last());
            assert forall|k: Seq<Seq<char>>| #[trigger] has_key(g, k) <==> (has_key(f, k) || k == s.last().1) by {
                if has_key(g, k) {
                    let i = choose|i: int| 0 <= i < g.len() && (#[trigger] g[i]).1 == k;
                    if i < f.len() {
                        assert(f[i] == g[i]);
                    }
                }
                if has_key(f, k) {
                    let i = choose|i: int| 0 <= i < f.len() && (#[trigger] f[i]).1 == k;
                    assert(g[i] == f[i]);
                }
                if k == s.last().1 {
                    assert(g[g.len() - 1] == s.last());
                }
            }
            assert forall|i: int, j: int| 0 <= i < j < g.len() implies g[i].1 != g[j].1 by {
                if j == g.len() - 1 {
                    assert(g[i] == f[i]);
                    assert(has_key(f, f[i].1));
                }
            }
        }
    }
}

proof fn lemma_capped_no_repeats(s: Seq<Entry>)
    requires
        no_repeats(s),
    ensures
        no_repeats(capped(s)),
        capped(s).len() <= MAX_RECENT_PROJECTS,
{
    let c = capped(s);
    assert forall|i: int, j: int| 0 <= i < j < c.len() implies c[i].1 != c[j].1 by {
        assert(c[i] == s[i] && c[j] == s[j]);
    }
}

/// Whether two paths have the same components.
fn same_components(a: &Vec<String>, b: &Vec<String>) -> (r: bool)
    ensures
        r == (texts(a@) == texts(b@)),
{
    if a.len() != b.len() {
        assert(texts(a@).len() != texts(b@).len());
        return false;
    }
    let n = a.len();
    let mut i: usize = 0;
    while i < n
        invariant
            n == a@.len(),
            n == b@.len(),
            i <= n,
            forall|j: int| 0 <= j < i ==> a@[j]@ == b@[j]@,
        decreases n - i,
    {
        if a[i] != b[i] {
            assert(texts(a@)[i as int] != texts(b@)[i as int]);
            return false;
        }
        i = i + 1;
    }
    assert(texts(a@) =~= texts(b@));
    true
}

/// A copy of the strings of `v`.
fn copy_strings(v: &Vec<String>) -> (r: Vec<String>)
    ensures
        texts(r@) == texts(v@),
{
    let mut r: Vec<String> = Vec::new();
    let n = v.len();
    let mut i: usize = 0;
    while i < n
        invariant
            n == v@.len(),
            i <= n,
            texts(r@) == texts(v@.take(i as int)),
        decreases n - i,
    {
        r.push(v[i].clone());
        assert(texts(v@.take(i + 1)) == texts(v@.take(i as int)).push(v@[i as int]@));
        i = i + 1;
    }
    assert(v@.take(n as int) == v@);
    r
}

/// A copy of a project entry.
fn copy_project(p: &RecentProject) -> (r: RecentProject)
    ensures
        r@ == p@,
{
    RecentProject { path: p.path.clone(), components: copy_strings(&p.components) }
}

/// Whether an entry of `list` has the components `key`.
fn has_components(list: &Vec<RecentProject>, key: &Vec<String>) -> (r: bool)
    ensures
        r == has_key(entries_of(list@), texts(key@)),
{
    let ghost es = entries_of(list@);
    let n = list.len();
    let mut i: usize = 0;
    while i < n
        invariant
            n == list@.len(),
            es == entries_of(list@),
            i <= n,
            forall|j: int| 0 <= j < i ==> (#[trigger] es[j]).1 != texts(key@),
        decreases n - i,
    {
        if same_components(&list[i].components, key) {
            assert(es[i as int].1 == texts(key@));
            return true;
        }
        i = i + 1;
    }
    assert forall|j: int| 0 <= j < es.len() implies (#[trigger] es[j]).1 != texts(key@) by {}
    false
}

/// Recently opened project directories, newest first.
#[derive(Debug)]
pub struct RecentProjects {
    projects: Vec<RecentProject>,
}

impl RecentProjects {
    /// The projects, newest first.
    pub closed spec fn entries(self) -> Seq<Entry> {
        entries_of(self.projects@)
    }

    /// No directory appears twice and there are at most
    /// `MAX_RECENT_PROJECTS`.
    pub open spec fn wf(self) -> bool {
        &&& no_repeats(self.entries())
        &&& self.entries().len() <= MAX_RECENT_PROJECTS
    }

    /// No recent projects.
    pub fn new() -> (r: Self)
        ensures
            r.entries() == Seq::<Entry>::empty(),
            r.wf(),
    {
        let r = RecentProjects { projects: Vec::new() };
        assert(r.entries() =~= Seq::<Entry>::empty());
        r
    }

    /// The list as stored: each directory where it first appears, at most
    /// `MAX_RECENT_PROJECTS` of them.
    pub fn from_entries(entries: Vec<RecentProject>) -> (r: Self)
        ensures
            r.entries() == capped(first_occurrences(entries_of(entries@))),
            r.wf(),
    {
        let ghost all = entries_of(entries@);
        let mut projects: Vec<RecentProject> = Vec::new();
        let n = entries.len();
        let mut i: usize = 0;
        while i < n
            invariant
                n == entries@.len(),
                all == entries_of(entries@),
                i <= n,
                entries_of(projects@) == first_occurrences(all.take(i as int)),
            decreases n - i,
        {
            let e = &entries[i];
            let ghost before = entries_of(projects@);
            proof {
                lemma_first_occurrences(all.take(i as int));
                assert(all.take(i + 1).drop_last() == all.take(i as int));
                assert(all.take(i + 1).last() == e@);
            }
            if !has_components(&projects, &e.components) {
                projects.push(copy_project(e));
                assert(entries_of(projects@) =~= before.push(e@));
            }
            i = i + 1;
        }
        assert(all.take(n as int) == all);
        proof {
            lemma_first_occurrences(all);
            lemma_capped_no_repeats(first_occurrences(all));
        }
        if projects.len() > MAX_RECENT_PROJECTS {
            projects.truncate(MAX_RECENT_PROJECTS);
        }
        let r = RecentProjects { projects };
        assert(r.entries() =~= capped(first_occurrences(all)));
        r
    }

    /// Open `project`: it moves (or is added) to the front, and the oldest
    /// project drops off when the list is full.
    pub fn push(&mut self, project: RecentProject)
        requires
            old(self).wf(),
        ensures
            final(self).entries() == pushed(old(self).entries(), project@),
            final(self).wf(),
    {
        let ghost old_entries = self.entries();
        let ghost e = project@;
        let ghost keep = differs(e.1);
        let mut kept: Vec<RecentProject> = Vec::new();
        let n = self.projects.len();
        let mut i: usize = 0;
        proof {
            reveal(Seq::filter);
            assert(old_entries.take(0).filter(keep) =~= Seq::<Entry>::empty());
        }
        kept.push(project);
        assert(entries_of(kept@) =~= seq![e]);
        while i < n
            invariant
                n == self.projects@.len(),
                old_entries == entries_of(self.projects@),
                kept@.len() > 0,
                kept@[0]@ == e,
                keep == differs(e.1),
                i <= n,
                entries_of(kept@) == seq![e] + old_entries.take(i as int).filter(keep),
            decreases n - i,
        {
            let ghost before = entries_of(kept@);
            proof {
                reveal(Seq::filter);
                assert(old_entries.take(i + 1).drop_last() == old_entries.take(i as int));
                assert(old_entries.take(i + 1).last() == self.projects@[i as int]@);
            }
            if !same_components(&self.projects[i].components, &kept[0].components) {
                kept.push(copy_project(&self.projects[i]));
                assert(entries_of(kept@) =~= before.push(self.projects@[i as int]@));
            }
            i = i + 1;
        }
        assert(old_entries.take(n as int) == old_entries);
        let ghost joined = seq![e] + old_entries.filter(keep);
        proof {
            assert(no_repeats(joined)) by {
                let f = old_entries.filter(keep);
                assert forall|i: int, j: int| 0 <= i < j < joined.len() implies joined[i].1 != joined[j].1 by {
                    if i == 0 {
                        assert(joined[j] == f[j - 1]);
                        old_entries.lemma_filter_pred(keep, j - 1);
                    } else {
                        assert(joined[i] == f[i - 1] && joined[j] == f[j - 1]);
                        lemma_filter_no_repeats(old_entries, keep);
                    }
                }
            }
            lemma_capped_no_repeats(joined);
        }
        if kept.len() > MAX_RECENT_PROJECTS {
            kept.truncate(MAX_RECENT_PROJECTS);
        }
        self.projects = kept;
        assert(self.entries() =~= capped(joined));
    }

    /// The paths of the projects, newest first.
    pub fn paths(&self) -> (r: Vec<String>)
        ensures
            r@.map_values(|p: String| p@) == self.entries().map_values(|e: Entry| e.0),
    {
        let ghost es = self.entries();
        let mut r: Vec<String> = Vec::new();
        let n = self.projects.len();
        let mut i: usize = 0;
        while i < n
            invariant
                n == self.projects@.len(),
                es == entries_of(self.projects@),
                i <= n,
                r@.map_values(|p: String| p@) == es.take(i as int).map_values(|e: Entry| e.0),
            decreases n - i,
        {
            r.push(self.projects[i].path.clone());
            assert(es.take(i + 1).map_values(|e: Entry| e.0) == es.take(i as int).map_values(|e: Entry| e.0).push(
                es[i as int].0,
            ));
            i = i + 1;
        }
        assert(es.take(n as int) == es);
        r
    }
}

/// Keeping only some entries of a list without repeats leaves no repeats.
proof fn lemma_filter_no_repeats(s: Seq<Entry>, keep: spec_fn(Entry) -> bool)
    requires
        no_repeats(s),
    ensures
        no_repeats(s.filter(keep)),
    decreases s.len(),
{
    reveal(Seq::filter);
    if s.len() > 0 {
        let d = s.drop_last();
        assert forall|i: int, j: int| 0 <= i < j < d.len() implies d[i].1 != d[j].1 by {
            assert(d[i] == s[i] && d[j] == s[j]);
        }
        lemma_filter_no_repeats(d, keep);
        let f = d.filter(keep);
        if keep(s.last()) {
            let g = f.push(s.last());
            assert forall|i: int, j: int| 0 <= i < j < g.len() implies g[i].1 != g[j].1 by {
                if j == g.len() - 1 {
                    assert(g[i] == f[i]);
                    assert(f.contains(f[i]));
                    d.lemma_filter_contains_rev(keep, f[i]);
                    let k = choose|k: int| 0 <= k < d.len() && d[k] == f[i];
                    assert(s[k] == d[k]);
                    assert(s[k].1 != s[s.len() - 1].1);
                }
            }
        }
    }
}

/// Opening the newest project again changes nothing.
pub proof fn lemma_push_again(s: Seq<Entry>, e: Entry)
    requires
        no_repeats(s),
        s.len() <= MAX_RECENT_PROJECTS,
    ensures
        pushed(pushed(s, e), e) == pushed(s, e),
{
    let keep = differs(e.1);
    let once = pushed(s, e);
    let joined = seq![e] + s.filter(keep);
    assert(once.len() >= 1 && once.len() <= joined.len());
    assert(forall|i: int| 0 <= i < once.len() ==> once[i] == joined[i]);
    assert(once[0] == e);
    assert forall|i: int| 1 <= i < once.len() implies #[trigger] keep(once[i]) by {
        assert(once[i] == joined[i]);
        assert(joined[i] == s.filter(keep)[i - 1]);
        s.lemma_filter_pred(keep, i - 1);
    }
    lemma_filter_skip_head(once, keep);
    assert(seq![e] + once.skip(1) =~= once);
}

/// Filtering a list whose head fails the test and whose tail passes it
/// leaves the tail.
proof fn lemma_filter_skip_head(s: Seq<Entry>, keep: spec_fn(Entry) -> bool)
    requires
        s.len() >= 1,
        !keep(s[0]),
        forall|i: int| 1 <= i < s.len() ==> #[trigger] keep(s[i]),
    ensures
        s.filter(keep) == s.skip(1),
    decreases s.len(),
{
    reveal(Seq::filter);
    if s.len() == 1 {
        assert(s.drop_last().filter(keep) =~= Seq::<Entry>::empty()) by {
            assert(s.drop_last() =~= Seq::<Entry>::empty());
        }
        assert(s.skip(1) =~= Seq::<Entry>::empty());
    } else {
        let d = s.drop_last();
        assert forall|i: int| 1 <= i < d.len() implies #[trigger] keep(d[i]) by {
            assert(d[i] == s[i]);
        }
        lemma_filter_skip_head(d, keep);
        assert(keep(s[s.len() - 1]));
        assert(s.skip(1) =~= d.skip(1).push(s.last()));
    }
}

} // verus!
