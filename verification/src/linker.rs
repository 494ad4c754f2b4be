//! Links: which files of a keg show up in the prefix, who owns which path
//! of the prefix, and what is undone when linking fails half way.
//!
//! The prefix mirrors a keg below `Cellar/<name>/<version>`. Unless the
//! formula is keg-only, the files below its `bin`, `sbin`, `lib`, `include`,
//! `share`, `etc`, `var`, `Frameworks` and `opt` also show up at the same
//! place directly below the prefix, as links into the Cellar. A path of the
//! prefix has one owner at most.

use vstd::prelude::*;
use vstd::string::*;
use crate::errors::Error;
use crate::paths::{join, join_path};
use crate::store::{find_key, key_position, lemma_push_distinct};
use crate::text::{chars_of, find_char, first_index, has_prefix, same_chars};

verus! {

/// The directories of a keg whose files are linked into the prefix.
pub open spec fn linked_dir_names() -> Seq<Seq<char>> {
    seq![
        "bin"@,
        "sbin"@,
        "lib"@,
        "include"@,
        "share"@,
        "etc"@,
        "var"@,
        "Frameworks"@,
        "opt"@,
    ]
}

/// The directories of a keg whose files are linked into the prefix.
pub fn linked_dirs() -> (dirs: Vec<String>)
    ensures
        dirs.deep_view() == linked_dir_names(),
{
    let mut dirs: Vec<String> = Vec::new();
    dirs.push(String::from_str("bin"));
    dirs.push(String::from_str("sbin"));
    dirs.push(String::from_str("lib"));
    dirs.push(String::from_str("include"));
    dirs.push(String::from_str("share"));
    dirs.push(String::from_str("etc"));
    dirs.push(String::from_str("var"));
    dirs.push(String::from_str("Frameworks"));
    dirs.push(String::from_str("opt"));
    assert(dirs.deep_view() =~= linked_dir_names());
    dirs
}

/// Whether the file `file` of a keg, given relative to the keg, is linked
/// into the prefix: it lies below one of the linked directories.
pub open spec fn is_linked(file: Seq<char>) -> bool {
    first_index(file, '/') < file.len() && linked_dir_names().contains(
        file.take(first_index(file, '/')),
    )
}

/// Whether the file `file` of a keg is linked into the prefix.
pub fn is_linked_file(file: &str) -> (b: bool)
    ensures
        b == is_linked(file@),
{
    let chars = chars_of(file);
    let n = chars.len();
    assert(chars@.subrange(0, n as int) =~= chars@);
    let slash = find_char(&chars, 0, n, '/');
    if slash >= n {
        return false;
    }
    let top = file.substring_char(0, slash);
    assert(top@ =~= file@.take(slash as int));
    let dirs = linked_dirs();
    find_key(&dirs, top) < dirs.len()
}

/// Where the keg of a formula is mirrored in the prefix.
pub fn cellar_path(prefix: &str, name: &str, version: &str) -> (path: String)
    ensures
        path@ == join_path(join_path(join_path(prefix@, "Cellar"@), name@), version@),
{
    let cellar = join(prefix, "Cellar");
    let of_name = join(cellar.as_str(), name);
    join(of_name.as_str(), version)
}

/// A link in the prefix and the file in the Cellar that it leads to.
#[derive(Debug, PartialEq, Eq)]
pub struct LinkTarget {
    pub path: String,
    pub source: String,
}

/// The links for the first `upto` of `files`: one for each file that is
/// linked, from its place below `prefix` to its place below `cellar`.
pub open spec fn targets_spec(
    prefix: Seq<char>,
    cellar: Seq<char>,
    files: Seq<Seq<char>>,
    upto: int,
) -> Seq<(Seq<char>, Seq<char>)>
    decreases upto,
{
    if upto <= 0 {
        Seq::empty()
    } else if is_linked(files[upto - 1]) {
        targets_spec(prefix, cellar, files, upto - 1).push(
            (join_path(prefix, files[upto - 1]), join_path(cellar, files[upto - 1])),
        )
    } else {
        targets_spec(prefix, cellar, files, upto - 1)
    }
}

/// The paths and sources of `targets`.
pub open spec fn target_views(targets: Seq<LinkTarget>) -> Seq<(Seq<char>, Seq<char>)> {
    Seq::new(targets.len(), |i: int| (targets[i].path@, targets[i].source@))
}

/// The links that expose the files `files` of the keg of `name` in
/// `version`: none for a keg-only formula.
pub fn link_targets(
    prefix: &str,
    name: &str,
    version: &str,
    files: &Vec<String>,
    keg_only: bool,
) -> (targets: Vec<LinkTarget>)
    ensures
        keg_only ==> targets.len() == 0,
        !keg_only ==> target_views(targets@) == targets_spec(
            prefix@,
            join_path(join_path(join_path(prefix@, "Cellar"@), name@), version@),
            files.deep_view(),
            files.len() as int,
        ),
{
    let mut targets: Vec<LinkTarget> = Vec::new();
    if keg_only {
        return targets;
    }
    let cellar = cellar_path(prefix, name, version);
    let ghost all = files.deep_view();
    let mut i: usize = 0;
    assert(target_views(targets@) =~= targets_spec(prefix@, cellar@, all, 0));
    while i < files.len()
        invariant
            i <= files.len(),
            all == files.deep_view(),
            target_views(targets@) == targets_spec(prefix@, cellar@, all, i as int),
        decreases files.len() - i,
    {
        let ghost have = target_views(targets@);
        let file = files[i].as_str();
        assert(all[i as int] == file@);
        if is_linked_file(file) {
            let target = LinkTarget { path: join(prefix, file), source: join(cellar.as_str(), file) };
            targets.push(target);
            assert(target_views(targets@) =~= have.push((target.path@, target.source@)));
        }
        i = i + 1;
    }
    targets
}

/// The links to remove when the link at `failed_at` of `created` could not
/// be made: those made before it, the last first.
pub open spec fn undo_spec(created: Seq<Seq<char>>, failed_at: int) -> Seq<Seq<char>> {
    Seq::new(
        (if 0 <= failed_at <= created.len() {
            failed_at
        } else {
            created.len() as int
        }) as nat,
        |x: int|
            created[(if 0 <= failed_at <= created.len() {
                failed_at
            } else {
                created.len() as int
            }) - 1 - x],
    )
}

/// The links to remove when the link at `failed_at` of `created` could not
/// be made: those made before it, the last first.
pub fn undo_link(created: &Vec<String>, failed_at: usize) -> (undo: Vec<String>)
    ensures
        undo.deep_view() == undo_spec(created.deep_view(), failed_at as int),
{
    let made = if failed_at <= created.len() {
        failed_at
    } else {
        created.len()
    };
    let mut undo: Vec<String> = Vec::new();
    let mut x: usize = 0;
    while x < made
        invariant
            x <= made <= created.len(),
            undo.len() == x,
            forall|y: int| 0 <= y < x ==> (#[trigger] undo@[y])@ == created@[made - 1 - y]@,
        decreases made - x,
    {
        undo.push(created[made - 1 - x].clone());
        x = x + 1;
    }
    assert(undo.deep_view() =~= undo_spec(created.deep_view(), failed_at as int));
    undo
}

/// When linking fails at a link, undoing leaves none of the links that
/// were made before it: a directory that held none of the links holds,
/// after the first of them were made and what `undo_spec` lists was removed,
/// what it held before.
pub proof fn lemma_rollback_leaves_nothing(
    before: Set<Seq<char>>,
    created: Seq<Seq<char>>,
    failed_at: int,
)
    requires
        0 <= failed_at <= created.len(),
        forall|x: int| 0 <= x < created.len() ==> !before.contains(#[trigger] created[x]),
    ensures
        before.union(created.take(failed_at).to_set()).difference(
            undo_spec(created, failed_at).to_set(),
        ) == before,
        forall|x: int|
            0 <= x < failed_at ==> !before.union(created.take(failed_at).to_set()).difference(
                undo_spec(created, failed_at).to_set(),
            ).contains(#[trigger] created[x]),
{
    let made = created.take(failed_at);
    let undo = undo_spec(created, failed_at);
    assert forall|p: Seq<char>| made.to_set().contains(p) <==> undo.to_set().contains(p) by {
        if made.to_set().contains(p) {
            let x = choose|x: int| 0 <= x < made.len() && made[x] == p;
            assert(undo[failed_at - 1 - x] == p);
        }
        if undo.to_set().contains(p) {
            let y = choose|y: int| 0 <= y < undo.len() && undo[y] == p;
            assert(made[failed_at - 1 - y] == p);
        }
    }
    let after = before.union(made.to_set()).difference(undo.to_set());
    assert forall|p: Seq<char>| after.contains(p) <==> before.contains(p) by {
        if before.contains(p) && undo.to_set().contains(p) {
            let y = choose|y: int| 0 <= y < undo.len() && undo[y] == p;
            assert(created[failed_at - 1 - y] == p);
        }
    }
    assert(after =~= before);
}

/// What lies at a path of the prefix.
#[derive(Debug, PartialEq, Eq)]
pub enum Occupant {
    /// Nothing lies there.
    Nothing,
    /// A link lies there, which leads to this path.
    LinkTo(String),
    /// Something else lies there: a file or a directory.
    Other,
}

/// Where the links of the formula `name` lead: below its entry in the
/// Cellar of `prefix`.
pub open spec fn own_cellar(prefix: Seq<char>, name: Seq<char>) -> Seq<char> {
    join_path(join_path(prefix, "Cellar"@), name) + "/"@
}

/// Whether what lies at a path stands in the way of a link of the formula
/// `name`: anything but a link into the formula's own entry in the Cellar.
pub open spec fn in_the_way(occupant: Occupant, prefix: Seq<char>, name: Seq<char>) -> bool {
    match occupant {
        Occupant::Nothing => false,
        Occupant::LinkTo(to) => !own_cellar(prefix, name).is_prefix_of(to@),
        Occupant::Other => true,
    }
}

/// Those of the first `upto` of `targets` at which something stands in the
/// way, in order. `occupants` says for each target what lies there; a
/// target that it says nothing of counts as free.
pub open spec fn foreign_spec(
    targets: Seq<Seq<char>>,
    occupants: Seq<Occupant>,
    prefix: Seq<char>,
    name: Seq<char>,
    upto: int,
) -> Seq<Seq<char>>
    decreases upto,
{
    if upto <= 0 {
        Seq::empty()
    } else if upto <= occupants.len() && in_the_way(occupants[upto - 1], prefix, name) {
        foreign_spec(targets, occupants, prefix, name, upto - 1).push(targets[upto - 1])
    } else {
        foreign_spec(targets, occupants, prefix, name, upto - 1)
    }
}

/// Whether what lies at a path stands in the way of a link of the formula
/// `name`.
pub fn is_in_the_way(occupant: &Occupant, prefix: &str, name: &str) -> (b: bool)
    ensures
        b == in_the_way(*occupant, prefix@, name@),
{
    match occupant {
        Occupant::Nothing => false,
        Occupant::Other => true,
        Occupant::LinkTo(to) => {
            let cellar = join(prefix, "Cellar");
            let mut own = join(cellar.as_str(), name);
            own.append("/");
            let lead = chars_of(own.as_str());
            let path = chars_of(to.as_str());
            assert(path@.subrange(0, path.len() as int) =~= path@);
            !has_prefix(&path, 0, path.len(), &lead)
        },
    }
}

/// The paths among `targets` that the formula `name` cannot link because
/// something that is no link of its own lies there.
pub fn foreign_paths(prefix: &str, name: &str, targets: &Vec<String>, occupants: &Vec<Occupant>) -> (foreign:
    Vec<String>)
    ensures
        foreign.deep_view() == foreign_spec(
            targets.deep_view(),
            occupants@,
            prefix@,
            name@,
            targets.len() as int,
        ),
{
    let mut foreign: Vec<String> = Vec::new();
    let mut i: usize = 0;
    assert(foreign.deep_view() =~= Seq::<Seq<char>>::empty());
    while i < targets.len()
        invariant
            i <= targets.len(),
            foreign.deep_view() == foreign_spec(
                targets.deep_view(),
                occupants@,
                prefix@,
                name@,
                i as int,
            ),
        decreases targets.len() - i,
    {
        let ghost have = foreign.deep_view();
        if i < occupants.len() && is_in_the_way(&occupants[i], prefix, name) {
            foreign.push(targets[i].clone());
            assert(targets.deep_view()[i as int] == targets@[i as int]@);
            assert(foreign.deep_view() =~= have.push(targets.deep_view()[i as int]));
        }
        i = i + 1;
    }
    foreign
}

/// A path of the prefix and the formula that owns it.
#[derive(Debug, PartialEq, Eq)]
pub struct Link {
    pub path: String,
    pub owner: String,
}

/// The link map: who owns which path of the prefix.
pub struct Prefix {
    links: Vec<Link>,
}

/// The paths of the links `links`, in order.
pub open spec fn paths_of(links: Seq<(Seq<char>, Seq<char>)>) -> Seq<Seq<char>> {
    Seq::new(links.len(), |i: int| links[i].0)
}

/// The owner of `path` according to `links`.
pub open spec fn owner_in(links: Seq<(Seq<char>, Seq<char>)>, path: Seq<char>) -> Option<
    Seq<char>,
> {
    let i = key_position(paths_of(links), path);
    if i < links.len() {
        Some(links[i].1)
    } else {
        None
    }
}

/// What stands in the way of `name` owning `path`: another owner, or a
/// file that is no link of the prefix, for which the owner is empty.
pub open spec fn blocker(
    links: Seq<(Seq<char>, Seq<char>)>,
    foreign: Seq<Seq<char>>,
    name: Seq<char>,
    path: Seq<char>,
) -> Option<Seq<char>> {
    if foreign.contains(path) {
        Some(Seq::empty())
    } else {
        match owner_in(links, path) {
            Some(owner) => if owner == name {
                None
            } else {
                Some(owner)
            },
            None => None,
        }
    }
}

/// The place of the first of `targets` that something stands in the way
/// of, or their number where nothing does.
pub open spec fn first_blocked(
    links: Seq<(Seq<char>, Seq<char>)>,
    foreign: Seq<Seq<char>>,
    name: Seq<char>,
    targets: Seq<Seq<char>>,
) -> int
    decreases targets.len(),
{
    if targets.len() == 0 {
        0
    } else if blocker(links, foreign, name, targets[0]) is Some {
        0
    } else {
        1 + first_blocked(links, foreign, name, targets.skip(1))
    }
}

/// Those of the first `upto` of `targets` that have no owner yet, each once.
pub open spec fn to_create(links: Seq<(Seq<char>, Seq<char>)>, targets: Seq<Seq<char>>, upto: int) -> Seq<
    Seq<char>,
>
    decreases upto,
{
    if upto <= 0 {
        Seq::empty()
    } else {
        let head = to_create(links, targets, upto - 1);
        let path = targets[upto - 1];
        if owner_in(links, path) is Some || head.contains(path) {
            head
        } else {
            head.push(path)
        }
    }
}

/// `links`, followed by the paths `created` as links of `name`.
pub open spec fn with_links(
    links: Seq<(Seq<char>, Seq<char>)>,
    name: Seq<char>,
    created: Seq<Seq<char>>,
) -> Seq<(Seq<char>, Seq<char>)> {
    links + Seq::new(created.len(), |x: int| (created[x], name))
}

/// Those of the first `upto` of `links` that `name` does not own.
pub open spec fn without_owner(links: Seq<(Seq<char>, Seq<char>)>, name: Seq<char>, upto: int) -> Seq<
    (Seq<char>, Seq<char>),
>
    decreases upto,
{
    if upto <= 0 {
        Seq::empty()
    } else if links[upto - 1].1 == name {
        without_owner(links, name, upto - 1)
    } else {
        without_owner(links, name, upto - 1).push(links[upto - 1])
    }
}

/// The paths of those of the first `upto` of `links` that `name` owns.
pub open spec fn owned_paths(links: Seq<(Seq<char>, Seq<char>)>, name: Seq<char>, upto: int) -> Seq<
    Seq<char>,
>
    decreases upto,
{
    if upto <= 0 {
        Seq::empty()
    } else if links[upto - 1].1 == name {
        owned_paths(links, name, upto - 1).push(links[upto - 1].0)
    } else {
        owned_paths(links, name, upto - 1)
    }
}

/// `first_blocked` passes no target that something stands in the way of,
/// and stops on one.
pub proof fn lemma_first_blocked(
    links: Seq<(Seq<char>, Seq<char>)>,
    foreign: Seq<Seq<char>>,
    name: Seq<char>,
    targets: Seq<Seq<char>>,
    i: int,
)
    requires
        0 <= i <= targets.len(),
        forall|j: int| 0 <= j < i ==> blocker(links, foreign, name, #[trigger] targets[j]) is None,
        i < targets.len() ==> blocker(links, foreign, name, targets[i]) is Some,
    ensures
        first_blocked(links, foreign, name, targets) == i,
    decreases i,
{
    if i > 0 {
        let rest = targets.skip(1);
        assert(blocker(links, foreign, name, targets[0]) is None);
        assert forall|j: int| 0 <= j < i - 1 implies blocker(
            links,
            foreign,
            name,
            #[trigger] rest[j],
        ) is None by {
            assert(rest[j] == targets[j + 1]);
        }
        lemma_first_blocked(links, foreign, name, rest, i - 1);
    }
}

/// What is to be created has no owner, and is listed once.
pub proof fn lemma_to_create(links: Seq<(Seq<char>, Seq<char>)>, targets: Seq<Seq<char>>, upto: int)
    requires
        0 <= upto <= targets.len(),
    ensures
        to_create(links, targets, upto).no_duplicates(),
        forall|x: int|
            0 <= x < to_create(links, targets, upto).len() ==> owner_in(
                links,
                #[trigger] to_create(links, targets, upto)[x],
            ) is None,
    decreases upto,
{
    if upto > 0 {
        lemma_to_create(links, targets, upto - 1);
        let head = to_create(links, targets, upto - 1);
        let path = targets[upto - 1];
        if !(owner_in(links, path) is Some || head.contains(path)) {
            lemma_push_distinct(head, path);
            let all = head.push(path);
            assert forall|x: int| 0 <= x < all.len() implies owner_in(links, #[trigger] all[x])
                is None by {
                if x < head.len() {
                    assert(all[x] == head[x]);
                }
            }
        }
    }
}

/// Links that `name` does not own stay, under distinct paths.
pub proof fn lemma_without_owner(links: Seq<(Seq<char>, Seq<char>)>, name: Seq<char>, upto: int)
    requires
        0 <= upto <= links.len(),
        paths_of(links).no_duplicates(),
    ensures
        paths_of(without_owner(links, name, upto)).no_duplicates(),
        forall|x: int|
            0 <= x < without_owner(links, name, upto).len() ==> exists|j: int|
                0 <= j < upto && links[j] == #[trigger] without_owner(links, name, upto)[x],
    decreases upto,
{
    if upto > 0 {
        lemma_without_owner(links, name, upto - 1);
        let head = without_owner(links, name, upto - 1);
        if links[upto - 1].1 != name {
            let last = links[upto - 1];
            let all = head.push(last);
            assert(paths_of(all) =~= paths_of(head).push(last.0));
            if paths_of(head).contains(last.0) {
                let x = choose|x: int| 0 <= x < head.len() && paths_of(head)[x] == last.0;
                let j = choose|j: int| 0 <= j < upto - 1 && links[j] == head[x];
                assert(paths_of(links)[j] == paths_of(links)[upto - 1]);
            }
            lemma_push_distinct(paths_of(head), last.0);
            assert forall|x: int| 0 <= x < all.len() implies exists|j: int|
                0 <= j < upto && links[j] == #[trigger] all[x] by {
                if x < head.len() {
                    let j = choose|j: int| 0 <= j < upto - 1 && links[j] == head[x];
                    assert(links[j] == all[x]);
                } else {
                    assert(links[upto - 1] == all[x]);
                }
            }
        } else {
            assert forall|x: int| 0 <= x < head.len() implies exists|j: int|
                0 <= j < upto && links[j] == #[trigger] head[x] by {
                let j = choose|j: int| 0 <= j < upto - 1 && links[j] == head[x];
                assert(links[j] == head[x]);
            }
        }
    } else {
        assert(paths_of(without_owner(links, name, upto)) =~= Seq::<Seq<char>>::empty());
    }
}

impl Prefix {
    /// The links, as pairs of path and owner.
    pub closed spec fn view(&self) -> Seq<(Seq<char>, Seq<char>)> {
        Seq::new(self.links@.len(), |i: int| (self.links@[i].path@, self.links@[i].owner@))
    }

    /// Whether no path has two owners.
    pub open spec fn wf(&self) -> bool {
        paths_of(self@).no_duplicates()
    }

    /// A prefix without links.
    pub fn new() -> (prefix: Prefix)
        ensures
            prefix.wf(),
            prefix@ == Seq::<(Seq<char>, Seq<char>)>::empty(),
    {
        let prefix = Prefix { links: Vec::new() };
        assert(prefix@ =~= Seq::<(Seq<char>, Seq<char>)>::empty());
        assert(paths_of(prefix@) =~= Seq::<Seq<char>>::empty());
        prefix
    }

    /// The place of the link at `path`, or the number of links.
    fn find(&self, path: &str) -> (i: usize)
        ensures
            i == key_position(paths_of(self@), path@),
            i <= self.links.len(),
            self.links.len() == self@.len(),
            (i < self.links.len()) == paths_of(self@).contains(path@),
            i < self.links.len() ==> self.links@[i as int].path@ == path@,
    {
        let wanted = chars_of(path);
        let ghost paths = paths_of(self@);
        let mut i: usize = 0;
        while i < self.links.len()
            invariant
                i <= self.links.len(),
                wanted@ == path@,
                paths == paths_of(self@),
                paths.len() == self.links.len(),
                forall|j: int| 0 <= j < i ==> paths[j] != path@,
            decreases self.links.len() - i,
        {
            let have = chars_of(self.links[i].path.as_str());
            assert(paths[i as int] == self.links@[i as int].path@);
            if same_chars(&have, &wanted) {
                proof {
                    crate::store::lemma_key_position(paths, path@, i as int);
                }
                return i;
            }
            i = i + 1;
        }
        proof {
            crate::store::lemma_key_position(paths, path@, i as int);
        }
        i
    }

    /// The formula that owns `path`, if any does.
    pub fn owner(&self, path: &str) -> (owner: Option<&str>)
        ensures
            owner is Some <==> owner_in(self@, path@) is Some,
            owner is Some ==> owner->0@ == owner_in(self@, path@)->0,
    {
        let at = self.find(path);
        if at < self.links.len() {
            Some(self.links[at].owner.as_str())
        } else {
            None
        }
    }

    /// What `name` has to create to own the paths `targets`, where the
    /// paths `foreign` hold files that are no links of the prefix: the
    /// targets without an owner, each once. A target that another formula
    /// owns, or that is foreign, is a conflict; the first such is reported.
    pub fn plan_link(&self, name: &str, targets: &Vec<String>, foreign: &Vec<String>) -> (res:
        Result<Vec<String>, Error>)
        ensures
            first_blocked(self@, foreign.deep_view(), name@, targets.deep_view()) < targets.len()
                ==> res is Err && res->Err_0.is_conflict(
                targets.deep_view()[first_blocked(
                    self@,
                    foreign.deep_view(),
                    name@,
                    targets.deep_view(),
                )],
                blocker(
                    self@,
                    foreign.deep_view(),
                    name@,
                    targets.deep_view()[first_blocked(
                        self@,
                        foreign.deep_view(),
                        name@,
                        targets.deep_view(),
                    )],
                )->0,
            ),
            first_blocked(self@, foreign.deep_view(), name@, targets.deep_view()) >= targets.len()
                ==> res is Ok && res->Ok_0.deep_view() == to_create(
                self@,
                targets.deep_view(),
                targets.len() as int,
            ),
    {
        let ghost all = targets.deep_view();
        let ghost others = foreign.deep_view();
        let owner_name = chars_of(name);
        let mut created: Vec<String> = Vec::new();
        let mut i: usize = 0;
        assert(created.deep_view() =~= to_create(self@, all, 0));
        while i < targets.len()
            invariant
                i <= targets.len(),
                all == targets.deep_view(),
                others == foreign.deep_view(),
                owner_name@ == name@,
                created.deep_view() == to_create(self@, all, i as int),
                forall|j: int| 0 <= j < i ==> blocker(self@, others, name@, #[trigger] all[j]) is None,
            decreases targets.len() - i,
        {
            let path = targets[i].as_str();
            assert(all[i as int] == path@);
            if find_key(foreign, path) < foreign.len() {
                proof {
                    lemma_first_blocked(self@, others, name@, all, i as int);
                }
                return Err(
                    Error::ConflictedLink {
                        path: String::from_str(path),
                        existing_owner: String::new(),
                    },
                );
            }
            let at = self.find(path);
            if at < self.links.len() {
                let owner = chars_of(self.links[at].owner.as_str());
                assert(self@[at as int].1 == owner@);
                if !same_chars(&owner, &owner_name) {
                    proof {
                        lemma_first_blocked(self@, others, name@, all, i as int);
                    }
                    return Err(
                        Error::ConflictedLink {
                            path: String::from_str(path),
                            existing_owner: self.links[at].owner.clone(),
                        },
                    );
                }
            } else if find_key(&created, path) == created.len() {
                let ghost have = created.deep_view();
                created.push(String::from_str(path));
                assert(created.deep_view() =~= have.push(path@));
            }
            i = i + 1;
        }
        proof {
            lemma_first_blocked(self@, others, name@, all, i as int);
        }
        Ok(created)
    }

    /// Records that `name` owns the paths `created`, which had no owner.
    pub fn commit_link(&mut self, name: &str, created: &Vec<String>)
        requires
            old(self).wf(),
            created.deep_view().no_duplicates(),
            forall|x: int|
                0 <= x < created.len() ==> owner_in(old(self)@, #[trigger] created.deep_view()[x])
                    is None,
        ensures
            final(self).wf(),
            final(self)@ == with_links(old(self)@, name@, created.deep_view()),
    {
        let ghost before = self@;
        let ghost paths = created.deep_view();
        let mut x: usize = 0;
        assert(self@ =~= with_links(before, name@, paths.take(0)));
        while x < created.len()
            invariant
                x <= created.len(),
                paths == created.deep_view(),
                paths.no_duplicates(),
                paths_of(before).no_duplicates(),
                forall|y: int| 0 <= y < paths.len() ==> owner_in(before, #[trigger] paths[y]) is None,
                self@ == with_links(before, name@, paths.take(x as int)),
                self.wf(),
            decreases created.len() - x,
        {
            let ghost have = self@;
            let ghost path = paths[x as int];
            assert(created@[x as int]@ == path);
            self.links.push(Link { path: created[x].clone(), owner: String::from_str(name) });
            proof {
                assert(self@ =~= have.push((path, name@)));
                assert(self@ =~= with_links(before, name@, paths.take(x + 1)));
                assert(paths_of(self@) =~= paths_of(have).push(path));
                assert(!paths_of(have).contains(path)) by {
                    if paths_of(have).contains(path) {
                        let j = choose|j: int| 0 <= j < have.len() && paths_of(have)[j] == path;
                        if j < before.len() {
                            assert(paths_of(before)[j] == path);
                            assert(owner_in(before, paths[x as int]) is None);
                            crate::store::lemma_key_found(paths_of(before), path);
                        } else {
                            assert(paths.take(x as int)[j - before.len()] == path);
                            assert(paths[j - before.len()] == paths[x as int]);
                        }
                    }
                }
                lemma_push_distinct(paths_of(have), path);
            }
            x = x + 1;
        }
        assert(paths.take(x as int) =~= paths);
    }

    /// Makes `name` the owner of the paths `targets`, or reports the first
    /// conflict and leaves the prefix as it was. Returns the paths that
    /// `name` did not own before.
    pub fn link(&mut self, name: &str, targets: &Vec<String>, foreign: &Vec<String>) -> (res: Result<
        Vec<String>,
        Error,
    >)
        requires
            old(self).wf(),
        ensures
            final(self).wf(),
            first_blocked(old(self)@, foreign.deep_view(), name@, targets.deep_view())
                < targets.len() ==> res is Err && final(self)@ == old(self)@
                && res->Err_0.is_conflict(
                targets.deep_view()[first_blocked(
                    old(self)@,
                    foreign.deep_view(),
                    name@,
                    targets.deep_view(),
                )],
                blocker(
                    old(self)@,
                    foreign.deep_view(),
                    name@,
                    targets.deep_view()[first_blocked(
                        old(self)@,
                        foreign.deep_view(),
                        name@,
                        targets.deep_view(),
                    )],
                )->0,
            ),
            first_blocked(old(self)@, foreign.deep_view(), name@, targets.deep_view())
                >= targets.len() ==> res is Ok && res->Ok_0.deep_view() == to_create(
                old(self)@,
                targets.deep_view(),
                targets.len() as int,
            ) && final(self)@ == with_links(old(self)@, name@, res->Ok_0.deep_view()),
    {
        let created = self.plan_link(name, targets, foreign)?;
        proof {
            lemma_to_create(self@, targets.deep_view(), targets.len() as int);
        }
        self.commit_link(name, &created);
        Ok(created)
    }

    /// Takes from `name` every path that it owns, and returns those paths.
    /// What other formulas own stays.
    pub fn unlink(&mut self, name: &str) -> (removed: Vec<String>)
        requires
            old(self).wf(),
        ensures
            final(self).wf(),
            final(self)@ == without_owner(old(self)@, name@, old(self)@.len() as int),
            removed.deep_view() == owned_paths(old(self)@, name@, old(self)@.len() as int),
    {
        let ghost before = self@;
        let owner_name = chars_of(name);
        let n = self.links.len();
        let mut all: Vec<Link> = Vec::new();
        core::mem::swap(&mut self.links, &mut all);
        let mut removed: Vec<String> = Vec::new();
        let mut i: usize = 0;
        assert(self@ =~= without_owner(before, name@, 0));
        assert(removed.deep_view() =~= owned_paths(before, name@, 0));
        assert(all@.skip(0) =~= all@);
        let ghost whole = all@;
        while i < n
            invariant
                i <= n,
                n == before.len(),
                n == whole.len(),
                owner_name@ == name@,
                forall|j: int|
                    0 <= j < n ==> before[j] == ((#[trigger] whole[j]).path@, whole[j].owner@),
                all@ == whole.skip(i as int),
                self@ == without_owner(before, name@, i as int),
                removed.deep_view() == owned_paths(before, name@, i as int),
            decreases n - i,
        {
            let ghost kept = self@;
            let ghost gone = removed.deep_view();
            let link = all.remove(0);
            proof {
                assert(link == whole[i as int]);
                assert(all@ =~= whole.skip(i + 1));
                assert(before[i as int] == (link.path@, link.owner@));
            }
            let owner = chars_of(link.owner.as_str());
            if same_chars(&owner, &owner_name) {
                removed.push(link.path);
                assert(removed.deep_view() =~= gone.push(before[i as int].0));
            } else {
                self.links.push(link);
                assert(self@ =~= kept.push(before[i as int]));
            }
            i = i + 1;
        }
        proof {
            lemma_without_owner(before, name@, n as int);
        }
        removed
    }
}

} // verus!
