//! The decisions of a source build: where it works, what it hands to the
//! interpreter, which interpreter it takes, what it keeps of the output, and
//! how it reports the end.
//!
//! The work itself (files, downloads, processes) is the caller's. A build is
//! a run through [`BuildPhase`]s: the caller performs the phase at hand and
//! reports how it went, and [`BuildRun::advance`] says what comes next.

use std::collections::VecDeque;
use vstd::prelude::*;
use vstd::string::*;
use crate::build::BuildPlan;
use crate::errors::Error;
use crate::paths::{join, join_path};
use crate::store::lemma_push_distinct;
use crate::text::{chars_of, int_text, join_with, push_joined, push_signed_decimal, same_chars};

verus! {

/// Where an installed dependency lives.
#[derive(Debug, Clone, PartialEq, Eq)]
pub struct DepInfo {
    pub cellar_path: String,
}

/// An installed dependency of the formula that is built.
#[derive(Debug, Clone, PartialEq, Eq)]
pub struct InstalledDep {
    pub name: String,
    pub info: DepInfo,
}

/// Runs source builds below a prefix.
pub struct BuildExecutor {
    prefix: String,
    work_root: String,
}

impl BuildExecutor {
    /// The prefix that builds install into.
    pub closed spec fn prefix_view(&self) -> Seq<char> {
        self.prefix@
    }

    /// The directory that holds one work directory per formula.
    pub closed spec fn work_root_view(&self) -> Seq<char> {
        self.work_root@
    }

    #[verifier::type_invariant]
    spec fn well_formed(&self) -> bool {
        self.work_root@ == join_path(join_path(self.prefix@, "tmp"@), "build"@)
    }

    /// An executor for builds that install into `prefix`.
    pub fn new(prefix: String) -> (executor: Self)
        ensures
            executor.prefix_view() == prefix@,
            executor.work_root_view() == join_path(join_path(prefix@, "tmp"@), "build"@),
    {
        let tmp = join(prefix.as_str(), "tmp");
        let work_root = join(tmp.as_str(), "build");
        BuildExecutor { prefix, work_root }
    }

    /// The prefix that builds install into.
    pub fn prefix(&self) -> (p: &str)
        ensures
            p@ == self.prefix_view(),
    {
        self.prefix.as_str()
    }

    /// The directory that holds one work directory per formula.
    pub fn work_root(&self) -> (p: &str)
        ensures
            p@ == self.work_root_view(),
            p@ == join_path(join_path(self.prefix_view(), "tmp"@), "build"@),
    {
        proof {
            use_type_invariant(self);
        }
        self.work_root.as_str()
    }

    /// The directory in which `formula_name` is built.
    pub fn work_dir(&self, formula_name: &str) -> (dir: String)
        ensures
            dir@ == join_path(self.work_root_view(), formula_name@),
    {
        join(self.work_root.as_str(), formula_name)
    }

    /// Where the interpreter shim is written inside `work_dir`.
    pub fn shim_path(&self, work_dir: &str) -> (path: String)
        ensures
            path@ == join_path(work_dir@, "zerobrew_shim.rb"@),
    {
        join(work_dir, "zerobrew_shim.rb")
    }

    /// The variables that a build of `plan` hands to the interpreter, in a
    /// fixed order: the formula's name and version, the prefix, the Cellar
    /// below it, the formula file, and the installed dependencies as JSON;
    /// then the search path, and the flags and the library path that lead
    /// the build to the dependencies. A dependency that `deps` lists more
    /// than once counts once.
    pub fn environment(&self, plan: &BuildPlan, formula_file: &str, deps: &Vec<InstalledDep>) -> (env:
        Vec<(String, String)>)
        ensures
            env.len() == 10,
            env@[0].0@ == "FORMULA_NAME"@ && env@[0].1@ == plan.formula_name@,
            env@[1].0@ == "FORMULA_VERSION"@ && env@[1].1@ == plan.version@,
            env@[2].0@ == "PREFIX"@ && env@[2].1@ == self.prefix_view(),
            env@[3].0@ == "CELLAR"@ && env@[3].1@ == join_path(self.prefix_view(), "Cellar"@),
            env@[4].0@ == "FORMULA_FILE"@ && env@[4].1@ == formula_file@,
            env@[5].0@ == "INSTALLED_DEPS"@ && env@[5].1@ == deps_object(
                quoted_deps(first_of_each(deps@, deps.len() as int)),
            ),
            env@[6].0@ == "PATH"@ && env@[6].1@ == search_path(
                self.prefix_view(),
                first_of_each(deps@, deps.len() as int),
            ),
            env@[7].0@ == "CPPFLAGS"@ && env@[7].1@ == join_with(
                flagged("-I"@, dep_dirs(first_of_each(deps@, deps.len() as int), "include"@)),
                " "@,
            ),
            env@[8].0@ == "LDFLAGS"@ && env@[8].1@ == join_with(
                flagged("-L"@, dep_dirs(first_of_each(deps@, deps.len() as int), "lib"@)),
                " "@,
            ),
            env@[9].0@ == "LD_LIBRARY_PATH"@ && env@[9].1@ == join_with(
                dep_dirs(first_of_each(deps@, deps.len() as int), "lib"@),
                ":"@,
            ),
    {
        let needed = unique_deps(deps);
        let deps_json = installed_deps_json(deps);
        let mut env: Vec<(String, String)> = Vec::new();
        env.push((String::from_str("FORMULA_NAME"), plan.formula_name.clone()));
        env.push((String::from_str("FORMULA_VERSION"), plan.version.clone()));
        env.push((String::from_str("PREFIX"), self.prefix.clone()));
        env.push((String::from_str("CELLAR"), join(self.prefix.as_str(), "Cellar")));
        env.push((String::from_str("FORMULA_FILE"), String::from_str(formula_file)));
        env.push((String::from_str("INSTALLED_DEPS"), deps_json));
        let bins = dirs_of(&needed, "bin");
        let includes = dirs_of(&needed, "include");
        let libs = dirs_of(&needed, "lib");
        let mut path = join(self.prefix.as_str(), "bin");
        if bins.len() > 0 {
            path.append(":");
            push_joined(&mut path, &bins, ":");
        }
        path.append(":/usr/bin:/bin:/usr/sbin:/sbin");
        env.push((String::from_str("PATH"), path));
        let mut cppflags = String::new();
        push_joined(&mut cppflags, &with_flag("-I", &includes), " ");
        env.push((String::from_str("CPPFLAGS"), cppflags));
        let mut ldflags = String::new();
        push_joined(&mut ldflags, &with_flag("-L", &libs), " ");
        env.push((String::from_str("LDFLAGS"), ldflags));
        let mut library_path = String::new();
        push_joined(&mut library_path, &libs, ":");
        env.push((String::from_str("LD_LIBRARY_PATH"), library_path));
        proof {
            let kept = first_of_each(deps@, deps.len() as int);
            assert(env@[7].1@ =~= join_with(flagged("-I"@, dep_dirs(kept, "include"@)), " "@));
            assert(env@[8].1@ =~= join_with(flagged("-L"@, dep_dirs(kept, "lib"@)), " "@));
            assert(env@[9].1@ =~= join_with(dep_dirs(kept, "lib"@), ":"@));
        }
        env
    }
}

/// The directory `sub` below the Cellar path of each of `deps`, in order.
pub open spec fn dep_dirs(deps: Seq<InstalledDep>, sub: Seq<char>) -> Seq<Seq<char>> {
    Seq::new(deps.len(), |i: int| join_path(deps[i].info.cellar_path@, sub))
}

/// Each of `dirs` behind the flag `flag`.
pub open spec fn flagged(flag: Seq<char>, dirs: Seq<Seq<char>>) -> Seq<Seq<char>> {
    Seq::new(dirs.len(), |i: int| flag + dirs[i])
}

/// The search path of a build: the `bin` of the prefix, the `bin` of each
/// dependency, and the directories of the system, and nothing else.
pub open spec fn search_path(prefix: Seq<char>, deps: Seq<InstalledDep>) -> Seq<char> {
    join_path(prefix, "bin"@) + (if deps.len() > 0 {
        ":"@ + join_with(dep_dirs(deps, "bin"@), ":"@)
    } else {
        Seq::empty()
    }) + ":/usr/bin:/bin:/usr/sbin:/sbin"@
}

/// The directory `sub` below the Cellar path of each of `deps`, in order.
pub fn dirs_of(deps: &Vec<InstalledDep>, sub: &str) -> (dirs: Vec<String>)
    ensures
        dirs.deep_view() == dep_dirs(deps@, sub@),
{
    let mut dirs: Vec<String> = Vec::new();
    let mut i: usize = 0;
    while i < deps.len()
        invariant
            i <= deps.len(),
            dirs.deep_view() == dep_dirs(deps@, sub@).take(i as int),
        decreases deps.len() - i,
    {
        let ghost have = dirs.deep_view();
        let dir = join(deps[i].info.cellar_path.as_str(), sub);
        dirs.push(dir);
        assert(dirs.deep_view() =~= have.push(dir@));
        assert(dirs.deep_view() =~= dep_dirs(deps@, sub@).take(i + 1));
        i = i + 1;
    }
    assert(dep_dirs(deps@, sub@).take(i as int) =~= dep_dirs(deps@, sub@));
    dirs
}

/// Each of `dirs` behind the flag `flag`.
pub fn with_flag(flag: &str, dirs: &Vec<String>) -> (flags: Vec<String>)
    ensures
        flags.deep_view() == flagged(flag@, dirs.deep_view()),
{
    let mut flags: Vec<String> = Vec::new();
    let mut i: usize = 0;
    while i < dirs.len()
        invariant
            i <= dirs.len(),
            flags.deep_view() == flagged(flag@, dirs.deep_view()).take(i as int),
        decreases dirs.len() - i,
    {
        let ghost have = flags.deep_view();
        let mut one = String::from_str(flag);
        one.append(dirs[i].as_str());
        flags.push(one);
        assert(dirs.deep_view()[i as int] == dirs@[i as int]@);
        assert(flags.deep_view() =~= have.push(one@));
        assert(flags.deep_view() =~= flagged(flag@, dirs.deep_view()).take(i + 1));
        i = i + 1;
    }
    assert(flagged(flag@, dirs.deep_view()).take(i as int) =~= flagged(flag@, dirs.deep_view()));
    flags
}

/// The JSON string literal that stands for `text`, quotes and escapes
/// included, as serde_json writes it.
pub uninterp spec fn json_string(text: Seq<char>) -> Seq<char>;

/// `serde_json::to_string` on a string slice. The call always succeeds: the
/// encoder writes into memory only, and the serializer of a string slice
/// reports no error of its own. What it returns is the JSON string literal
/// for `text`.
#[verifier::external_body]
fn json_quote(text: &str) -> (res: Option<String>)
    ensures
        res is Some,
        res->0@ == json_string(text@),
{
    serde_json::to_string(text).ok()
}

/// One member of the object of installed dependencies: the name's literal,
/// then an object that holds the literal of the Cellar path.
pub open spec fn dep_member(name_json: Seq<char>, path_json: Seq<char>) -> Seq<char> {
    name_json + ":{\"cellar_path\":"@ + path_json + "}"@
}

/// The members for `quoted`, which pairs each name's literal with the
/// literal of its Cellar path.
pub open spec fn dep_members(quoted: Seq<(Seq<char>, Seq<char>)>) -> Seq<Seq<char>> {
    Seq::new(quoted.len(), |i: int| dep_member(quoted[i].0, quoted[i].1))
}

/// The JSON object of installed dependencies, without white space.
pub open spec fn deps_object(quoted: Seq<(Seq<char>, Seq<char>)>) -> Seq<char> {
    "{"@ + join_with(dep_members(quoted), ","@) + "}"@
}

/// The views of the pairs in `quoted`.
pub open spec fn pair_views(quoted: Seq<(String, String)>) -> Seq<(Seq<char>, Seq<char>)> {
    Seq::new(quoted.len(), |i: int| (quoted[i].0@, quoted[i].1@))
}

/// The literals of the names and Cellar paths of `deps`.
pub open spec fn quoted_deps(deps: Seq<InstalledDep>) -> Seq<(Seq<char>, Seq<char>)> {
    Seq::new(
        deps.len(),
        |i: int| (json_string(deps[i].name@), json_string(deps[i].info.cellar_path@)),
    )
}

/// Frames the JSON object of installed dependencies around string literals
/// that are encoded already: each pair holds the literal of a name and the
/// literal of its Cellar path.
pub fn frame_installed_deps(quoted: &Vec<(String, String)>) -> (json: String)
    ensures
        json@ == deps_object(pair_views(quoted@)),
{
    let ghost pairs = pair_views(quoted@);
    let mut members: Vec<String> = Vec::new();
    let mut i: usize = 0;
    while i < quoted.len()
        invariant
            i <= quoted.len(),
            pairs == pair_views(quoted@),
            members.deep_view() == dep_members(pairs).take(i as int),
        decreases quoted.len() - i,
    {
        let ghost before = members.deep_view();
        let mut member = quoted[i].0.clone();
        member.append(":{\"cellar_path\":");
        member.append(quoted[i].1.as_str());
        member.append("}");
        members.push(member);
        assert(members.deep_view() =~= before.push(member@));
        assert(members.deep_view() =~= dep_members(pairs).take(i + 1));
        i = i + 1;
    }
    assert(dep_members(pairs).take(i as int) =~= dep_members(pairs));
    let mut json = String::from_str("{");
    push_joined(&mut json, &members, ",");
    json.append("}");
    json
}

/// The names of `deps`, in order.
pub open spec fn names_of(deps: Seq<InstalledDep>) -> Seq<Seq<char>> {
    Seq::new(deps.len(), |i: int| deps[i].name@)
}

/// Those of the first `upto` of `deps` whose name no earlier one has, in
/// order.
pub open spec fn first_of_each(deps: Seq<InstalledDep>, upto: int) -> Seq<InstalledDep>
    decreases upto,
{
    if upto <= 0 {
        Seq::empty()
    } else if names_of(first_of_each(deps, upto - 1)).contains(deps[upto - 1].name@) {
        first_of_each(deps, upto - 1)
    } else {
        first_of_each(deps, upto - 1).push(deps[upto - 1])
    }
}

/// No two of the dependencies that `first_of_each` keeps have one name.
pub proof fn lemma_first_of_each(deps: Seq<InstalledDep>, upto: int)
    requires
        0 <= upto <= deps.len(),
    ensures
        names_of(first_of_each(deps, upto)).no_duplicates(),
    decreases upto,
{
    if upto > 0 {
        lemma_first_of_each(deps, upto - 1);
        let head = first_of_each(deps, upto - 1);
        let name = deps[upto - 1].name@;
        if !names_of(head).contains(name) {
            assert(names_of(head.push(deps[upto - 1])) =~= names_of(head).push(name));
            lemma_push_distinct(names_of(head), name);
        }
    } else {
        assert(names_of(first_of_each(deps, upto)) =~= Seq::<Seq<char>>::empty());
    }
}

/// Whether one of `deps` has the name `name`.
pub fn has_dep(deps: &Vec<InstalledDep>, name: &str) -> (b: bool)
    ensures
        b == names_of(deps@).contains(name@),
{
    let wanted = chars_of(name);
    let ghost names = names_of(deps@);
    let mut i: usize = 0;
    while i < deps.len()
        invariant
            i <= deps.len(),
            wanted@ == name@,
            names == names_of(deps@),
            forall|j: int| 0 <= j < i ==> names[j] != name@,
        decreases deps.len() - i,
    {
        let have = chars_of(deps[i].name.as_str());
        assert(names[i as int] == deps@[i as int].name@);
        if same_chars(&have, &wanted) {
            return true;
        }
        i = i + 1;
    }
    false
}

/// The dependencies `deps` without those whose name an earlier one has: a
/// formula that is needed in more than one way is one dependency.
pub fn unique_deps(deps: &Vec<InstalledDep>) -> (out: Vec<InstalledDep>)
    ensures
        out@ == first_of_each(deps@, deps.len() as int),
        names_of(out@).no_duplicates(),
{
    let mut out: Vec<InstalledDep> = Vec::new();
    let mut i: usize = 0;
    while i < deps.len()
        invariant
            i <= deps.len(),
            out@ == first_of_each(deps@, i as int),
        decreases deps.len() - i,
    {
        if !has_dep(&out, deps[i].name.as_str()) {
            let dep = InstalledDep {
                name: deps[i].name.clone(),
                info: DepInfo { cellar_path: deps[i].info.cellar_path.clone() },
            };
            assert(dep == deps@[i as int]);
            out.push(dep);
        }
        i = i + 1;
    }
    proof {
        lemma_first_of_each(deps@, deps.len() as int);
    }
    out
}

/// The installed dependencies as a JSON object that maps each name to an
/// object with its Cellar path, in the order given. A name that occurs
/// more than once is a member once, with the Cellar path of its first
/// occurrence.
pub fn installed_deps_json(deps: &Vec<InstalledDep>) -> (json: String)
    ensures
        json@ == deps_object(quoted_deps(first_of_each(deps@, deps.len() as int))),
{
    let members = unique_deps(deps);
    let mut quoted: Vec<(String, String)> = Vec::new();
    let mut i: usize = 0;
    while i < members.len()
        invariant
            i <= members.len(),
            pair_views(quoted@) == quoted_deps(members@).take(i as int),
        decreases members.len() - i,
    {
        let ghost before = pair_views(quoted@);
        let name = json_quote(members[i].name.as_str()).unwrap();
        let path = json_quote(members[i].info.cellar_path.as_str()).unwrap();
        quoted.push((name, path));
        assert(pair_views(quoted@) =~= before.push((name@, path@)));
        assert(pair_views(quoted@) =~= quoted_deps(members@).take(i + 1));
        i = i + 1;
    }
    assert(quoted_deps(members@).take(i as int) =~= quoted_deps(members@));
    frame_installed_deps(&quoted)
}

/// How many lines of each output stream a build keeps.
pub const TAIL_LINES: usize = 40;

/// The last `n` of `lines`, or all of them where there are fewer.
pub open spec fn last_lines(lines: Seq<Seq<char>>, n: nat) -> Seq<Seq<char>> {
    if lines.len() > n {
        lines.skip(lines.len() - n)
    } else {
        lines
    }
}

/// The most recent lines of an output stream, oldest first.
pub struct TailBuffer {
    lines: VecDeque<String>,
}

impl TailBuffer {
    /// The lines that are kept, oldest first.
    pub closed spec fn view(&self) -> Seq<Seq<char>> {
        Seq::new(self.lines@.len(), |i: int| self.lines@[i]@)
    }

    /// A buffer that holds nothing.
    pub fn new() -> (buffer: Self)
        ensures
            buffer@ == Seq::<Seq<char>>::empty(),
    {
        let buffer = TailBuffer { lines: VecDeque::with_capacity(TAIL_LINES) };
        assert(buffer@ =~= Seq::<Seq<char>>::empty());
        buffer
    }

    /// How many lines are kept.
    pub fn len(&self) -> (n: usize)
        ensures
            n == self@.len(),
    {
        self.lines.len()
    }

    /// Takes `line` in as the newest; the oldest leaves where the buffer is full.
    pub fn push(&mut self, line: String)
        ensures
            final(self)@ == last_lines(old(self)@.push(line@), TAIL_LINES as nat),
            final(self)@.len() <= TAIL_LINES,
    {
        while self.lines.len() >= TAIL_LINES
            invariant
                self.lines@.len() <= old(self).lines@.len(),
                self.lines@.len() == old(self).lines@.len() || self.lines@.len() + 1
                    >= TAIL_LINES,
                self.lines@ == old(self).lines@.skip(old(self).lines@.len() - self.lines@.len()),
            decreases self.lines@.len(),
        {
            self.lines.pop_front();
            assert(self.lines@ =~= old(self).lines@.skip(
                old(self).lines@.len() - self.lines@.len(),
            ));
        }
        self.lines.push_back(line);
        assert(self@ =~= last_lines(old(self)@.push(line@), TAIL_LINES as nat));
    }

    /// The lines that are kept, oldest first.
    pub fn into_lines(self) -> (lines: Vec<String>)
        ensures
            lines.deep_view() == self@,
    {
        let ghost kept = self@;
        let mut rest = self.lines;
        let mut lines: Vec<String> = Vec::new();
        assert(kept.skip(0) =~= kept);
        while rest.len() > 0
            invariant
                lines.deep_view() + Seq::new(rest@.len(), |i: int| rest@[i]@) == kept,
            decreases rest.len(),
        {
            let ghost before = lines.deep_view();
            let ghost pending = Seq::new(rest@.len(), |i: int| rest@[i]@);
            let line = rest.pop_front().unwrap();
            lines.push(line);
            assert(lines.deep_view() =~= before.push(line@));
            assert(lines.deep_view() + Seq::new(rest@.len(), |i: int| rest@[i]@) =~= before
                + pending);
        }
        assert(lines.deep_view() =~= lines.deep_view() + Seq::new(
            rest@.len(),
            |i: int| rest@[i]@,
        ));
        lines
    }
}

/// Feeding a buffer line by line keeps the last lines of all that was fed.
pub proof fn lemma_last_lines_step(fed: Seq<Seq<char>>, line: Seq<char>, n: nat)
    ensures
        last_lines(last_lines(fed, n).push(line), n) == last_lines(fed.push(line), n),
{
    assert(last_lines(last_lines(fed, n).push(line), n) =~= last_lines(fed.push(line), n));
}

/// The last lines of a stream: what a [`TailBuffer`] holds once every line
/// of `lines` went through it.
pub fn capture_tail(lines: Vec<String>) -> (tail: Vec<String>)
    ensures
        tail.deep_view() == last_lines(lines.deep_view(), TAIL_LINES as nat),
{
    let ghost all = lines.deep_view();
    let mut buffer = TailBuffer::new();
    let mut i: usize = 0;
    assert(all.take(0) =~= Seq::<Seq<char>>::empty());
    while i < lines.len()
        invariant
            i <= lines.len(),
            all == lines.deep_view(),
            buffer@ == last_lines(all.take(i as int), TAIL_LINES as nat),
        decreases lines.len() - i,
    {
        proof {
            lemma_last_lines_step(all.take(i as int), all[i as int], TAIL_LINES as nat);
            assert(all.take(i as int).push(all[i as int]) =~= all.take(i + 1));
        }
        buffer.push(lines[i].clone());
        i = i + 1;
    }
    assert(all.take(i as int) =~= all);
    buffer.into_lines()
}

/// How the exit code of a process is shown: `Some(7)`, or `None` for a
/// process that a signal ended.
pub open spec fn exit_code_text(code: Option<i32>) -> Seq<char> {
    match code {
        Some(c) => "Some("@ + int_text(c as int) + ")"@,
        None => "None"@,
    }
}

/// The report of a failed build: the exit code, and below it the tail of
/// what the build wrote to its error stream, or to its output stream where
/// the error stream stayed empty.
pub open spec fn build_failure_text(
    code: Option<i32>,
    stdout_tail: Seq<Seq<char>>,
    stderr_tail: Seq<Seq<char>>,
) -> Seq<char> {
    let head = "source build failed (exit code: "@ + exit_code_text(code) + ")"@;
    let tail = if stderr_tail.len() > 0 {
        stderr_tail
    } else {
        stdout_tail
    };
    if tail.len() > 0 {
        head + "\n"@ + join_with(tail, "\n"@)
    } else {
        head
    }
}

/// The report of a failed build, as [`build_failure_text`] defines it.
pub fn build_failure_message(
    code: Option<i32>,
    stdout_tail: &Vec<String>,
    stderr_tail: &Vec<String>,
) -> (message: String)
    ensures
        message@ == build_failure_text(code, stdout_tail.deep_view(), stderr_tail.deep_view()),
{
    let mut message = String::from_str("source build failed (exit code: ");
    match code {
        Some(c) => {
            message.append("Some(");
            push_signed_decimal(&mut message, c);
            message.append(")");
        },
        None => {
            message.append("None");
        },
    }
    message.append(")");
    assert(message@ =~= "source build failed (exit code: "@ + exit_code_text(code) + ")"@);
    let tail = if stderr_tail.len() > 0 {
        stderr_tail
    } else {
        stdout_tail
    };
    assert(stderr_tail.deep_view().len() == stderr_tail.len());
    assert(stdout_tail.deep_view().len() == stdout_tail.len());
    if tail.len() > 0 {
        message.append("\n");
        push_joined(&mut message, tail, "\n");
    }
    message
}

/// Concludes a build whose interpreter ended with `code`: exit code 0 is
/// success, anything else an execution error with the failure report.
pub fn conclude_build(code: Option<i32>, stdout_tail: &Vec<String>, stderr_tail: &Vec<String>) -> (res:
    Result<(), Error>)
    ensures
        code == Some(0i32) ==> res is Ok,
        code != Some(0i32) ==> res is Err && res->Err_0.is_execution_error(
            build_failure_text(code, stdout_tail.deep_view(), stderr_tail.deep_view()),
        ),
{
    let succeeded = match code {
        Some(c) => c == 0,
        None => false,
    };
    if succeeded {
        return Ok(());
    }
    Err(Error::ExecutionError { message: build_failure_message(code, stdout_tail, stderr_tail) })
}

/// The next move in the search for an interpreter.
#[derive(Debug, PartialEq, Eq)]
pub enum Probe {
    /// Ask this candidate for its version, and report whether it exited with 0.
    Try(String),
    /// This candidate answered; the search is over.
    Found(String),
    /// Every candidate was asked and none answered.
    Missing(Error),
}

impl Probe {
    /// Whether the move is to ask `candidate`.
    pub open spec fn is_try(self, candidate: Seq<char>) -> bool {
        self matches Probe::Try(c) && c@ == candidate
    }

    /// Whether the search ended on `candidate`.
    pub open spec fn is_found(self, candidate: Seq<char>) -> bool {
        self matches Probe::Found(c) && c@ == candidate
    }

    /// Whether the search ended without an interpreter.
    pub open spec fn is_missing(self) -> bool {
        self matches Probe::Missing(e) && e.is_execution_error("required interpreter not found"@)
    }
}

/// The names and paths under which an interpreter is looked for, in order.
pub fn interpreter_candidates() -> (candidates: Vec<String>)
    ensures
        candidates.deep_view() == seq!["ruby"@, "/usr/bin/ruby"@],
{
    let mut candidates: Vec<String> = Vec::new();
    candidates.push(String::from_str("ruby"));
    candidates.push(String::from_str("/usr/bin/ruby"));
    assert(candidates.deep_view() =~= seq!["ruby"@, "/usr/bin/ruby"@]);
    candidates
}

/// The outcomes that count: one per candidate, in order, and no more than
/// there are candidates.
pub open spec fn counted(candidates: int, outcomes: Seq<bool>) -> Seq<bool> {
    if outcomes.len() <= candidates {
        outcomes
    } else {
        outcomes.take(candidates)
    }
}

/// Whether `k` is the first candidate that answered.
pub open spec fn first_success(outcomes: Seq<bool>, k: int) -> bool {
    0 <= k < outcomes.len() && outcomes[k] && forall|j: int| 0 <= j < k ==> !outcomes[j]
}

/// Whether no candidate answered so far.
pub open spec fn none_succeeded(outcomes: Seq<bool>) -> bool {
    forall|j: int| 0 <= j < outcomes.len() ==> !outcomes[j]
}

/// The next move in the search for an interpreter among `candidates`, where
/// `outcomes` tells of each candidate asked so far whether it answered.
///
/// The first candidate that answered wins. While none did, the next one is
/// asked; when none is left, the interpreter is missing.
pub fn find_ruby(candidates: &Vec<String>, outcomes: &Vec<bool>) -> (next: Probe)
    ensures
        forall|k: int| first_success(counted(candidates.len() as int, outcomes@), k) ==> next.is_found(
                candidates@[k]@,
            ),
        none_succeeded(counted(candidates.len() as int, outcomes@)) && outcomes.len()
            < candidates.len() ==> next.is_try(candidates@[outcomes.len() as int]@),
        none_succeeded(counted(candidates.len() as int, outcomes@)) && outcomes.len()
            >= candidates.len() ==> next.is_missing(),
{
    let ghost seen = counted(candidates.len() as int, outcomes@);
    let limit = if outcomes.len() <= candidates.len() {
        outcomes.len()
    } else {
        candidates.len()
    };
    let mut i: usize = 0;
    while i < limit
        invariant
            i <= limit,
            limit == seen.len(),
            limit <= candidates.len(),
            limit <= outcomes.len(),
            seen == counted(candidates.len() as int, outcomes@),
            forall|j: int| 0 <= j < i ==> !seen[j],
        decreases limit - i,
    {
        assert(seen[i as int] == outcomes@[i as int]);
        if outcomes[i] {
            assert(first_success(seen, i as int));
            return Probe::Found(candidates[i].clone());
        }
        i = i + 1;
    }
    if outcomes.len() < candidates.len() {
        Probe::Try(candidates[outcomes.len()].clone())
    } else {
        Probe::Missing(
            Error::ExecutionError { message: String::from_str("required interpreter not found") },
        )
    }
}

/// A phase of a source build.
#[derive(Debug, Clone, Copy, PartialEq, Eq, Structural)]
pub enum BuildPhase {
    /// Remove what an earlier build left and create the work directory.
    PrepareWorkDir,
    /// Download the source into the work directory and unpack it.
    FetchSource,
    /// Write the interpreter shim into the work directory.
    WriteShim,
    /// Make sure that the target directory below the Cellar exists.
    EnsureCellar,
    /// Find an interpreter.
    LocateInterpreter,
    /// Run the shim and wait for it.
    RunBuild,
    /// Hand what the build left below the Cellar to the store.
    Materialize,
    /// Remove the work directory.
    Cleanup,
    /// Nothing is left to do.
    Finished,
}

impl BuildPhase {
    /// The phase that follows this one where it succeeds.
    pub open spec fn successor(self) -> BuildPhase {
        match self {
            BuildPhase::PrepareWorkDir => BuildPhase::FetchSource,
            BuildPhase::FetchSource => BuildPhase::WriteShim,
            BuildPhase::WriteShim => BuildPhase::EnsureCellar,
            BuildPhase::EnsureCellar => BuildPhase::LocateInterpreter,
            BuildPhase::LocateInterpreter => BuildPhase::RunBuild,
            BuildPhase::RunBuild => BuildPhase::Materialize,
            BuildPhase::Materialize => BuildPhase::Cleanup,
            BuildPhase::Cleanup => BuildPhase::Finished,
            BuildPhase::Finished => BuildPhase::Finished,
        }
    }

    /// What stands before the detail of a file-system failure in this phase.
    pub open spec fn failure_prefix(self) -> Seq<char> {
        match self {
            BuildPhase::PrepareWorkDir => "failed to create work directory: "@,
            BuildPhase::WriteShim => "failed to write ruby shim: "@,
            BuildPhase::EnsureCellar => "failed to create cellar directory: "@,
            _ => Seq::empty(),
        }
    }

    /// The phase that follows this one where it succeeds.
    pub fn next(self) -> (phase: BuildPhase)
        ensures
            phase == self.successor(),
    {
        match self {
            BuildPhase::PrepareWorkDir => BuildPhase::FetchSource,
            BuildPhase::FetchSource => BuildPhase::WriteShim,
            BuildPhase::WriteShim => BuildPhase::EnsureCellar,
            BuildPhase::EnsureCellar => BuildPhase::LocateInterpreter,
            BuildPhase::LocateInterpreter => BuildPhase::RunBuild,
            BuildPhase::RunBuild => BuildPhase::Materialize,
            BuildPhase::Materialize => BuildPhase::Cleanup,
            BuildPhase::Cleanup => BuildPhase::Finished,
            BuildPhase::Finished => BuildPhase::Finished,
        }
    }

    /// The error for a file-system failure in this phase, of which the
    /// system said `detail`.
    pub fn io_failure(self, detail: &str) -> (err: Error)
        ensures
            err.is_file_error(self.failure_prefix() + detail@),
    {
        let mut message = match self {
            BuildPhase::PrepareWorkDir => String::from_str("failed to create work directory: "),
            BuildPhase::WriteShim => String::from_str("failed to write ruby shim: "),
            BuildPhase::EnsureCellar => String::from_str("failed to create cellar directory: "),
            _ => String::new(),
        };
        message.append(detail);
        Error::FileError { message }
    }
}

/// A source build under way: the phase to perform next, and the failure
/// that ended the build proper, if one did.
#[derive(Debug, PartialEq, Eq)]
pub struct BuildRun {
    pub phase: BuildPhase,
    pub failure: Option<Error>,
}

impl BuildRun {
    /// The run after its phase ended with `outcome`.
    ///
    /// A phase that succeeds is followed by the next one. A phase that fails
    /// is followed by the clean-up, and its error is kept. The clean-up is
    /// followed by the end, however it went.
    pub open spec fn advanced(self, outcome: Result<(), Error>) -> BuildRun {
        match self.phase {
            BuildPhase::Finished => self,
            BuildPhase::Cleanup => BuildRun { phase: BuildPhase::Finished, failure: self.failure },
            _ => match outcome {
                Ok(_) => BuildRun { phase: self.phase.successor(), failure: self.failure },
                Err(e) => BuildRun {
                    phase: BuildPhase::Cleanup,
                    failure: if self.failure is Some {
                        self.failure
                    } else {
                        Some(e)
                    },
                },
            },
        }
    }

    /// A build that has not begun.
    pub fn start() -> (run: Self)
        ensures
            run.phase == BuildPhase::PrepareWorkDir,
            run.failure is None,
    {
        BuildRun { phase: BuildPhase::PrepareWorkDir, failure: None }
    }

    /// The run after its phase ended with `outcome`.
    pub fn advance(self, outcome: Result<(), Error>) -> (run: Self)
        ensures
            run == self.advanced(outcome),
    {
        match self.phase {
            BuildPhase::Finished => self,
            BuildPhase::Cleanup => BuildRun { phase: BuildPhase::Finished, failure: self.failure },
            _ => match outcome {
                Ok(_) => BuildRun { phase: self.phase.next(), failure: self.failure },
                Err(e) => {
                    let failure = if self.failure.is_some() {
                        self.failure
                    } else {
                        Some(e)
                    };
                    BuildRun { phase: BuildPhase::Cleanup, failure }
                },
            },
        }
    }

    /// Whether nothing is left to do.
    pub fn is_finished(&self) -> (done: bool)
        ensures
            done == (self.phase == BuildPhase::Finished),
    {
        self.phase == BuildPhase::Finished
    }

    /// How the build ended: the failure that was kept, or success.
    pub fn into_result(self) -> (res: Result<(), Error>)
        ensures
            self.failure is None ==> res is Ok,
            self.failure is Some ==> res == Err::<(), Error>(self.failure->0),
    {
        match self.failure {
            Some(e) => Err(e),
            None => Ok(()),
        }
    }
}

/// No build ends without its clean-up: the end is reached from the clean-up
/// alone, and a failure that was kept is never lost or replaced.
pub proof fn lemma_cleanup_on_every_path(run: BuildRun, outcome: Result<(), Error>)
    ensures
        run.phase != BuildPhase::Finished && run.advanced(outcome).phase == BuildPhase::Finished
            ==> run.phase == BuildPhase::Cleanup,
        run.phase != BuildPhase::Finished && run.phase != BuildPhase::Cleanup && outcome is Err
            ==> run.advanced(outcome).phase == BuildPhase::Cleanup,
        run.failure is Some ==> run.advanced(outcome).failure == run.failure,
{
}

} // verus!
