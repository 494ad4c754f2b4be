//! Manifests: line-oriented lists of formulas to install together.
//!
//! Every line stands for itself. What follows a `#` is a comment; a line that
//! is blank once the comment is gone is skipped. `tap "X"` is skipped,
//! `brew "X"` names the formula `X`, `cask "X"` names the token `cask:X`, and
//! anything else is taken as a formula name as it stands. A name that occurred
//! before is dropped, so that the first occurrence decides the order.

use vstd::prelude::*;
use vstd::string::*;
use crate::errors::Error;
use crate::text::{
    chars_of, contains_name, find_char, first_index, has_prefix, lemma_first_index_is,
    lemma_trim_start_is, skip_spaces, trim, trim_end, trim_range, trim_start,
};

verus! {

/// What the directive `directive` at the start of `line` quotes: the text
/// between the first quote character after the directive and the next
/// occurrence of the same character.
pub open spec fn quoted_directive(line: Seq<char>, directive: Seq<char>) -> Option<Seq<char>> {
    if !directive.is_prefix_of(line) {
        None
    } else {
        let rest = trim_start(line.skip(directive.len() as int));
        if rest.len() == 0 {
            None
        } else if rest[0] != '"' && rest[0] != '\'' {
            None
        } else {
            let tail = rest.skip(1);
            let end = first_index(tail, rest[0]);
            if end >= tail.len() {
                None
            } else {
                Some(tail.take(end))
            }
        }
    }
}

/// The name that one trimmed, non-empty manifest line stands for, if any.
pub open spec fn brewfile_entry(line: Seq<char>) -> Option<Seq<char>> {
    if "tap "@.is_prefix_of(line) {
        None
    } else if quoted_directive(line, "cask"@) is Some {
        Some("cask:"@ + quoted_directive(line, "cask"@)->0)
    } else if quoted_directive(line, "brew"@) is Some {
        quoted_directive(line, "brew"@)
    } else {
        Some(line)
    }
}

/// The name that one raw line of a manifest stands for, if any: the comment
/// is cut, the rest is trimmed, and a blank rest stands for nothing.
pub open spec fn line_entry(line: Seq<char>) -> Option<Seq<char>> {
    let entry = trim(line.take(first_index(line, '#')));
    if entry.len() == 0 {
        None
    } else {
        brewfile_entry(entry)
    }
}

/// The runs of characters between the line feeds of `s`.
pub open spec fn line_segments(s: Seq<char>) -> Seq<Seq<char>>
    decreases s.len(),
{
    let i = first_index(s, '\n');
    if 0 <= i < s.len() {
        seq![s.take(i)] + line_segments(s.skip(i + 1))
    } else {
        seq![s]
    }
}

/// `acc`, with `entry` added at the end unless it is absent or present already.
pub open spec fn add_entry(acc: Seq<Seq<char>>, entry: Option<Seq<char>>) -> Seq<Seq<char>> {
    match entry {
        Some(name) => if acc.contains(name) {
            acc
        } else {
            acc.push(name)
        },
        None => acc,
    }
}

/// `acc`, followed by the names that `lines` stand for, each at its first
/// occurrence.
pub open spec fn collect_entries(acc: Seq<Seq<char>>, lines: Seq<Seq<char>>) -> Seq<Seq<char>>
    decreases lines.len(),
{
    if lines.len() == 0 {
        acc
    } else {
        collect_entries(add_entry(acc, line_entry(lines[0])), lines.skip(1))
    }
}

/// The names that a manifest lists, in first-seen order and without repeats.
pub open spec fn manifest_entries(contents: Seq<char>) -> Seq<Seq<char>> {
    collect_entries(Seq::empty(), line_segments(contents))
}

/// Reads `directive` followed by a quoted string off the start of `line`.
///
/// The quote character is `"` or `'`; white space may stand between the
/// directive and the opening quote. Without a directive, an opening quote or
/// a closing quote there is no result.
pub fn parse_quoted_directive<'a>(line: &'a str, directive: &str) -> (res: Option<&'a str>)
    ensures
        res is Some <==> quoted_directive(line@, directive@) is Some,
        res is Some ==> res->0@ == quoted_directive(line@, directive@)->0,
{
    let l = chars_of(line);
    let d = chars_of(directive);
    let n = l.len();
    assert(l@.subrange(0, n as int) =~= l@);
    if !has_prefix(&l, 0, n, &d) {
        return None;
    }
    let open = skip_spaces(&l, d.len(), n);
    assert(l@.subrange(d.len() as int, n as int) =~= line@.skip(d.len() as int));
    let ghost rest = trim_start(line@.skip(d.len() as int));
    assert(rest == l@.subrange(open as int, n as int));
    if open >= n {
        return None;
    }
    let quote = l[open];
    assert(rest[0] == quote);
    if quote != '"' && quote != '\'' {
        return None;
    }
    let close = find_char(&l, open + 1, n, quote);
    assert(rest.skip(1) =~= l@.subrange(open + 1, n as int));
    if close >= n {
        return None;
    }
    assert(rest.skip(1).take(close - (open + 1)) =~= line@.subrange(open + 1, close as int));
    Some(line.substring_char(open + 1, close))
}

/// The formula name or cask token that one trimmed manifest line stands for.
///
/// `None` for a `tap` line. A line that is no well-formed directive is a
/// formula name as it stands.
pub fn parse_brewfile_entry(line: &str) -> (res: Option<String>)
    ensures
        res is Some <==> brewfile_entry(line@) is Some,
        res is Some ==> res->0@ == brewfile_entry(line@)->0,
{
    let l = chars_of(line);
    let tap = chars_of("tap ");
    assert(l@.subrange(0, l.len() as int) =~= l@);
    if has_prefix(&l, 0, l.len(), &tap) {
        return None;
    }
    if let Some(token) = parse_quoted_directive(line, "cask") {
        let mut name = String::from_str("cask:");
        name.append(token);
        return Some(name);
    }
    if let Some(formula) = parse_quoted_directive(line, "brew") {
        return Some(String::from_str(formula));
    }
    Some(String::from_str(line))
}

/// Adds to `out` what the line `chars[start..end]` of `contents` stands for,
/// unless that is nothing or `out` holds it already.
fn push_line_entry(
    contents: &str,
    chars: &Vec<char>,
    start: usize,
    end: usize,
    out: &mut Vec<String>,
)
    requires
        chars@ == contents@,
        start <= end <= chars.len(),
    ensures
        final(out).deep_view() == add_entry(
            old(out).deep_view(),
            line_entry(chars@.subrange(start as int, end as int)),
        ),
{
    let ghost line = chars@.subrange(start as int, end as int);
    let hash = find_char(chars, start, end, '#');
    assert(line.take(hash - start) =~= chars@.subrange(start as int, hash as int));
    let (from, to) = trim_range(chars, start, hash);
    if from == to {
        return;
    }
    let entry = contents.substring_char(from, to);
    match parse_brewfile_entry(entry) {
        Some(name) => {
            if !contains_name(out, name.as_str()) {
                let ghost before = out.deep_view();
                out.push(name);
                assert(out.deep_view() =~= before.push(name@));
            }
        },
        None => {},
    }
}

/// The names that the manifest `contents` lists, in first-seen order and
/// without repeats.
pub fn parse_manifest(contents: &str) -> (out: Vec<String>)
    ensures
        out.deep_view() == manifest_entries(contents@),
{
    let chars = chars_of(contents);
    let n = chars.len();
    let mut out: Vec<String> = Vec::new();
    let mut start: usize = 0;
    let mut more = true;
    assert(chars@.subrange(0, n as int) =~= chars@);
    assert(out.deep_view() =~= Seq::<Seq<char>>::empty());
    while more
        invariant
            chars@ == contents@,
            n == chars.len(),
            start <= n,
            more ==> manifest_entries(contents@) == collect_entries(
                out.deep_view(),
                line_segments(chars@.subrange(start as int, n as int)),
            ),
            !more ==> out.deep_view() == manifest_entries(contents@),
        decreases n - start + (if more { 1int } else { 0int }),
    {
        let ghost rest = chars@.subrange(start as int, n as int);
        let ghost before = out.deep_view();
        let ghost segments = line_segments(rest);
        let feed = find_char(&chars, start, n, '\n');
        push_line_entry(contents, &chars, start, feed, &mut out);
        assert(rest.take(feed - start) =~= chars@.subrange(start as int, feed as int));
        if feed < n {
            assert(rest.skip(feed - start + 1) =~= chars@.subrange(feed + 1, n as int));
            assert(segments[0] == rest.take(feed - start));
            assert(segments.skip(1) =~= line_segments(rest.skip(feed - start + 1)));
            start = feed + 1;
        } else {
            assert(rest.take(feed - start) =~= rest);
            assert(segments =~= seq![rest]);
            assert(segments.skip(1) =~= Seq::<Seq<char>>::empty());
            assert(segments[0] == rest);
            assert(collect_entries(add_entry(before, line_entry(rest)), segments.skip(1))
                == add_entry(before, line_entry(rest)));
            more = false;
        }
    }
    out
}

/// The error for a manifest that could not be read.
pub fn manifest_read_failure(path: &str, detail: &str) -> (err: Error)
    ensures
        err.is_file_error("failed to read manifest "@ + path@ + ": "@ + detail@),
{
    let mut message = String::from_str("failed to read manifest ");
    message.append(path);
    message.append(": ");
    message.append(detail);
    Error::FileError { message }
}

/// The names that the manifest at `path`, which holds `contents`, lists.
///
/// A manifest that lists nothing is an error.
pub fn load_manifest(path: &str, contents: &str) -> (res: Result<Vec<String>, Error>)
    ensures
        manifest_entries(contents@).len() > 0 ==> res is Ok && res->Ok_0.deep_view()
            == manifest_entries(contents@),
        manifest_entries(contents@).len() == 0 ==> res is Err && res->Err_0.is_file_error(
            "manifest "@ + path@ + " did not contain any formulas"@,
        ),
{
    let formulas = parse_manifest(contents);
    if formulas.len() == 0 {
        let mut message = String::from_str("manifest ");
        message.append(path);
        message.append(" did not contain any formulas");
        return Err(Error::FileError { message });
    }
    Ok(formulas)
}

/// The manifest line that lists the formula `name`, without its line feed.
pub open spec fn brew_line(name: Seq<char>) -> Seq<char> {
    "brew \""@ + name + "\""@
}

/// The manifest that lists `names` as formulas, one line each.
pub open spec fn dump_spec(names: Seq<Seq<char>>) -> Seq<char>
    decreases names.len(),
{
    if names.len() == 0 {
        Seq::empty()
    } else {
        brew_line(names[0]) + seq!['\n'] + dump_spec(names.skip(1))
    }
}

/// Refuses to write a manifest over an existing file unless `force` is set.
pub fn check_dump_target(path: &str, present: bool, force: bool) -> (res: Result<(), Error>)
    ensures
        !present || force ==> res is Ok,
        present && !force ==> res is Err && res->Err_0.is_file_error(
            "file "@ + path@ + " already exists (use --force to overwrite)"@,
        ),
{
    if present && !force {
        let mut message = String::from_str("file ");
        message.append(path);
        message.append(" already exists (use --force to overwrite)");
        return Err(Error::FileError { message });
    }
    Ok(())
}

/// The manifest that lists `names` as formulas, one `brew` line each.
pub fn dump_manifest(names: &Vec<String>) -> (out: String)
    ensures
        out@ == dump_spec(names.deep_view()),
{
    let ghost all = names.deep_view();
    let mut out = String::new();
    let mut i: usize = 0;
    assert(all.skip(0) =~= all);
    assert(Seq::<char>::empty() + dump_spec(all) =~= dump_spec(all));
    while i < names.len()
        invariant
            i <= names.len(),
            all == names.deep_view(),
            out@ + dump_spec(all.skip(i as int)) == dump_spec(all),
        decreases names.len() - i,
    {
        let ghost before = out@;
        let ghost rest = all.skip(i as int);
        out.append("brew \"");
        out.append(names[i].as_str());
        out.append("\"\n");
        proof {
            reveal_strlit("\"\n");
            reveal_strlit("\"");
            assert("\"\n"@ =~= "\""@ + seq!['\n']);
            assert(rest[0] == names@[i as int]@);
            assert(rest.skip(1) =~= all.skip(i + 1));
            assert(out@ + dump_spec(all.skip(i + 1)) =~= before + dump_spec(rest));
        }
        i = i + 1;
    }
    assert(out@ + dump_spec(all.skip(i as int)) =~= out@);
    out
}

/// The error for a manifest that could not be written.
pub fn dump_write_failure(path: &str, detail: &str) -> (err: Error)
    ensures
        err.is_file_error("failed to write "@ + path@ + ": "@ + detail@),
{
    let mut message = String::from_str("failed to write ");
    message.append(path);
    message.append(": ");
    message.append(detail);
    Error::FileError { message }
}

/// Whether a name can stand between the quotes of a `brew` line: it holds
/// no line feed, no `#` and no `"`.
pub open spec fn plain_name(name: Seq<char>) -> bool {
    forall|i: int| 0 <= i < name.len() ==> name[i] != '\n' && name[i] != '#' && name[i] != '"'
}

/// `acc`, followed by those of `names` that did not occur before.
pub open spec fn keep_first(acc: Seq<Seq<char>>, names: Seq<Seq<char>>) -> Seq<Seq<char>>
    decreases names.len(),
{
    if names.len() == 0 {
        acc
    } else {
        keep_first(add_entry(acc, Some(names[0])), names.skip(1))
    }
}

/// A `brew` line stands for the name between its quotes.
pub proof fn lemma_brew_line_entry(name: Seq<char>)
    requires
        plain_name(name),
    ensures
        line_entry(brew_line(name)) == Some(name),
        forall|i: int| 0 <= i < brew_line(name).len() ==> brew_line(name)[i] != '\n',
{
    reveal_strlit("brew \"");
    reveal_strlit("\"");
    reveal_strlit("tap ");
    reveal_strlit("cask");
    reveal_strlit("brew");
    let line = brew_line(name);
    let n = name.len() as int;
    assert(line.len() == n + 7);
    assert forall|i: int| 0 <= i < line.len() implies line[i] != '\n' && line[i] != '#' by {
        if 6 <= i < 6 + n {
            assert(line[i] == name[i - 6]);
        }
    }
    lemma_first_index_is(line, '#', line.len() as int);
    assert(line.take(line.len() as int) =~= line);
    assert(line[0] == 'b');
    assert(line.last() == '"');
    assert(trim_start(line) == line);
    assert(trim_end(line) == line);
    assert(trim(line) == line);
    // Neither `tap` nor `cask` opens the line.
    assert(!"tap "@.is_prefix_of(line)) by {
        if "tap "@.is_prefix_of(line) {
            assert(line.subrange(0, 4)[0] == "tap "@[0]);
        }
    }
    assert(!"cask"@.is_prefix_of(line)) by {
        if "cask"@.is_prefix_of(line) {
            assert(line.subrange(0, 4)[0] == "cask"@[0]);
        }
    }
    assert(quoted_directive(line, "cask"@) is None);
    // `brew` does, and the quotes enclose the name.
    assert(line.subrange(0, 4) =~= "brew"@);
    assert("brew"@.is_prefix_of(line));
    let after = line.skip(4);
    assert(after[0] == ' ');
    assert(after[1] == '"');
    lemma_trim_start_is(after, 1);
    let rest = after.skip(1);
    assert(rest[0] == '"');
    let tail = rest.skip(1);
    assert(tail.len() == n + 1);
    assert forall|j: int| 0 <= j < n implies tail[j] != '"' by {
        assert(tail[j] == name[j]);
    }
    assert(tail[n] == '"');
    lemma_first_index_is(tail, '"', n);
    assert(tail.take(n) =~= name);
    assert(quoted_directive(line, "brew"@) == Some(name));
}

/// Reading back a written manifest, on top of the names `acc` that were
/// seen before, adds the written names at their first occurrence.
pub proof fn lemma_collect_dump(acc: Seq<Seq<char>>, names: Seq<Seq<char>>)
    requires
        forall|i: int| 0 <= i < names.len() ==> plain_name(#[trigger] names[i]),
    ensures
        collect_entries(acc, line_segments(dump_spec(names))) == keep_first(acc, names),
    decreases names.len(),
{
    let text = dump_spec(names);
    if names.len() == 0 {
        let segments = line_segments(text);
        assert(segments =~= seq![Seq::<char>::empty()]);
        assert(trim(Seq::<char>::empty().take(0)).len() == 0);
        assert(line_entry(segments[0]) is None);
        assert(segments.skip(1) =~= Seq::<Seq<char>>::empty());
        assert(collect_entries(add_entry(acc, None), segments.skip(1)) == acc);
    } else {
        let line = brew_line(names[0]);
        let rest = names.skip(1);
        lemma_brew_line_entry(names[0]);
        let at = line.len() as int;
        assert(text[at] == '\n');
        assert forall|j: int| 0 <= j < at implies text[j] != '\n' by {
            assert(text[j] == line[j]);
        }
        lemma_first_index_is(text, '\n', at);
        assert(text.take(at) =~= line);
        assert(text.skip(at + 1) =~= dump_spec(rest));
        let segments = line_segments(text);
        assert(segments[0] == line);
        assert(segments.skip(1) =~= line_segments(dump_spec(rest)));
        assert forall|i: int| 0 <= i < rest.len() implies plain_name(#[trigger] rest[i]) by {
            assert(rest[i] == names[i + 1]);
        }
        lemma_collect_dump(add_entry(acc, Some(names[0])), rest);
    }
}

/// `keep_first` holds what `acc` and `names` hold, and nothing twice if `acc`
/// held nothing twice.
pub proof fn lemma_keep_first(acc: Seq<Seq<char>>, names: Seq<Seq<char>>)
    ensures
        forall|n: Seq<char>| #[trigger]
            keep_first(acc, names).contains(n) <==> acc.contains(n) || names.contains(n),
        acc.no_duplicates() ==> keep_first(acc, names).no_duplicates(),
        acc.no_duplicates() && names.no_duplicates() && (forall|i: int|
            0 <= i < names.len() ==> !acc.contains(#[trigger] names[i])) ==> keep_first(acc, names)
            == acc + names,
    decreases names.len(),
{
    if names.len() == 0 {
        assert(acc + names =~= acc);
    } else {
        let first = names[0];
        let rest = names.skip(1);
        let next = add_entry(acc, Some(first));
        lemma_keep_first(next, rest);
        assert forall|n: Seq<char>| #[trigger]
            keep_first(acc, names).contains(n) <==> acc.contains(n) || names.contains(n) by {
            assert(keep_first(next, rest).contains(n) <==> next.contains(n) || rest.contains(n));
            assert(names.contains(n) <==> n == first || rest.contains(n)) by {
                if names.contains(n) {
                    let i = choose|i: int| 0 <= i < names.len() && names[i] == n;
                    if i > 0 {
                        assert(rest[i - 1] == n);
                    }
                }
                if rest.contains(n) {
                    let i = choose|i: int| 0 <= i < rest.len() && rest[i] == n;
                    assert(names[i + 1] == n);
                }
                if n == first {
                    assert(names[0] == n);
                }
            }
            assert(next.contains(n) <==> acc.contains(n) || n == first) by {
                if !acc.contains(first) {
                    assert(next[acc.len() as int] == first);
                    if next.contains(n) {
                        let i = choose|i: int| 0 <= i < next.len() && next[i] == n;
                        if i < acc.len() {
                            assert(acc[i] == n);
                        }
                    }
                    if acc.contains(n) {
                        let i = choose|i: int| 0 <= i < acc.len() && acc[i] == n;
                        assert(next[i] == n);
                    }
                }
            }
        }
        if acc.no_duplicates() {
            assert(next.no_duplicates());
            if names.no_duplicates() && (forall|i: int|
                0 <= i < names.len() ==> !acc.contains(#[trigger] names[i])) {
                assert(!acc.contains(names[0]));
                assert(rest.no_duplicates());
                assert forall|i: int| 0 <= i < rest.len() implies !next.contains(
                    #[trigger] rest[i],
                ) by {
                    assert(rest[i] == names[i + 1]);
                    if next.contains(rest[i]) {
                        let k = choose|k: int| 0 <= k < next.len() && next[k] == rest[i];
                        if k < acc.len() {
                            assert(acc[k] == rest[i]);
                        }
                    }
                }
                assert(next + rest =~= acc + names);
            }
        }
    }
}

/// Writing names as a manifest and reading it back yields the same set of
/// names: each written name once, at its first place. Where no name was
/// written twice, the very list comes back.
///
/// This holds of names without a line feed, `#` or `"`, which a `brew` line
/// cannot carry.
pub proof fn lemma_dump_then_parse(names: Seq<Seq<char>>)
    requires
        forall|i: int| 0 <= i < names.len() ==> plain_name(#[trigger] names[i]),
    ensures
        manifest_entries(dump_spec(names)) == keep_first(Seq::empty(), names),
        manifest_entries(dump_spec(names)).to_set() == names.to_set(),
        manifest_entries(dump_spec(names)).no_duplicates(),
        names.no_duplicates() ==> manifest_entries(dump_spec(names)) == names,
{
    let none = Seq::<Seq<char>>::empty();
    lemma_collect_dump(none, names);
    lemma_keep_first(none, names);
    assert(none + names =~= names);
    assert(manifest_entries(dump_spec(names)).to_set() =~= names.to_set());
}

/// The manifest that is read where none is named.
pub fn default_manifest() -> (path: String)
    ensures
        path@ == "Brewfile"@,
{
    String::from_str("Brewfile")
}

} // verus!
