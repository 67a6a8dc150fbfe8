//! The mappings of a process, as `/proc/<pid>/maps` lists them.

use crate::text::{
    chars_of, contains_text, find_text, found_at, found_text_is_a_part, lowered, occurs_at,
    same_text, text_of,
};
use vstd::prelude::*;
use vstd::slice::slice_subrange;

verus! {

/// The lines of a text.
pub open spec fn lines_of(text: Seq<char>) -> Seq<Seq<char>>
    decreases text.len(),
{
    if text.len() == 0 {
        seq![seq![]]
    } else {
        let rest = lines_of(text.drop_last());
        if text.last() == '\n' {
            rest.push(seq![])
        } else {
            rest.drop_last().push(rest.last().push(text.last()))
        }
    }
}

/// How many blanks `s` starts with.
pub open spec fn blanks(s: Seq<char>) -> nat
    decreases s.len(),
{
    if s.len() > 0 && s[0] == ' ' {
        1 + blanks(s.drop_first())
    } else {
        0
    }
}

/// How many characters stand before the first blank of `s`.
pub open spec fn word_len(s: Seq<char>) -> nat
    decreases s.len(),
{
    if s.len() > 0 && s[0] != ' ' {
        1 + word_len(s.drop_first())
    } else {
        0
    }
}

/// `s` without the blanks it starts with.
pub open spec fn unindented(s: Seq<char>) -> Seq<char> {
    s.skip(blanks(s) as int)
}

/// The first word of `s`, which starts with it.
pub open spec fn first_word(s: Seq<char>) -> Seq<char> {
    s.take(word_len(s) as int)
}

/// What follows the first `n` words of `s`, without the blanks before it.
pub open spec fn after_words(s: Seq<char>, n: nat) -> Seq<char>
    decreases n,
{
    if n == 0 {
        unindented(s)
    } else {
        let rest = after_words(s, (n - 1) as nat);
        unindented(rest.skip(word_len(rest) as int))
    }
}

/// The permissions that a line gives: its second word.
pub open spec fn permissions(line: Seq<char>) -> Seq<char> {
    first_word(after_words(line, 1))
}

/// The line gives a mapping that can be executed.
pub open spec fn is_executable(line: Seq<char>) -> bool {
    permissions(line).len() > 2 && permissions(line)[2] == 'x'
}

/// `s` without the mark that the path of a file carries when the file is gone.
pub open spec fn unmarked(s: Seq<char>) -> Seq<char> {
    let mark = " (deleted)"@;
    if occurs_at(s, mark, s.len() - mark.len()) {
        s.take(s.len() - mark.len())
    } else {
        s
    }
}

/// The file that a line maps: what follows its first five words, where that is an
/// absolute path. A mapping of something else has none.
pub open spec fn mapped_file(line: Seq<char>) -> Option<Seq<char>> {
    let rest = after_words(line, 5);
    if rest.len() > 0 && rest[0] == '/' {
        Some(unmarked(rest))
    } else {
        None
    }
}

/// One mapping of a process.
pub struct MapEntry {
    pub executable: bool,
    /// The file that is mapped, if it is one.
    pub path: Option<String>,
}

/// `entry` is the mapping that `line` gives.
pub open spec fn is_entry(line: Seq<char>, entry: MapEntry) -> bool {
    &&& entry.executable == is_executable(line)
    &&& match entry.path {
        Some(p) => mapped_file(line) == Some(p@),
        None => mapped_file(line) is None,
    }
}

proof fn blanks_are(s: Seq<char>, n: int)
    requires
        0 <= n <= s.len(),
        forall|i: int| 0 <= i < n ==> s[i] == ' ',
        n < s.len() ==> s[n] != ' ',
    ensures
        blanks(s) == n,
    decreases s.len(),
{
    if n > 0 {
        blanks_are(s.drop_first(), n - 1);
    }
}

proof fn word_is(s: Seq<char>, n: int)
    requires
        0 <= n <= s.len(),
        forall|i: int| 0 <= i < n ==> s[i] != ' ',
        n < s.len() ==> s[n] == ' ',
    ensures
        word_len(s) == n,
    decreases s.len(),
{
    if n > 0 {
        word_is(s.drop_first(), n - 1);
    }
}

/// Where the blanks end that stand at `at`.
fn skip_blanks(line: &[char], at: usize) -> (r: usize)
    requires
        at <= line@.len(),
    ensures
        at <= r <= line@.len(),
        line@.skip(r as int) == unindented(line@.skip(at as int)),
{
    let mut r: usize = at;
    while r < line.len() && line[r] == ' '
        invariant
            at <= r <= line@.len(),
            forall|i: int| at <= i < r ==> line@[i] == ' ',
        decreases line@.len() - r,
    {
        r += 1;
    }
    proof {
        let s = line@.skip(at as int);
        blanks_are(s, r - at);
        assert(line@.skip(r as int) =~= s.skip(r - at));
    }
    r
}

/// Where the word ends that stands at `at`.
fn skip_word(line: &[char], at: usize) -> (r: usize)
    requires
        at <= line@.len(),
    ensures
        at <= r <= line@.len(),
        r - at == word_len(line@.skip(at as int)),
{
    let mut r: usize = at;
    while r < line.len() && line[r] != ' '
        invariant
            at <= r <= line@.len(),
            forall|i: int| at <= i < r ==> line@[i] != ' ',
        decreases line@.len() - r,
    {
        r += 1;
    }
    proof {
        word_is(line@.skip(at as int), r - at);
    }
    r
}

/// Where the word or the rest behind `n` words starts.
fn skip_words(line: &[char], n: usize) -> (r: usize)
    ensures
        r <= line@.len(),
        line@.skip(r as int) == after_words(line@, n as nat),
{
    assert(line@.skip(0) =~= line@);
    let mut r: usize = skip_blanks(line, 0);
    for i in 0..n
        invariant
            r <= line@.len(),
            line@.skip(r as int) == after_words(line@, i as nat),
    {
        let ghost rest = line@.skip(r as int);
        let end: usize = skip_word(line, r);
        assert(line@.skip(end as int) =~= rest.skip(word_len(rest) as int));
        r = skip_blanks(line, end);
    }
    r
}

/// The text of a path without the mark that it carries when the file is gone.
fn unmarked_text(path: &[char]) -> (r: String)
    ensures
        r@ == unmarked(path@),
{
    let mark = chars_of(" (deleted)");
    assert(path.len() == path@.len());
    if mark.len() <= path.len() {
        let end: usize = path.len() - mark.len();
        if found_at(path, mark.as_slice(), end) {
            assert(path@.subrange(0, end as int) =~= path@.take(end as int));
            return text_of(slice_subrange(path, 0, end));
        }
    }
    text_of(path)
}

/// The mapping that a line gives.
fn parse_line(line: &[char]) -> (r: MapEntry)
    ensures
        is_entry(line@, r),
{
    let at: usize = skip_words(line, 1);
    let end: usize = skip_word(line, at);
    assert(permissions(line@) =~= line@.subrange(at as int, end as int));
    let executable = end - at > 2 && line[at + 2] == 'x';
    let start: usize = skip_words(line, 5);
    let rest = slice_subrange(line, start, line.len());
    assert(rest@ =~= after_words(line@, 5));
    let path = if rest.len() > 0 && rest[0] == '/' {
        Some(unmarked_text(rest))
    } else {
        None
    };
    MapEntry { executable, path }
}

/// The mappings that a text lists, one per line.
pub fn parse_maps(text: &str) -> (r: Vec<MapEntry>)
    ensures
        r@.len() == lines_of(text@).len(),
        forall|i: int| 0 <= i < r@.len() ==> is_entry(lines_of(text@)[i], #[trigger] r@[i]),
{
    let chars = chars_of(text);
    let mut r: Vec<MapEntry> = Vec::new();
    let mut line: Vec<char> = Vec::new();
    let ghost mut done: Seq<Seq<char>> = seq![];
    assert(done.push(line@) =~= lines_of(text@.take(0)));
    for i in 0..chars.len()
        invariant
            chars@ == text@,
            done.push(line@) == lines_of(text@.take(i as int)),
            r@.len() == done.len(),
            forall|j: int| 0 <= j < r@.len() ==> is_entry(done[j], #[trigger] r@[j]),
    {
        let ghost was = line@;
        assert(text@.take(i + 1).drop_last() =~= text@.take(i as int));
        assert(done.push(was).drop_last() =~= done);
        if chars[i] == '\n' {
            r.push(parse_line(line.as_slice()));
            line = Vec::new();
            proof {
                done = done.push(was);
                assert(done.push(line@) =~= lines_of(text@.take(i + 1)));
            }
        } else {
            line.push(chars[i]);
            assert(done.push(line@) =~= lines_of(text@.take(i + 1)));
        }
    }
    assert(text@.take(text@.len() as int) =~= text@);
    r.push(parse_line(line.as_slice()));
    r
}

/// The files that the lines map so that they can be executed, line by line.
pub open spec fn executable_files(lines: Seq<Seq<char>>) -> Seq<Seq<char>>
    decreases lines.len(),
{
    if lines.len() == 0 {
        seq![]
    } else {
        let rest = executable_files(lines.drop_last());
        let line = lines.last();
        if is_executable(line) && mapped_file(line) is Some {
            rest.push(mapped_file(line)->0)
        } else {
            rest
        }
    }
}

/// Each of `texts` once, where it comes first.
pub open spec fn distinct(texts: Seq<Seq<char>>) -> Seq<Seq<char>>
    decreases texts.len(),
{
    if texts.len() == 0 {
        seq![]
    } else {
        let rest = distinct(texts.drop_last());
        if rest.contains(texts.last()) {
            rest
        } else {
            rest.push(texts.last())
        }
    }
}

/// Those of `texts` that speak of Lua, in any case of the letters.
pub open spec fn lua_named(texts: Seq<Seq<char>>) -> Seq<Seq<char>>
    decreases texts.len(),
{
    if texts.len() == 0 {
        seq![]
    } else {
        let rest = lua_named(texts.drop_last());
        if contains_text(lowered(texts.last()), "lua"@) {
            rest.push(texts.last())
        } else {
            rest
        }
    }
}

/// The texts of strings.
pub open spec fn views(texts: Seq<String>) -> Seq<Seq<char>> {
    texts.map_values(|t: String| t@)
}

fn has_text(texts: &Vec<String>, text: &str) -> (r: bool)
    ensures
        r == views(texts@).contains(text@),
{
    for i in 0..texts.len()
        invariant
            forall|j: int| 0 <= j < i ==> views(texts@)[j] != text@,
    {
        if same_text(texts[i].as_str(), text) {
            assert(views(texts@)[i as int] == text@);
            return true;
        }
    }
    false
}

/// The files that a process maps so that they can be executed, each once.
pub fn all_exec_maps(maps: &str) -> (r: Vec<String>)
    ensures
        views(r@) == distinct(executable_files(lines_of(maps@))),
{
    let entries = parse_maps(maps);
    let ghost lines = lines_of(maps@);
    let mut r: Vec<String> = Vec::new();
    assert(views(r@) =~= distinct(executable_files(lines.take(0))));
    for i in 0..entries.len()
        invariant
            entries@.len() == lines.len(),
            forall|j: int| 0 <= j < lines.len() ==> is_entry(lines[j], #[trigger] entries@[j]),
            views(r@) == distinct(executable_files(lines.take(i as int))),
    {
        let ghost before = views(r@);
        let ghost files = executable_files(lines.take(i as int));
        assert(lines.take(i + 1).drop_last() =~= lines.take(i as int));
        assert(is_entry(lines[i as int], entries@[i as int]));
        if entries[i].executable {
            if let Some(path) = &entries[i].path {
                assert(files.push(path@).drop_last() =~= files);
                if !has_text(&r, path.as_str()) {
                    r.push(path.clone());
                    assert(views(r@) =~= before.push(path@));
                }
            }
        }
    }
    assert(lines.take(entries@.len() as int) =~= lines);
    r
}

/// The files that a process maps so that they can be executed and whose paths speak of
/// Lua, each once.
pub fn lua_named_maps(maps: &str) -> (r: Vec<String>)
    ensures
        views(r@) == distinct(lua_named(executable_files(lines_of(maps@)))),
{
    let entries = parse_maps(maps);
    let ghost lines = lines_of(maps@);
    let mut r: Vec<String> = Vec::new();
    assert(views(r@) =~= distinct(lua_named(executable_files(lines.take(0)))));
    for i in 0..entries.len()
        invariant
            entries@.len() == lines.len(),
            forall|j: int| 0 <= j < lines.len() ==> is_entry(lines[j], #[trigger] entries@[j]),
            views(r@) == distinct(lua_named(executable_files(lines.take(i as int)))),
    {
        let ghost before = views(r@);
        let ghost files = executable_files(lines.take(i as int));
        assert(lines.take(i + 1).drop_last() =~= lines.take(i as int));
        assert(is_entry(lines[i as int], entries@[i as int]));
        if entries[i].executable {
            if let Some(path) = &entries[i].path {
                assert(files.push(path@).drop_last() =~= files);
                let lower = path.as_str().to_lowercase();
                if find_text(chars_of(lower.as_str()).as_slice(), "lua") {
                    let ghost named = lua_named(files);
                    assert(named.push(path@).drop_last() =~= named);
                    if !has_text(&r, path.as_str()) {
                        r.push(path.clone());
                        assert(views(r@) =~= before.push(path@));
                    }
                }
            }
        }
    }
    assert(lines.take(entries@.len() as int) =~= lines);
    r
}

/// Every file is listed once, and none is left out.
pub proof fn distinct_lists_each_once(texts: Seq<Seq<char>>)
    ensures
        distinct(texts).no_duplicates(),
        forall|t: Seq<char>| #[trigger] distinct(texts).contains(t) <==> texts.contains(t),
    decreases texts.len(),
{
    if texts.len() > 0 {
        let rest = distinct(texts.drop_last());
        distinct_lists_each_once(texts.drop_last());
        let all = distinct(texts);
        assert forall|t: Seq<char>| #[trigger] all.contains(t) <==> texts.contains(t) by {
            if texts.contains(t) {
                let i = texts.index_of(t);
                if i < texts.len() - 1 {
                    assert(texts.drop_last()[i] == t);
                    assert(rest.contains(t));
                    assert(all[rest.index_of(t)] == t);
                } else if !rest.contains(t) {
                    assert(all[rest.len() as int] == t);
                }
            }
            if all.contains(t) {
                let i = all.index_of(t);
                if i < rest.len() {
                    assert(rest[i] == t);
                    assert(rest.contains(t));
                    assert(texts.drop_last().contains(t));
                    assert(texts[texts.drop_last().index_of(t)] == t);
                } else {
                    assert(texts[texts.len() - 1] == t);
                }
            }
        }
    }
}

/// The files whose paths speak of Lua are among all the files, and no other of those
/// speaks of it.
pub proof fn lua_named_selects(texts: Seq<Seq<char>>)
    ensures
        forall|t: Seq<char>| #[trigger]
            lua_named(texts).contains(t) <==> texts.contains(t) && contains_text(
                lowered(t),
                "lua"@,
            ),
    decreases texts.len(),
{
    if texts.len() > 0 {
        let fewer = texts.drop_last();
        let rest = lua_named(fewer);
        lua_named_selects(fewer);
        let all = lua_named(texts);
        assert forall|t: Seq<char>| #[trigger] all.contains(t) <==> texts.contains(t)
            && contains_text(lowered(t), "lua"@) by {
            if texts.contains(t) && contains_text(lowered(t), "lua"@) {
                let i = texts.index_of(t);
                if i < fewer.len() {
                    assert(fewer[i] == t);
                    assert(rest.contains(t));
                    assert(all[rest.index_of(t)] == t);
                } else {
                    assert(all[rest.len() as int] == t);
                }
            }
            if all.contains(t) {
                let i = all.index_of(t);
                if i < rest.len() {
                    assert(rest[i] == t);
                    assert(rest.contains(t));
                    assert(texts[fewer.index_of(t)] == t);
                } else {
                    assert(texts[texts.len() - 1] == t);
                }
            }
        }
    }
}

proof fn text_has_a_line(text: Seq<char>)
    ensures
        lines_of(text).len() > 0,
    decreases text.len(),
{
    if text.len() > 0 {
        text_has_a_line(text.drop_last());
    }
}

/// A text has one line more than it has line ends: what stands behind the last line end is
/// the last line, and a text without a line end is one.
pub proof fn line_ends_end_lines(text: Seq<char>, line: Seq<char>)
    requires
        !line.contains('\n'),
    ensures
        lines_of(line) == seq![line],
        lines_of(text + seq!['\n'] + line) == lines_of(text).push(line),
    decreases line.len(),
{
    let whole = text + seq!['\n'] + line;
    text_has_a_line(text);
    if line.len() > 0 {
        let less = line.drop_last();
        assert(line.contains(line.last()));
        assert forall|i: int| 0 <= i < less.len() implies less[i] != '\n' by {
            assert(line.contains(line[i]));
        }
        line_ends_end_lines(text, less);
        assert(whole.drop_last() =~= text + seq!['\n'] + less);
        assert(line =~= less.push(line.last()));
        assert(lines_of(line) =~= seq![line]);
        assert(lines_of(whole) =~= lines_of(text).push(line));
    } else {
        assert(whole.drop_last() =~= text);
        assert(line =~= seq![]);
    }
}

proof fn next_word_follows(
    line: Seq<char>,
    n: nat,
    word: Seq<char>,
    gap: Seq<char>,
    rest: Seq<char>,
)
    requires
        after_words(line, n) == word + gap + rest,
        !word.contains(' '),
        forall|i: int| 0 <= i < gap.len() ==> gap[i] == ' ',
        gap.len() > 0,
        rest.len() > 0 ==> rest[0] != ' ',
    ensures
        first_word(after_words(line, n)) == word,
        after_words(line, n + 1) == rest,
{
    let here = word + gap + rest;
    assert(gap[0] == ' ');
    assert forall|i: int| 0 <= i < word.len() implies here[i] != ' ' by {
        assert(word.contains(word[i]));
    }
    assert(here[word.len() as int] == gap[0]);
    word_is(here, word.len() as int);
    assert(here.take(word.len() as int) =~= word);
    let behind = here.skip(word.len() as int);
    assert(behind =~= gap + rest);
    assert forall|i: int| 0 <= i < gap.len() implies behind[i] == ' ' by {
        assert(behind[i] == gap[i]);
    }
    blanks_are(behind, gap.len() as int);
    assert(behind.skip(gap.len() as int) =~= rest);
}

/// A mapping is read word by word. The second word holds the permissions, and the third of
/// these says whether it can be executed. What stands behind the fifth word is the file,
/// where it starts at the root, without the mark of a file that is gone.
pub proof fn mapping_is_read_word_by_word(
    range: Seq<char>,
    permissions: Seq<char>,
    offset: Seq<char>,
    device: Seq<char>,
    inode: Seq<char>,
    gaps: Seq<Seq<char>>,
    file: Seq<char>,
)
    requires
        range.len() > 0 && !range.contains(' '),
        permissions.len() > 0 && !permissions.contains(' '),
        offset.len() > 0 && !offset.contains(' '),
        device.len() > 0 && !device.contains(' '),
        inode.len() > 0 && !inode.contains(' '),
        gaps.len() == 5,
        forall|i: int|
            0 <= i < 5 ==> (#[trigger] gaps[i]).len() > 0 && forall|j: int|
                0 <= j < gaps[i].len() ==> gaps[i][j] == ' ',
        file.len() > 0 ==> file[0] != ' ',
    ensures
        ({
            let line = range + gaps[0] + permissions + gaps[1] + offset + gaps[2] + device + gaps[3]
                + inode + gaps[4] + file;
            &&& is_executable(line) <==> permissions.len() > 2 && permissions[2] == 'x'
            &&& mapped_file(line) is Some <==> file.len() > 0 && file[0] == '/'
            &&& mapped_file(line) is Some && " (deleted)"@.is_suffix_of(file) ==> mapped_file(line)
                == Some(file.take(file.len() - " (deleted)"@.len()))
            &&& mapped_file(line) is Some && !" (deleted)"@.is_suffix_of(file) ==> mapped_file(line)
                == Some(file)
        }),
{
    let line = range + gaps[0] + permissions + gaps[1] + offset + gaps[2] + device + gaps[3] + inode
        + gaps[4] + file;
    let r5 = file;
    let r4 = inode + gaps[4] + r5;
    let r3 = device + gaps[3] + r4;
    let r2 = offset + gaps[2] + r3;
    let r1 = permissions + gaps[1] + r2;
    let r0 = range + gaps[0] + r1;
    assert(line =~= r0);
    assert(range.contains(range[0]) && permissions.contains(permissions[0]) && offset.contains(
        offset[0],
    ) && device.contains(device[0]) && inode.contains(inode[0]));
    blanks_are(line, 0);
    assert(line.skip(0) =~= line);
    next_word_follows(line, 0, range, gaps[0], r1);
    next_word_follows(line, 1, permissions, gaps[1], r2);
    next_word_follows(line, 2, offset, gaps[2], r3);
    next_word_follows(line, 3, device, gaps[3], r4);
    next_word_follows(line, 4, inode, gaps[4], r5);
    let mark = " (deleted)"@;
    assert(mark.is_suffix_of(file) <==> occurs_at(file, mark, file.len() - mark.len()));
}

/// The files are those of the lines that map one so that it can be executed, in the order
/// of the lines.
pub proof fn executable_files_are_those_of_the_lines(lines: Seq<Seq<char>>)
    ensures
        executable_files(lines) == lines.filter_map(
            |line: Seq<char>|
                if is_executable(line) {
                    mapped_file(line)
                } else {
                    None
                },
        ),
    decreases lines.len(),
{
    if lines.len() > 0 {
        executable_files_are_those_of_the_lines(lines.drop_last());
        assert(executable_files(lines) =~= lines.filter_map(
            |line: Seq<char>|
                if is_executable(line) {
                    mapped_file(line)
                } else {
                    None
                },
        ));
    }
}

/// Those of the files whose paths speak of Lua, in any case of the letters, in their order.
pub proof fn lua_named_keeps_the_order(texts: Seq<Seq<char>>)
    ensures
        lua_named(texts) == texts.filter(
            |t: Seq<char>|
                exists|before: Seq<char>, after: Seq<char>|
                    lowered(t) == #[trigger] (before + "lua"@ + after),
        ),
    decreases texts.len(),
{
    reveal(Seq::filter);
    if texts.len() > 0 {
        lua_named_keeps_the_order(texts.drop_last());
        found_text_is_a_part(lowered(texts.last()), "lua"@);
    }
}

/// Each file is listed where it comes first: one that comes first before another does is
/// listed before it.
pub proof fn distinct_keeps_the_order(texts: Seq<Seq<char>>, i: int, j: int)
    requires
        0 <= i < j < distinct(texts).len(),
    ensures
        exists|k: int|
            {
                &&& 0 <= k < texts.len()
                &&& #[trigger] texts[k] == distinct(texts)[i]
                &&& !texts.take(k).contains(distinct(texts)[j])
            },
    decreases texts.len(),
{
    let fewer = texts.drop_last();
    let rest = distinct(fewer);
    distinct_lists_each_once(fewer);
    if j < rest.len() {
        distinct_keeps_the_order(fewer, i, j);
        let k = choose|k: int|
            {
                &&& 0 <= k < fewer.len()
                &&& #[trigger] fewer[k] == rest[i]
                &&& !fewer.take(k).contains(rest[j])
            };
        assert(texts[k] == fewer[k]);
        assert(texts.take(k) =~= fewer.take(k));
    } else {
        assert(rest.contains(rest[i]));
        assert(fewer.contains(rest[i]));
        let k = fewer.index_of(rest[i]);
        let last = texts.last();
        assert(distinct(texts)[j] == last);
        assert(!fewer.contains(last));
        assert(texts[k] == rest[i]);
        if texts.take(k).contains(last) {
            let m = texts.take(k).index_of(last);
            assert(fewer[m] == last);
            assert(fewer.contains(last));
        }
    }
}

} // verus!
