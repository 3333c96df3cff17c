//! The queue file: its text holds one command per line, the front of the
//! queue first. Reading and writing the file is left to the caller; this
//! module decides what the text means and what it becomes.
use vstd::prelude::*;

use crate::domain::queue::QueueError;
use crate::domain::command::{
    command_views, is_command_text, lemma_trim_idempotent, lemma_trimmed_is_command_text,
    string_views, lemma_command_text_trims_to_itself, lemma_trim_drop_trailing_space,
    trim, CommandText,
};

verus! {

/// `line` without the carriage return of a `\r\n` line ending.
pub open spec fn strip_cr(line: Seq<char>) -> Seq<char> {
    if line.len() > 0 && line.last() == '\r' {
        line.drop_last()
    } else {
        line
    }
}

/// The lines of `s`, where `cur` is the part of the current line read so
/// far: a line ends at `\n` (a `\r` just before it is dropped), and the
/// last line needs no `\n`. This is how `str::lines` splits a text.
pub open spec fn split_lines(s: Seq<char>, cur: Seq<char>) -> Seq<Seq<char>>
    decreases s.len(),
{
    if s.len() == 0 {
        if cur.len() == 0 {
            Seq::empty()
        } else {
            seq![cur]
        }
    } else if s[0] == '\n' {
        seq![strip_cr(cur)] + split_lines(s.drop_first(), Seq::empty())
    } else {
        split_lines(s.drop_first(), cur.push(s[0]))
    }
}

/// The lines of a text.
pub open spec fn lines(s: Seq<char>) -> Seq<Seq<char>> {
    split_lines(s, Seq::empty())
}

/// The commands that a sequence of lines holds: each line that is not
/// blank, trimmed.
pub open spec fn commands_in(ls: Seq<Seq<char>>) -> Seq<Seq<char>>
    decreases ls.len(),
{
    if ls.len() == 0 {
        Seq::empty()
    } else if trim(ls[0]).len() == 0 {
        commands_in(ls.drop_first())
    } else {
        seq![trim(ls[0])] + commands_in(ls.drop_first())
    }
}

/// The commands in the queue whose file holds the text `s`, front first.
pub open spec fn queue_commands(s: Seq<char>) -> Seq<Seq<char>> {
    commands_in(lines(s))
}

/// The first command of `ls` and the lines after the line that holds it;
/// blank lines before it are dropped.
pub open spec fn pop_front(ls: Seq<Seq<char>>) -> Option<(Seq<char>, Seq<Seq<char>>)>
    decreases ls.len(),
{
    if ls.len() == 0 {
        None
    } else if trim(ls[0]).len() == 0 {
        pop_front(ls.drop_first())
    } else {
        Some((trim(ls[0]), ls.drop_first()))
    }
}

/// The text made of the lines `ls`, each followed by `\n`.
pub open spec fn unlines(ls: Seq<Seq<char>>) -> Seq<char>
    decreases ls.len(),
{
    if ls.len() == 0 {
        Seq::empty()
    } else {
        ls[0] + seq!['\n'] + unlines(ls.drop_first())
    }
}

/// `s` holds no line break.
pub open spec fn is_single_line(s: Seq<char>) -> bool {
    forall|j: int| 0 <= j < s.len() ==> s[j] != '\n'
}

/// The position of the first of the lines `ls` that holds the command
/// `c`, if any.
pub open spec fn first_line_of(ls: Seq<Seq<char>>, c: Seq<char>) -> Option<int>
    decreases ls.len(),
{
    if ls.len() == 0 {
        None
    } else if trim(ls[0]) == c {
        Some(0)
    } else {
        match first_line_of(ls.drop_first(), c) {
            Some(k) => Some(k + 1),
            None => None,
        }
    }
}

/// The lines `ls` without the one at position `k`.
pub open spec fn without_line(ls: Seq<Seq<char>>, k: int) -> Seq<Seq<char>> {
    ls.take(k) + ls.skip(k + 1)
}

/// The lines of `contents`, split as `str::lines` splits them.
pub fn split_into_lines(contents: &str) -> (r: Vec<String>)
    ensures
        string_views(r@) == lines(contents@),
{
    let v = crate::domain::command::chars_of(contents);
    let n = v.len();
    let mut out: Vec<String> = Vec::new();
    let mut start: usize = 0;
    let mut i: usize = 0;
    assert(contents@.subrange(0, n as int) =~= contents@);
    assert(contents@.subrange(0, 0) =~= Seq::<char>::empty());
    assert(string_views(out@) + lines(contents@) =~= lines(contents@));
    while i < n
        invariant
            v@ == contents@,
            n == v.len(),
            start <= i <= n,
            string_views(out@) + split_lines(
                contents@.subrange(i as int, n as int),
                contents@.subrange(start as int, i as int),
            ) == lines(contents@),
        decreases n - i,
    {
        let ghost rest = contents@.subrange(i as int, n as int);
        let ghost cur = contents@.subrange(start as int, i as int);
        assert(rest.drop_first() =~= contents@.subrange(i + 1, n as int));
        if v[i] == '\n' {
            let end = if i > start && v[i - 1] == '\r' {
                i - 1
            } else {
                i
            };
            assert(contents@.subrange(start as int, end as int) =~= strip_cr(cur));
            let line = String::from_str(contents.substring_char(start, end));
            let ghost before = out@;
            out.push(line);
            assert(string_views(out@) =~= string_views(before).push(strip_cr(cur)));
            assert(string_views(out@) + split_lines(
                contents@.subrange(i + 1, n as int),
                contents@.subrange(i + 1, i + 1),
            ) =~= string_views(before) + split_lines(rest, cur)) by {
                assert(contents@.subrange(i + 1, i + 1) =~= Seq::<char>::empty());
            }
            i = i + 1;
            start = i;
        } else {
            assert(cur.push(v@[i as int]) =~= contents@.subrange(start as int, i + 1));
            i = i + 1;
        }
    }
    if start < n {
        let line = String::from_str(contents.substring_char(start, n));
        let ghost before = out@;
        out.push(line);
        assert(string_views(out@) =~= string_views(before).push(
            contents@.subrange(start as int, n as int),
        ));
    }
    assert(string_views(out@) =~= lines(contents@));
    out
}


/// The commands in the queue whose file holds `contents`, front first:
/// every line that is not blank, trimmed.
pub fn parse_commands(contents: &str) -> (r: Vec<CommandText>)
    ensures
        command_views(r@) == queue_commands(contents@),
{
    let ls = split_into_lines(contents);
    let n = ls.len();
    let mut out: Vec<CommandText> = Vec::new();
    let mut k: usize = 0;
    assert(string_views(ls@).subrange(0, n as int) =~= string_views(ls@));
    assert(command_views(out@) + commands_in(string_views(ls@)) =~= commands_in(
        string_views(ls@),
    ));
    while k < n
        invariant
            n == ls.len(),
            k <= n,
            command_views(out@) + commands_in(string_views(ls@).subrange(k as int, n as int))
                == queue_commands(contents@),
            string_views(ls@) == lines(contents@),
        decreases n - k,
    {
        let ghost rest = string_views(ls@).subrange(k as int, n as int);
        assert(rest.drop_first() =~= string_views(ls@).subrange(k + 1, n as int));
        assert(rest[0] == ls@[k as int]@);
        match CommandText::new(ls[k].as_str()) {
            Ok(c) => {
                let ghost before = out@;
                out.push(c);
                assert(command_views(out@) + commands_in(rest.drop_first()) =~= command_views(
                    before,
                ) + commands_in(rest));
            },
            Err(_) => {},
        }
        k = k + 1;
    }
    assert(string_views(ls@).subrange(n as int, n as int) =~= Seq::<Seq<char>>::empty());
    assert(command_views(out@) =~= command_views(out@) + Seq::<Seq<char>>::empty());
    out
}

/// The text of the lines `ls[from..to]`, each followed by `\n`.
fn join_lines(ls: &Vec<String>, from: usize, to: usize) -> (r: String)
    requires
        from <= to <= ls.len(),
    ensures
        r@ == unlines(string_views(ls@).subrange(from as int, to as int)),
{
    let mut out = String::new();
    let mut j = from;
    let newline = "\n";
    proof {
        reveal_strlit("\n");
    }
    assert(out@ + unlines(string_views(ls@).subrange(from as int, to as int)) =~= unlines(
        string_views(ls@).subrange(from as int, to as int),
    ));
    while j < to
        invariant
            to <= ls.len(),
            from <= j <= to,
            newline@ == seq!['\n'],
            out@ + unlines(string_views(ls@).subrange(j as int, to as int)) == unlines(
                string_views(ls@).subrange(from as int, to as int),
            ),
        decreases to - j,
    {
        let ghost rest = string_views(ls@).subrange(j as int, to as int);
        assert(rest.drop_first() =~= string_views(ls@).subrange(j + 1, to as int));
        assert(rest[0] == ls@[j as int]@);
        let ghost before = out@;
        out.append(ls[j].as_str());
        out.append(newline);
        assert(out@ + unlines(rest.drop_first()) =~= before + unlines(rest));
        j = j + 1;
    }
    assert(string_views(ls@).subrange(to as int, to as int) =~= Seq::<Seq<char>>::empty());
    assert(out@ + Seq::<char>::empty() =~= out@);
    out
}

/// Takes the front command off the queue whose file holds `contents`:
/// blank lines before it are dropped, and the text that the file is left
/// with holds the lines after it, each ended by `\n`. `None` when the
/// queue is empty.
pub fn take_first_command(contents: &str) -> (r: Option<(CommandText, String)>)
    ensures
        match pop_front(lines(contents@)) {
            None => r is None,
            Some((first, rest)) => r matches Some((c, text)) && c@ == first && text@ == unlines(
                rest,
            ),
        },
{
    let ls = split_into_lines(contents);
    let n = ls.len();
    let mut k: usize = 0;
    assert(string_views(ls@).subrange(0, n as int) =~= string_views(ls@));
    while k < n
        invariant
            n == ls.len(),
            k <= n,
            pop_front(string_views(ls@).subrange(k as int, n as int)) == pop_front(
                lines(contents@),
            ),
            string_views(ls@) == lines(contents@),
        decreases n - k,
    {
        let ghost rest = string_views(ls@).subrange(k as int, n as int);
        assert(rest.drop_first() =~= string_views(ls@).subrange(k + 1, n as int));
        assert(rest[0] == ls@[k as int]@);
        match CommandText::new(ls[k].as_str()) {
            Ok(c) => {
                let text = join_lines(&ls, k + 1, n);
                return Some((c, text));
            },
            Err(_) => {},
        }
        k = k + 1;
    }
    None
}

/// The command at the front of the queue whose file holds `contents`,
/// left in place: the one to run next. `None` when the queue is empty.
pub fn peek_first_command(contents: &str) -> (r: Option<CommandText>)
    ensures
        match pop_front(lines(contents@)) {
            None => r is None,
            Some((first, _)) => r matches Some(c) && c@ == first,
        },
{
    match take_first_command(contents) {
        Some((c, _)) => Some(c),
        None => None,
    }
}

/// The text that the queue file holding `contents` is left with once
/// `command` has run: the first line that holds the command is dropped,
/// and every other line is kept, each ended by `\n`. `None` when no line
/// holds the command any more (the file was edited meanwhile), in which
/// case the file is to be left as it is.
pub fn remove_command(contents: &str, command: &CommandText) -> (r: Option<String>)
    ensures
        match first_line_of(lines(contents@), command@) {
            None => r is None,
            Some(k) => r matches Some(text) && text@ == unlines(
                without_line(lines(contents@), k),
            ),
        },
{
    let target = String::from_str(command.as_str());
    let ls = split_into_lines(contents);
    let n = ls.len();
    let mut k: usize = 0;
    while k < n
        invariant
            n == ls.len(),
            k <= n,
            target@ == command@,
            is_command_text(command@),
            string_views(ls@) == lines(contents@),
            forall|i: int| 0 <= i < k ==> trim(#[trigger] string_views(ls@)[i]) != command@,
        decreases n - k,
    {
        assert(string_views(ls@)[k as int] == ls@[k as int]@);
        let holds = match CommandText::new(ls[k].as_str()) {
            Ok(c) => String::from_str(c.as_str()) == target,
            Err(_) => false,
        };
        if holds {
            proof {
                lemma_first_line_at(string_views(ls@), command@, k as int);
            }
            let mut text = join_lines(&ls, 0, k);
            let after = join_lines(&ls, k + 1, n);
            text.append(after.as_str());
            proof {
                let v = string_views(ls@);
                lemma_unlines_concat(v.subrange(0, k as int), v.subrange(k + 1, n as int));
                assert(v.subrange(0, k as int) + v.subrange(k + 1, n as int) =~= without_line(
                    v,
                    k as int,
                ));
            }
            return Some(text);
        }
        k = k + 1;
    }
    proof {
        lemma_first_line_none(string_views(ls@), command@);
    }
    None
}

/// The text that adding `command` appends to the queue file: the command
/// and a line break.
pub fn command_line(command: &CommandText) -> (r: String)
    ensures
        r@ == command@.push('\n'),
{
    let mut line = String::from_str(command.as_str());
    let newline = "\n";
    proof {
        reveal_strlit("\n");
    }
    line.append(newline);
    assert(line@ =~= command@.push('\n'));
    line
}


/// The editor to open the queue file with: the one configured (in
/// `EDITOR`), or `nvim` when none is.
pub fn editor_program(configured: Option<String>) -> (r: String)
    ensures
        match configured {
            Some(e) => r@ == e@,
            None => r@ == "nvim"@,
        },
{
    match configured {
        Some(e) => e,
        None => String::from_str("nvim"),
    }
}

/// The answer to opening the queue in the editor, from how running the
/// editor went: `run` is the editor's success and the text of its exit
/// status once it ran, or the text of the error that kept it from
/// starting. An editor that did not start, or that exited without
/// success, gives `EditorSpawn` with the reason.
pub fn editor_outcome(run: Result<(bool, String), String>) -> (r: Result<(), QueueError>)
    ensures
        match run {
            Err(reason) => r matches Err(QueueError::EditorSpawn(m)) && m@ == reason@,
            Ok((true, _)) => r is Ok,
            Ok((false, status)) => r matches Err(QueueError::EditorSpawn(m)) && m@
                == "editor exited with status "@ + status@,
        },
{
    match run {
        Err(reason) => Err(QueueError::EditorSpawn(reason)),
        Ok((true, _)) => Ok(()),
        Ok((false, status)) => {
            let mut message = String::from_str("editor exited with status ");
            message.append(status.as_str());
            Err(QueueError::EditorSpawn(message))
        },
    }
}

/// Splitting a text whose first part ends with `\n` splits the two parts
/// apart.
proof fn lemma_split_after_newline(a: Seq<char>, b: Seq<char>, cur: Seq<char>)
    requires
        a.len() > 0,
        a.last() == '\n',
    ensures
        split_lines(a + b, cur) == split_lines(a, cur) + split_lines(b, Seq::empty()),
    decreases a.len(),
{
    let ab = a + b;
    let a1 = a.drop_first();
    assert(ab.drop_first() =~= a1 + b);
    assert(ab[0] == a[0]);
    if a.len() == 1 {
        assert(a[0] == a.last());
        assert(a1 =~= Seq::<char>::empty());
        assert(a1 + b =~= b);
        assert(split_lines(a1, Seq::empty()) =~= Seq::<Seq<char>>::empty());
        assert(split_lines(a, cur) =~= seq![strip_cr(cur)]);
        assert(split_lines(ab, cur) =~= seq![strip_cr(cur)] + split_lines(b, Seq::empty()));
    } else {
        assert(a1.last() == a.last());
        if a[0] == '\n' {
            lemma_split_after_newline(a1, b, Seq::empty());
            assert(split_lines(ab, cur) == seq![strip_cr(cur)] + split_lines(a1 + b, Seq::empty()));
            assert(split_lines(a, cur) == seq![strip_cr(cur)] + split_lines(a1, Seq::empty()));
            assert(seq![strip_cr(cur)] + (split_lines(a1, Seq::empty()) + split_lines(
                b,
                Seq::empty(),
            )) =~= seq![strip_cr(cur)] + split_lines(a1, Seq::empty()) + split_lines(
                b,
                Seq::empty(),
            ));
        } else {
            lemma_split_after_newline(a1, b, cur.push(a[0]));
            assert(split_lines(ab, cur) == split_lines(a1 + b, cur.push(a[0])));
            assert(split_lines(a, cur) == split_lines(a1, cur.push(a[0])));
        }
    }
}

/// A text of one line and a line break splits into that one line.
proof fn lemma_split_single_line(c: Seq<char>, cur: Seq<char>)
    requires
        is_single_line(c),
    ensures
        split_lines(c + seq!['\n'], cur) == seq![strip_cr(cur + c)],
    decreases c.len(),
{
    let t = c + seq!['\n'];
    if c.len() == 0 {
        assert(t =~= seq!['\n']);
        assert(t.drop_first() =~= Seq::<char>::empty());
        assert(cur + c =~= cur);
        assert(split_lines(t.drop_first(), Seq::empty()) =~= Seq::<Seq<char>>::empty());
        assert(split_lines(t, cur) =~= seq![strip_cr(cur)]);
    } else {
        assert(t.drop_first() =~= c.drop_first() + seq!['\n']);
        assert(t[0] == c[0]);
        assert(c[0] != '\n');
        assert(is_single_line(c.drop_first())) by {
            assert forall|j: int| 0 <= j < c.drop_first().len() implies c.drop_first()[j]
                != '\n' by {
                assert(c.drop_first()[j] == c[j + 1]);
            }
        }
        lemma_split_single_line(c.drop_first(), cur.push(c[0]));
        assert(cur.push(c[0]) + c.drop_first() =~= cur + c);
        assert(split_lines(t, cur) == split_lines(t.drop_first(), cur.push(c[0])));
    }
}

/// Every line of a text is a single line.
proof fn lemma_lines_are_single(s: Seq<char>, cur: Seq<char>)
    requires
        is_single_line(cur),
    ensures
        forall|i: int|
            0 <= i < split_lines(s, cur).len() ==> is_single_line(#[trigger] split_lines(s, cur)[i]),
    decreases s.len(),
{
    if s.len() == 0 {
        if cur.len() == 0 {
            assert(split_lines(s, cur) =~= Seq::<Seq<char>>::empty());
        } else {
            assert(split_lines(s, cur) =~= seq![cur]);
        }
    } else if s[0] == '\n' {
        lemma_lines_are_single(s.drop_first(), Seq::empty());
        let rest = split_lines(s.drop_first(), Seq::empty());
        let first = strip_cr(cur);
        assert(is_single_line(first)) by {
            assert forall|j: int| 0 <= j < first.len() implies first[j] != '\n' by {
                assert(first[j] == cur[j]);
            }
        }
        assert(split_lines(s, cur) == seq![first] + rest);
        assert forall|i: int|
            0 <= i < split_lines(s, cur).len() implies is_single_line(
            #[trigger] split_lines(s, cur)[i],
        ) by {
            if i > 0 {
                assert(split_lines(s, cur)[i] == rest[i - 1]);
            } else {
                assert(split_lines(s, cur)[i] == first);
            }
        }
    } else {
        let next = cur.push(s[0]);
        assert(is_single_line(next)) by {
            assert forall|j: int| 0 <= j < next.len() implies next[j] != '\n' by {
                if j < cur.len() {
                    assert(next[j] == cur[j]);
                }
            }
        }
        lemma_lines_are_single(s.drop_first(), next);
        assert(split_lines(s, cur) == split_lines(s.drop_first(), next));
    }
}

/// The commands of two runs of lines, one after the other.
proof fn lemma_commands_in_concat(xs: Seq<Seq<char>>, ys: Seq<Seq<char>>)
    ensures
        commands_in(xs + ys) == commands_in(xs) + commands_in(ys),
    decreases xs.len(),
{
    if xs.len() == 0 {
        assert(xs + ys =~= ys);
    } else {
        assert((xs + ys).drop_first() =~= xs.drop_first() + ys);
        assert((xs + ys)[0] == xs[0]);
        lemma_commands_in_concat(xs.drop_first(), ys);
        assert(seq![trim(xs[0])] + commands_in(xs.drop_first()) + commands_in(ys) =~= seq![
            trim(xs[0]),
        ] + (commands_in(xs.drop_first()) + commands_in(ys)));
    }
}

/// A one-line run of lines holds the command on that line, if any.
proof fn lemma_commands_in_one(x: Seq<char>)
    ensures
        commands_in(seq![x]) == if trim(x).len() == 0 {
            Seq::<Seq<char>>::empty()
        } else {
            seq![trim(x)]
        },
{
    let one = seq![x];
    assert(one[0] == x);
    assert(one.drop_first() =~= Seq::<Seq<char>>::empty());
    assert(commands_in(one.drop_first()) =~= Seq::<Seq<char>>::empty());
    assert(seq![trim(x)] + Seq::<Seq<char>>::empty() =~= seq![trim(x)]);
}

/// Adding a command to the queue puts it at the back and leaves the
/// commands before it as they were. This needs the file to be empty or to
/// end with a line break, and the command to fit on one line.
pub proof fn lemma_add_puts_command_at_back(s: Seq<char>, c: Seq<char>)
    requires
        s.len() == 0 || s.last() == '\n',
        is_command_text(c),
        is_single_line(c),
    ensures
        queue_commands(s + c.push('\n')) == queue_commands(s).push(c),
{
    let line = c + seq!['\n'];
    assert(c.push('\n') =~= line);
    lemma_split_single_line(c, Seq::empty());
    assert(Seq::<char>::empty() + c =~= c);
    assert(strip_cr(c) == c);
    lemma_command_text_trims_to_itself(c);
    lemma_commands_in_one(c);
    if s.len() == 0 {
        assert(s + line =~= line);
        assert(lines(s) =~= Seq::<Seq<char>>::empty());
        assert(queue_commands(s) =~= Seq::<Seq<char>>::empty());
        assert(queue_commands(s).push(c) =~= seq![c]);
    } else {
        lemma_split_after_newline(s, line, Seq::empty());
        lemma_commands_in_concat(lines(s), seq![c]);
        assert(queue_commands(s) + seq![c] =~= queue_commands(s).push(c));
    }
}

/// The front command of a run of lines comes before the commands of the
/// lines after it.
proof fn lemma_pop_front_commands(ls: Seq<Seq<char>>)
    ensures
        match pop_front(ls) {
            None => commands_in(ls).len() == 0,
            Some((first, rest)) => {
                &&& commands_in(ls) == seq![first] + commands_in(rest)
                &&& (forall|i: int| 0 <= i < ls.len() ==> is_single_line(#[trigger] ls[i]))
                    ==> (forall|i: int| 0 <= i < rest.len() ==> is_single_line(#[trigger] rest[i]))
            },
        },
    decreases ls.len(),
{
    if ls.len() > 0 {
        lemma_pop_front_commands(ls.drop_first());
        assert forall|i: int|
            (forall|i: int| 0 <= i < ls.len() ==> is_single_line(#[trigger] ls[i])) && 0 <= i
                < ls.drop_first().len() implies is_single_line(#[trigger] ls.drop_first()[i]) by {
            assert(ls.drop_first()[i] == ls[i + 1]);
        }
    }
}

/// Writing lines out and reading them back gives the same commands.
proof fn lemma_unlines_commands(xs: Seq<Seq<char>>)
    requires
        forall|i: int| 0 <= i < xs.len() ==> is_single_line(#[trigger] xs[i]),
    ensures
        queue_commands(unlines(xs)) == commands_in(xs),
        unlines(xs).len() == 0 || unlines(xs).last() == '\n',
    decreases xs.len(),
{
    if xs.len() > 0 {
        let x = xs[0];
        let rest = xs.drop_first();
        assert forall|i: int| 0 <= i < rest.len() implies is_single_line(#[trigger] rest[i]) by {
            assert(rest[i] == xs[i + 1]);
        }
        lemma_unlines_commands(rest);
        let line = x + seq!['\n'];
        assert(unlines(xs) == line + unlines(rest));
        lemma_split_after_newline(line, unlines(rest), Seq::empty());
        lemma_split_single_line(x, Seq::empty());
        assert(Seq::<char>::empty() + x =~= x);
        lemma_commands_in_concat(seq![strip_cr(x)], lines(unlines(rest)));
        lemma_commands_in_concat(seq![x], rest);
        assert(seq![x] + rest =~= xs);
        if x.len() > 0 && x.last() == '\r' {
            lemma_trim_drop_trailing_space(x);
        }
        assert(trim(strip_cr(x)) == trim(x));
        lemma_commands_in_one(x);
        lemma_commands_in_one(strip_cr(x));
        if unlines(rest).len() > 0 {
            assert((line + unlines(rest)).last() == unlines(rest).last());
        } else {
            assert((line + unlines(rest)).last() == '\n');
        }
    }
}

/// Taking the front command off the queue gives the first command of the
/// file, and the text that the file is left with holds the other commands
/// in the same order; it is empty or ends with a line break, so that a
/// command added after it lands at the back. It gives nothing exactly when
/// the queue is empty.
pub proof fn lemma_take_first_is_fifo(s: Seq<char>)
    ensures
        match pop_front(lines(s)) {
            None => queue_commands(s).len() == 0,
            Some((first, rest)) => {
                &&& queue_commands(s) == seq![first] + queue_commands(unlines(rest))
                &&& unlines(rest).len() == 0 || unlines(rest).last() == '\n'
            },
        },
{
    lemma_lines_are_single(s, Seq::empty());
    lemma_pop_front_commands(lines(s));
    match pop_front(lines(s)) {
        None => {},
        Some((first, rest)) => {
            lemma_unlines_commands(rest);
        },
    }
}


/// The first line that holds `c` is found at `k` when the lines before it
/// do not hold it.
proof fn lemma_first_line_at(ls: Seq<Seq<char>>, c: Seq<char>, k: int)
    requires
        0 <= k < ls.len(),
        trim(ls[k]) == c,
        forall|i: int| 0 <= i < k ==> trim(#[trigger] ls[i]) != c,
    ensures
        first_line_of(ls, c) == Some(k),
    decreases k,
{
    if k > 0 {
        let t = ls.drop_first();
        assert forall|i: int| 0 <= i < k - 1 implies trim(#[trigger] t[i]) != c by {
            assert(t[i] == ls[i + 1]);
            assert(trim(ls[i + 1]) != c);
        }
        assert(trim(ls[0]) != c);
        lemma_first_line_at(t, c, k - 1);
    }
}

/// No line holds `c` when none of them does.
proof fn lemma_first_line_none(ls: Seq<Seq<char>>, c: Seq<char>)
    requires
        forall|i: int| 0 <= i < ls.len() ==> trim(#[trigger] ls[i]) != c,
    ensures
        first_line_of(ls, c) is None,
    decreases ls.len(),
{
    if ls.len() > 0 {
        let t = ls.drop_first();
        assert forall|i: int| 0 <= i < t.len() implies trim(#[trigger] t[i]) != c by {
            assert(t[i] == ls[i + 1]);
            assert(trim(ls[i + 1]) != c);
        }
        assert(trim(ls[0]) != c);
        lemma_first_line_none(t, c);
    }
}

/// The text of two runs of lines, one after the other.
proof fn lemma_unlines_concat(a: Seq<Seq<char>>, b: Seq<Seq<char>>)
    ensures
        unlines(a + b) == unlines(a) + unlines(b),
    decreases a.len(),
{
    if a.len() == 0 {
        assert(a + b =~= b);
        assert(unlines(a) + unlines(b) =~= unlines(b));
    } else {
        assert((a + b).drop_first() =~= a.drop_first() + b);
        assert((a + b)[0] == a[0]);
        lemma_unlines_concat(a.drop_first(), b);
        assert(a[0] + seq!['\n'] + (unlines(a.drop_first()) + unlines(b)) =~= a[0] + seq!['\n']
            + unlines(a.drop_first()) + unlines(b));
    }
}

/// Where the first line holding the command `c` stands, the commands of
/// the lines split into those before it, `c`, and those after it; none
/// before it is `c`. When no line holds `c`, no command is `c`.
proof fn lemma_first_line_split(ls: Seq<Seq<char>>, c: Seq<char>)
    requires
        is_command_text(c),
    ensures
        match first_line_of(ls, c) {
            Some(k) => {
                &&& 0 <= k < ls.len()
                &&& commands_in(ls) == commands_in(ls.take(k)) + seq![c] + commands_in(
                    ls.skip(k + 1),
                )
                &&& !commands_in(ls.take(k)).contains(c)
            },
            None => !commands_in(ls).contains(c),
        },
    decreases ls.len(),
{
    if ls.len() == 0 {
        assert(commands_in(ls) =~= Seq::<Seq<char>>::empty());
    } else {
        let t = ls.drop_first();
        let head = seq![ls[0]];
        assert(head + t =~= ls);
        lemma_commands_in_concat(head, t);
        lemma_commands_in_one(ls[0]);
        if trim(ls[0]) == c {
            assert(ls.take(0) =~= Seq::<Seq<char>>::empty());
            assert(ls.skip(1) =~= t);
            assert(commands_in(ls.take(0)) =~= Seq::<Seq<char>>::empty());
            assert(commands_in(ls) =~= commands_in(ls.take(0)) + seq![c] + commands_in(ls.skip(1)));
        } else {
            lemma_first_line_split(t, c);
            assert(!commands_in(head).contains(c));
            match first_line_of(t, c) {
                Some(k) => {
                    assert(head + t.take(k) =~= ls.take(k + 1));
                    assert(t.skip(k + 1) =~= ls.skip(k + 2));
                    lemma_commands_in_concat(head, t.take(k));
                    assert(commands_in(ls) =~= commands_in(ls.take(k + 1)) + seq![c]
                        + commands_in(ls.skip(k + 2)));
                    assert(!commands_in(ls.take(k + 1)).contains(c)) by {
                        let q = commands_in(ls.take(k + 1));
                        if q.contains(c) {
                            let j = choose|j: int| 0 <= j < q.len() && q[j] == c;
                            if j < commands_in(head).len() {
                                assert(commands_in(head)[j] == c);
                            } else {
                                assert(commands_in(t.take(k))[j - commands_in(head).len()]
                                    == c);
                            }
                        }
                    }
                },
                None => {
                    assert(!commands_in(ls).contains(c)) by {
                        let q = commands_in(ls);
                        if q.contains(c) {
                            let j = choose|j: int| 0 <= j < q.len() && q[j] == c;
                            if j < commands_in(head).len() {
                                assert(commands_in(head)[j] == c);
                            } else {
                                assert(commands_in(t)[j - commands_in(head).len()] == c);
                            }
                        }
                    }
                },
            }
        }
    }
}

/// Once a command has run, taking it out of the queue file removes that
/// one command and nothing else: the commands before and after it stay, in
/// order, and the text is left empty or ending with a line break. When no
/// line holds the command, the queue does not hold it.
pub proof fn lemma_remove_command_takes_out_one(s: Seq<char>, c: Seq<char>)
    requires
        is_command_text(c),
    ensures
        match first_line_of(lines(s), c) {
            Some(k) => {
                let before = commands_in(lines(s).take(k));
                let after = commands_in(lines(s).skip(k + 1));
                &&& queue_commands(s) == before + seq![c] + after
                &&& !before.contains(c)
                &&& queue_commands(unlines(without_line(lines(s), k))) == before + after
                &&& unlines(without_line(lines(s), k)).len() == 0 || unlines(
                    without_line(lines(s), k),
                ).last() == '\n'
            },
            None => !queue_commands(s).contains(c),
        },
{
    let ls = lines(s);
    lemma_first_line_split(ls, c);
    lemma_lines_are_single(s, Seq::empty());
    match first_line_of(ls, c) {
        Some(k) => {
            let w = without_line(ls, k);
            assert forall|i: int| 0 <= i < w.len() implies is_single_line(#[trigger] w[i]) by {
                if i < k {
                    assert(w[i] == ls[i]);
                } else {
                    assert(w[i] == ls[i + 1]);
                }
            }
            lemma_unlines_commands(w);
            lemma_commands_in_concat(ls.take(k), ls.skip(k + 1));
        },
        None => {},
    }
}

/// Running the front command and then taking it out of an unchanged queue
/// file leaves the other commands, in order: run-then-remove is
/// first in, first out. The front command is found in the file, so it is
/// removed.
pub proof fn lemma_run_then_remove_is_fifo(s: Seq<char>)
    ensures
        match pop_front(lines(s)) {
            None => queue_commands(s).len() == 0,
            Some((first, _)) => {
                &&& first_line_of(lines(s), first) is Some
                &&& queue_commands(s).len() > 0 && queue_commands(s)[0] == first
                &&& queue_commands(
                    unlines(without_line(lines(s), first_line_of(lines(s), first)->0)),
                ) == queue_commands(s).drop_first()
            },
        },
{
    let ls = lines(s);
    lemma_pop_front_first_line(ls);
    lemma_pop_front_commands(ls);
    match pop_front(ls) {
        None => {},
        Some((first, _)) => {
            lemma_trimmed_is_command_text(first);
            lemma_remove_command_takes_out_one(s, first);
            let k = first_line_of(ls, first)->0;
            let after = commands_in(ls.skip(k + 1));
            assert(commands_in(ls.take(k)) =~= Seq::<Seq<char>>::empty());
            assert(queue_commands(s) =~= seq![first] + after);
            assert(queue_commands(s).drop_first() =~= after);
            assert(Seq::<Seq<char>>::empty() + after =~= after);
        },
    }
}

/// The front command of the lines is held first by the line it came from,
/// and the lines before that line hold no command.
proof fn lemma_pop_front_first_line(ls: Seq<Seq<char>>)
    ensures
        match pop_front(ls) {
            None => true,
            Some((first, _)) => {
                &&& trim(first).len() > 0 && first == trim(first)
                &&& first_line_of(ls, first) matches Some(k) && 0 <= k < ls.len() && commands_in(
                    ls.take(k),
                ).len() == 0
            },
        },
    decreases ls.len(),
{
    if ls.len() > 0 {
        let t = ls.drop_first();
        if trim(ls[0]).len() == 0 {
            lemma_pop_front_first_line(t);
            match pop_front(t) {
                None => {},
                Some((first, _)) => {
                    let k = first_line_of(t, first)->0;
                    assert(trim(ls[0]) != first);
                    let head = seq![ls[0]];
                    assert(head + t.take(k) =~= ls.take(k + 1));
                    lemma_commands_in_concat(head, t.take(k));
                    lemma_commands_in_one(ls[0]);
                },
            }
        } else {
            lemma_trim_idempotent(ls[0]);
            assert(ls.take(0) =~= Seq::<Seq<char>>::empty());
        }
    }
}


/// A text of one line without a line break is that one line, joined to
/// what was read of it so far.
proof fn lemma_split_unterminated(t: Seq<char>, cur: Seq<char>)
    requires
        is_single_line(t),
        cur.len() + t.len() > 0,
    ensures
        split_lines(t, cur) == seq![cur + t],
    decreases t.len(),
{
    if t.len() == 0 {
        assert(cur + t =~= cur);
    } else {
        assert(t[0] != '\n');
        assert(is_single_line(t.drop_first())) by {
            assert forall|j: int| 0 <= j < t.drop_first().len() implies t.drop_first()[j]
                != '\n' by {
                assert(t.drop_first()[j] == t[j + 1]);
            }
        }
        lemma_split_unterminated(t.drop_first(), cur.push(t[0]));
        assert(cur.push(t[0]) + t.drop_first() =~= cur + t);
    }
}

/// An empty text has no lines.
pub proof fn lemma_lines_of_empty()
    ensures
        lines(Seq::empty()).len() == 0,
{
}

/// A line with a line break after it, written after whole lines, is read
/// back as one more line (without the carriage return of a `\r\n`).
pub proof fn lemma_lines_add_terminated(s: Seq<char>, t: Seq<char>)
    requires
        s.len() == 0 || s.last() == '\n',
        is_single_line(t),
    ensures
        lines(s + t + seq!['\n']) == lines(s).push(strip_cr(t)),
{
    let line = t + seq!['\n'];
    assert(s + t + seq!['\n'] =~= s + line);
    lemma_split_single_line(t, Seq::empty());
    assert(Seq::<char>::empty() + t =~= t);
    if s.len() == 0 {
        assert(s + line =~= line);
        assert(lines(s) =~= Seq::<Seq<char>>::empty());
        assert(lines(s).push(strip_cr(t)) =~= seq![strip_cr(t)]);
    } else {
        lemma_split_after_newline(s, line, Seq::empty());
        assert(lines(s) + seq![strip_cr(t)] =~= lines(s).push(strip_cr(t)));
    }
}

/// A last line without a line break, written after whole lines, is still
/// read as a line: nothing of it is lost.
pub proof fn lemma_lines_add_unterminated(s: Seq<char>, t: Seq<char>)
    requires
        s.len() == 0 || s.last() == '\n',
        t.len() > 0,
        is_single_line(t),
    ensures
        lines(s + t) == lines(s).push(t),
{
    lemma_split_unterminated(t, Seq::empty());
    assert(Seq::<char>::empty() + t =~= t);
    if s.len() == 0 {
        assert(s + t =~= t);
        assert(lines(s) =~= Seq::<Seq<char>>::empty());
        assert(lines(s).push(t) =~= seq![t]);
    } else {
        lemma_split_after_newline(s, t, Seq::empty());
        assert(lines(s) + seq![t] =~= lines(s).push(t));
    }
}

/// A command on a last line without a line break is in the queue, at the
/// back, so taking commands off the front reaches it.
pub proof fn lemma_unterminated_command_is_kept(s: Seq<char>, t: Seq<char>)
    requires
        s.len() == 0 || s.last() == '\n',
        trim(t).len() > 0,
        is_single_line(t),
    ensures
        queue_commands(s + t) == queue_commands(s).push(trim(t)),
{
    lemma_lines_add_unterminated(s, t);
    lemma_commands_in_concat(lines(s), seq![t]);
    lemma_commands_in_one(t);
    assert(lines(s).push(t) =~= lines(s) + seq![t]);
    assert(queue_commands(s) + seq![trim(t)] =~= queue_commands(s).push(trim(t)));
}

} // verus!
