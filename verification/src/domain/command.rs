use vstd::prelude::*;

verus! {

/// The characters with the Unicode `White_Space` property, which is what
/// `char::is_whitespace` and `str::trim` go by.
pub open spec fn is_space(c: char) -> bool {
    ||| c == '\u{9}' || c == '\u{a}' || c == '\u{b}' || c == '\u{c}' || c == '\u{d}'
    ||| c == ' ' || c == '\u{85}' || c == '\u{a0}' || c == '\u{1680}'
    ||| '\u{2000}' <= c <= '\u{200a}'
    ||| c == '\u{2028}' || c == '\u{2029}' || c == '\u{202f}' || c == '\u{205f}'
    ||| c == '\u{3000}'
}

/// Decides `is_space`.
pub fn char_is_space(c: char) -> (r: bool)
    ensures
        r == is_space(c),
{
    c == '\u{9}' || c == '\u{a}' || c == '\u{b}' || c == '\u{c}' || c == '\u{d}' || c == ' '
        || c == '\u{85}' || c == '\u{a0}' || c == '\u{1680}' || ('\u{2000}' <= c && c
        <= '\u{200a}') || c == '\u{2028}' || c == '\u{2029}' || c == '\u{202f}' || c
        == '\u{205f}' || c == '\u{3000}'
}

/// The characters of a string slice, in order.
pub fn chars_of(s: &str) -> (v: Vec<char>)
    ensures
        v@ == s@,
{
    let mut v: Vec<char> = Vec::new();
    for c in it: s.chars()
        invariant
            v@ == it.seq().take(it.index() as int),
    {
        v.push(c);
    }
    v
}


/// The whitespace characters are exactly the 25 code points that carry
/// the Unicode `White_Space` property: U+0009 to U+000D, U+0020, U+0085,
/// U+00A0, U+1680, U+2000 to U+200A, U+2028, U+2029, U+202F, U+205F and
/// U+3000.
pub proof fn lemma_space_code_points(c: char)
    ensures
        is_space(c) <==> {
            let u = c as u32;
            ||| 9 <= u <= 13
            ||| u == 32 || u == 0x85 || u == 0xa0 || u == 0x1680
            ||| 0x2000 <= u <= 0x200a
            ||| u == 0x2028 || u == 0x2029 || u == 0x202f || u == 0x205f || u == 0x3000
        },
{
}

/// Among ASCII characters, only the space and tab, line feed, vertical
/// tab, form feed and carriage return are whitespace; every visible ASCII
/// character (`!` to `~`) is not.
pub proof fn lemma_ascii_spaces(c: char)
    ensures
        (c as u32) < 128 ==> (is_space(c) <==> (c == ' ' || '\t' <= c <= '\r')),
        '!' <= c <= '~' ==> !is_space(c),
{
}

/// A text that starts and ends with a visible ASCII character (such as a
/// quote) is left whole by trimming.
pub proof fn lemma_trim_keeps_visible_ends(s: Seq<char>)
    requires
        s.len() > 0,
        '!' <= s[0] <= '~',
        '!' <= s.last() <= '~',
    ensures
        trim(s) == s,
{
    lemma_ascii_spaces(s[0]);
    lemma_ascii_spaces(s.last());
    lemma_command_text_trims_to_itself(s);
}

/// `s` without its leading whitespace.
pub open spec fn trim_start(s: Seq<char>) -> Seq<char>
    decreases s.len(),
{
    if s.len() > 0 && is_space(s[0]) {
        trim_start(s.drop_first())
    } else {
        s
    }
}

/// `s` without its trailing whitespace.
pub open spec fn trim_end(s: Seq<char>) -> Seq<char>
    decreases s.len(),
{
    if s.len() > 0 && is_space(s.last()) {
        trim_end(s.drop_last())
    } else {
        s
    }
}

/// `s` without leading and trailing whitespace, as `str::trim` gives it.
pub open spec fn trim(s: Seq<char>) -> Seq<char> {
    trim_end(trim_start(s))
}

/// The text of a valid command: not empty, and neither starting nor ending
/// with whitespace.
pub open spec fn is_command_text(s: Seq<char>) -> bool {
    &&& s.len() > 0
    &&& !is_space(s[0])
    &&& !is_space(s.last())
}

/// `trim_start` only drops a prefix.
proof fn lemma_trim_start_is_suffix(s: Seq<char>)
    ensures
        trim_start(s).len() <= s.len(),
        trim_start(s) == s.subrange(s.len() - trim_start(s).len(), s.len() as int),
        trim_start(s).len() > 0 ==> !is_space(trim_start(s)[0]),
    decreases s.len(),
{
    if s.len() > 0 && is_space(s[0]) {
        lemma_trim_start_is_suffix(s.drop_first());
        assert(s.drop_first().subrange(
            s.drop_first().len() - trim_start(s).len(),
            s.drop_first().len() as int,
        ) =~= s.subrange(s.len() - trim_start(s).len(), s.len() as int));
    } else {
        assert(s.subrange(0, s.len() as int) =~= s);
    }
}

/// `trim_end` only drops a suffix.
proof fn lemma_trim_end_is_prefix(s: Seq<char>)
    ensures
        trim_end(s).len() <= s.len(),
        trim_end(s) == s.subrange(0, trim_end(s).len() as int),
        trim_end(s).len() > 0 ==> !is_space(trim_end(s).last()),
    decreases s.len(),
{
    if s.len() > 0 && is_space(s.last()) {
        lemma_trim_end_is_prefix(s.drop_last());
        assert(s.drop_last().subrange(0, trim_end(s).len() as int) =~= s.subrange(
            0,
            trim_end(s).len() as int,
        ));
    } else {
        assert(s.subrange(0, s.len() as int) =~= s);
    }
}

/// Whatever is left after trimming is the text of a valid command.
pub proof fn lemma_trimmed_is_command_text(s: Seq<char>)
    ensures
        trim(s).len() > 0 ==> is_command_text(trim(s)),
{
    lemma_trim_start_is_suffix(s);
    lemma_trim_end_is_prefix(trim_start(s));
}

/// Trimming leaves the text of a valid command as it is.
pub proof fn lemma_command_text_trims_to_itself(s: Seq<char>)
    requires
        is_command_text(s),
    ensures
        trim(s) == s,
{
}

/// Trimming twice is trimming once.
pub proof fn lemma_trim_idempotent(s: Seq<char>)
    ensures
        trim(trim(s)) == trim(s),
{
    lemma_trimmed_is_command_text(s);
    if trim(s).len() == 0 {
        assert(trim(s) =~= Seq::<char>::empty());
    }
}

/// A trailing whitespace character makes no difference to the trimmed
/// text.
pub proof fn lemma_trim_drop_trailing_space(s: Seq<char>)
    requires
        s.len() > 0,
        is_space(s.last()),
    ensures
        trim(s.drop_last()) == trim(s),
    decreases s.len(),
{
    if s.len() == 1 {
        assert(s.drop_last() =~= Seq::<char>::empty());
        assert(trim_start(s) =~= Seq::<char>::empty()) by {
            assert(s[0] == s.last());
            assert(s.drop_first() =~= Seq::<char>::empty());
            assert(trim_start(s.drop_first()) =~= Seq::<char>::empty());
        }
    } else if is_space(s[0]) {
        let t = s.drop_first();
        lemma_trim_drop_trailing_space(t);
        assert(s.drop_last().drop_first() =~= t.drop_last());
    } else {
        assert(trim_start(s) == s);
        assert(trim_start(s.drop_last()) == s.drop_last());
    }
}

/// The positions `(start, end)` such that `s@.subrange(start, end)` is the
/// trimmed text of `s`.
fn trim_bounds(s: &str) -> (r: (usize, usize))
    ensures
        r.0 <= r.1 <= s@.len(),
        trim(s@) == s@.subrange(r.0 as int, r.1 as int),
        r.0 < r.1 ==> !is_space(s@[r.0 as int]) && !is_space(s@[r.1 - 1]),
{
    let v = chars_of(s);
    let n = v.len();
    let mut i: usize = 0;
    assert(s@.subrange(0, n as int) =~= s@);
    while i < n && char_is_space(v[i])
        invariant
            v@ == s@,
            n == v.len(),
            i <= n,
            trim_start(s@) == trim_start(s@.subrange(i as int, n as int)),
        decreases n - i,
    {
        assert(s@.subrange(i as int, n as int).drop_first() =~= s@.subrange(i + 1, n as int));
        i = i + 1;
    }
    assert(trim_start(s@) == s@.subrange(i as int, n as int));
    let mut j: usize = n;
    while j > i && char_is_space(v[j - 1])
        invariant
            v@ == s@,
            n == v.len(),
            i <= j <= n,
            trim(s@) == trim_end(s@.subrange(i as int, j as int)),
            i < n ==> !is_space(s@[i as int]),
        decreases j - i,
    {
        assert(s@.subrange(i as int, j as int).drop_last() =~= s@.subrange(i as int, j - 1));
        j = j - 1;
    }
    (i, j)
}

/// The views of a vector of strings.
pub open spec fn string_views(v: Seq<String>) -> Seq<Seq<char>> {
    v.map_values(|l: String| l@)
}

/// The views of a vector of commands.
pub open spec fn command_views(v: Seq<CommandText>) -> Seq<Seq<char>> {
    v.map_values(|c: CommandText| c@)
}

/// The error for a text `s` that trims to nothing: `Empty` when `s` is
/// empty, `WhitespaceOnly` otherwise.
pub open spec fn blank_error(s: Seq<char>) -> InvalidCommandError {
    if s.len() == 0 {
        InvalidCommandError::Empty
    } else {
        InvalidCommandError::WhitespaceOnly
    }
}

/// A shell command as the queue holds it: its text is never empty and
/// carries no surrounding whitespace.
#[derive(Debug, PartialEq, Eq, Hash)]
pub struct CommandText(String);

impl View for CommandText {
    type V = Seq<char>;

    closed spec fn view(&self) -> Seq<char> {
        self.0@
    }
}

impl CommandText {
    #[verifier::type_invariant]
    spec fn well_formed(self) -> bool {
        is_command_text(self.0@)
    }

    /// Validates `raw` as a command: its text is `raw` trimmed. Empty text
    /// is refused as `Empty`, and text of nothing but whitespace as
    /// `WhitespaceOnly`.
    pub fn new(raw: &str) -> (r: Result<Self, InvalidCommandError>)
        ensures
            match r {
                Ok(c) => trim(raw@).len() > 0 && c@ == trim(raw@),
                Err(e) => trim(raw@).len() == 0 && e == blank_error(raw@),
            },
    {
        let (start, end) = trim_bounds(raw);
        if start == end {
            if raw.is_empty() {
                return Err(InvalidCommandError::Empty);
            }
            return Err(InvalidCommandError::WhitespaceOnly);
        }
        let text = String::from_str(raw.substring_char(start, end));
        Ok(CommandText(text))
    }

    /// The text of the command.
    pub fn as_str(&self) -> (r: &str)
        ensures
            r@ == self@,
            is_command_text(r@),
    {
        proof {
            use_type_invariant(self);
        }
        self.0.as_str()
    }
}

impl Clone for CommandText {
    fn clone(&self) -> (r: Self)
        ensures
            r@ == self@,
    {
        proof {
            use_type_invariant(self);
        }
        CommandText(self.0.clone())
    }
}

impl<'a> TryFrom<&'a str> for CommandText {
    type Error = InvalidCommandError;

    /// The same as `CommandText::new`.
    fn try_from(value: &'a str) -> (r: Result<Self, Self::Error>)
        ensures
            match r {
                Ok(c) => trim(value@).len() > 0 && c@ == trim(value@),
                Err(e) => trim(value@).len() == 0 && e == blank_error(value@),
            },
    {
        Self::new(value)
    }
}

/// A command's text determines the command only up to the `String` that
/// holds it, so no spec value stands for the result: `try_from` states it
/// in its own `ensures` instead.
impl<'a> vstd::std_specs::convert::TryFromSpecImpl<&'a str> for CommandText {
    open spec fn obeys_try_from_spec() -> bool {
        false
    }

    open spec fn try_from_spec(v: &'a str) -> Result<Self, InvalidCommandError> {
        arbitrary()
    }
}

/// Why a text is not a valid command.
#[derive(Debug, Clone, Copy, PartialEq, Eq, Structural)]
pub enum InvalidCommandError {
    /// No text at all was given.
    Empty,
    /// Text of nothing but whitespace was given.
    WhitespaceOnly,
}

} // verus!
