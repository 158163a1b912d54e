use vstd::prelude::*;

verus! {

// ---------------------------------------------------------------------------
// Line classifiers, as predicates over a line's characters.
// ---------------------------------------------------------------------------

/// The characters with Unicode's `White_Space` property; these are the
/// characters that trimming removes at either end of a line.
pub open spec fn is_space(c: char) -> bool {
    (0x9 <= c as int && c as int <= 0xd) || c == ' ' || c as int == 0x85 || c as int == 0xa0
        || c as int == 0x1680 || (0x2000 <= c as int && c as int <= 0x200a) || c as int == 0x2028
        || c as int == 0x2029 || c as int == 0x202f || c as int == 0x205f || c as int == 0x3000
}

/// A line with leading and trailing white space removed.
pub open spec fn trim(s: Seq<char>) -> Seq<char>
    decreases s.len(),
{
    if s.len() == 0 {
        s
    } else if is_space(s.first()) {
        trim(s.drop_first())
    } else if is_space(s.last()) {
        trim(s.drop_last())
    } else {
        s
    }
}

pub open spec fn starts_with(s: Seq<char>, p: Seq<char>) -> bool {
    p.len() <= s.len() && s.take(p.len() as int) == p
}

pub open spec fn ends_with(s: Seq<char>, p: Seq<char>) -> bool {
    p.len() <= s.len() && s.skip(s.len() - p.len()) == p
}

pub open spec fn has_char(s: Seq<char>, c: char) -> bool {
    exists|i: int| 0 <= i < s.len() && s[i] == c
}

pub open spec fn kw_import() -> Seq<char> {
    seq!['i', 'm', 'p', 'o', 'r', 't']
}

pub open spec fn kw_import_meta() -> Seq<char> {
    kw_import() + seq!['.', 'm', 'e', 't', 'a']
}

/// An import opener: the trimmed line starts with `import ` or `import(`,
/// or is exactly `import`. (A line starting with `import.meta` starts with
/// neither prefix, so it is never an import opener.)
pub open spec fn import_opener(line: Seq<char>) -> bool {
    let t = trim(line);
    starts_with(t, kw_import().push(' ')) || starts_with(t, kw_import().push('(')) || t
        == kw_import()
}

/// An `import.meta` opener: the trimmed line starts with `import.meta`.
pub open spec fn import_meta_opener(line: Seq<char>) -> bool {
    starts_with(trim(line), kw_import_meta())
}

/// A blank line: nothing but white space.
pub open spec fn blank_line(line: Seq<char>) -> bool {
    trim(line).len() == 0
}

/// Comment-like: the trimmed line starts with `//`, `/*` or `*`, or ends
/// with `*/`. This covers line comments and every line of a block comment.
pub open spec fn comment_line(line: Seq<char>) -> bool {
    let t = trim(line);
    starts_with(t, seq!['/', '/']) || starts_with(t, seq!['/', '*']) || starts_with(t, seq!['*'])
        || ends_with(t, seq!['*', '/'])
}

// ---------------------------------------------------------------------------
// The multiline tracker.
// ---------------------------------------------------------------------------

/// Inside a multi-line construct: does this line leave it open?
/// The construct closes on a line whose trimmed form contains `}`, or ends
/// with `)` or `);`.
pub open spec fn ml_continues(line: Seq<char>) -> bool {
    let t = trim(line);
    !(has_char(t, '}') || ends_with(t, seq![')']) || ends_with(t, seq![')', ';']))
}

/// Outside a multi-line construct: does this line open one?
/// A brace import with `{` but no `}`, or an `import.meta` opener with `(`
/// but no `)`.
pub open spec fn ml_opens(line: Seq<char>) -> bool {
    let t = trim(line);
    (import_opener(line) && has_char(t, '{') && !has_char(t, '}')) || (import_meta_opener(line)
        && has_char(t, '(') && !has_char(t, ')'))
}

/// The tracker's transition: the new in-multiline bit after seeing a line.
pub open spec fn ml_next(line: Seq<char>, in_ml: bool) -> bool {
    if in_ml {
        ml_continues(line)
    } else {
        ml_opens(line)
    }
}

// ---------------------------------------------------------------------------
// The squeezer as a state machine over a sequence of lines.
// ---------------------------------------------------------------------------

pub struct SqueezeState {
    /// A construct opened on an earlier line is still unterminated.
    pub in_multiline: bool,
    /// The most recent meaningful line was an import-like line.
    pub in_block: bool,
    /// Blank lines held back since the last emitted import.
    pub pending_blanks: Seq<Seq<char>>,
    /// Comment lines held back since the last emitted import.
    pub pending_comments: Seq<Seq<char>>,
    /// Lines already emitted, in order.
    pub emitted: Seq<Seq<char>>,
}

pub open spec fn init_state() -> SqueezeState {
    SqueezeState {
        in_multiline: false,
        in_block: false,
        pending_blanks: Seq::empty(),
        pending_comments: Seq::empty(),
        emitted: Seq::empty(),
    }
}

/// One step of the squeezer. Precedence: multiline continuation, then
/// import, then blank, then comment, then block terminator, then any line
/// outside a block.
pub open spec fn step(st: SqueezeState, line: Seq<char>) -> SqueezeState {
    if st.in_multiline {
        SqueezeState { in_multiline: ml_continues(line), emitted: st.emitted.push(line), ..st }
    } else if import_opener(line) || import_meta_opener(line) {
        SqueezeState {
            in_multiline: ml_opens(line),
            in_block: true,
            pending_blanks: Seq::empty(),
            pending_comments: Seq::empty(),
            emitted: st.emitted + st.pending_comments.push(line),
        }
    } else if st.in_block && blank_line(line) {
        SqueezeState { pending_blanks: st.pending_blanks.push(line), ..st }
    } else if st.in_block && comment_line(line) {
        SqueezeState { pending_comments: st.pending_comments.push(line), ..st }
    } else if st.in_block {
        SqueezeState {
            in_block: false,
            pending_blanks: Seq::empty(),
            pending_comments: Seq::empty(),
            emitted: st.emitted + st.pending_blanks + st.pending_comments.push(line),
            ..st
        }
    } else {
        SqueezeState { emitted: st.emitted.push(line), ..st }
    }
}

pub open spec fn run(st: SqueezeState, lines: Seq<Seq<char>>) -> SqueezeState
    decreases lines.len(),
{
    if lines.len() == 0 {
        st
    } else {
        run(step(st, lines.first()), lines.drop_first())
    }
}

/// At end of input, remaining held-back blanks then comments are flushed.
pub open spec fn flush(st: SqueezeState) -> Seq<Seq<char>> {
    st.emitted + st.pending_blanks + st.pending_comments
}

pub open spec fn squeeze_lines(lines: Seq<Seq<char>>) -> Seq<Seq<char>> {
    flush(run(init_state(), lines))
}

// ---------------------------------------------------------------------------
// Splitting a text into lines and joining them back.
// ---------------------------------------------------------------------------

/// Index of the first occurrence of `c` in `s`, or `s.len()` if absent.
pub open spec fn first_idx(s: Seq<char>, c: char) -> nat
    decreases s.len(),
{
    if s.len() == 0 {
        0
    } else if s.first() == c {
        0
    } else {
        1 + first_idx(s.drop_first(), c)
    }
}

/// Split on `'\n'`; always yields at least one (possibly empty) piece.
pub open spec fn split_nl(s: Seq<char>) -> Seq<Seq<char>>
    decreases s.len(),
{
    let i = first_idx(s, '\n');
    if i >= s.len() {
        seq![s]
    } else {
        seq![s.take(i as int)] + split_nl(s.skip(i as int + 1))
    }
}

pub open spec fn join_nl(lines: Seq<Seq<char>>) -> Seq<char>
    decreases lines.len(),
{
    if lines.len() == 0 {
        Seq::empty()
    } else if lines.len() == 1 {
        lines.first()
    } else {
        lines.first().push('\n') + join_nl(lines.drop_first())
    }
}

pub open spec fn has_final_nl(s: Seq<char>) -> bool {
    s.len() > 0 && s.last() == '\n'
}

/// The lines of a text, with a final newline not opening an extra empty line.
pub open spec fn lines_of(s: Seq<char>) -> Seq<Seq<char>> {
    if has_final_nl(s) {
        split_nl(s.drop_last())
    } else {
        split_nl(s)
    }
}

/// The whole transformation: split into lines, squeeze, join, and restore
/// the final newline exactly when the input had one.
pub open spec fn spec_squeeze(s: Seq<char>) -> Seq<char> {
    let body = join_nl(squeeze_lines(lines_of(s)));
    if has_final_nl(s) {
        body.push('\n')
    } else {
        body
    }
}

} // verus!
