use vstd::prelude::*;

pub mod config;
pub mod laws;
pub mod model;

verus! {

use crate::model::{
    is_space, trim, starts_with, ends_with, has_char, kw_import, kw_import_meta, import_opener,
    ml_next, SqueezeState, init_state, step, run, squeeze_lines, first_idx, split_nl, join_nl,
    has_final_nl, lines_of, spec_squeeze,
};

/// Outcome of processing one file: its content was already clean, or the
/// squeezed content differs from what was read.
#[derive(Debug, PartialEq, Eq, Structural)]
pub enum FileResult {
    Unchanged,
    Changed,
}

// ---------------------------------------------------------------------------
// Characters of a string, and back.
// ---------------------------------------------------------------------------

pub(crate) fn str_chars(s: &str) -> (r: Vec<char>)
    ensures
        r@ == s@,
{
    broadcast use vstd::string::next_postcondition;

    let mut r: Vec<char> = Vec::new();
    let mut it = s.chars();
    loop
        invariant
            vstd::std_specs::iter::IteratorSpec::remaining(&it) == s@.skip(r@.len() as int),
            r@.len() <= s@.len(),
            r@ == s@.take(r@.len() as int),
        decreases s@.len() - r@.len(),
    {
        let ghost n = r@.len() as int;
        match it.next() {
            Some(c) => {
                proof {
                    assert(s@.skip(n)[0] == s@[n]);
                    assert(s@.skip(n).drop_first() =~= s@.skip(n + 1));
                }
                r.push(c);
                proof {
                    assert(r@ =~= s@.take(n + 1));
                }
            },
            None => {
                proof {
                    assert(s@.skip(n).len() == 0);
                    assert(r@ =~= s@);
                }
                return r;
            },
        }
    }
}

/// Relies on `String`'s `FromIterator` over `char`: collecting characters
/// yields the string of exactly those characters, in order.
#[verifier::external_body]
pub(crate) fn chars_string(v: &Vec<char>) -> (r: String)
    ensures
        r@ == v@,
{
    v.iter().collect()
}

// ---------------------------------------------------------------------------
// Trimming.
// ---------------------------------------------------------------------------

fn is_space_char(c: char) -> (r: bool)
    ensures
        r == is_space(c),
{
    let u = c as u32;
    (9 <= u && u <= 13) || u == 0x20 || u == 0x85 || u == 0xa0 || u == 0x1680 || (0x2000 <= u && u
        <= 0x200a) || u == 0x2028 || u == 0x2029 || u == 0x202f || u == 0x205f || u == 0x3000
}

pub(crate) fn subvec(v: &Vec<char>, a: usize, b: usize) -> (r: Vec<char>)
    requires
        a <= b <= v@.len(),
    ensures
        r@ == v@.subrange(a as int, b as int),
{
    let mut r: Vec<char> = Vec::new();
    let mut i = a;
    while i < b
        invariant
            a <= i <= b <= v@.len(),
            r@ == v@.subrange(a as int, i as int),
        decreases b - i,
    {
        r.push(v[i]);
        proof {
            assert(r@ =~= v@.subrange(a as int, i + 1));
        }
        i += 1;
    }
    r
}

/// A range `[a, b)` whose outside is all white space and whose ends are not
/// is exactly what trimming leaves.
proof fn lemma_trim_range(s: Seq<char>, a: int, b: int)
    requires
        0 <= a <= b <= s.len(),
        forall|j: int| 0 <= j < a ==> is_space(#[trigger] s[j]),
        forall|j: int| b <= j < s.len() ==> is_space(#[trigger] s[j]),
        a == b || (!is_space(s[a]) && !is_space(s[b - 1])),
    ensures
        trim(s) == s.subrange(a, b),
    decreases s.len(),
{
    if s.len() == 0 {
        assert(s.subrange(a, b) =~= s);
    } else if is_space(s.first()) {
        if a == b {
            lemma_trim_range(s.drop_first(), 0, 0);
            assert(s.subrange(a, b) =~= s.drop_first().subrange(0, 0));
        } else {
            assert(a > 0) by {
                assert(!is_space(s[a]));
            }
            lemma_trim_range(s.drop_first(), a - 1, b - 1);
            assert(s.drop_first().subrange(a - 1, b - 1) =~= s.subrange(a, b));
        }
    } else if is_space(s.last()) {
        assert(a < b) by {
            if a == b {
                assert(is_space(s[0]));
            }
        }
        assert(b < s.len()) by {
            assert(!is_space(s[b - 1]));
        }
        lemma_trim_range(s.drop_last(), a, b);
        assert(s.drop_last().subrange(a, b) =~= s.subrange(a, b));
    } else {
        assert(a == 0) by {
            if a > 0 {
                assert(is_space(s[0]));
            }
        }
        assert(b == s.len()) by {
            if b < s.len() {
                assert(is_space(s[s.len() - 1]));
            }
        }
        assert(a < b) by {
            if a == b {
                assert(s.len() == 0);
            }
        }
        assert(s.subrange(a, b) =~= s);
    }
}

/// Trimming shortens a line and leaves no white space at either end.
pub proof fn lemma_trim_props(s: Seq<char>)
    ensures
        trim(s).len() <= s.len(),
        trim(s).len() > 0 ==> !is_space(trim(s).first()) && !is_space(trim(s).last()),
    decreases s.len(),
{
    if s.len() == 0 {
    } else if is_space(s.first()) {
        lemma_trim_props(s.drop_first());
    } else if is_space(s.last()) {
        lemma_trim_props(s.drop_last());
    }
}

fn trim_vec(v: &Vec<char>) -> (t: Vec<char>)
    ensures
        t@ == trim(v@),
{
    let n = v.len();
    let mut a: usize = 0;
    while a < n && is_space_char(v[a])
        invariant
            a <= n == v@.len(),
            forall|j: int| 0 <= j < a ==> is_space(#[trigger] v@[j]),
        decreases n - a,
    {
        a += 1;
    }
    if a == n {
        proof {
            lemma_trim_range(v@, a as int, a as int);
        }
        return subvec(v, a, a);
    }
    let mut b: usize = n;
    while is_space_char(v[b - 1])
        invariant
            a < b <= n == v@.len(),
            !is_space(v@[a as int]),
            forall|j: int| b <= j < n ==> is_space(#[trigger] v@[j]),
        decreases b,
    {
        b -= 1;
    }
    proof {
        lemma_trim_range(v@, a as int, b as int);
    }
    subvec(v, a, b)
}

// ---------------------------------------------------------------------------
// Prefix, suffix and membership checks over characters.
// ---------------------------------------------------------------------------

pub(crate) fn has_prefix(t: &Vec<char>, p: &Vec<char>) -> (r: bool)
    ensures
        r == starts_with(t@, p@),
{
    let np = p.len();
    if t.len() < np {
        return false;
    }
    let mut j: usize = 0;
    while j < np
        invariant
            j <= np == p@.len() <= t@.len(),
            forall|k: int| 0 <= k < j ==> t@[k] == p@[k],
        decreases np - j,
    {
        if t[j] != p[j] {
            proof {
                assert(t@.take(np as int)[j as int] == t@[j as int]);
            }
            return false;
        }
        j += 1;
    }
    proof {
        assert(t@.take(np as int) =~= p@);
    }
    true
}

pub(crate) fn has_suffix(t: &Vec<char>, p: &Vec<char>) -> (r: bool)
    ensures
        r == ends_with(t@, p@),
{
    let np = p.len();
    let nt = t.len();
    if nt < np {
        return false;
    }
    let off = nt - np;
    let mut j: usize = 0;
    while j < np
        invariant
            j <= np == p@.len() <= nt == t@.len(),
            off == nt - np,
            forall|k: int| 0 <= k < j ==> t@[off + k] == p@[k],
        decreases np - j,
    {
        if t[off + j] != p[j] {
            proof {
                assert(t@.skip(off as int)[j as int] == t@[off + j]);
            }
            return false;
        }
        j += 1;
    }
    proof {
        assert(t@.skip(off as int) =~= p@);
    }
    true
}

fn vec_has_char(t: &Vec<char>, c: char) -> (r: bool)
    ensures
        r == has_char(t@, c),
{
    let mut i: usize = 0;
    while i < t.len()
        invariant
            i <= t@.len(),
            forall|k: int| 0 <= k < i ==> t@[k] != c,
        decreases t@.len() - i,
    {
        if t[i] == c {
            return true;
        }
        i += 1;
    }
    false
}

pub(crate) fn vec_eq(a: &Vec<char>, b: &Vec<char>) -> (r: bool)
    ensures
        r == (a@ == b@),
{
    if a.len() != b.len() {
        return false;
    }
    let mut i: usize = 0;
    while i < a.len()
        invariant
            i <= a@.len() == b@.len(),
            forall|k: int| 0 <= k < i ==> a@[k] == b@[k],
        decreases a@.len() - i,
    {
        if a[i] != b[i] {
            return false;
        }
        i += 1;
    }
    proof {
        assert(a@ =~= b@);
    }
    true
}

// ---------------------------------------------------------------------------
// The classifiers, on a trimmed line.
// ---------------------------------------------------------------------------

fn pat_import() -> (r: Vec<char>)
    ensures
        r@ == kw_import(),
{
    let mut v: Vec<char> = Vec::new();
    v.push('i');
    v.push('m');
    v.push('p');
    v.push('o');
    v.push('r');
    v.push('t');
    proof {
        assert(v@ =~= kw_import());
    }
    v
}

fn pat_import_meta() -> (r: Vec<char>)
    ensures
        r@ == kw_import_meta(),
{
    let mut v = pat_import();
    v.push('.');
    v.push('m');
    v.push('e');
    v.push('t');
    v.push('a');
    proof {
        assert(v@ =~= kw_import_meta());
    }
    v
}

pub(crate) fn pat2(c0: char, c1: char) -> (r: Vec<char>)
    ensures
        r@ == seq![c0, c1],
{
    let mut v: Vec<char> = Vec::new();
    v.push(c0);
    v.push(c1);
    proof {
        assert(v@ =~= seq![c0, c1]);
    }
    v
}

pub(crate) fn pat1(c0: char) -> (r: Vec<char>)
    ensures
        r@ == seq![c0],
{
    let mut v: Vec<char> = Vec::new();
    v.push(c0);
    proof {
        assert(v@ =~= seq![c0]);
    }
    v
}

fn import_trimmed(t: &Vec<char>) -> (r: bool)
    ensures
        r == (starts_with(t@, kw_import().push(' ')) || starts_with(t@, kw_import().push('('))
            || t@ == kw_import()),
{
    let mut sp = pat_import();
    sp.push(' ');
    proof {
        assert(sp@ =~= kw_import().push(' '));
    }
    if has_prefix(t, &sp) {
        return true;
    }
    let mut pa = pat_import();
    pa.push('(');
    proof {
        assert(pa@ =~= kw_import().push('('));
    }
    if has_prefix(t, &pa) {
        return true;
    }
    let kw = pat_import();
    vec_eq(t, &kw)
}

fn meta_trimmed(t: &Vec<char>) -> (r: bool)
    ensures
        r == starts_with(t@, kw_import_meta()),
{
    let p = pat_import_meta();
    has_prefix(t, &p)
}

fn comment_trimmed(t: &Vec<char>) -> (r: bool)
    ensures
        r == (starts_with(t@, seq!['/', '/']) || starts_with(t@, seq!['/', '*']) || starts_with(
            t@,
            seq!['*'],
        ) || ends_with(t@, seq!['*', '/'])),
{
    let ss = pat2('/', '/');
    if has_prefix(t, &ss) {
        return true;
    }
    let sb = pat2('/', '*');
    if has_prefix(t, &sb) {
        return true;
    }
    let st = pat1('*');
    if has_prefix(t, &st) {
        return true;
    }
    let be = pat2('*', '/');
    has_suffix(t, &be)
}

fn ml_continue_trimmed(t: &Vec<char>) -> (r: bool)
    ensures
        r == !(has_char(t@, '}') || ends_with(t@, seq![')']) || ends_with(t@, seq![')', ';'])),
{
    if vec_has_char(t, '}') {
        return false;
    }
    let pc = pat1(')');
    if has_suffix(t, &pc) {
        return false;
    }
    let ps = pat2(')', ';');
    if has_suffix(t, &ps) {
        return false;
    }
    true
}

fn ml_open_trimmed(t: &Vec<char>) -> (r: bool)
    ensures
        r == ((starts_with(t@, kw_import().push(' ')) || starts_with(t@, kw_import().push('('))
            || t@ == kw_import()) && has_char(t@, '{') && !has_char(t@, '}') || starts_with(
            t@,
            kw_import_meta(),
        ) && has_char(t@, '(') && !has_char(t@, ')')),
{
    if import_trimmed(t) && vec_has_char(t, '{') && !vec_has_char(t, '}') {
        return true;
    }
    meta_trimmed(t) && vec_has_char(t, '(') && !vec_has_char(t, ')')
}

// ---------------------------------------------------------------------------
// Splitting and joining, connected to the specification.
// ---------------------------------------------------------------------------

/// The views of a sequence of owned lines.
pub open spec fn lseq(v: Seq<Vec<char>>) -> Seq<Seq<char>> {
    v.map_values(|l: Vec<char>| l@)
}

pub proof fn lemma_first_idx_props(s: Seq<char>, c: char)
    ensures
        first_idx(s, c) <= s.len(),
        first_idx(s, c) < s.len() ==> s[first_idx(s, c) as int] == c,
        forall|j: int| 0 <= j < first_idx(s, c) ==> s[j] != c,
    decreases s.len(),
{
    if s.len() == 0 {
    } else if s.first() == c {
    } else {
        lemma_first_idx_props(s.drop_first(), c);
        assert forall|j: int| 0 <= j < first_idx(s, c) implies s[j] != c by {
            if j > 0 {
                assert(s.drop_first()[j - 1] == s[j]);
            }
        }
    }
}

proof fn lemma_first_idx_concat(pre: Seq<char>, rest: Seq<char>, c: char)
    requires
        !has_char(pre, c),
    ensures
        first_idx(pre + rest, c) == pre.len() + first_idx(rest, c),
    decreases pre.len(),
{
    if pre.len() == 0 {
        assert(pre + rest =~= rest);
    } else {
        assert((pre + rest).first() == pre.first());
        assert(pre.first() != c) by {
            assert(pre[0] == pre.first());
        }
        assert((pre + rest).drop_first() =~= pre.drop_first() + rest);
        assert(!has_char(pre.drop_first(), c)) by {
            assert(forall|i: int|
                0 <= i < pre.drop_first().len() ==> pre.drop_first()[i] == pre[i + 1]);
        }
        lemma_first_idx_concat(pre.drop_first(), rest, c);
    }
}

/// Splitting a newline-free text yields that single line.
pub(crate) proof fn lemma_split_of_nlfree(s: Seq<char>)
    requires
        !has_char(s, '\n'),
    ensures
        split_nl(s) == seq![s],
{
    lemma_first_idx_props(s, '\n');
    if first_idx(s, '\n') < s.len() {
        assert(has_char(s, '\n'));
    }
}

/// Splitting at an explicit newline after a newline-free first line.
pub(crate) proof fn lemma_split_at_nl(pre: Seq<char>, rest: Seq<char>)
    requires
        !has_char(pre, '\n'),
    ensures
        split_nl(pre + seq!['\n'] + rest) == seq![pre] + split_nl(rest),
{
    let full = pre + seq!['\n'] + rest;
    assert(pre + seq!['\n'] + rest =~= pre + (seq!['\n'] + rest));
    lemma_first_idx_concat(pre, seq!['\n'] + rest, '\n');
    assert((seq!['\n'] + rest).first() == '\n');
    assert(first_idx(seq!['\n'] + rest, '\n') == 0);
    assert(first_idx(full, '\n') == pre.len());
    assert(full.take(pre.len() as int) =~= pre);
    assert(full.skip(pre.len() as int + 1) =~= rest);
}

/// Every piece that splitting yields is newline-free, and there is at
/// least one piece.
pub(crate) proof fn lemma_split_props(s: Seq<char>)
    ensures
        split_nl(s).len() >= 1,
        forall|k: int| 0 <= k < split_nl(s).len() ==> !has_char(#[trigger] split_nl(s)[k], '\n'),
    decreases s.len(),
{
    lemma_first_idx_props(s, '\n');
    let i = first_idx(s, '\n');
    if i >= s.len() {
        if has_char(s, '\n') {
            let j = choose|j: int| 0 <= j < s.len() && s[j] == '\n';
            assert(s[j] != '\n');
        }
    } else {
        lemma_split_props(s.skip(i as int + 1));
        let head = s.take(i as int);
        if has_char(head, '\n') {
            let j = choose|j: int| 0 <= j < head.len() && head[j] == '\n';
            assert(s[j] == '\n');
            assert(s[j] != '\n');
        }
    }
}

/// Joining what splitting produced restores the text.
pub(crate) proof fn lemma_join_split(s: Seq<char>)
    ensures
        join_nl(split_nl(s)) == s,
    decreases s.len(),
{
    lemma_first_idx_props(s, '\n');
    let i = first_idx(s, '\n');
    if i >= s.len() {
    } else {
        lemma_join_split(s.skip(i as int + 1));
        let parts = seq![s.take(i as int)] + split_nl(s.skip(i as int + 1));
        lemma_split_props(s.skip(i as int + 1));
        assert(parts.len() >= 2);
        assert(parts.first() == s.take(i as int));
        assert(parts.drop_first() =~= split_nl(s.skip(i as int + 1)));
        assert(s.take(i as int).push('\n') + s.skip(i as int + 1) =~= s);
    }
}

/// Splitting what joining produced restores the lines, as long as each
/// line is newline-free.
pub(crate) proof fn lemma_split_join(ls: Seq<Seq<char>>)
    requires
        ls.len() >= 1,
        forall|k: int| 0 <= k < ls.len() ==> !has_char(#[trigger] ls[k], '\n'),
    ensures
        split_nl(join_nl(ls)) == ls,
    decreases ls.len(),
{
    if ls.len() == 1 {
        lemma_split_of_nlfree(ls.first());
        assert(seq![ls.first()] =~= ls);
    } else {
        lemma_split_join(ls.drop_first());
        assert(ls.first().push('\n') + join_nl(ls.drop_first()) =~= ls.first() + seq!['\n']
            + join_nl(ls.drop_first()));
        lemma_split_at_nl(ls.first(), join_nl(ls.drop_first()));
        assert(seq![ls.first()] + ls.drop_first() =~= ls);
    }
}

/// Appending one more line to a join.
proof fn lemma_join_push(ls: Seq<Seq<char>>, x: Seq<char>)
    ensures
        ls.len() == 0 ==> join_nl(ls.push(x)) == x,
        ls.len() > 0 ==> join_nl(ls.push(x)) == join_nl(ls).push('\n') + x,
    decreases ls.len(),
{
    if ls.len() == 0 {
        assert(ls.push(x).len() == 1);
        assert(ls.push(x).first() == x);
    } else if ls.len() == 1 {
        assert(ls.push(x).first() == ls.first());
        assert(ls.push(x).drop_first() =~= seq![x]);
        assert(join_nl(seq![x]) == x);
    } else {
        lemma_join_push(ls.drop_first(), x);
        assert(ls.push(x).first() == ls.first());
        assert(ls.push(x).drop_first() =~= ls.drop_first().push(x));
        assert(ls.first().push('\n') + (join_nl(ls.drop_first()).push('\n') + x) =~= (
        ls.first().push('\n') + join_nl(ls.drop_first())).push('\n') + x);
    }
}

// ---------------------------------------------------------------------------
// The state machine, connected to the specification.
// ---------------------------------------------------------------------------

pub proof fn lemma_run_concat(st: SqueezeState, a: Seq<Seq<char>>, b: Seq<Seq<char>>)
    ensures
        run(st, a + b) == run(run(st, a), b),
    decreases a.len(),
{
    if a.len() == 0 {
        assert(a + b =~= b);
    } else {
        assert((a + b).first() == a.first());
        assert((a + b).drop_first() =~= a.drop_first() + b);
        lemma_run_concat(step(st, a.first()), a.drop_first(), b);
    }
}

pub(crate) proof fn lemma_run_singleton(st: SqueezeState, x: Seq<char>)
    ensures
        run(st, seq![x]) == step(st, x),
{
    assert(seq![x].len() == 1);
    assert(seq![x].first() == x);
    assert(seq![x].drop_first() =~= Seq::<Seq<char>>::empty());
    assert(run(st, seq![x]) == run(step(st, x), seq![x].drop_first()));
    assert(run(step(st, x), Seq::<Seq<char>>::empty()) == step(st, x));
}

fn copy_line(l: &Vec<char>) -> (r: Vec<char>)
    ensures
        r@ == l@,
{
    let r = subvec(l, 0, l.len());
    proof {
        assert(l@.subrange(0, l@.len() as int) =~= l@);
    }
    r
}

fn flush_into(dst: &mut Vec<Vec<char>>, src: &Vec<Vec<char>>)
    ensures
        lseq(final(dst)@) == lseq(old(dst)@) + lseq(src@),
{
    let mut i: usize = 0;
    while i < src.len()
        invariant
            i <= src@.len(),
            lseq(dst@) == lseq(old(dst)@) + lseq(src@).take(i as int),
        decreases src@.len() - i,
    {
        let c = copy_line(&src[i]);
        proof {
            assert(lseq(dst@.push(c)) =~= lseq(dst@).push(c@));
            assert(lseq(old(dst)@) + lseq(src@).take(i as int + 1) =~= (lseq(old(dst)@) + lseq(
                src@,
            ).take(i as int)).push(lseq(src@)[i as int]));
        }
        dst.push(c);
        i += 1;
    }
    proof {
        assert(lseq(src@).take(src@.len() as int) =~= lseq(src@));
    }
}

fn append_line(dst: &mut Vec<char>, l: &Vec<char>)
    ensures
        final(dst)@ == old(dst)@ + l@,
{
    let mut i: usize = 0;
    while i < l.len()
        invariant
            i <= l@.len(),
            dst@ == old(dst)@ + l@.take(i as int),
        decreases l@.len() - i,
    {
        dst.push(l[i]);
        proof {
            assert(old(dst)@ + l@.take(i as int + 1) =~= (old(dst)@ + l@.take(i as int)).push(
                l@[i as int],
            ));
        }
        i += 1;
    }
    proof {
        assert(old(dst)@ + l@.take(l@.len() as int) =~= old(dst)@ + l@);
    }
}

// ---------------------------------------------------------------------------
// The public classifiers.
// ---------------------------------------------------------------------------

/// Whether a line starts an import statement (its trimmed form begins with
/// `import ` or `import(`, or is exactly `import`).
pub fn is_import_line(line: &str) -> (r: bool)
    ensures
        r == import_opener(line@),
{
    let v = str_chars(line);
    let t = trim_vec(&v);
    import_trimmed(&t)
}

/// Remove blank lines between consecutive import statements, leaving every
/// other line untouched; a final newline is kept exactly when the input has
/// one.
pub fn squeeze_imports(content: &str) -> (res: String)
    ensures
        res@ == spec_squeeze(content@),
        has_final_nl(res@) == has_final_nl(content@),
{
    proof {
        crate::laws::lemma_trailing_newline_parity(content@);
    }
    let chars = str_chars(content);
    let n = chars.len();
    let has_nl = n > 0 && chars[n - 1] == '\n';
    let body_len = if has_nl {
        n - 1
    } else {
        n
    };
    let ghost body: Seq<char> = chars@.take(body_len as int);
    proof {
        assert(has_nl == has_final_nl(content@));
        if has_nl {
            assert(body =~= content@.drop_last());
        } else {
            assert(body =~= content@);
        }
        assert(split_nl(body) == lines_of(content@));
    }
    // Split into lines.
    let mut lines: Vec<Vec<char>> = Vec::new();
    let mut cur: Vec<char> = Vec::new();
    let mut i: usize = 0;
    proof {
        assert(lseq(lines@) =~= Seq::<Seq<char>>::empty());
        assert(cur@ + body.skip(0) =~= body);
        assert(Seq::<Seq<char>>::empty() + split_nl(body) =~= split_nl(body));
    }
    while i < body_len
        invariant
            i <= body_len <= chars@.len(),
            body == chars@.take(body_len as int),
            !has_char(cur@, '\n'),
            split_nl(body) == lseq(lines@) + split_nl(cur@ + body.skip(i as int)),
        decreases body_len - i,
    {
        let c = chars[i];
        proof {
            assert(body[i as int] == chars@[i as int]);
        }
        if c == '\n' {
            proof {
                assert(cur@ + body.skip(i as int) =~= cur@ + seq!['\n'] + body.skip(i as int + 1));
                lemma_split_at_nl(cur@, body.skip(i as int + 1));
                assert(lseq(lines@.push(cur)) =~= lseq(lines@).push(cur@));
                assert(lseq(lines@) + (seq![cur@] + split_nl(body.skip(i as int + 1))) =~= lseq(
                    lines@.push(cur),
                ) + split_nl(body.skip(i as int + 1)));
            }
            lines.push(cur);
            cur = Vec::new();
            proof {
                assert(cur@ + body.skip(i as int + 1) =~= body.skip(i as int + 1));
            }
        } else {
            proof {
                assert(cur@.push(c) + body.skip(i as int + 1) =~= cur@ + body.skip(i as int));
            }
            cur.push(c);
        }
        i += 1;
    }
    proof {
        assert(cur@ + body.skip(body_len as int) =~= cur@);
        lemma_split_of_nlfree(cur@);
        assert(lseq(lines@.push(cur)) =~= lseq(lines@).push(cur@));
        assert(lseq(lines@) + seq![cur@] =~= lseq(lines@).push(cur@));
    }
    lines.push(cur);
    let ghost ls: Seq<Seq<char>> = lseq(lines@);
    proof {
        assert(ls == lines_of(content@));
    }
    // Run the squeezer over the lines.
    let mut in_multiline = false;
    let mut in_block = false;
    let mut pb: Vec<Vec<char>> = Vec::new();
    let mut pc: Vec<Vec<char>> = Vec::new();
    let mut out: Vec<Vec<char>> = Vec::new();
    let mut k: usize = 0;
    proof {
        assert(ls.take(0) =~= Seq::<Seq<char>>::empty());
        assert(lseq(pb@) =~= Seq::<Seq<char>>::empty());
        assert(lseq(pc@) =~= Seq::<Seq<char>>::empty());
        assert(lseq(out@) =~= Seq::<Seq<char>>::empty());
    }
    while k < lines.len()
        invariant
            k <= lines@.len(),
            ls == lseq(lines@),
            run(init_state(), ls.take(k as int)) == (SqueezeState {
                in_multiline,
                in_block,
                pending_blanks: lseq(pb@),
                pending_comments: lseq(pc@),
                emitted: lseq(out@),
            }),
        decreases lines@.len() - k,
    {
        let line: &Vec<char> = &lines[k];
        let t = trim_vec(line);
        let ghost st = run(init_state(), ls.take(k as int));
        proof {
            assert(ls.take(k as int + 1) =~= ls.take(k as int) + seq![ls[k as int]]);
            lemma_run_concat(init_state(), ls.take(k as int), seq![ls[k as int]]);
            lemma_run_singleton(st, ls[k as int]);
            assert(ls[k as int] == line@);
        }
        if in_multiline {
            out.push(copy_line(line));
            in_multiline = ml_continue_trimmed(&t);
            proof {
                assert(lseq(out@) =~= st.emitted.push(line@));
            }
        } else if import_trimmed(&t) || meta_trimmed(&t) {
            flush_into(&mut out, &pc);
            proof {
                assert(lseq(out@) == st.emitted + st.pending_comments);
            }
            let cl = copy_line(line);
            proof {
                assert(lseq(out@.push(cl)) =~= lseq(out@).push(cl@));
            }
            out.push(cl);
            pc = Vec::new();
            pb = Vec::new();
            in_block = true;
            in_multiline = ml_open_trimmed(&t);
            proof {
                assert(lseq(out@) =~= st.emitted + st.pending_comments.push(line@));
                assert(lseq(pb@) =~= Seq::<Seq<char>>::empty());
                assert(lseq(pc@) =~= Seq::<Seq<char>>::empty());
            }
        } else if in_block && t.len() == 0 {
            pb.push(copy_line(line));
            proof {
                assert(lseq(pb@) =~= st.pending_blanks.push(line@));
            }
        } else if in_block && comment_trimmed(&t) {
            pc.push(copy_line(line));
            proof {
                assert(lseq(pc@) =~= st.pending_comments.push(line@));
            }
        } else if in_block {
            flush_into(&mut out, &pb);
            flush_into(&mut out, &pc);
            proof {
                assert(lseq(out@) == (st.emitted + st.pending_blanks) + st.pending_comments);
            }
            let cl = copy_line(line);
            proof {
                assert(lseq(out@.push(cl)) =~= lseq(out@).push(cl@));
            }
            out.push(cl);
            pb = Vec::new();
            pc = Vec::new();
            in_block = false;
            proof {
                assert(lseq(out@) =~= st.emitted + st.pending_blanks
                    + st.pending_comments.push(line@));
                assert(lseq(pb@) =~= Seq::<Seq<char>>::empty());
                assert(lseq(pc@) =~= Seq::<Seq<char>>::empty());
            }
        } else {
            out.push(copy_line(line));
            proof {
                assert(lseq(out@) =~= st.emitted.push(line@));
            }
        }
        k += 1;
    }
    proof {
        assert(ls.take(lines@.len() as int) =~= ls);
    }
    // Flush what is still pending, then join.
    flush_into(&mut out, &pb);
    flush_into(&mut out, &pc);
    proof {
        assert(lseq(out@) == squeeze_lines(ls));
    }
    let mut joined: Vec<char> = Vec::new();
    let mut j: usize = 0;
    let ghost outs: Seq<Seq<char>> = lseq(out@);
    proof {
        assert(outs.take(0) =~= Seq::<Seq<char>>::empty());
    }
    while j < out.len()
        invariant
            j <= out@.len(),
            outs == lseq(out@),
            joined@ == join_nl(outs.take(j as int)),
        decreases out@.len() - j,
    {
        proof {
            lemma_join_push(outs.take(j as int), outs[j as int]);
            assert(outs.take(j as int + 1) =~= outs.take(j as int).push(outs[j as int]));
        }
        if j > 0 {
            joined.push('\n');
        }
        append_line(&mut joined, &out[j]);
        proof {
            if j > 0 {
                assert(joined@ =~= join_nl(outs.take(j as int)).push('\n') + outs[j as int]);
            } else {
                assert(joined@ =~= outs[0]);
            }
        }
        j += 1;
    }
    proof {
        assert(outs.take(out@.len() as int) =~= outs);
    }
    if has_nl {
        joined.push('\n');
    }
    chars_string(&joined)
}

/// Squeeze a file's content and report whether anything changed: the pure
/// part of processing one file, before any writing back.
pub fn squeeze_with_status(content: &str) -> (r: (String, FileResult))
    ensures
        r.0@ == spec_squeeze(content@),
        r.1 == (if spec_squeeze(content@) == content@ {
            FileResult::Unchanged
        } else {
            FileResult::Changed
        }),
{
    let squeezed = squeeze_imports(content);
    let a = str_chars(squeezed.as_str());
    let b = str_chars(content);
    let same = vec_eq(&a, &b);
    if same {
        (squeezed, FileResult::Unchanged)
    } else {
        (squeezed, FileResult::Changed)
    }
}

/// The multiline tracker: given a line and whether an import or
/// `import.meta` construct is already open, whether one is open after it.
pub fn is_in_multiline_import(line: &str, in_multiline: bool) -> (r: bool)
    ensures
        r == ml_next(line@, in_multiline),
{
    let v = str_chars(line);
    let t = trim_vec(&v);
    if in_multiline {
        ml_continue_trimmed(&t)
    } else {
        ml_open_trimmed(&t)
    }
}

} // verus!
