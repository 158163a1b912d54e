use vstd::prelude::*;

verus! {

use vstd::multiset::Multiset;
use crate::model::{
    trim, blank_line, comment_line, import_opener, import_meta_opener, ml_opens, ml_continues,
    ml_next, kw_import, kw_import_meta, has_char, SqueezeState, init_state, step, run, flush,
    squeeze_lines, split_nl, join_nl, has_final_nl, lines_of, spec_squeeze,
};
use crate::{
    lemma_trim_props, lemma_run_concat, lemma_run_singleton, lemma_split_props, lemma_join_split,
    lemma_split_join, lemma_split_of_nlfree,
};

// ---------------------------------------------------------------------------
// Small facts about the classifiers.
// ---------------------------------------------------------------------------

/// A blank line opens nothing and is not a comment.
proof fn lemma_blank_not_other(l: Seq<char>)
    requires
        blank_line(l),
    ensures
        !import_opener(l),
        !import_meta_opener(l),
        !comment_line(l),
{
    assert(kw_import().len() == 6);
    assert(kw_import_meta().len() == 11);
}

/// A comment line has characters besides white space.
proof fn lemma_comment_nonempty(l: Seq<char>)
    requires
        comment_line(l),
    ensures
        trim(l).len() > 0,
        l.len() > 0,
{
    lemma_trim_props(l);
}

// ---------------------------------------------------------------------------
// Invariants of the squeezer's state.
// ---------------------------------------------------------------------------

/// What always holds of the squeezer's state: nothing is pending outside an
/// import block or inside a multi-line construct, pending blanks are blank,
/// and pending comments are comments that are neither blank nor openers.
pub open spec fn st_inv(st: SqueezeState) -> bool {
    &&& (!st.in_block ==> st.pending_blanks.len() == 0 && st.pending_comments.len() == 0)
    &&& (st.in_multiline ==> st.pending_blanks.len() == 0 && st.pending_comments.len() == 0)
    &&& (forall|i: int|
        0 <= i < st.pending_blanks.len() ==> blank_line(#[trigger] st.pending_blanks[i]))
    &&& (forall|i: int|
        0 <= i < st.pending_comments.len() ==> comment_line(#[trigger] st.pending_comments[i])
            && !blank_line(st.pending_comments[i]) && !import_opener(st.pending_comments[i])
            && !import_meta_opener(st.pending_comments[i]))
}

proof fn lemma_step_inv(st: SqueezeState, l: Seq<char>)
    requires
        st_inv(st),
    ensures
        st_inv(step(st, l)),
{
}

proof fn lemma_run_inv(st: SqueezeState, ls: Seq<Seq<char>>)
    requires
        st_inv(st),
    ensures
        st_inv(run(st, ls)),
    decreases ls.len(),
{
    if ls.len() > 0 {
        lemma_step_inv(st, ls.first());
        lemma_run_inv(step(st, ls.first()), ls.drop_first());
    }
}

/// What one step appends to the emitted lines.
pub open spec fn burst(st: SqueezeState, l: Seq<char>) -> Seq<Seq<char>> {
    if st.in_multiline {
        seq![l]
    } else if import_opener(l) || import_meta_opener(l) {
        st.pending_comments.push(l)
    } else if st.in_block && blank_line(l) {
        Seq::empty()
    } else if st.in_block && comment_line(l) {
        Seq::empty()
    } else if st.in_block {
        st.pending_blanks + st.pending_comments.push(l)
    } else {
        seq![l]
    }
}

proof fn lemma_step_burst(st: SqueezeState, l: Seq<char>)
    ensures
        step(st, l).emitted == st.emitted + burst(st, l),
{
    if st.in_multiline {
        assert(st.emitted.push(l) =~= st.emitted + seq![l]);
    } else if import_opener(l) || import_meta_opener(l) {
    } else if st.in_block && blank_line(l) {
        assert(st.emitted =~= st.emitted + Seq::<Seq<char>>::empty());
    } else if st.in_block && comment_line(l) {
        assert(st.emitted =~= st.emitted + Seq::<Seq<char>>::empty());
    } else if st.in_block {
        assert(st.emitted + st.pending_blanks + st.pending_comments.push(l) =~= st.emitted + (
        st.pending_blanks + st.pending_comments.push(l)));
    } else {
        assert(st.emitted.push(l) =~= st.emitted + seq![l]);
    }
}

/// Emitted lines are only ever appended to.
proof fn lemma_run_emitted_prefix(st: SqueezeState, ls: Seq<Seq<char>>)
    ensures
        run(st, ls).emitted.len() >= st.emitted.len(),
        run(st, ls).emitted.take(st.emitted.len() as int) == st.emitted,
    decreases ls.len(),
{
    if ls.len() == 0 {
        assert(st.emitted.take(st.emitted.len() as int) =~= st.emitted);
    } else {
        let st1 = step(st, ls.first());
        lemma_step_burst(st, ls.first());
        lemma_run_emitted_prefix(st1, ls.drop_first());
        let fin = run(st1, ls.drop_first()).emitted;
        assert(fin.take(st.emitted.len() as int) =~= fin.take(st1.emitted.len() as int).take(
            st.emitted.len() as int,
        ));
    }
}

// ---------------------------------------------------------------------------
// The no-imports fixed point.
// ---------------------------------------------------------------------------

proof fn lemma_no_imports_run(st: SqueezeState, ls: Seq<Seq<char>>)
    requires
        !st.in_multiline,
        !st.in_block,
        st.pending_blanks.len() == 0,
        st.pending_comments.len() == 0,
        forall|i: int|
            0 <= i < ls.len() ==> !import_opener(#[trigger] ls[i]) && !import_meta_opener(ls[i]),
    ensures
        run(st, ls) == (SqueezeState { emitted: st.emitted + ls, ..st }),
    decreases ls.len(),
{
    if ls.len() == 0 {
        assert(st.emitted + ls =~= st.emitted);
    } else {
        let l = ls.first();
        let st1 = step(st, l);
        assert(st1.emitted =~= st.emitted.push(l));
        assert(!st1.in_multiline) by {
            assert(ml_opens(l) ==> import_opener(l) || import_meta_opener(l));
        }
        lemma_no_imports_run(st1, ls.drop_first());
        assert(st.emitted.push(l) + ls.drop_first() =~= st.emitted + ls);
    }
}

/// If no line of the input opens an import or an `import.meta` expression,
/// squeezing returns the input unchanged.
pub proof fn lemma_no_imports_fixed_point(x: Seq<char>)
    requires
        forall|i: int|
            0 <= i < lines_of(x).len() ==> !import_opener(#[trigger] lines_of(x)[i])
                && !import_meta_opener(lines_of(x)[i]),
    ensures
        spec_squeeze(x) == x,
{
    let ls = lines_of(x);
    lemma_no_imports_run(init_state(), ls);
    assert(squeeze_lines(ls) =~= ls) by {
        assert(run(init_state(), ls).emitted =~= Seq::<Seq<char>>::empty() + ls);
        assert(Seq::<Seq<char>>::empty() + ls =~= ls);
    }
    if has_final_nl(x) {
        lemma_join_split(x.drop_last());
        assert(join_nl(ls).push('\n') =~= x);
    } else {
        lemma_join_split(x);
    }
}

// ---------------------------------------------------------------------------
// Trailing-newline parity, and lines of the squeezed text.
// ---------------------------------------------------------------------------

/// No line of the squeezer's state contains a newline.
pub open spec fn nlfree_lines(ls: Seq<Seq<char>>) -> bool {
    forall|i: int| 0 <= i < ls.len() ==> !has_char(#[trigger] ls[i], '\n')
}

spec fn st_nlfree(st: SqueezeState) -> bool {
    nlfree_lines(st.emitted) && nlfree_lines(st.pending_blanks) && nlfree_lines(
        st.pending_comments,
    )
}

proof fn lemma_run_nlfree(st: SqueezeState, ls: Seq<Seq<char>>)
    requires
        st_nlfree(st),
        nlfree_lines(ls),
    ensures
        st_nlfree(run(st, ls)),
    decreases ls.len(),
{
    if ls.len() > 0 {
        let l = ls.first();
        let st1 = step(st, l);
        assert(st_nlfree(st1));
        assert(nlfree_lines(ls.drop_first())) by {
            assert(forall|i: int|
                0 <= i < ls.drop_first().len() ==> ls.drop_first()[i] == ls[i + 1]);
        }
        lemma_run_nlfree(st1, ls.drop_first());
    }
}

/// Squeezing never emits an empty result for a non-empty input.
proof fn lemma_squeeze_nonempty(ls: Seq<Seq<char>>)
    requires
        ls.len() > 0,
    ensures
        squeeze_lines(ls).len() > 0,
{
    let st1 = step(init_state(), ls.first());
    lemma_step_burst(init_state(), ls.first());
    assert(st1.emitted.len() == 1);
    assert(ls.drop_first() =~= ls.skip(1));
    lemma_run_emitted_prefix(st1, ls.drop_first());
}

/// After one more line, the flushed output ends in a non-empty line, as
/// long as that line is non-empty.
proof fn lemma_flush_last(st: SqueezeState, l: Seq<char>)
    requires
        st_inv(st),
        l.len() > 0,
    ensures
        flush(step(st, l)).len() > 0,
        flush(step(st, l)).last().len() > 0,
{
    let st1 = step(st, l);
    if st.in_multiline {
        assert(flush(st1).last() == l);
    } else if import_opener(l) || import_meta_opener(l) {
        assert(flush(st1) =~= st.emitted + st.pending_comments.push(l));
        assert(flush(st1).last() == l);
    } else if st.in_block && blank_line(l) {
        assert(flush(st1) =~= st.emitted + st.pending_blanks.push(l) + st.pending_comments);
        if st.pending_comments.len() > 0 {
            let c = st.pending_comments.last();
            lemma_comment_nonempty(c);
            assert(flush(st1).last() == c);
        } else {
            assert(flush(st1).last() == l);
        }
    } else if st.in_block && comment_line(l) {
        assert(flush(st1) =~= st.emitted + st.pending_blanks + st.pending_comments.push(l));
        assert(flush(st1).last() == l);
    } else if st.in_block {
        assert(flush(st1) =~= st.emitted + st.pending_blanks + st.pending_comments.push(l));
        assert(flush(st1).last() == l);
    } else {
        assert(flush(st1) =~= st.emitted.push(l));
        assert(flush(st1).last() == l);
    }
}

/// If the input's last line is non-empty, so is the output's.
proof fn lemma_squeeze_last(ls: Seq<Seq<char>>)
    requires
        ls.len() > 0,
        ls.last().len() > 0,
    ensures
        squeeze_lines(ls).len() > 0,
        squeeze_lines(ls).last().len() > 0,
{
    let n = ls.len() as int;
    let st = run(init_state(), ls.take(n - 1));
    lemma_run_inv(init_state(), ls.take(n - 1));
    assert(ls =~= ls.take(n - 1) + seq![ls.last()]);
    lemma_run_concat(init_state(), ls.take(n - 1), seq![ls.last()]);
    lemma_run_singleton(st, ls.last());
    lemma_flush_last(st, ls.last());
}

/// The last line of a newline-free join carries the join's last character.
proof fn lemma_join_last(ls: Seq<Seq<char>>)
    requires
        ls.len() > 0,
        nlfree_lines(ls),
        ls.last().len() > 0,
    ensures
        join_nl(ls).len() > 0,
        join_nl(ls).last() == ls.last().last(),
    decreases ls.len(),
{
    if ls.len() == 1 {
        assert(ls.first() == ls.last());
    } else {
        assert(nlfree_lines(ls.drop_first()) && ls.drop_first().last() == ls.last()) by {
            assert(forall|i: int|
                0 <= i < ls.drop_first().len() ==> ls.drop_first()[i] == ls[i + 1]);
        }
        lemma_join_last(ls.drop_first());
        let j = ls.first().push('\n') + join_nl(ls.drop_first());
        assert(j.last() == join_nl(ls.drop_first()).last());
    }
}

/// The last piece of a split is non-empty when the text does not end in a
/// newline.
proof fn lemma_split_last(s: Seq<char>)
    requires
        s.len() > 0,
        s.last() != '\n',
    ensures
        split_nl(s).last().len() > 0,
    decreases s.len(),
{
    crate::lemma_first_idx_props(s, '\n');
    let i = first_idx_int(s);
    if i >= s.len() {
    } else {
        assert(s[i] == '\n');
        assert(i < s.len() - 1);
        let rest = s.skip(i + 1);
        assert(rest.last() == s.last());
        lemma_split_last(rest);
        assert(split_nl(s).last() == split_nl(rest).last());
    }
}

spec fn first_idx_int(s: Seq<char>) -> int {
    crate::model::first_idx(s, '\n') as int
}

/// Squeezing the empty text yields the empty text, line for line.
proof fn lemma_squeeze_empty()
    ensures
        lines_of(Seq::<char>::empty()) == seq![Seq::<char>::empty()],
        squeeze_lines(seq![Seq::<char>::empty()]) == seq![Seq::<char>::empty()],
        spec_squeeze(Seq::<char>::empty()) == Seq::<char>::empty(),
{
    let e = Seq::<char>::empty();
    lemma_split_of_nlfree(e);
    lemma_blank_not_other(e);
    lemma_run_singleton(init_state(), e);
    let st1 = step(init_state(), e);
    assert(st1.emitted =~= seq![e]);
    assert(flush(st1) =~= seq![e]);
    assert(join_nl(seq![e]) == e);
}

/// The output ends with a newline exactly when the input does.
pub proof fn lemma_trailing_newline_parity(x: Seq<char>)
    ensures
        has_final_nl(spec_squeeze(x)) == has_final_nl(x),
{
    let ls = lines_of(x);
    let ol = squeeze_lines(ls);
    if has_final_nl(x) {
        lemma_split_props(x.drop_last());
        lemma_squeeze_nonempty(ls);
        assert(has_final_nl(join_nl(ol).push('\n')));
    } else if x.len() == 0 {
        assert(x =~= Seq::<char>::empty());
        lemma_squeeze_empty();
    } else {
        lemma_split_props(x);
        lemma_split_last(x);
        lemma_squeeze_last(ls);
        lemma_run_nlfree(init_state(), ls);
        assert(nlfree_lines(ol)) by {
            let st = run(init_state(), ls);
            assert(forall|i: int| 0 <= i < ol.len() ==> {
                ||| (0 <= i < st.emitted.len() && ol[i] == st.emitted[i])
                ||| (st.emitted.len() <= i < st.emitted.len() + st.pending_blanks.len() && ol[i]
                    == st.pending_blanks[i - st.emitted.len()])
                ||| (st.emitted.len() + st.pending_blanks.len() <= i && ol[i]
                    == st.pending_comments[i - st.emitted.len() - st.pending_blanks.len()])
            });
        }
        lemma_join_last(ol);
        assert(!has_char(ol.last(), '\n'));
        assert(ol.last().last() != '\n') by {
            if ol.last().last() == '\n' {
                assert(ol.last()[ol.last().len() - 1] == '\n');
            }
        }
    }
}

/// The lines of the squeezed text are the squeezed lines of the text.
pub proof fn lemma_lines_of_squeeze(x: Seq<char>)
    ensures
        lines_of(spec_squeeze(x)) == squeeze_lines(lines_of(x)),
{
    let ls = lines_of(x);
    let ol = squeeze_lines(ls);
    let y = spec_squeeze(x);
    if x.len() == 0 {
        assert(x =~= Seq::<char>::empty());
        lemma_squeeze_empty();
    } else {
        assert(nlfree_lines(ls)) by {
            if has_final_nl(x) {
                lemma_split_props(x.drop_last());
            } else {
                lemma_split_props(x);
            }
        }
        lemma_run_nlfree(init_state(), ls);
        assert(nlfree_lines(ol)) by {
            let st = run(init_state(), ls);
            assert(forall|i: int| 0 <= i < ol.len() ==> {
                ||| (0 <= i < st.emitted.len() && ol[i] == st.emitted[i])
                ||| (st.emitted.len() <= i < st.emitted.len() + st.pending_blanks.len() && ol[i]
                    == st.pending_blanks[i - st.emitted.len()])
                ||| (st.emitted.len() + st.pending_blanks.len() <= i && ol[i]
                    == st.pending_comments[i - st.emitted.len() - st.pending_blanks.len()])
            });
        }
        lemma_squeeze_nonempty(ls);
        lemma_split_join(ol);
        if has_final_nl(x) {
            assert(y == join_nl(ol).push('\n'));
            assert(has_final_nl(y));
            assert(y.drop_last() =~= join_nl(ol));
        } else {
            lemma_trailing_newline_parity(x);
            assert(y == join_nl(ol));
            assert(!has_final_nl(y));
        }
    }
}

// ---------------------------------------------------------------------------
// Preservation of the meaningful lines.
// ---------------------------------------------------------------------------

/// A meaningful line: neither blank nor comment-like.
pub open spec fn meaningful(l: Seq<char>) -> bool {
    !blank_line(l) && !comment_line(l)
}

/// The subsequence of meaningful lines, in order.
pub open spec fn keep_meaningful(ls: Seq<Seq<char>>) -> Seq<Seq<char>>
    decreases ls.len(),
{
    if ls.len() == 0 {
        Seq::empty()
    } else if meaningful(ls.first()) {
        seq![ls.first()] + keep_meaningful(ls.drop_first())
    } else {
        keep_meaningful(ls.drop_first())
    }
}

proof fn lemma_keep_concat(a: Seq<Seq<char>>, b: Seq<Seq<char>>)
    ensures
        keep_meaningful(a + b) == keep_meaningful(a) + keep_meaningful(b),
    decreases a.len(),
{
    if a.len() == 0 {
        assert(a + b =~= b);
        assert(Seq::<Seq<char>>::empty() + keep_meaningful(b) =~= keep_meaningful(b));
    } else {
        assert((a + b).first() == a.first());
        assert((a + b).drop_first() =~= a.drop_first() + b);
        lemma_keep_concat(a.drop_first(), b);
        if meaningful(a.first()) {
            assert(seq![a.first()] + (keep_meaningful(a.drop_first()) + keep_meaningful(b)) =~= (
            seq![a.first()] + keep_meaningful(a.drop_first())) + keep_meaningful(b));
        }
    }
}

proof fn lemma_keep_none(cs: Seq<Seq<char>>)
    requires
        forall|i: int| 0 <= i < cs.len() ==> !meaningful(#[trigger] cs[i]),
    ensures
        keep_meaningful(cs) == Seq::<Seq<char>>::empty(),
    decreases cs.len(),
{
    if cs.len() > 0 {
        assert(!meaningful(cs.first())) by {
            assert(cs[0] == cs.first());
        }
        assert(forall|i: int| 0 <= i < cs.drop_first().len() ==> cs.drop_first()[i] == cs[i + 1]);
        lemma_keep_none(cs.drop_first());
    }
}

proof fn lemma_keep_singleton(l: Seq<char>)
    ensures
        meaningful(l) ==> keep_meaningful(seq![l]) == seq![l],
        !meaningful(l) ==> keep_meaningful(seq![l]) == Seq::<Seq<char>>::empty(),
{
    assert(seq![l].len() == 1);
    assert(seq![l].first() == l);
    assert(seq![l].drop_first() =~= Seq::<Seq<char>>::empty());
    assert(keep_meaningful(Seq::<Seq<char>>::empty()) == Seq::<Seq<char>>::empty());
    if meaningful(l) {
        assert(keep_meaningful(seq![l]) == seq![l] + keep_meaningful(seq![l].drop_first()));
        assert(seq![l] + Seq::<Seq<char>>::empty() =~= seq![l]);
    } else {
        assert(keep_meaningful(seq![l]) == keep_meaningful(seq![l].drop_first()));
    }
}

/// The burst of a step carries exactly the meaningful content of its line.
proof fn lemma_keep_burst(st: SqueezeState, l: Seq<char>)
    requires
        st_inv(st),
    ensures
        keep_meaningful(burst(st, l)) == keep_meaningful(seq![l]),
{
    lemma_keep_singleton(l);
    if st.in_multiline {
    } else if import_opener(l) || import_meta_opener(l) {
        assert(st.pending_comments.push(l) =~= st.pending_comments + seq![l]);
        lemma_keep_concat(st.pending_comments, seq![l]);
        lemma_keep_none(st.pending_comments);
        assert(Seq::<Seq<char>>::empty() + keep_meaningful(seq![l]) =~= keep_meaningful(seq![l]));
    } else if st.in_block && blank_line(l) {
    } else if st.in_block && comment_line(l) {
    } else if st.in_block {
        assert(st.pending_blanks + st.pending_comments.push(l) =~= (st.pending_blanks
            + st.pending_comments) + seq![l]);
        lemma_keep_concat(st.pending_blanks + st.pending_comments, seq![l]);
        lemma_keep_concat(st.pending_blanks, st.pending_comments);
        lemma_keep_none(st.pending_blanks);
        lemma_keep_none(st.pending_comments);
        assert((Seq::<Seq<char>>::empty() + Seq::<Seq<char>>::empty())
            + keep_meaningful(seq![l]) =~= keep_meaningful(seq![l]));
    }
}

proof fn lemma_keep_run(st: SqueezeState, ls: Seq<Seq<char>>)
    requires
        st_inv(st),
    ensures
        keep_meaningful(run(st, ls).emitted) == keep_meaningful(st.emitted) + keep_meaningful(ls),
    decreases ls.len(),
{
    if ls.len() == 0 {
        assert(keep_meaningful(st.emitted) + Seq::<Seq<char>>::empty() =~= keep_meaningful(
            st.emitted,
        ));
    } else {
        let l = ls.first();
        let st1 = step(st, l);
        lemma_step_inv(st, l);
        lemma_step_burst(st, l);
        lemma_keep_concat(st.emitted, burst(st, l));
        lemma_keep_burst(st, l);
        lemma_keep_run(st1, ls.drop_first());
        assert(ls =~= seq![l] + ls.drop_first());
        lemma_keep_concat(seq![l], ls.drop_first());
        assert((keep_meaningful(st.emitted) + keep_meaningful(seq![l])) + keep_meaningful(
            ls.drop_first(),
        ) =~= keep_meaningful(st.emitted) + (keep_meaningful(seq![l]) + keep_meaningful(
            ls.drop_first(),
        )));
    }
}

/// Filtering the output to its meaningful lines — neither blank nor
/// comment-like — yields the same sequence as filtering the input.
pub proof fn lemma_meaningful_preserved(x: Seq<char>)
    ensures
        keep_meaningful(lines_of(spec_squeeze(x))) == keep_meaningful(lines_of(x)),
{
    let ls = lines_of(x);
    let st = run(init_state(), ls);
    lemma_lines_of_squeeze(x);
    lemma_run_inv(init_state(), ls);
    lemma_keep_run(init_state(), ls);
    assert(keep_meaningful(Seq::<Seq<char>>::empty()) == Seq::<Seq<char>>::empty());
    assert(flush(st) =~= st.emitted + (st.pending_blanks + st.pending_comments));
    lemma_keep_concat(st.emitted, st.pending_blanks + st.pending_comments);
    lemma_keep_concat(st.pending_blanks, st.pending_comments);
    lemma_keep_none(st.pending_blanks);
    lemma_keep_none(st.pending_comments);
    assert(keep_meaningful(squeeze_lines(ls)) =~= keep_meaningful(st.emitted));
    assert(Seq::<Seq<char>>::empty() + keep_meaningful(ls) =~= keep_meaningful(ls));
}

// ---------------------------------------------------------------------------
// Idempotence.
// ---------------------------------------------------------------------------

/// The state a second run reaches after reading exactly what the first run
/// has emitted so far.
pub open spec fn replay_of(st: SqueezeState) -> SqueezeState {
    SqueezeState {
        in_multiline: st.in_multiline,
        in_block: st.in_block,
        pending_blanks: Seq::empty(),
        pending_comments: Seq::empty(),
        emitted: st.emitted,
    }
}

proof fn lemma_replay_blanks(st: SqueezeState, bs: Seq<Seq<char>>)
    requires
        st.in_block,
        !st.in_multiline,
        forall|i: int| 0 <= i < bs.len() ==> blank_line(#[trigger] bs[i]),
    ensures
        run(st, bs) == (SqueezeState { pending_blanks: st.pending_blanks + bs, ..st }),
    decreases bs.len(),
{
    if bs.len() == 0 {
        assert(st.pending_blanks + bs =~= st.pending_blanks);
    } else {
        let l = bs.first();
        assert(blank_line(l)) by {
            assert(bs[0] == bs.first());
        }
        lemma_blank_not_other(l);
        let st1 = step(st, l);
        assert(st1 == SqueezeState { pending_blanks: st.pending_blanks.push(l), ..st });
        assert(forall|i: int| 0 <= i < bs.drop_first().len() ==> bs.drop_first()[i] == bs[i + 1]);
        lemma_replay_blanks(st1, bs.drop_first());
        assert(st.pending_blanks.push(l) + bs.drop_first() =~= st.pending_blanks + bs);
    }
}

proof fn lemma_replay_comments(st: SqueezeState, cs: Seq<Seq<char>>)
    requires
        st.in_block,
        !st.in_multiline,
        forall|i: int|
            0 <= i < cs.len() ==> comment_line(#[trigger] cs[i]) && !blank_line(cs[i])
                && !import_opener(cs[i]) && !import_meta_opener(cs[i]),
    ensures
        run(st, cs) == (SqueezeState { pending_comments: st.pending_comments + cs, ..st }),
    decreases cs.len(),
{
    if cs.len() == 0 {
        assert(st.pending_comments + cs =~= st.pending_comments);
    } else {
        let l = cs.first();
        assert(comment_line(l) && !blank_line(l) && !import_opener(l) && !import_meta_opener(l))
            by {
            assert(cs[0] == cs.first());
        }
        let st1 = step(st, l);
        assert(st1 == SqueezeState { pending_comments: st.pending_comments.push(l), ..st });
        assert(forall|i: int| 0 <= i < cs.drop_first().len() ==> cs.drop_first()[i] == cs[i + 1]);
        lemma_replay_comments(st1, cs.drop_first());
        assert(st.pending_comments.push(l) + cs.drop_first() =~= st.pending_comments + cs);
    }
}

/// Reading one step's burst from the replayed state lands on the replay of
/// the stepped state.
proof fn lemma_step_replay(st: SqueezeState, l: Seq<char>)
    requires
        st_inv(st),
    ensures
        run(replay_of(st), burst(st, l)) == replay_of(step(st, l)),
{
    let p = replay_of(st);
    if st.in_multiline {
        lemma_run_singleton(p, l);
    } else if import_opener(l) || import_meta_opener(l) {
        if st.in_block {
            lemma_replay_comments(p, st.pending_comments);
            let q = SqueezeState { pending_comments: st.pending_comments, ..p };
            assert(Seq::<Seq<char>>::empty() + st.pending_comments =~= st.pending_comments);
            assert(st.pending_comments.push(l) =~= st.pending_comments + seq![l]);
            lemma_run_concat(p, st.pending_comments, seq![l]);
            lemma_run_singleton(q, l);
            assert(step(q, l).emitted =~= st.emitted + st.pending_comments.push(l));
        } else {
            assert(st.pending_comments.len() == 0);
            assert(st.pending_comments.push(l) =~= seq![l]);
            lemma_run_singleton(p, l);
            assert(step(p, l).emitted =~= st.emitted + st.pending_comments.push(l));
        }
    } else if st.in_block && blank_line(l) {
        assert(run(p, Seq::empty()) == p);
    } else if st.in_block && comment_line(l) {
        assert(run(p, Seq::empty()) == p);
    } else if st.in_block {
        lemma_replay_blanks(p, st.pending_blanks);
        let q1 = SqueezeState { pending_blanks: st.pending_blanks, ..p };
        assert(Seq::<Seq<char>>::empty() + st.pending_blanks =~= st.pending_blanks);
        lemma_replay_comments(q1, st.pending_comments);
        let q2 = SqueezeState {
            pending_blanks: st.pending_blanks,
            pending_comments: st.pending_comments,
            ..p
        };
        assert(Seq::<Seq<char>>::empty() + st.pending_comments =~= st.pending_comments);
        assert(st.pending_blanks + st.pending_comments.push(l) =~= (st.pending_blanks
            + st.pending_comments) + seq![l]);
        lemma_run_concat(p, st.pending_blanks, st.pending_comments + seq![l]);
        lemma_run_concat(q1, st.pending_comments, seq![l]);
        assert(st.pending_blanks + (st.pending_comments + seq![l]) =~= (st.pending_blanks
            + st.pending_comments) + seq![l]);
        lemma_run_singleton(q2, l);
        assert(step(q2, l).emitted =~= st.emitted + st.pending_blanks + st.pending_comments.push(
            l,
        ));
    } else {
        lemma_run_singleton(p, l);
    }
}

/// Replaying everything the first run emits reproduces its control state
/// with nothing pending.
proof fn lemma_replay_run(st: SqueezeState, ls: Seq<Seq<char>>)
    requires
        st_inv(st),
    ensures
        run(replay_of(st), run(st, ls).emitted.skip(st.emitted.len() as int)) == replay_of(
            run(st, ls),
        ),
    decreases ls.len(),
{
    if ls.len() == 0 {
        assert(st.emitted.skip(st.emitted.len() as int) =~= Seq::<Seq<char>>::empty());
    } else {
        let l = ls.first();
        let st1 = step(st, l);
        lemma_step_inv(st, l);
        lemma_step_burst(st, l);
        lemma_replay_run(st1, ls.drop_first());
        lemma_step_replay(st, l);
        let fin = run(st1, ls.drop_first());
        lemma_run_emitted_prefix(st1, ls.drop_first());
        assert(fin.emitted.skip(st.emitted.len() as int) =~= burst(st, l) + fin.emitted.skip(
            st1.emitted.len() as int,
        )) by {
            assert(forall|i: int|
                0 <= i < st1.emitted.len() ==> fin.emitted[i] == fin.emitted.take(
                    st1.emitted.len() as int,
                )[i]);
        }
        lemma_run_concat(
            replay_of(st),
            burst(st, l),
            fin.emitted.skip(st1.emitted.len() as int),
        );
    }
}

proof fn lemma_squeeze_lines_idempotent(ls: Seq<Seq<char>>)
    ensures
        squeeze_lines(squeeze_lines(ls)) == squeeze_lines(ls),
{
    let st1 = run(init_state(), ls);
    lemma_run_inv(init_state(), ls);
    assert(replay_of(init_state()) == init_state());
    lemma_replay_run(init_state(), ls);
    assert(st1.emitted.skip(0) =~= st1.emitted);
    let p = replay_of(st1);
    assert(run(init_state(), st1.emitted) == p);
    assert(squeeze_lines(ls) =~= st1.emitted + (st1.pending_blanks + st1.pending_comments));
    lemma_run_concat(init_state(), st1.emitted, st1.pending_blanks + st1.pending_comments);
    if st1.in_block && !st1.in_multiline {
        lemma_replay_blanks(p, st1.pending_blanks);
        let q1 = SqueezeState { pending_blanks: st1.pending_blanks, ..p };
        assert(Seq::<Seq<char>>::empty() + st1.pending_blanks =~= st1.pending_blanks);
        lemma_run_concat(p, st1.pending_blanks, st1.pending_comments);
        lemma_replay_comments(q1, st1.pending_comments);
        assert(Seq::<Seq<char>>::empty() + st1.pending_comments =~= st1.pending_comments);
        let q2 = run(init_state(), squeeze_lines(ls));
        assert(q2.emitted == st1.emitted && q2.pending_blanks == st1.pending_blanks
            && q2.pending_comments == st1.pending_comments);
        assert(flush(q2) == flush(st1));
    } else {
        assert(st1.pending_blanks.len() == 0 && st1.pending_comments.len() == 0);
        assert(st1.pending_blanks + st1.pending_comments =~= Seq::<Seq<char>>::empty());
        assert(squeeze_lines(ls) =~= st1.emitted);
        assert(run(init_state(), squeeze_lines(ls)) == p);
        assert(flush(p) =~= flush(st1));
    }
}

/// Squeezing is idempotent: squeezing a squeezed text changes nothing.
pub proof fn lemma_squeeze_idempotent(x: Seq<char>)
    ensures
        spec_squeeze(spec_squeeze(x)) == spec_squeeze(x),
{
    let y = spec_squeeze(x);
    lemma_lines_of_squeeze(x);
    lemma_squeeze_lines_idempotent(lines_of(x));
    lemma_trailing_newline_parity(x);
    assert(squeeze_lines(lines_of(y)) == lines_of(y));
    if has_final_nl(y) {
        lemma_join_split(y.drop_last());
        assert(join_nl(lines_of(y)).push('\n') =~= y);
    } else {
        lemma_join_split(y);
    }
}

// ---------------------------------------------------------------------------
// Preservation of import lines and their multi-line continuations.
// ---------------------------------------------------------------------------

/// The multiline bit after reading a whole sequence of lines.
pub open spec fn ml_after(ls: Seq<Seq<char>>, ml: bool) -> bool
    decreases ls.len(),
{
    if ls.len() == 0 {
        ml
    } else {
        ml_after(ls.drop_first(), ml_next(ls.first(), ml))
    }
}

/// The subsequence of import-opener and `import.meta`-opener lines together
/// with their multi-line continuations, in order.
pub open spec fn import_lines(ls: Seq<Seq<char>>, ml: bool) -> Seq<Seq<char>>
    decreases ls.len(),
{
    if ls.len() == 0 {
        Seq::empty()
    } else {
        let l = ls.first();
        if ml {
            seq![l] + import_lines(ls.drop_first(), ml_continues(l))
        } else if import_opener(l) || import_meta_opener(l) {
            seq![l] + import_lines(ls.drop_first(), ml_opens(l))
        } else {
            import_lines(ls.drop_first(), false)
        }
    }
}

proof fn lemma_imports_concat(a: Seq<Seq<char>>, b: Seq<Seq<char>>, ml: bool)
    ensures
        ml_after(a + b, ml) == ml_after(b, ml_after(a, ml)),
        import_lines(a + b, ml) == import_lines(a, ml) + import_lines(b, ml_after(a, ml)),
    decreases a.len(),
{
    if a.len() == 0 {
        assert(a + b =~= b);
        assert(Seq::<Seq<char>>::empty() + import_lines(b, ml) =~= import_lines(b, ml));
    } else {
        let l = a.first();
        assert((a + b).first() == l);
        assert((a + b).drop_first() =~= a.drop_first() + b);
        lemma_imports_concat(a.drop_first(), b, ml_next(l, ml));
        if ml || import_opener(l) || import_meta_opener(l) {
            assert(seq![l] + (import_lines(a.drop_first(), ml_next(l, ml)) + import_lines(
                b,
                ml_after(a.drop_first(), ml_next(l, ml)),
            )) =~= (seq![l] + import_lines(a.drop_first(), ml_next(l, ml))) + import_lines(
                b,
                ml_after(a.drop_first(), ml_next(l, ml)),
            ));
        }
    }
}

proof fn lemma_imports_singleton(l: Seq<char>, ml: bool)
    ensures
        ml_after(seq![l], ml) == ml_next(l, ml),
        (ml || import_opener(l) || import_meta_opener(l)) ==> import_lines(seq![l], ml) == seq![l],
        !(ml || import_opener(l) || import_meta_opener(l)) ==> import_lines(seq![l], ml)
            == Seq::<Seq<char>>::empty(),
{
    assert(seq![l].len() == 1);
    assert(seq![l].first() == l);
    assert(seq![l].drop_first() =~= Seq::<Seq<char>>::empty());
    assert(ml_after(Seq::<Seq<char>>::empty(), ml_next(l, ml)) == ml_next(l, ml));
    assert(import_lines(Seq::<Seq<char>>::empty(), ml_next(l, ml)) == Seq::<Seq<char>>::empty());
    if ml || import_opener(l) || import_meta_opener(l) {
        assert(seq![l] + Seq::<Seq<char>>::empty() =~= seq![l]);
    }
}

proof fn lemma_imports_none(cs: Seq<Seq<char>>)
    requires
        forall|i: int|
            0 <= i < cs.len() ==> !import_opener(#[trigger] cs[i]) && !import_meta_opener(cs[i]),
    ensures
        import_lines(cs, false) == Seq::<Seq<char>>::empty(),
        ml_after(cs, false) == false,
    decreases cs.len(),
{
    if cs.len() > 0 {
        let l = cs.first();
        assert(!import_opener(l) && !import_meta_opener(l)) by {
            assert(cs[0] == l);
        }
        assert(!ml_opens(l));
        assert(forall|i: int| 0 <= i < cs.drop_first().len() ==> cs.drop_first()[i] == cs[i + 1]);
        lemma_imports_none(cs.drop_first());
    }
}

proof fn lemma_imports_run(st: SqueezeState, ls: Seq<Seq<char>>)
    requires
        st_inv(st),
        ml_after(st.emitted, false) == st.in_multiline,
    ensures
        run(st, ls).in_multiline == ml_after(ls, st.in_multiline),
        ml_after(run(st, ls).emitted, false) == run(st, ls).in_multiline,
        import_lines(run(st, ls).emitted, false) == import_lines(st.emitted, false)
            + import_lines(ls, st.in_multiline),
    decreases ls.len(),
{
    if ls.len() == 0 {
        assert(import_lines(st.emitted, false) + Seq::<Seq<char>>::empty() =~= import_lines(
            st.emitted,
            false,
        ));
    } else {
        let l = ls.first();
        let st1 = step(st, l);
        lemma_step_inv(st, l);
        lemma_step_burst(st, l);
        lemma_imports_concat(st.emitted, burst(st, l), false);
        lemma_imports_singleton(l, st.in_multiline);
        // The burst carries the same import content as the line itself.
        if st.in_multiline {
        } else if import_opener(l) || import_meta_opener(l) {
            assert(st.pending_comments.push(l) =~= st.pending_comments + seq![l]);
            lemma_imports_none(st.pending_comments);
            lemma_imports_concat(st.pending_comments, seq![l], false);
            assert(Seq::<Seq<char>>::empty() + import_lines(seq![l], false) =~= import_lines(
                seq![l],
                false,
            ));
        } else if st.in_block && blank_line(l) {
            lemma_blank_not_other(l);
            assert(!ml_opens(l));
        } else if st.in_block && comment_line(l) {
            assert(!ml_opens(l));
        } else if st.in_block {
            assert(forall|i: int|
                0 <= i < st.pending_blanks.len() ==> !import_opener(
                    #[trigger] st.pending_blanks[i],
                ) && !import_meta_opener(st.pending_blanks[i])) by {
                assert forall|i: int| 0 <= i < st.pending_blanks.len() implies !import_opener(
                    #[trigger] st.pending_blanks[i],
                ) && !import_meta_opener(st.pending_blanks[i]) by {
                    lemma_blank_not_other(st.pending_blanks[i]);
                }
            }
            assert(st.pending_blanks + st.pending_comments.push(l) =~= (st.pending_blanks
                + st.pending_comments) + seq![l]);
            lemma_imports_none(st.pending_blanks);
            lemma_imports_none(st.pending_comments);
            lemma_imports_concat(st.pending_blanks, st.pending_comments, false);
            lemma_imports_concat(st.pending_blanks + st.pending_comments, seq![l], false);
            assert(!ml_opens(l));
        } else {
            assert(!ml_opens(l));
        }
        lemma_imports_run(st1, ls.drop_first());
        assert(ls =~= seq![l] + ls.drop_first());
        lemma_imports_concat(seq![l], ls.drop_first(), st.in_multiline);
        assert((import_lines(st.emitted, false) + import_lines(seq![l], st.in_multiline))
            + import_lines(ls.drop_first(), st1.in_multiline) =~= import_lines(st.emitted, false)
            + (import_lines(seq![l], st.in_multiline) + import_lines(
            ls.drop_first(),
            st1.in_multiline,
        )));
    }
}

/// The import lines of the output — openers and their multi-line
/// continuations — are exactly those of the input, in order.
pub proof fn lemma_imports_preserved(x: Seq<char>)
    ensures
        import_lines(lines_of(spec_squeeze(x)), false) == import_lines(lines_of(x), false),
{
    let ls = lines_of(x);
    let st = run(init_state(), ls);
    lemma_lines_of_squeeze(x);
    lemma_run_inv(init_state(), ls);
    lemma_imports_run(init_state(), ls);
    assert(flush(st) =~= st.emitted + (st.pending_blanks + st.pending_comments));
    lemma_imports_concat(st.emitted, st.pending_blanks + st.pending_comments, false);
    if st.in_multiline {
        assert(st.pending_blanks + st.pending_comments =~= Seq::<Seq<char>>::empty());
        assert(import_lines(Seq::<Seq<char>>::empty(), true) == Seq::<Seq<char>>::empty());
    } else {
        assert(forall|i: int|
            0 <= i < st.pending_blanks.len() ==> !import_opener(#[trigger] st.pending_blanks[i])
                && !import_meta_opener(st.pending_blanks[i])) by {
            assert forall|i: int| 0 <= i < st.pending_blanks.len() implies !import_opener(
                #[trigger] st.pending_blanks[i],
            ) && !import_meta_opener(st.pending_blanks[i]) by {
                lemma_blank_not_other(st.pending_blanks[i]);
            }
        }
        lemma_imports_none(st.pending_blanks);
        lemma_imports_none(st.pending_comments);
        lemma_imports_concat(st.pending_blanks, st.pending_comments, false);
    }
    assert(import_lines(flush(st), false) =~= import_lines(st.emitted, false));
    assert(Seq::<Seq<char>>::empty() + import_lines(ls, false) =~= import_lines(ls, false));
}

// ---------------------------------------------------------------------------
// Preservation of blank lines outside an import block.
// ---------------------------------------------------------------------------

/// A later import opener, separated from position `i` only by blank and
/// comment lines.
pub open spec fn gap_then_import(ls: Seq<Seq<char>>, i: int) -> bool {
    exists|k: int|
        i < k < ls.len() && (import_opener(#[trigger] ls[k]) || import_meta_opener(ls[k])) && (
        forall|m: int|
            i < m < k ==> (blank_line(#[trigger] ls[m]) || comment_line(ls[m])) && !import_opener(
                ls[m],
            ) && !import_meta_opener(ls[m]))
}

/// A blank line that the squeezer discards: it lies inside an import block,
/// outside any multi-line construct, and another import follows with only
/// blanks and comments between.
pub open spec fn squeezable(ls: Seq<Seq<char>>, i: int) -> bool {
    &&& blank_line(ls[i])
    &&& run(init_state(), ls.take(i)).in_block
    &&& !run(init_state(), ls.take(i)).in_multiline
    &&& gap_then_import(ls, i)
}

/// The remaining lines open with an import reachable across a gap of
/// blanks and comments alone.
pub open spec fn gap_from_start(suf: Seq<Seq<char>>) -> bool {
    exists|k: int|
        0 <= k < suf.len() && (import_opener(#[trigger] suf[k]) || import_meta_opener(suf[k])) && (
        forall|m: int|
            0 <= m < k ==> (blank_line(#[trigger] suf[m]) || comment_line(suf[m]))
                && !import_opener(suf[m]) && !import_meta_opener(suf[m]))
}

proof fn lemma_emitted_contains_flush(st: SqueezeState, ls: Seq<Seq<char>>, v: Seq<char>)
    requires
        st.emitted.contains(v),
    ensures
        flush(run(st, ls)).contains(v),
{
    lemma_run_emitted_prefix(st, ls);
    let j = choose|j: int| 0 <= j < st.emitted.len() && st.emitted[j] == v;
    let fin = run(st, ls);
    assert(fin.emitted.take(st.emitted.len() as int)[j] == fin.emitted[j]);
    assert(flush(fin)[j] == fin.emitted[j]);
}

proof fn lemma_pending_blank_survives(st: SqueezeState, suf: Seq<Seq<char>>, v: Seq<char>)
    requires
        st_inv(st),
        st.in_block,
        !st.in_multiline,
        st.pending_blanks.contains(v),
        !gap_from_start(suf),
    ensures
        flush(run(st, suf)).contains(v),
    decreases suf.len(),
{
    if suf.len() == 0 {
        let j = choose|j: int| 0 <= j < st.pending_blanks.len() && st.pending_blanks[j] == v;
        assert(flush(st)[st.emitted.len() + j] == v);
    } else {
        let l = suf.first();
        let st1 = step(st, l);
        lemma_step_inv(st, l);
        assert(forall|i: int|
            0 <= i < suf.drop_first().len() ==> suf.drop_first()[i] == suf[i + 1]);
        if import_opener(l) || import_meta_opener(l) {
            assert(gap_from_start(suf)) by {
                assert(suf[0] == l);
            }
        } else if blank_line(l) {
            assert(!gap_from_start(suf.drop_first())) by {
                if gap_from_start(suf.drop_first()) {
                    let k = choose|k: int|
                        0 <= k < suf.drop_first().len() && (import_opener(
                            #[trigger] suf.drop_first()[k],
                        ) || import_meta_opener(suf.drop_first()[k])) && (forall|m: int|
                            0 <= m < k ==> (blank_line(#[trigger] suf.drop_first()[m])
                                || comment_line(suf.drop_first()[m])) && !import_opener(
                                suf.drop_first()[m],
                            ) && !import_meta_opener(suf.drop_first()[m]));
                    assert(import_opener(suf[k + 1]) || import_meta_opener(suf[k + 1]));
                    assert forall|m: int|
                        0 <= m < k + 1 implies (blank_line(#[trigger] suf[m]) || comment_line(
                        suf[m],
                    )) && !import_opener(suf[m]) && !import_meta_opener(suf[m]) by {
                        if m > 0 {
                            assert(suf.drop_first()[m - 1] == suf[m]);
                        }
                    }
                    assert(gap_from_start(suf));
                }
            }
            assert(st1.pending_blanks.contains(v)) by {
                let j = choose|j: int|
                    0 <= j < st.pending_blanks.len() && st.pending_blanks[j] == v;
                assert(st1.pending_blanks[j] == v);
            }
            lemma_pending_blank_survives(st1, suf.drop_first(), v);
        } else if comment_line(l) {
            assert(!gap_from_start(suf.drop_first())) by {
                if gap_from_start(suf.drop_first()) {
                    let k = choose|k: int|
                        0 <= k < suf.drop_first().len() && (import_opener(
                            #[trigger] suf.drop_first()[k],
                        ) || import_meta_opener(suf.drop_first()[k])) && (forall|m: int|
                            0 <= m < k ==> (blank_line(#[trigger] suf.drop_first()[m])
                                || comment_line(suf.drop_first()[m])) && !import_opener(
                                suf.drop_first()[m],
                            ) && !import_meta_opener(suf.drop_first()[m]));
                    assert(import_opener(suf[k + 1]) || import_meta_opener(suf[k + 1]));
                    assert forall|m: int|
                        0 <= m < k + 1 implies (blank_line(#[trigger] suf[m]) || comment_line(
                        suf[m],
                    )) && !import_opener(suf[m]) && !import_meta_opener(suf[m]) by {
                        if m > 0 {
                            assert(suf.drop_first()[m - 1] == suf[m]);
                        }
                    }
                    assert(gap_from_start(suf));
                }
            }
            assert(st1.pending_blanks.contains(v));
            lemma_pending_blank_survives(st1, suf.drop_first(), v);
        } else {
            // A terminator: everything pending is flushed into the emitted
            // lines, where it stays.
            assert(st1.emitted.contains(v)) by {
                let j = choose|j: int|
                    0 <= j < st.pending_blanks.len() && st.pending_blanks[j] == v;
                assert(st1.emitted == st.emitted + st.pending_blanks + st.pending_comments.push(
                    l,
                ));
                assert(st1.emitted[st.emitted.len() + j] == v);
            }
            lemma_emitted_contains_flush(st1, suf.drop_first(), v);
        }
    }
}

/// A blank line that is not strictly between two import lines appears in
/// the output.
pub proof fn lemma_unsqueezed_blank_kept(x: Seq<char>, i: int)
    requires
        0 <= i < lines_of(x).len(),
        blank_line(lines_of(x)[i]),
        !squeezable(lines_of(x), i),
    ensures
        lines_of(spec_squeeze(x)).contains(lines_of(x)[i]),
{
    let ls = lines_of(x);
    let l = ls[i];
    lemma_lines_of_squeeze(x);
    let st = run(init_state(), ls.take(i));
    lemma_run_inv(init_state(), ls.take(i));
    let st1 = step(st, l);
    lemma_step_inv(st, l);
    assert(run(init_state(), ls) == run(st1, ls.skip(i + 1))) by {
        assert(ls =~= ls.take(i + 1) + ls.skip(i + 1));
        assert(ls.take(i + 1) =~= ls.take(i) + seq![l]);
        lemma_run_concat(init_state(), ls.take(i + 1), ls.skip(i + 1));
        lemma_run_concat(init_state(), ls.take(i), seq![l]);
        lemma_run_singleton(st, l);
    }
    lemma_blank_not_other(l);
    if st.in_multiline {
        assert(st1.emitted.contains(l)) by {
            assert(st1.emitted[st.emitted.len() as int] == l);
        }
        lemma_emitted_contains_flush(st1, ls.skip(i + 1), l);
    } else if !st.in_block {
        assert(st1.emitted.contains(l)) by {
            assert(st1.emitted[st.emitted.len() as int] == l);
        }
        lemma_emitted_contains_flush(st1, ls.skip(i + 1), l);
    } else {
        assert(!gap_from_start(ls.skip(i + 1))) by {
            if gap_from_start(ls.skip(i + 1)) {
                let k = choose|k: int|
                    0 <= k < ls.skip(i + 1).len() && (import_opener(#[trigger] ls.skip(i + 1)[k])
                        || import_meta_opener(ls.skip(i + 1)[k])) && (forall|m: int|
                        0 <= m < k ==> (blank_line(#[trigger] ls.skip(i + 1)[m]) || comment_line(
                            ls.skip(i + 1)[m],
                        )) && !import_opener(ls.skip(i + 1)[m]) && !import_meta_opener(
                            ls.skip(i + 1)[m],
                        ));
                assert(forall|j: int|
                    0 <= j < ls.skip(i + 1).len() ==> #[trigger] ls.skip(i + 1)[j] == ls[i + 1
                        + j]);
                assert(import_opener(ls[i + 1 + k]) || import_meta_opener(ls[i + 1 + k]));
                assert forall|m: int|
                    i < m < i + 1 + k implies (blank_line(#[trigger] ls[m]) || comment_line(ls[m]))
                        && !import_opener(ls[m]) && !import_meta_opener(ls[m]) by {
                    assert(ls.skip(i + 1)[m - i - 1] == ls[m]);
                }
                assert(gap_then_import(ls, i));
            }
        }
        assert(st1.pending_blanks.contains(l)) by {
            assert(st1.pending_blanks[st.pending_blanks.len() as int] == l);
        }
        lemma_pending_blank_survives(st1, ls.skip(i + 1), l);
    }
}

// ---------------------------------------------------------------------------
// Exact accounting of dropped blanks.
// ---------------------------------------------------------------------------

/// The lines the squeezer keeps, in input order: every line except a blank
/// read inside an import block, outside any multi-line construct, with
/// another import following across blanks and comments alone.
pub open spec fn kept_lines(multi: bool, blk: bool, ls: Seq<Seq<char>>) -> Seq<Seq<char>>
    decreases ls.len(),
{
    if ls.len() == 0 {
        Seq::empty()
    } else {
        let l = ls.first();
        let rest = ls.drop_first();
        if multi {
            seq![l] + kept_lines(ml_continues(l), blk, rest)
        } else if import_opener(l) || import_meta_opener(l) {
            seq![l] + kept_lines(ml_opens(l), true, rest)
        } else if blk && blank_line(l) {
            if gap_from_start(rest) {
                kept_lines(false, true, rest)
            } else {
                seq![l] + kept_lines(false, true, rest)
            }
        } else if blk && comment_line(l) {
            seq![l] + kept_lines(false, true, rest)
        } else {
            seq![l] + kept_lines(false, false, rest)
        }
    }
}

/// A leading blank or comment line does not decide whether an import
/// follows across the gap.
proof fn lemma_gap_cons(l: Seq<char>, rest: Seq<Seq<char>>)
    requires
        blank_line(l) || comment_line(l),
        !import_opener(l),
        !import_meta_opener(l),
    ensures
        gap_from_start(seq![l] + rest) == gap_from_start(rest),
{
    let suf = seq![l] + rest;
    assert(suf[0] == l);
    assert(forall|j: int| 0 <= j < rest.len() ==> suf[j + 1] == rest[j]);
    if gap_from_start(rest) {
        let k = choose|k: int|
            0 <= k < rest.len() && (import_opener(#[trigger] rest[k]) || import_meta_opener(
                rest[k],
            )) && (forall|m: int|
                0 <= m < k ==> (blank_line(#[trigger] rest[m]) || comment_line(rest[m]))
                    && !import_opener(rest[m]) && !import_meta_opener(rest[m]));
        assert(import_opener(suf[k + 1]) || import_meta_opener(suf[k + 1]));
        assert forall|m: int|
            0 <= m < k + 1 implies (blank_line(#[trigger] suf[m]) || comment_line(suf[m]))
                && !import_opener(suf[m]) && !import_meta_opener(suf[m]) by {
            if m > 0 {
                assert(suf[m] == rest[m - 1]);
            }
        }
        assert(gap_from_start(suf));
    }
    if gap_from_start(suf) {
        let k = choose|k: int|
            0 <= k < suf.len() && (import_opener(#[trigger] suf[k]) || import_meta_opener(
                suf[k],
            )) && (forall|m: int|
                0 <= m < k ==> (blank_line(#[trigger] suf[m]) || comment_line(suf[m]))
                    && !import_opener(suf[m]) && !import_meta_opener(suf[m]));
        assert(k >= 1);
        assert(import_opener(rest[k - 1]) || import_meta_opener(rest[k - 1]));
        assert forall|m: int|
            0 <= m < k - 1 implies (blank_line(#[trigger] rest[m]) || comment_line(rest[m]))
                && !import_opener(rest[m]) && !import_meta_opener(rest[m]) by {
            assert(rest[m] == suf[m + 1]);
        }
        assert(gap_from_start(rest));
    }
}

/// Running the squeezer from any sound state yields, as a multiset, what
/// it has already emitted, its pending comments, its pending blanks unless
/// an import follows across the gap, and the kept lines of the rest.
proof fn lemma_kept_multiset_run(st: SqueezeState, suf: Seq<Seq<char>>)
    requires
        st_inv(st),
    ensures
        flush(run(st, suf)).to_multiset() =~= st.emitted.to_multiset().add(
            st.pending_comments.to_multiset(),
        ).add(
            if st.in_block && !st.in_multiline && gap_from_start(suf) {
                Multiset::empty()
            } else {
                st.pending_blanks.to_multiset()
            },
        ).add(kept_lines(st.in_multiline, st.in_block, suf).to_multiset()),
    decreases suf.len(),
{
    broadcast use vstd::seq_lib::lemma_multiset_commutative;
    broadcast use vstd::seq_lib::group_to_multiset_ensures;
    broadcast use vstd::multiset::group_multiset_axioms;

    if suf.len() == 0 {
        assert(!gap_from_start(suf));
        assert(flush(st) =~= st.emitted + (st.pending_blanks + st.pending_comments));
        assert(kept_lines(st.in_multiline, st.in_block, suf).to_multiset()
            =~= Multiset::<Seq<char>>::empty());
    } else {
        let l = suf.first();
        let rest = suf.drop_first();
        let st1 = step(st, l);
        lemma_step_inv(st, l);
        lemma_kept_multiset_run(st1, rest);
        assert(suf =~= seq![l] + rest);
        if st.in_multiline {
            assert(st1.emitted =~= st.emitted + seq![l]);
            assert(kept_lines(true, st.in_block, suf) =~= seq![l] + kept_lines(
                ml_continues(l),
                st.in_block,
                rest,
            ));
        } else if import_opener(l) || import_meta_opener(l) {
            assert(gap_from_start(suf)) by {
                assert(suf[0] == l);
            }
            assert(st1.emitted =~= st.emitted + (st.pending_comments + seq![l]));
            assert(kept_lines(false, st.in_block, suf) =~= seq![l] + kept_lines(
                ml_opens(l),
                true,
                rest,
            ));
        } else if st.in_block && blank_line(l) {
            lemma_blank_not_other(l);
            lemma_gap_cons(l, rest);
            if gap_from_start(rest) {
                assert(kept_lines(false, true, suf) =~= kept_lines(false, true, rest));
            } else {
                assert(kept_lines(false, true, suf) =~= seq![l] + kept_lines(false, true, rest));
                assert(st1.pending_blanks.to_multiset() =~= st.pending_blanks.to_multiset().add(
                    seq![l].to_multiset(),
                ));
            }
        } else if st.in_block && comment_line(l) {
            lemma_gap_cons(l, rest);
            assert(kept_lines(false, true, suf) =~= seq![l] + kept_lines(false, true, rest));
            assert(st1.pending_comments.to_multiset() =~= st.pending_comments.to_multiset().add(
                seq![l].to_multiset(),
            ));
        } else if st.in_block {
            assert(!gap_from_start(suf)) by {
                if gap_from_start(suf) {
                    let k = choose|k: int|
                        0 <= k < suf.len() && (import_opener(#[trigger] suf[k])
                            || import_meta_opener(suf[k])) && (forall|m: int|
                            0 <= m < k ==> (blank_line(#[trigger] suf[m]) || comment_line(suf[m]))
                                && !import_opener(suf[m]) && !import_meta_opener(suf[m]));
                    assert(suf[0] == l);
                    if k == 0 {
                    } else {
                        assert(blank_line(suf[0]) || comment_line(suf[0]));
                    }
                }
            }
            assert(st1.emitted =~= st.emitted + (st.pending_blanks + (st.pending_comments
                + seq![l])));
            assert(kept_lines(false, true, suf) =~= seq![l] + kept_lines(false, false, rest));
        } else {
            assert(st1.emitted =~= st.emitted + seq![l]);
            assert(kept_lines(false, false, suf) =~= seq![l] + kept_lines(false, false, rest));
        }
    }
}

/// The kept lines, position by position: every line except the squeezable
/// blanks.
pub open spec fn kept_from(ls: Seq<Seq<char>>, i: int) -> Seq<Seq<char>>
    decreases ls.len() - i,
{
    if i >= ls.len() {
        Seq::empty()
    } else if squeezable(ls, i) {
        kept_from(ls, i + 1)
    } else {
        seq![ls[i]] + kept_from(ls, i + 1)
    }
}

/// An import after a blank-and-comment gap, stated from a position and
/// stated from the suffix behind it, are the same thing.
proof fn lemma_gap_shift(ls: Seq<Seq<char>>, i: int)
    requires
        0 <= i < ls.len(),
    ensures
        gap_then_import(ls, i) == gap_from_start(ls.skip(i + 1)),
{
    let suf = ls.skip(i + 1);
    assert(forall|j: int| 0 <= j < suf.len() ==> #[trigger] suf[j] == ls[i + 1 + j]);
    if gap_then_import(ls, i) {
        let k = choose|k: int|
            i < k < ls.len() && (import_opener(#[trigger] ls[k]) || import_meta_opener(ls[k]))
                && (forall|m: int|
                i < m < k ==> (blank_line(#[trigger] ls[m]) || comment_line(ls[m]))
                    && !import_opener(ls[m]) && !import_meta_opener(ls[m]));
        assert(suf[k - i - 1] == ls[k]);
        assert forall|m: int|
            0 <= m < k - i - 1 implies (blank_line(#[trigger] suf[m]) || comment_line(suf[m]))
                && !import_opener(suf[m]) && !import_meta_opener(suf[m]) by {
            assert(suf[m] == ls[i + 1 + m]);
        }
        assert(gap_from_start(suf));
    }
    if gap_from_start(suf) {
        let k = choose|k: int|
            0 <= k < suf.len() && (import_opener(#[trigger] suf[k]) || import_meta_opener(
                suf[k],
            )) && (forall|m: int|
                0 <= m < k ==> (blank_line(#[trigger] suf[m]) || comment_line(suf[m]))
                    && !import_opener(suf[m]) && !import_meta_opener(suf[m]));
        assert(import_opener(ls[i + 1 + k]) || import_meta_opener(ls[i + 1 + k]));
        assert forall|m: int|
            i < m < i + 1 + k implies (blank_line(#[trigger] ls[m]) || comment_line(ls[m]))
                && !import_opener(ls[m]) && !import_meta_opener(ls[m]) by {
            assert(suf[m - i - 1] == ls[m]);
        }
        assert(gap_then_import(ls, i));
    }
}

/// The recursion over the squeezer's control bits keeps exactly the lines
/// at non-squeezable positions.
proof fn lemma_kept_from_run(ls: Seq<Seq<char>>, i: int)
    requires
        0 <= i <= ls.len(),
    ensures
        kept_lines(
            run(init_state(), ls.take(i)).in_multiline,
            run(init_state(), ls.take(i)).in_block,
            ls.skip(i),
        ) == kept_from(ls, i),
    decreases ls.len() - i,
{
    let st = run(init_state(), ls.take(i));
    if i == ls.len() {
        assert(ls.skip(i) =~= Seq::<Seq<char>>::empty());
    } else {
        let l = ls[i];
        assert(ls.skip(i).first() == l);
        assert(ls.skip(i).drop_first() =~= ls.skip(i + 1));
        assert(ls.take(i + 1) =~= ls.take(i) + seq![l]);
        lemma_run_concat(init_state(), ls.take(i), seq![l]);
        lemma_run_singleton(st, l);
        lemma_kept_from_run(ls, i + 1);
        if st.in_multiline {
            assert(!squeezable(ls, i));
        } else if import_opener(l) || import_meta_opener(l) {
            assert(!squeezable(ls, i)) by {
                if squeezable(ls, i) {
                    lemma_blank_not_other(l);
                }
            }
        } else if st.in_block && blank_line(l) {
            lemma_gap_shift(ls, i);
            assert(squeezable(ls, i) == gap_from_start(ls.skip(i + 1)));
        } else if st.in_block && comment_line(l) {
            assert(!squeezable(ls, i));
        } else if st.in_block {
            assert(!squeezable(ls, i));
        } else {
            assert(!squeezable(ls, i));
        }
    }
}

/// Occurrence-exact accounting: as a multiset, the output's lines are the
/// input's lines with exactly the squeezable blanks removed — a blank
/// occurrence is dropped iff it lies inside an import block, outside any
/// multi-line construct, with another import following across blanks and
/// comments.
pub proof fn lemma_squeeze_multiset(x: Seq<char>)
    ensures
        lines_of(spec_squeeze(x)).to_multiset() == kept_lines(
            false,
            false,
            lines_of(x),
        ).to_multiset(),
        lines_of(spec_squeeze(x)).to_multiset() == kept_from(lines_of(x), 0).to_multiset(),
{
    let ls = lines_of(x);
    assert(kept_lines(false, false, ls) == kept_from(ls, 0)) by {
        assert(ls.take(0) =~= Seq::<Seq<char>>::empty());
        assert(run(init_state(), ls.take(0)) == init_state());
        assert(ls.skip(0) =~= ls);
        lemma_kept_from_run(ls, 0);
    }
    broadcast use vstd::multiset::group_multiset_axioms;
    broadcast use vstd::seq_lib::group_to_multiset_ensures;

    lemma_lines_of_squeeze(x);
    lemma_kept_multiset_run(init_state(), lines_of(x));
    assert(lines_of(spec_squeeze(x)).to_multiset() =~= kept_lines(
        false,
        false,
        lines_of(x),
    ).to_multiset()) by {
        assert(Seq::<Seq<char>>::empty().to_multiset() =~= Multiset::<Seq<char>>::empty()) by {
            assert forall|y: Seq<char>|
                Seq::<Seq<char>>::empty().to_multiset().count(y) == 0 by {
                if Seq::<Seq<char>>::empty().to_multiset().count(y) > 0 {
                    assert(Seq::<Seq<char>>::empty().contains(y));
                }
            }
        }
    }
}

} // verus!
