//! Properties of the formatter as a whole, stated over its model and proved.
use vstd::prelude::*;
use crate::format::{
    advance, flush, formatted_text, join_lines, mach, run_chunks, run_document, run_lines, step,
    Machine, StateModel,
};
use crate::row::is_row;
use crate::text::{fence, fence_at, fence_split, lemma_fence_split_nonempty, lines};

verus! {

/// `b` begins with `a`.
pub open spec fn extends(a: Seq<char>, b: Seq<char>) -> bool {
    a.len() <= b.len() && b.subrange(0, a.len() as int) == a
}

pub proof fn lemma_extends_add(a: Seq<char>, b: Seq<char>)
    ensures
        extends(a, a + b),
{
    assert((a + b).subrange(0, a.len() as int) =~= a);
}

pub proof fn lemma_extends_trans(a: Seq<char>, b: Seq<char>, c: Seq<char>)
    requires
        extends(a, b),
        extends(b, c),
    ensures
        extends(a, c),
{
    assert(c.subrange(0, a.len() as int) =~= c.subrange(0, b.len() as int).subrange(0, a.len() as int));
}

pub proof fn lemma_step_extends(m: Machine, line: Seq<char>, strict: bool)
    ensures
        extends(m.out, step(m, line, strict).out),
{
    let a = advance(m, line, strict);
    match m.state {
        StateModel::Text => {
            assert(a.out =~= m.out + Seq::<char>::empty());
        },
        StateModel::Header { source, headers } => {},
        StateModel::Reading { source_lines, table } => {},
    }
    lemma_extends_add(m.out, a.out.subrange(m.out.len() as int, a.out.len() as int));
    assert(extends(m.out, a.out)) by {
        match m.state {
            StateModel::Text => {
                assert(a.out.subrange(0, m.out.len() as int) =~= m.out);
            },
            StateModel::Header { source, headers } => {
                lemma_extends_add(m.out, source + seq!['\n']);
                assert(m.out + source + seq!['\n'] =~= m.out + (source + seq!['\n']));
                assert(a.out.subrange(0, m.out.len() as int) =~= m.out);
            },
            StateModel::Reading { source_lines, table } => {
                assert(a.out.subrange(0, m.out.len() as int) =~= m.out);
            },
        }
    }
    if a.state is Text {
        lemma_extends_add(a.out, line + seq!['\n']);
        assert(a.out + line + seq!['\n'] =~= a.out + (line + seq!['\n']));
        lemma_extends_trans(m.out, a.out, step(m, line, strict).out);
    }
}

pub proof fn lemma_run_lines_extends(m: Machine, ls: Seq<Seq<char>>, strict: bool)
    ensures
        extends(m.out, run_lines(m, ls, strict).out),
    decreases ls.len(),
{
    if ls.len() == 0 {
        assert(m.out.subrange(0, m.out.len() as int) =~= m.out);
    } else {
        let prev = run_lines(m, ls.drop_last(), strict);
        lemma_run_lines_extends(m, ls.drop_last(), strict);
        lemma_step_extends(prev, ls.last(), strict);
        lemma_extends_trans(m.out, prev.out, run_lines(m, ls, strict).out);
    }
}

pub proof fn lemma_run_chunks_extends(m: Machine, cs: Seq<Seq<char>>, i: int, j: int, strict: bool)
    requires
        0 <= i <= j <= cs.len(),
    ensures
        extends(run_chunks(m, cs.take(i), strict).out, run_chunks(m, cs.take(j), strict).out),
    decreases j - i,
{
    let a = run_chunks(m, cs.take(i), strict).out;
    if i == j {
        assert(a.subrange(0, a.len() as int) =~= a);
    } else {
        lemma_run_chunks_extends(m, cs, i, j - 1, strict);
        let c = cs.take(j);
        assert(c.drop_last() =~= cs.take(j - 1));
        let prev = run_chunks(m, c.drop_last(), strict);
        let k = c.len() - 1;
        let fenced = if k > 0 {
            mach(prev.out + fence(), prev.state, prev.warnings)
        } else {
            prev
        };
        lemma_extends_add(prev.out, fence());
        if k == 0 {
            assert(prev.out.subrange(0, prev.out.len() as int) =~= prev.out);
        }
        assert(extends(prev.out, fenced.out));
        if k % 2 == 1 {
            lemma_extends_add(fenced.out, c[k]);
        } else {
            lemma_run_lines_extends(fenced, lines(c[k]), strict);
        }
        lemma_extends_trans(prev.out, fenced.out, run_chunks(m, c, strict).out);
        lemma_extends_trans(a, prev.out, run_chunks(m, c, strict).out);
    }
}

pub proof fn lemma_flush_extends(m: Machine)
    ensures
        extends(m.out, flush(m)),
{
    match m.state {
        StateModel::Text => {
            assert(m.out.subrange(0, m.out.len() as int) =~= m.out);
        },
        StateModel::Header { source, .. } => {
            lemma_extends_add(m.out, source + seq!['\n']);
            assert(m.out + source + seq!['\n'] =~= m.out + (source + seq!['\n']));
        },
        StateModel::Reading { table, .. } => {
            lemma_extends_add(m.out, crate::table::render(table));
        },
    }
}

/// A fenced code block, from its opening fence to the fence that closes it, comes out
/// unchanged whatever it holds: the span at an odd position of the split on fences, with
/// a span after it, stands in the output between two fences.
pub proof fn law_fenced_block_verbatim(content: Seq<char>, strict: bool, k: int)
    requires
        0 <= k,
        k % 2 == 1,
        k + 1 < fence_split(content).len(),
    ensures
        exists|i: int|
            0 <= i && i + fence_split(content)[k].len() + 6 <= formatted_text(content, strict).len()
                && #[trigger] formatted_text(content, strict).subrange(
                i,
                i + fence_split(content)[k].len() + 6,
            ) == fence() + fence_split(content)[k] + fence(),
{
    let cs = fence_split(content);
    let m0 = mach(Seq::empty(), StateModel::Text, Seq::empty());
    let x = run_chunks(m0, cs.take(k), strict);
    let block = fence() + cs[k] + fence();
    let a = x.out + block;
    let r1 = run_chunks(m0, cs.take(k + 1), strict);
    let r2 = run_chunks(m0, cs.take(k + 2), strict);
    assert(cs.take(k + 1).drop_last() =~= cs.take(k));
    assert(cs.take(k + 2).drop_last() =~= cs.take(k + 1));
    assert(r1.out == x.out + fence() + cs[k]);
    let fenced = mach(r1.out + fence(), r1.state, r1.warnings);
    assert(r2 == run_lines(fenced, lines(cs[k + 1]), strict));
    assert(fenced.out =~= a);
    lemma_run_lines_extends(fenced, lines(cs[k + 1]), strict);
    lemma_run_chunks_extends(m0, cs, k + 2, cs.len() as int, strict);
    assert(cs.take(cs.len() as int) =~= cs);
    lemma_extends_trans(a, r2.out, run_document(content, strict).out);
    lemma_flush_extends(run_document(content, strict));
    lemma_extends_trans(a, run_document(content, strict).out, formatted_text(content, strict));
    let f = formatted_text(content, strict);
    let i = x.out.len() as int;
    assert(f.subrange(i, i + cs[k].len() + 6) =~= a.subrange(i, i + cs[k].len() + 6));
    assert(a.subrange(i, i + cs[k].len() + 6) =~= block);
}

/// What the formatter returns for spans none of whose prose lines is a pipe row: each prose
/// span line by line, every line followed by a newline; each code span as it is; and the
/// fences between the spans.
pub open spec fn plain_chunks(cs: Seq<Seq<char>>) -> Seq<char>
    decreases cs.len(),
{
    if cs.len() == 0 {
        Seq::empty()
    } else {
        let k = cs.len() - 1;
        let prev = plain_chunks(cs.drop_last());
        let f = if k > 0 {
            prev + fence()
        } else {
            prev
        };
        if k % 2 == 1 {
            f + cs[k]
        } else {
            f + join_lines(lines(cs[k]))
        }
    }
}

/// No prose line of the spans is a pipe row.
pub open spec fn no_rows(cs: Seq<Seq<char>>) -> bool {
    forall|k: int, i: int|
        0 <= k < cs.len() && k % 2 == 0 && 0 <= i < lines(cs[k]).len() ==> !is_row(
            #[trigger] lines(cs[k])[i],
        )
}

pub proof fn lemma_run_lines_plain(m: Machine, ls: Seq<Seq<char>>, strict: bool)
    requires
        m.state is Text,
        forall|i: int| 0 <= i < ls.len() ==> !is_row(#[trigger] ls[i]),
    ensures
        run_lines(m, ls, strict) == mach(m.out + join_lines(ls), StateModel::Text, m.warnings),
    decreases ls.len(),
{
    if ls.len() == 0 {
        assert(m.out + join_lines(ls) =~= m.out);
    } else {
        let init = ls.drop_last();
        assert forall|i: int| 0 <= i < init.len() implies !is_row(#[trigger] init[i]) by {
            assert(init[i] == ls[i]);
        }
        lemma_run_lines_plain(m, init, strict);
        assert(!is_row(ls[ls.len() - 1]));
        assert(m.out + join_lines(init) + ls.last() + seq!['\n'] =~= m.out + join_lines(ls));
    }
}

pub proof fn lemma_run_chunks_plain(cs: Seq<Seq<char>>, strict: bool)
    requires
        no_rows(cs),
    ensures
        run_chunks(mach(Seq::empty(), StateModel::Text, Seq::empty()), cs, strict) == mach(
            plain_chunks(cs),
            StateModel::Text,
            Seq::empty(),
        ),
    decreases cs.len(),
{
    let m0 = mach(Seq::empty(), StateModel::Text, Seq::empty());
    if cs.len() > 0 {
        let init = cs.drop_last();
        let k = cs.len() - 1;
        assert forall|j: int, i: int|
            0 <= j < init.len() && j % 2 == 0 && 0 <= i < lines(init[j]).len() implies !is_row(
            #[trigger] lines(init[j])[i],
        ) by {
            assert(init[j] == cs[j]);
        }
        lemma_run_chunks_plain(init, strict);
        let prev = run_chunks(m0, init, strict);
        let fenced = if k > 0 {
            mach(prev.out + fence(), prev.state, prev.warnings)
        } else {
            prev
        };
        if k % 2 == 0 {
            assert forall|i: int| 0 <= i < lines(cs[k]).len() implies !is_row(
                #[trigger] lines(cs[k])[i],
            ) by {}
            lemma_run_lines_plain(fenced, lines(cs[k]), strict);
        }
    }
}

/// A document none of whose prose lines is a pipe row comes back as it was, but that each
/// line of prose ends with a newline, and it draws no warning.
pub proof fn law_pass_through(content: Seq<char>, strict: bool)
    requires
        no_rows(fence_split(content)),
    ensures
        formatted_text(content, strict) == plain_chunks(fence_split(content)),
        run_document(content, strict).warnings.len() == 0,
{
    lemma_run_chunks_plain(fence_split(content), strict);
}

pub proof fn lemma_no_fence(s: Seq<char>)
    requires
        forall|i: int| !#[trigger] fence_at(s, i),
    ensures
        fence_split(s) == seq![s],
    decreases s.len(),
{
    if s.len() > 0 {
        let t = s.drop_first();
        assert forall|i: int| !#[trigger] fence_at(t, i) by {
            assert(!fence_at(s, i + 1));
        }
        lemma_no_fence(t);
        assert(!fence_at(s, 0));
        assert(seq![s[0]] + t =~= s);
        assert(fence_split(s) =~= seq![s]);
    } else {
        assert(s =~= Seq::<char>::empty());
    }
}

/// A document with no code fence and no pipe row among its lines comes back line by line,
/// every line followed by a newline, and draws no warning.
pub proof fn law_pass_through_unfenced(content: Seq<char>, strict: bool)
    requires
        forall|i: int| !#[trigger] fence_at(content, i),
        forall|i: int| 0 <= i < lines(content).len() ==> !is_row(#[trigger] lines(content)[i]),
    ensures
        formatted_text(content, strict) == join_lines(lines(content)),
        run_document(content, strict).warnings.len() == 0,
{
    lemma_no_fence(content);
    let cs = fence_split(content);
    assert(cs[0] == content);
    assert(no_rows(cs));
    law_pass_through(content, strict);
    assert(cs.drop_last() =~= Seq::<Seq<char>>::empty());
    assert(plain_chunks(cs.drop_last()) == Seq::<char>::empty());
    assert(Seq::<char>::empty() + join_lines(lines(content)) =~= join_lines(lines(content)));
}

/// The span after an unmatched final code fence comes out unchanged, after that fence:
/// when the split on fences has an even number of spans, the last one lies inside a fence
/// that is never closed, and the output holds the fence followed by it.
pub proof fn law_unclosed_fence_verbatim(content: Seq<char>, strict: bool)
    requires
        fence_split(content).len() % 2 == 0,
    ensures
        exists|i: int|
            0 <= i && i + fence_split(content).last().len() + 3 <= formatted_text(content, strict).len()
                && #[trigger] formatted_text(content, strict).subrange(
                i,
                i + fence_split(content).last().len() + 3,
            ) == fence() + fence_split(content).last(),
{
    let cs = fence_split(content);
    lemma_fence_split_nonempty(content);
    let k = cs.len() - 1;
    let m0 = mach(Seq::empty(), StateModel::Text, Seq::empty());
    let x = run_chunks(m0, cs.drop_last(), strict);
    let a = x.out + (fence() + cs[k]);
    assert(run_document(content, strict).out =~= a);
    lemma_flush_extends(run_document(content, strict));
    let f = formatted_text(content, strict);
    let i = x.out.len() as int;
    assert(extends(a, f));
    assert(f.subrange(0, a.len() as int) == a);
    assert(f.subrange(i, i + cs[k].len() + 3) =~= f.subrange(0, a.len() as int).subrange(
        i,
        i + cs[k].len() + 3,
    ));
    assert(a.subrange(i, i + cs[k].len() + 3) =~= fence() + cs[k]);
    assert(cs[k] == cs.last());
    assert(f.subrange(i, i + cs.last().len() + 3) == fence() + cs.last());
}

pub proof fn lemma_step_strict(m: Machine, n: Machine, line: Seq<char>)
    requires
        m.out == n.out,
        m.state == n.state,
    ensures
        step(m, line, true).out == step(n, line, false).out,
        step(m, line, true).state == step(n, line, false).state,
{
}

pub proof fn lemma_run_lines_strict(m: Machine, n: Machine, ls: Seq<Seq<char>>)
    requires
        m.out == n.out,
        m.state == n.state,
    ensures
        run_lines(m, ls, true).out == run_lines(n, ls, false).out,
        run_lines(m, ls, true).state == run_lines(n, ls, false).state,
    decreases ls.len(),
{
    if ls.len() > 0 {
        lemma_run_lines_strict(m, n, ls.drop_last());
        lemma_step_strict(run_lines(m, ls.drop_last(), true), run_lines(n, ls.drop_last(), false), ls.last());
    }
}

pub proof fn lemma_run_chunks_strict(m: Machine, cs: Seq<Seq<char>>)
    ensures
        run_chunks(m, cs, true).out == run_chunks(m, cs, false).out,
        run_chunks(m, cs, true).state == run_chunks(m, cs, false).state,
    decreases cs.len(),
{
    if cs.len() > 0 {
        lemma_run_chunks_strict(m, cs.drop_last());
        let k = cs.len() - 1;
        let a = run_chunks(m, cs.drop_last(), true);
        let b = run_chunks(m, cs.drop_last(), false);
        let fa = if k > 0 {
            mach(a.out + fence(), a.state, a.warnings)
        } else {
            a
        };
        let fb = if k > 0 {
            mach(b.out + fence(), b.state, b.warnings)
        } else {
            b
        };
        if k % 2 == 0 {
            lemma_run_lines_strict(fa, fb, lines(cs[k]));
        }
    }
}

/// Strict mode only adds warnings: the formatted text is the same with it and without it.
pub proof fn law_strict_changes_no_text(content: Seq<char>)
    ensures
        formatted_text(content, true) == formatted_text(content, false),
{
    lemma_run_chunks_strict(mach(Seq::empty(), StateModel::Text, Seq::empty()), fence_split(content));
}

} // verus!
