use std::collections::VecDeque;
use vstd::prelude::*;
use vstd::seq_lib::lemma_flatten_concat;

verus! {

/// How lines are written around matches: the bytes written between two
/// disjoint matching blocks, and how many lines of context to keep before and
/// after each match.
pub struct FilterConfig {
    pub separator: Vec<u8>,
    pub before: usize,
    pub after: usize,
}

/// The line-level emission state.
pub struct LineEmitter {
    separator: Vec<u8>,
    before: usize,
    after: usize,
    // The most recent non-matching lines since the last match (at most
    // `before` of them), kept as possible `before` context.
    before_buffer: VecDeque<Vec<u8>>,
    // Number of non-matching lines since the last match (or since the start).
    gap_len: usize,
    emitted_block: bool,
    // How many more non-matching lines are printed as `after` context.
    after_remaining: usize,
}

/// The abstract state of a [`LineEmitter`].
pub struct EmitterState {
    pub separator: Seq<u8>,
    pub before: usize,
    pub after: usize,
    pub buffer: Seq<Seq<u8>>,
    pub gap_len: usize,
    pub emitted_block: bool,
    pub after_remaining: usize,
}

impl EmitterState {
    /// The state of a fresh emitter with this separator and these context
    /// sizes.
    pub open spec fn initial(separator: Seq<u8>, before: usize, after: usize) -> EmitterState {
        EmitterState {
            separator,
            before,
            after,
            buffer: Seq::empty(),
            gap_len: 0,
            emitted_block: false,
            after_remaining: 0,
        }
    }

    /// The invariant every reachable state keeps.
    pub open spec fn wf(self) -> bool {
        &&& self.buffer.len() <= self.before
        &&& self.buffer.len() <= self.gap_len
        &&& self.after_remaining <= self.after
    }

    /// Whether the `after` window of the previous block and the `before`
    /// window of the next one share at least one line, so that both merge into
    /// one continuous section.
    pub open spec fn overlap(self, gap_len: int) -> bool {
        &&& self.before > 0
        &&& self.after > 0
        &&& gap_len > 0
        &&& gap_len <= self.before + self.after - 1
    }

    /// How many of the buffered lines were already written as `after` context
    /// of the previous block.
    pub open spec fn already_written(self) -> int {
        let already = if self.emitted_block {
            if self.gap_len <= self.after { self.gap_len as int } else { self.after as int }
        } else {
            0
        };
        let older = self.gap_len - self.buffer.len();
        if already > older { already - older } else { 0 }
    }

    /// The buffered `before` lines that a match arriving now still has to
    /// write.
    pub open spec fn pending_before(self) -> Seq<Seq<u8>> {
        self.buffer.skip(self.already_written())
    }

    /// What a matching line `raw` writes: a separator if the previous block is
    /// truly disjoint, then the pending `before` context, then the line.
    pub open spec fn match_output(self, raw: Seq<u8>) -> Seq<u8> {
        let sep = if self.emitted_block && self.gap_len > 0 && !self.overlap(self.gap_len as int) {
            self.separator
        } else {
            Seq::empty()
        };
        sep + self.pending_before().flatten() + raw
    }

    /// The state and the written bytes after one more completed line.
    pub open spec fn step(self, raw: Seq<u8>, matches: bool) -> (EmitterState, Seq<u8>) {
        if matches {
            (
                EmitterState {
                    buffer: Seq::empty(),
                    gap_len: 0,
                    emitted_block: true,
                    after_remaining: self.after,
                    ..self
                },
                self.match_output(raw),
            )
        } else {
            let buffer = if self.before == 0 {
                self.buffer
            } else if self.buffer.len() == self.before {
                self.buffer.drop_first().push(raw)
            } else {
                self.buffer.push(raw)
            };
            let gap_len = if self.gap_len == usize::MAX { self.gap_len } else { (self.gap_len + 1) as usize };
            let out = if self.after_remaining > 0 { raw } else { Seq::empty() };
            let after_remaining = if self.after_remaining > 0 {
                (self.after_remaining - 1) as usize
            } else {
                0
            };
            (EmitterState { buffer, gap_len, after_remaining, ..self }, out)
        }
    }
}

impl EmitterState {
    /// The state and the written bytes after the completed `lines`, each with
    /// whether it matched.
    pub open spec fn run(self, lines: Seq<(Seq<u8>, bool)>) -> (EmitterState, Seq<u8>)
        decreases lines.len(),
    {
        if lines.len() == 0 {
            (self, Seq::empty())
        } else {
            let (mid, out1) = self.run(lines.drop_last());
            let (last, out2) = mid.step(lines.last().0, lines.last().1);
            (last, out1 + out2)
        }
    }

    /// Whether line `i` is written: it matched, it lies at most `after` lines
    /// after a match, or at most `before` lines before one.
    pub open spec fn shown(self, lines: Seq<(Seq<u8>, bool)>, i: int) -> bool {
        let p = prev_match(lines, i);
        let q = next_match(lines, i + 1);
        ||| lines[i].1
        ||| (p >= 0 && i - p <= self.after)
        ||| (q >= 0 && q - i <= self.before)
    }

    /// Whether the separator is written just before line `i`: `i` is the
    /// first line written for a match whose block is truly disjoint from the
    /// previous block (some line lies between the two matches and their
    /// context windows do not overlap).
    pub open spec fn separator_before(self, lines: Seq<(Seq<u8>, bool)>, i: int) -> bool {
        let j = next_match(lines, i);
        let p = prev_match(lines, j);
        &&& j >= 0
        &&& p >= 0
        &&& j - p - 1 > 0
        &&& !self.overlap(j - p - 1)
        &&& i == (if p + 1 >= j - self.before { p + 1 } else { j - self.before })
    }

    /// What is written for line `i` of `lines`.
    pub open spec fn piece(self, lines: Seq<(Seq<u8>, bool)>, i: int) -> Seq<u8> {
        (if self.separator_before(lines, i) { self.separator } else { Seq::empty() }) + (if self.shown(
            lines,
            i,
        ) {
            lines[i].0
        } else {
            Seq::empty()
        })
    }

    /// What is written for lines `a..b` of `lines`, in order.
    pub open spec fn render(self, lines: Seq<(Seq<u8>, bool)>, a: int, b: int) -> Seq<u8>
        decreases b - a,
    {
        if b <= a {
            Seq::empty()
        } else {
            self.render(lines, a, b - 1) + self.piece(lines, b - 1)
        }
    }

    /// The state reached from this (fresh) state after `lines`, described
    /// directly: the gap since the last match, the last `before` lines of
    /// that gap, and what is left of the `after` window.
    pub open spec fn state_after(self, lines: Seq<(Seq<u8>, bool)>) -> EmitterState {
        let n = lines.len() as int;
        let p = prev_match(lines, n);
        let gap = n - 1 - p;
        let kept = if gap <= self.before { gap } else { self.before as int };
        EmitterState {
            buffer: raws(lines, n - kept, n),
            gap_len: gap as usize,
            emitted_block: p >= 0,
            after_remaining: if p >= 0 && gap < self.after { (self.after - gap) as usize } else { 0 },
            ..self
        }
    }
}

/// The raw bytes of lines `a..b`.
pub open spec fn raws(lines: Seq<(Seq<u8>, bool)>, a: int, b: int) -> Seq<Seq<u8>> {
    lines.subrange(a, b).map_values(|l: (Seq<u8>, bool)| l.0)
}

/// The index of the last matching line before `i`, or -1 if there is none.
pub open spec fn prev_match(lines: Seq<(Seq<u8>, bool)>, i: int) -> int
    decreases i,
{
    if i <= 0 {
        -1
    } else if lines[i - 1].1 {
        i - 1
    } else {
        prev_match(lines, i - 1)
    }
}

/// The index of the first matching line at or after `i`, or -1 if there is
/// none.
pub open spec fn next_match(lines: Seq<(Seq<u8>, bool)>, i: int) -> int
    decreases lines.len() - i,
{
    if i < 0 || i >= lines.len() {
        -1
    } else if lines[i].1 {
        i
    } else {
        next_match(lines, i + 1)
    }
}

proof fn lemma_prev_match(lines: Seq<(Seq<u8>, bool)>, i: int)
    requires
        0 <= i <= lines.len(),
    ensures
        -1 <= prev_match(lines, i) < i,
        prev_match(lines, i) >= 0 ==> lines[prev_match(lines, i)].1,
        forall|k: int| prev_match(lines, i) < k < i ==> !(#[trigger] lines[k]).1,
    decreases i,
{
    if i > 0 && !lines[i - 1].1 {
        lemma_prev_match(lines, i - 1);
    }
}

proof fn lemma_next_match(lines: Seq<(Seq<u8>, bool)>, i: int)
    requires
        0 <= i <= lines.len(),
    ensures
        next_match(lines, i) == -1 || (i <= next_match(lines, i) < lines.len() && lines[next_match(
            lines,
            i,
        )].1),
        next_match(lines, i) == -1 ==> forall|k: int| i <= k < lines.len() ==> !(#[trigger] lines[k]).1,
        next_match(lines, i) >= 0 ==> forall|k: int| i <= k < next_match(lines, i) ==> !(
        #[trigger] lines[k]).1,
    decreases lines.len() - i,
{
    if i < lines.len() && !lines[i].1 {
        lemma_next_match(lines, i + 1);
    }
}

proof fn lemma_prev_match_push(lines: Seq<(Seq<u8>, bool)>, e: (Seq<u8>, bool), i: int)
    requires
        0 <= i <= lines.len(),
    ensures
        prev_match(lines.push(e), i) == prev_match(lines, i),
    decreases i,
{
    if i > 0 {
        lemma_prev_match_push(lines, e, i - 1);
        assert(lines.push(e)[i - 1] == lines[i - 1]);
    }
}

proof fn lemma_prev_match_pushed(lines: Seq<(Seq<u8>, bool)>, e: (Seq<u8>, bool))
    ensures
        prev_match(lines.push(e), lines.len() + 1 as int) == if e.1 {
            lines.len() as int
        } else {
            prev_match(lines, lines.len() as int)
        },
{
    lemma_prev_match_push(lines, e, lines.len() as int);
    assert(lines.push(e)[lines.len() as int] == e);
}

proof fn lemma_next_match_push(lines: Seq<(Seq<u8>, bool)>, e: (Seq<u8>, bool), i: int)
    requires
        0 <= i <= lines.len(),
    ensures
        next_match(lines.push(e), i) == if next_match(lines, i) >= 0 {
            next_match(lines, i)
        } else if e.1 {
            lines.len() as int
        } else {
            -1
        },
    decreases lines.len() - i,
{
    if i < lines.len() {
        lemma_next_match_push(lines, e, i + 1);
        assert(lines.push(e)[i] == lines[i]);
    } else {
        assert(lines.push(e)[i] == e);
        assert(next_match(lines.push(e), i + 1) == -1);
    }
}

proof fn lemma_prev_match_is(lines: Seq<(Seq<u8>, bool)>, i: int, q: int)
    requires
        0 <= i <= lines.len(),
        -1 <= q < i,
        q >= 0 ==> lines[q].1,
        forall|k: int| q < k < i ==> !(#[trigger] lines[k]).1,
    ensures
        prev_match(lines, i) == q,
    decreases i,
{
    if i > 0 && i - 1 != q {
        lemma_prev_match_is(lines, i - 1, q);
    }
}

proof fn lemma_next_match_is(lines: Seq<(Seq<u8>, bool)>, i: int, q: int)
    requires
        0 <= i <= q < lines.len(),
        lines[q].1,
        forall|k: int| i <= k < q ==> !(#[trigger] lines[k]).1,
    ensures
        next_match(lines, i) == q,
    decreases q - i,
{
    if i != q {
        lemma_next_match_is(lines, i + 1, q);
    }
}

proof fn lemma_next_match_none(lines: Seq<(Seq<u8>, bool)>, i: int)
    requires
        0 <= i <= lines.len(),
        forall|k: int| i <= k < lines.len() ==> !(#[trigger] lines[k]).1,
    ensures
        next_match(lines, i) == -1,
    decreases lines.len() - i,
{
    if i < lines.len() {
        lemma_next_match_none(lines, i + 1);
    }
}

pub(crate) proof fn lemma_render_split(st: EmitterState, x: Seq<(Seq<u8>, bool)>, a: int, b: int, c: int)
    requires
        a <= b <= c,
    ensures
        st.render(x, a, c) == st.render(x, a, b) + st.render(x, b, c),
    decreases c - b,
{
    if c == b {
        assert(st.render(x, a, b) + st.render(x, b, c) =~= st.render(x, a, b));
    } else {
        lemma_render_split(st, x, a, b, c - 1);
        assert(st.render(x, a, c) =~= st.render(x, a, b) + st.render(x, b, c));
    }
}

proof fn lemma_render_same(st: EmitterState, x: Seq<(Seq<u8>, bool)>, y: Seq<(Seq<u8>, bool)>, a: int, b: int)
    requires
        forall|i: int| a <= i < b ==> st.piece(x, i) == #[trigger] st.piece(y, i),
    ensures
        st.render(x, a, b) == st.render(y, a, b),
    decreases b - a,
{
    if b > a {
        lemma_render_same(st, x, y, a, b - 1);
    }
}

proof fn lemma_render_lines(st: EmitterState, x: Seq<(Seq<u8>, bool)>, a: int, b: int)
    requires
        0 <= a <= b <= x.len(),
        forall|i: int| a <= i < b ==> #[trigger] st.piece(x, i) == x[i].0,
    ensures
        st.render(x, a, b) == raws(x, a, b).flatten(),
    decreases b - a,
{
    if b == a {
        assert(raws(x, a, b) =~= Seq::<Seq<u8>>::empty());
    } else {
        lemma_render_lines(st, x, a, b - 1);
        assert(raws(x, a, b) =~= raws(x, a, b - 1).push(x[b - 1].0));
        raws(x, a, b - 1).lemma_flatten_push(x[b - 1].0);
    }
}

proof fn lemma_render_nothing(st: EmitterState, x: Seq<(Seq<u8>, bool)>, a: int, b: int)
    requires
        forall|i: int| a <= i < b ==> #[trigger] st.piece(x, i) == Seq::<u8>::empty(),
    ensures
        st.render(x, a, b) == Seq::<u8>::empty(),
    decreases b - a,
{
    if b > a {
        lemma_render_nothing(st, x, a, b - 1);
        assert(st.render(x, a, b) =~= Seq::<u8>::empty());
    }
}

proof fn lemma_raws_split(x: Seq<(Seq<u8>, bool)>, a: int, b: int, c: int)
    requires
        0 <= a <= b <= c <= x.len(),
    ensures
        raws(x, a, c).flatten() == raws(x, a, b).flatten() + raws(x, b, c).flatten(),
{
    assert(raws(x, a, c) =~= raws(x, a, b) + raws(x, b, c));
    lemma_flatten_concat(raws(x, a, b), raws(x, b, c));
}

proof fn lemma_step_non_matching(st: EmitterState, es: Seq<(Seq<u8>, bool)>, e: (Seq<u8>, bool))
    requires
        st == EmitterState::initial(st.separator, st.before, st.after),
        es.len() + 1 < usize::MAX,
        !e.1,
    ensures
        st.state_after(es).step(e.0, e.1).0 == st.state_after(es.push(e)),
        st.render(es, 0, es.len() as int) + st.state_after(es).step(e.0, e.1).1 == st.render(
            es.push(e),
            0,
            es.len() + 1 as int,
        ),
{
    let x = es.push(e);
    let n = es.len() as int;
    lemma_prev_match(es, n);
    lemma_prev_match_pushed(es, e);
    let p = prev_match(es, n);
    let old = st.state_after(es);
    let gap = n - 1 - p;
    // The lines already seen are written exactly as before.
    assert forall|i: int| 0 <= i < n implies st.piece(es, i) == #[trigger] st.piece(x, i) by {
        assert(x[i] == es[i]);
        lemma_prev_match_push(es, e, i);
        lemma_next_match_push(es, e, i + 1);
        lemma_next_match_push(es, e, i);
        lemma_next_match(es, i);
        let j = next_match(es, i);
        if j >= 0 {
            lemma_prev_match_push(es, e, j);
        }
    }
    lemma_render_same(st, es, x, 0, n);
    // The new line is written only as `after` context.
    assert(x[n] == e);
    lemma_next_match_none(x, n + 1);
    assert(next_match(x, n) == -1);
    let new_piece = if p >= 0 && n - p <= st.after { e.0 } else { Seq::<u8>::empty() };
    assert(st.piece(x, n) =~= new_piece);
    assert(old.step(e.0, e.1).1 == new_piece);
    // The state moves on as described.
    let next = old.step(e.0, e.1).0;
    let want = st.state_after(x);
    let kept = if gap <= st.before { gap } else { st.before as int };
    assert(old.buffer.len() == kept);
    assert(next.buffer =~= want.buffer);
    assert(next == want);
}

/// Facts about a stream `es` whose last match is `p`, with a match `e`
/// arriving next.
spec fn gap_facts(es: Seq<(Seq<u8>, bool)>, p: int) -> bool {
    &&& -1 <= p < es.len()
    &&& p >= 0 ==> es[p].1
    &&& forall|k: int| p < k < es.len() ==> !(#[trigger] es[k]).1
}

proof fn lemma_match_prefix(st: EmitterState, es: Seq<(Seq<u8>, bool)>, e: (Seq<u8>, bool), p: int, s: int)
    requires
        e.1,
        gap_facts(es, p),
        p == prev_match(es, es.len() as int),
        p + 1 <= s <= es.len(),
        s == (if p + 1 >= es.len() - st.before { p + 1 } else { es.len() - st.before }),
    ensures
        st.render(es, 0, s) == st.render(es.push(e), 0, s),
{
    let x = es.push(e);
    let n = es.len() as int;
    lemma_prev_match_push(es, e, n);
    assert forall|i: int| 0 <= i < s implies st.piece(es, i) == #[trigger] st.piece(x, i) by {
        assert(x[i] == es[i]);
        lemma_prev_match_push(es, e, i);
        lemma_next_match_push(es, e, i + 1);
        lemma_next_match_push(es, e, i);
        lemma_next_match(es, i);
        lemma_next_match(es, i + 1);
        let j = next_match(es, i);
        if j >= 0 {
            lemma_prev_match_push(es, e, j);
        }
        if next_match(es, i + 1) < 0 && i < p {
            assert(!es[p].1);
        }
    }
    lemma_render_same(st, es, x, 0, s);
}

proof fn lemma_match_old_gap(st: EmitterState, es: Seq<(Seq<u8>, bool)>, p: int, s: int, aw: int)
    requires
        gap_facts(es, p),
        p + 1 <= s <= s + aw <= es.len(),
        forall|i: int| s <= i < es.len() ==> (#[trigger] (i - p) <= st.after && p >= 0) == (i < s + aw),
    ensures
        st.render(es, s, es.len() as int) == raws(es, s, s + aw).flatten(),
{
    let n = es.len() as int;
    assert forall|i: int| s <= i < n implies #[trigger] st.piece(es, i) == (if i < s + aw {
        es[i].0
    } else {
        Seq::<u8>::empty()
    }) by {
        lemma_prev_match_is(es, i, p);
        lemma_next_match_none(es, i);
        lemma_next_match_none(es, i + 1);
        assert((i - p) <= st.after && p >= 0 <==> i < s + aw);
        assert(st.piece(es, i) =~= (if i < s + aw { es[i].0 } else { Seq::<u8>::empty() }));
    }
    assert forall|i: int| s <= i < s + aw implies #[trigger] st.piece(es, i) == es[i].0 by {}
    assert forall|i: int| s + aw <= i < n implies #[trigger] st.piece(es, i) == Seq::<u8>::empty() by {}
    lemma_render_split(st, es, s, s + aw, n);
    lemma_render_lines(st, es, s, s + aw);
    lemma_render_nothing(st, es, s + aw, n);
}

proof fn lemma_match_new_gap(
    st: EmitterState,
    es: Seq<(Seq<u8>, bool)>,
    e: (Seq<u8>, bool),
    p: int,
    s: int,
    sep_cond: bool,
)
    requires
        e.1,
        gap_facts(es, p),
        p == prev_match(es, es.len() as int),
        p + 1 <= s <= es.len(),
        s == (if p + 1 >= es.len() - st.before { p + 1 } else { es.len() - st.before }),
        sep_cond == (p >= 0 && es.len() - 1 - p > 0 && !st.overlap(es.len() - 1 - p)),
    ensures
        st.render(es.push(e), s, es.len() + 1 as int) == (if sep_cond {
            st.separator
        } else {
            Seq::<u8>::empty()
        }) + raws(es.push(e), s, es.len() + 1 as int).flatten(),
{
    let x = es.push(e);
    let n = es.len() as int;
    assert(x[n] == e);
    lemma_prev_match_push(es, e, n);
    assert forall|i: int| s <= i <= n implies #[trigger] st.piece(x, i) == (if sep_cond && i == s {
        st.separator
    } else {
        Seq::<u8>::empty()
    }) + x[i].0 by {
        assert forall|k: int| i <= k < n implies !(#[trigger] x[k]).1 by {
            assert(x[k] == es[k]);
        }
        lemma_next_match_is(x, i, n);
        if i < n {
            lemma_next_match_is(x, i + 1, n);
        }
        assert(st.piece(x, i) =~= (if sep_cond && i == s { st.separator } else { Seq::<u8>::empty() })
            + x[i].0);
    }
    if sep_cond {
        lemma_render_split(st, x, s, s + 1, n + 1);
        assert forall|i: int| s + 1 <= i < n + 1 implies #[trigger] st.piece(x, i) == x[i].0 by {
            assert(st.piece(x, i) =~= x[i].0);
        }
        lemma_render_lines(st, x, s + 1, n + 1);
        assert(st.piece(x, s) == st.separator + x[s].0);
        assert(st.render(x, s, s) == Seq::<u8>::empty());
        assert(st.render(x, s, s + 1) == st.render(x, s, s) + st.piece(x, s));
        assert(st.render(x, s, s + 1) =~= st.separator + x[s].0);
        assert(raws(x, s, n + 1) =~= seq![x[s].0] + raws(x, s + 1, n + 1));
        lemma_flatten_concat(seq![x[s].0], raws(x, s + 1, n + 1));
        seq![x[s].0].lemma_flatten_one_element();
        assert(st.render(x, s, n + 1) =~= st.separator + raws(x, s, n + 1).flatten());
    } else {
        assert forall|i: int| s <= i < n + 1 implies #[trigger] st.piece(x, i) == x[i].0 by {
            assert(st.piece(x, i) =~= x[i].0);
        }
        lemma_render_lines(st, x, s, n + 1);
        assert(st.render(x, s, n + 1) =~= Seq::<u8>::empty() + raws(x, s, n + 1).flatten());
    }
}

#[verifier::rlimit(40)]
proof fn lemma_step_matching(st: EmitterState, es: Seq<(Seq<u8>, bool)>, e: (Seq<u8>, bool))
    requires
        st == EmitterState::initial(st.separator, st.before, st.after),
        es.len() + 1 < usize::MAX,
        e.1,
    ensures
        st.state_after(es).step(e.0, e.1).0 == st.state_after(es.push(e)),
        st.render(es, 0, es.len() as int) + st.state_after(es).step(e.0, e.1).1 == st.render(
            es.push(e),
            0,
            es.len() + 1 as int,
        ),
{
    let x = es.push(e);
    let n = es.len() as int;
    lemma_prev_match(es, n);
    let p = prev_match(es, n);
    assert(gap_facts(es, p));
    let old = st.state_after(es);
    let gap = n - 1 - p;
    let kept = if gap <= st.before { gap } else { st.before as int };
    // `s` is the first line of the gap that lies in the `before` window.
    let s = n - kept;
    assert(s == (if p + 1 >= n - st.before { p + 1 } else { n - st.before }));
    let aw = old.already_written();
    assert(0 <= aw <= kept);
    let sep_cond = p >= 0 && gap > 0 && !st.overlap(gap);
    assert(sep_cond ==> aw == 0);
    assert forall|i: int| s <= i < n implies (#[trigger] (i - p) <= st.after && p >= 0) == (i < s
        + aw) by {}

    lemma_match_prefix(st, es, e, p, s);
    lemma_match_old_gap(st, es, p, s, aw);
    lemma_match_new_gap(st, es, e, p, s, sep_cond);
    lemma_render_split(st, es, 0, s, n);
    lemma_render_split(st, x, 0, s, n + 1);
    assert(raws(x, s, n + 1) =~= raws(es, s, n).push(e.0));
    raws(es, s, n).lemma_flatten_push(e.0);
    assert(old.pending_before() =~= raws(es, s + aw, n));
    lemma_raws_split(es, s, s + aw, n);
    if sep_cond {
        assert(raws(es, s, s) =~= Seq::<Seq<u8>>::empty());
    }
    let out = old.step(e.0, e.1).1;
    assert(st.render(es, 0, n) + out =~= st.render(x, 0, n + 1));

    // The state starts a new gap.
    lemma_prev_match_pushed(es, e);
    assert(raws(x, n + 1, n + 1) =~= Seq::<Seq<u8>>::empty());
    assert(old.step(e.0, e.1).0 == st.state_after(x));
}

/// The emitter's state after any stream of lines is the one described by
/// `state_after`, and what it has written is `render`: every shown line
/// exactly once and in input order, with the separator in front of each
/// disjoint block.
pub proof fn lemma_emitter_output(st: EmitterState, lines: Seq<(Seq<u8>, bool)>)
    requires
        st == EmitterState::initial(st.separator, st.before, st.after),
        lines.len() < usize::MAX,
    ensures
        st.run(lines).0 == st.state_after(lines),
        st.run(lines).1 == st.render(lines, 0, lines.len() as int),
    decreases lines.len(),
{
    if lines.len() == 0 {
        assert(raws(lines, 0, 0) =~= Seq::<Seq<u8>>::empty());
        assert(st.run(lines).0 == st.state_after(lines));
    } else {
        let es = lines.drop_last();
        let e = lines.last();
        assert(es.push(e) =~= lines);
        lemma_emitter_output(st, es);
        if e.1 {
            lemma_step_matching(st, es, e);
        } else {
            lemma_step_non_matching(st, es, e);
        }
    }
}

/// Without context lines, exactly the matching lines are written, and the
/// separator goes in front of a matching line exactly when an earlier line
/// matched and at least one non-matching line lies in between.
pub proof fn lemma_no_context_pieces(st: EmitterState, lines: Seq<(Seq<u8>, bool)>, i: int)
    requires
        st.before == 0,
        st.after == 0,
        0 <= i < lines.len(),
    ensures
        st.piece(lines, i) == (if lines[i].1 {
            (if prev_match(lines, i) >= 0 && i - prev_match(lines, i) > 1 {
                st.separator
            } else {
                Seq::<u8>::empty()
            }) + lines[i].0
        } else {
            Seq::<u8>::empty()
        }),
{
    lemma_prev_match(lines, i);
    lemma_next_match(lines, i);
    lemma_next_match(lines, i + 1);
    let j = next_match(lines, i);
    if j >= 0 {
        lemma_prev_match(lines, j);
        if j != i {
            assert(!lines[i].1);
        }
    }
    assert(st.piece(lines, i) =~= (if lines[i].1 {
        (if prev_match(lines, i) >= 0 && i - prev_match(lines, i) > 1 {
            st.separator
        } else {
            Seq::<u8>::empty()
        }) + lines[i].0
    } else {
        Seq::<u8>::empty()
    }));
}

/// Right after a match, a next match writes only itself (no separator, no
/// context) and leaves the state as it was: the `after` window is refreshed
/// and the `before` history is empty.
pub proof fn lemma_match_after_match(st: EmitterState, first: Seq<u8>, second: Seq<u8>)
    ensures
        st.step(first, true).0.step(second, true).1 == second,
        st.step(first, true).0.step(second, true).0 == st.step(first, true).0,
        st.step(first, true).0.after_remaining == st.after,
        st.step(first, true).0.buffer.len() == 0,
        st.step(first, true).0.step(second, false).1 == (if st.after > 0 {
            second
        } else {
            Seq::<u8>::empty()
        }),
{
    let s1 = st.step(first, true).0;
    assert(s1.pending_before() =~= Seq::<Seq<u8>>::empty());
    assert(s1.match_output(second) =~= second);
}

/// The `before` history of a fresh emitter holds only the last lines of the
/// current gap, at most `before` of them, in input order.
pub proof fn lemma_before_buffer_window(st: EmitterState, lines: Seq<(Seq<u8>, bool)>)
    requires
        st == EmitterState::initial(st.separator, st.before, st.after),
        lines.len() < usize::MAX,
    ensures
        st.run(lines).0.buffer.len() <= st.before,
        st.run(lines).0.buffer == raws(
            lines,
            lines.len() - st.run(lines).0.buffer.len(),
            lines.len() as int,
        ),
        forall|k: int|
            lines.len() - st.run(lines).0.buffer.len() <= k < lines.len() ==> !(#[trigger] lines[k]).1,
{
    lemma_emitter_output(st, lines);
    lemma_prev_match(lines, lines.len() as int);
}

/// The `before` history is bounded: a non-matching line leaves it unchanged
/// when `before` is 0, and otherwise it becomes the last `before` (or fewer)
/// lines of the old history followed by the new line.
pub proof fn lemma_before_history_step(st: EmitterState, raw: Seq<u8>)
    requires
        st.wf(),
    ensures
        st.step(raw, false).0.buffer == (if st.before == 0 {
            st.buffer
        } else {
            let all = st.buffer.push(raw);
            all.skip(all.len() - (if all.len() <= st.before { all.len() as int } else { st.before as int }))
        }),
        st.step(raw, false).0.buffer.len() <= st.before,
{
    let all = st.buffer.push(raw);
    if st.before > 0 && st.buffer.len() == st.before {
        assert(all.skip(1) =~= st.buffer.drop_first().push(raw));
    } else {
        assert(all.skip(0) =~= all);
    }
}

/// What one more call of `finish_line` writes after the lines `lines` (each
/// line written at most once, see `lemma_emitter_output`), where `p` is the
/// last matching line and `g` the number of lines since:
/// - a matching line writes the separator if an earlier block exists, the
///   gap is not empty and the windows do not overlap, then exactly the lines
///   of the `before` window (the last `before` lines of the gap) that were not
///   written yet, which form a suffix of that window, then itself;
/// - any other line is written exactly when it lies within `after` lines of
///   the last match.
pub proof fn lemma_finish_line_call(st: EmitterState, lines: Seq<(Seq<u8>, bool)>, e: (Seq<u8>, bool))
    requires
        st == EmitterState::initial(st.separator, st.before, st.after),
        lines.len() + 1 < usize::MAX,
    ensures
        ({
            let n = lines.len() as int;
            let p = prev_match(lines, n);
            let g = n - 1 - p;
            let window = if p + 1 >= n - st.before { p + 1 } else { n - st.before };
            let out = st.run(lines).0.step(e.0, e.1).1;
            &&& st.run(lines.push(e)).1 == st.run(lines).1 + out
            &&& e.1 ==> exists|w: int|
                window <= w <= n && (forall|i: int|
                    window <= i < n ==> (#[trigger] st.shown(lines, i) <==> i < w)) && out == (if p >= 0
                    && g > 0 && !st.overlap(g) {
                    st.separator
                } else {
                    Seq::<u8>::empty()
                }) + raws(lines, w, n).flatten() + e.0
            &&& !e.1 ==> out == (if p >= 0 && n - p <= st.after { e.0 } else { Seq::<u8>::empty() })
        }),
{
    let n = lines.len() as int;
    lemma_emitter_output(st, lines);
    lemma_prev_match(lines, n);
    let p = prev_match(lines, n);
    let old = st.state_after(lines);
    assert(lines.push(e).drop_last() =~= lines);
    assert(lines.push(e).last() == e);
    if e.1 {
        let gap = n - 1 - p;
        let kept = if gap <= st.before { gap } else { st.before as int };
        let s = n - kept;
        let aw = old.already_written();
        assert(0 <= aw <= kept);
        assert forall|i: int| s <= i < n implies (#[trigger] st.shown(lines, i) <==> i < s + aw) by {
            lemma_prev_match_is(lines, i, p);
            lemma_next_match_none(lines, i + 1);
        }
        assert(old.pending_before() =~= raws(lines, s + aw, n));
        assert(st.run(lines).0.step(e.0, e.1).1 == old.match_output(e.0));
    }
}

/// Without context lines, what was written for the first `n` lines depends
/// on those lines only: later lines never add to it.
pub proof fn lemma_no_context_prefix_stable(
    st: EmitterState,
    x: Seq<(Seq<u8>, bool)>,
    y: Seq<(Seq<u8>, bool)>,
    n: int,
)
    requires
        st.before == 0,
        st.after == 0,
        0 <= n <= x.len(),
        n <= y.len(),
        forall|k: int| 0 <= k < n ==> #[trigger] x[k] == y[k],
    ensures
        st.render(x, 0, n) == st.render(y, 0, n),
{
    assert forall|i: int| 0 <= i < n implies st.piece(x, i) == #[trigger] st.piece(y, i) by {
        lemma_no_context_pieces(st, x, i);
        lemma_no_context_pieces(st, y, i);
        lemma_prev_match_prefix(x, y, i);
    }
    lemma_render_same(st, x, y, 0, n);
}

proof fn lemma_prev_match_prefix(x: Seq<(Seq<u8>, bool)>, y: Seq<(Seq<u8>, bool)>, i: int)
    requires
        0 <= i <= x.len(),
        i <= y.len(),
        forall|k: int| 0 <= k < i ==> #[trigger] x[k] == y[k],
    ensures
        prev_match(x, i) == prev_match(y, i),
    decreases i,
{
    if i > 0 {
        assert(x[i - 1] == y[i - 1]);
        lemma_prev_match_prefix(x, y, i - 1);
    }
}

/// Two context windows overlap exactly when some line of a gap of `g` lines
/// lies both in the `after` window of the match before the gap (its first
/// `after` lines) and in the `before` window of the match after it (its last
/// `before` lines).
pub proof fn lemma_overlap_is_shared_line(st: EmitterState, g: int)
    ensures
        st.overlap(g) <==> exists|k: int| 1 <= k <= g && k <= st.after && #[trigger] (g + 1 - k) <= st.before,
{
    if st.overlap(g) {
        let k = if g <= st.after { g } else { st.after as int };
        assert(1 <= k <= g && k <= st.after && (g + 1 - k) <= st.before);
    }
}

/// Append `bytes` to `out`.
pub(crate) fn append_bytes(out: &mut Vec<u8>, bytes: &[u8])
    ensures
        final(out)@ == old(out)@ + bytes@,
{
    let mut i: usize = 0;
    while i < bytes.len()
        invariant
            i <= bytes@.len(),
            out@ == old(out)@ + bytes@.take(i as int),
        decreases bytes@.len() - i,
    {
        out.push(bytes[i]);
        assert(bytes@.take(i + 1) == bytes@.take(i as int).push(bytes@[i as int]));
        i += 1;
    }
    assert(bytes@.take(bytes@.len() as int) == bytes@);
}

impl View for LineEmitter {
    type V = EmitterState;

    /// The abstract state of this emitter.
    closed spec fn view(&self) -> EmitterState {
        EmitterState {
            separator: self.separator@,
            before: self.before,
            after: self.after,
            buffer: self.before_buffer@.map_values(|l: Vec<u8>| l@),
            gap_len: self.gap_len,
            emitted_block: self.emitted_block,
            after_remaining: self.after_remaining,
        }
    }
}

impl LineEmitter {
    /// Create the line-level emission state.
    ///
    /// This layer is intentionally ignorant of ANSI parsing and colors. It only
    /// knows whether each completed line matched and how much surrounding
    /// context should be emitted around matches.
    pub fn new(config: FilterConfig) -> (e: LineEmitter)
        ensures
            e@ == EmitterState::initial(config.separator@, config.before, config.after),
            e@.wf(),
    {
        let e = LineEmitter {
            separator: config.separator,
            before: config.before,
            after: config.after,
            before_buffer: VecDeque::new(),
            gap_len: 0,
            emitted_block: false,
            after_remaining: 0,
        };
        assert(e@.buffer =~= Seq::<Seq<u8>>::empty());
        e
    }

    /// Consume one completed line and decide whether to emit it now, keep it as
    /// possible `before` context, or treat it as a gap between matching blocks.
    pub fn finish_line(&mut self, raw: Vec<u8>, matches: bool, out: &mut Vec<u8>)
        requires
            old(self)@.wf(),
        ensures
            final(self)@ == old(self)@.step(raw@, matches).0,
            final(out)@ == old(out)@ + old(self)@.step(raw@, matches).1,
            final(self)@.wf(),
    {
        if matches {
            self.emit_match(raw, out);
        } else {
            self.finish_non_matching(raw, out);
        }
    }

    /// Emit a matching line.
    ///
    /// This may do three things in order:
    /// 1. insert a separator if the previous emitted block is truly disjoint
    /// 2. flush any buffered `before` context that has not already been emitted
    /// 3. write the matching line itself
    ///
    /// After a match, the trailing `after` window is refreshed and the `before`
    /// history starts over.
    fn emit_match(&mut self, raw: Vec<u8>, out: &mut Vec<u8>)
        requires
            old(self)@.wf(),
        ensures
            final(self)@ == old(self)@.step(raw@, true).0,
            final(out)@ == old(out)@ + old(self)@.step(raw@, true).1,
            final(self)@.wf(),
    {
        let gap_len = self.gap_len;
        let overlap = self.has_overlap(gap_len);

        if self.emitted_block && gap_len > 0 && !overlap {
            append_bytes(out, self.separator.as_slice());
        }

        self.emit_pending_before_context(gap_len, out);
        append_bytes(out, raw.as_slice());

        self.gap_len = 0;
        self.after_remaining = self.after;
        self.emitted_block = true;
        self.before_buffer.clear();
        proof {
            let s = old(self)@;
            assert(self@.buffer =~= Seq::<Seq<u8>>::empty());
            assert(out@ =~= old(out)@ + s.match_output(raw@));
        }
    }

    /// Process a non-matching line.
    ///
    /// Non-matching lines serve two possible roles:
    /// - future `before` context for a later match
    /// - current `after` context for a recent match
    ///
    /// If neither applies, the line is only counted as part of the gap between
    /// emitted blocks.
    fn finish_non_matching(&mut self, raw: Vec<u8>, out: &mut Vec<u8>)
        requires
            old(self)@.wf(),
        ensures
            final(self)@ == old(self)@.step(raw@, false).0,
            final(out)@ == old(out)@ + old(self)@.step(raw@, false).1,
            final(self)@.wf(),
    {
        self.gap_len = self.gap_len.saturating_add(1);

        if self.after_remaining > 0 {
            append_bytes(out, raw.as_slice());
            self.after_remaining = self.after_remaining - 1;
        }
        self.push_before_line(raw);
        proof {
            let s = old(self)@;
            if s.after_remaining == 0 {
                assert(out@ =~= old(out)@ + Seq::<u8>::empty());
            }
        }
    }

    /// Emit buffered `before` lines that belong to the new match but have not
    /// already been printed as overlapping `after` context from the previous
    /// block.
    ///
    /// This is the key piece that lets `-B/-A` windows merge cleanly instead of
    /// duplicating shared context lines.
    fn emit_pending_before_context(&self, gap_len: usize, out: &mut Vec<u8>)
        requires
            self@.wf(),
            gap_len == self.gap_len,
        ensures
            final(out)@ == old(out)@ + self@.pending_before().flatten(),
    {
        let buffered_len = self.before_buffer.len();
        if buffered_len == 0 {
            proof {
                assert(self@.pending_before() =~= Seq::<Seq<u8>>::empty());
            }
            return;
        }

        // The gap lines are numbered 1..=gap_len; the buffer holds the last
        // `buffered_len` of them.
        let older = gap_len - buffered_len;
        let already_emitted = if self.emitted_block {
            if gap_len <= self.after { gap_len } else { self.after }
        } else {
            0
        };
        let skip = already_emitted.saturating_sub(older);

        let ghost buf = self@.buffer;
        let mut i: usize = skip;
        if i > buffered_len {
            i = buffered_len;
        }
        let ghost start = i as int;
        proof {
            assert(self@.already_written() == skip);
        }
        while i < buffered_len
            invariant
                0 <= start <= i <= buffered_len,
                buffered_len == buf.len(),
                buf == self@.buffer,
                self.before_buffer@.len() == buffered_len,
                out@ == old(out)@ + buf.subrange(start, i as int).flatten(),
            decreases buffered_len - i,
        {
            let line = &self.before_buffer[i];
            append_bytes(out, line.as_slice());
            proof {
                assert(buf.subrange(start, i + 1) =~= buf.subrange(start, i as int).push(buf[i as int]));
                buf.subrange(start, i as int).lemma_flatten_push(buf[i as int]);
            }
            i += 1;
        }
        proof {
            if skip <= buffered_len {
                assert(buf.subrange(start, buffered_len as int) =~= buf.skip(skip as int));
            } else {
                assert(buf.skip(skip as int) =~= Seq::<Seq<u8>>::empty());
                assert(buf.subrange(start, buffered_len as int) =~= Seq::<Seq<u8>>::empty());
            }
        }
    }

    /// Push a completed non-matching line into the bounded `before` history.
    ///
    /// When `before == 0`, this is a no-op so we avoid maintaining any rolling
    /// history in the common no-context case.
    fn push_before_line(&mut self, raw: Vec<u8>)
        requires
            old(self).before_buffer@.len() <= old(self).before,
        ensures
            final(self)@ == (EmitterState {
                buffer: if old(self).before == 0 {
                    old(self)@.buffer
                } else if old(self)@.buffer.len() == old(self).before {
                    old(self)@.buffer.drop_first().push(raw@)
                } else {
                    old(self)@.buffer.push(raw@)
                },
                ..old(self)@
            }),
    {
        if self.before == 0 {
            return;
        }
        if self.before_buffer.len() == self.before {
            self.before_buffer.pop_front();
        }
        self.before_buffer.push_back(raw);
        proof {
            let ob = old(self)@.buffer;
            if old(self)@.buffer.len() == old(self).before {
                assert(self@.buffer =~= ob.drop_first().push(raw@));
            } else {
                assert(self@.buffer =~= ob.push(raw@));
            }
        }
    }

    /// Report whether the gap between two matching lines is small enough that
    /// the old block's `after` context and the new block's `before` context
    /// should merge into one continuous emitted section.
    fn has_overlap(&self, gap_len: usize) -> (res: bool)
        ensures
            res == self@.overlap(gap_len as int),
    {
        self.before > 0 && self.after > 0 && gap_len > 0 && (gap_len <= self.before || gap_len
            - self.before <= self.after - 1)
    }
}

} // verus!
