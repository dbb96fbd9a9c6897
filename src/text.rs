use vstd::prelude::*;

verus! {

/// The byte that ends a line.
pub const NEWLINE: u8 = 10;

/// How many line ends `t` holds.
pub open spec fn newline_count(t: Seq<u8>) -> nat
    decreases t.len(),
{
    if t.len() == 0 {
        0
    } else {
        newline_count(t.drop_last()) + if t.last() == NEWLINE {
            1nat
        } else {
            0nat
        }
    }
}

/// The column at the end of `t`: how many bytes follow its last line end.
pub open spec fn column(t: Seq<u8>) -> nat
    decreases t.len(),
{
    if t.len() == 0 {
        0
    } else if t.last() == NEWLINE {
        0
    } else {
        column(t.drop_last()) + 1
    }
}

/// Where each line of `t` starts: 0, then the offset just past each line end.
pub open spec fn line_starts(t: Seq<u8>) -> Seq<usize>
    decreases t.len(),
{
    if t.len() == 0 {
        seq![0usize]
    } else if t.last() == NEWLINE {
        line_starts(t.drop_last()).push(t.len() as usize)
    } else {
        line_starts(t.drop_last())
    }
}

/// `line_starts` begins at 0, rises strictly, stays within `t`, and has one
/// entry more than `t` has line ends; its last entry is where the last line
/// starts.
pub proof fn lemma_line_starts(t: Seq<u8>)
    requires
        t.len() <= usize::MAX,
    ensures
        line_starts(t).len() == newline_count(t) + 1,
        line_starts(t)[0] == 0,
        forall|i: int, j: int|
            0 <= i < j < line_starts(t).len() ==> line_starts(t)[i] < line_starts(t)[j],
        forall|i: int| 0 <= i < line_starts(t).len() ==> line_starts(t)[i] <= t.len(),
        line_starts(t).last() + column(t) == t.len(),
    decreases t.len(),
{
    if t.len() > 0 {
        lemma_line_starts(t.drop_last());
    }
}

/// There is always a first line.
pub proof fn lemma_line_starts_nonempty(t: Seq<u8>)
    ensures
        line_starts(t).len() >= 1,
        line_starts(t)[0] == 0,
    decreases t.len(),
{
    if t.len() > 0 {
        lemma_line_starts_nonempty(t.drop_last());
    }
}

/// Counting line ends is additive over concatenation.
pub proof fn lemma_newline_count_concat(a: Seq<u8>, b: Seq<u8>)
    ensures
        newline_count(a + b) == newline_count(a) + newline_count(b),
    decreases b.len(),
{
    if b.len() == 0 {
        assert(a + b =~= a);
    } else {
        lemma_newline_count_concat(a, b.drop_last());
        assert((a + b).drop_last() =~= a + b.drop_last());
    }
}

/// The column after `a + b` is that after `b` when `b` ends a line, and grows
/// by `b`'s length otherwise.
pub proof fn lemma_column_concat(a: Seq<u8>, b: Seq<u8>)
    ensures
        column(a + b) == if newline_count(b) == 0 {
            column(a) + b.len()
        } else {
            column(b)
        },
    decreases b.len(),
{
    if b.len() == 0 {
        assert(a + b =~= a);
    } else {
        lemma_column_concat(a, b.drop_last());
        assert((a + b).drop_last() =~= a + b.drop_last());
    }
}

/// The line starts of `a + b`: those of `a`, then those of `b` after its
/// leading 0, shifted by `a`'s length.
pub proof fn lemma_line_starts_concat(a: Seq<u8>, b: Seq<u8>)
    requires
        a.len() + b.len() <= usize::MAX,
    ensures
        line_starts(a + b) == line_starts(a) + line_starts(b).drop_first().map_values(
            |x: usize| (x + a.len()) as usize,
        ),
    decreases b.len(),
{
    lemma_line_starts_nonempty(b);
    if b.len() == 0 {
        assert(a + b =~= a);
        assert(line_starts(b).drop_first().map_values(|x: usize| (x + a.len()) as usize)
            =~= Seq::<usize>::empty());
        assert(line_starts(a) + Seq::<usize>::empty() =~= line_starts(a));
    } else {
        lemma_line_starts_concat(a, b.drop_last());
        lemma_line_starts_nonempty(b.drop_last());
        assert((a + b).drop_last() =~= a + b.drop_last());
        assert((a + b).last() == b.last());
        let f = |x: usize| (x + a.len()) as usize;
        if b.last() == NEWLINE {
            assert(line_starts(b).drop_first() =~= line_starts(b.drop_last()).drop_first().push(
                b.len() as usize,
            ));
            assert(line_starts(b).drop_first().map_values(f) =~= line_starts(
                b.drop_last(),
            ).drop_first().map_values(f).push((a + b).len() as usize));
            assert(line_starts(a + b) =~= line_starts(a) + line_starts(b).drop_first().map_values(
                f,
            ));
        }
    }
}

/// The line starts of a prefix of `t` are a prefix of those of `t`; the
/// others lie beyond the prefix.
pub proof fn lemma_line_starts_prefix(t: Seq<u8>, k: int)
    requires
        0 <= k <= t.len(),
        t.len() <= usize::MAX,
    ensures
        line_starts(t.take(k)).len() <= line_starts(t).len(),
        line_starts(t.take(k)) == line_starts(t).take(line_starts(t.take(k)).len() as int),
        forall|i: int|
            line_starts(t.take(k)).len() <= i < line_starts(t).len() ==> line_starts(t)[i] > k,
    decreases t.len(),
{
    if k == t.len() {
        assert(t.take(k) =~= t);
        assert(line_starts(t).take(line_starts(t).len() as int) =~= line_starts(t));
    } else {
        lemma_line_starts_prefix(t.drop_last(), k);
        assert(t.drop_last().take(k) =~= t.take(k));
        let p = line_starts(t.take(k));
        if t.last() == NEWLINE {
            assert(line_starts(t).take(p.len() as int) =~= line_starts(t.drop_last()).take(
                p.len() as int,
            ));
        }
    }
}

/// Splitting `t` at `k`: the first part's line starts are the first entries
/// of `t`'s, the second part's are 0 and then the rest of `t`'s, less `k`.
pub proof fn lemma_line_starts_split(t: Seq<u8>, k: int)
    requires
        0 <= k <= t.len(),
        t.len() <= usize::MAX,
    ensures
        ({
            let c = line_starts(t.take(k)).len() as int;
            &&& line_starts(t.take(k)) == line_starts(t).take(c)
            &&& line_starts(t.skip(k)) == seq![0usize] + line_starts(t).skip(c).map_values(
                |x: usize| (x - k) as usize,
            )
        }),
{
    lemma_line_starts_prefix(t, k);
    let a = t.take(k);
    let b = t.skip(k);
    assert(a + b =~= t);
    lemma_line_starts_concat(a, b);
    lemma_line_starts(b);
    lemma_line_starts(t);
    let c = line_starts(a).len() as int;
    let f = |x: usize| (x + a.len()) as usize;
    let g = |x: usize| (x - k) as usize;
    let lb = line_starts(b);
    assert(line_starts(t).skip(c) =~= lb.drop_first().map_values(f));
    assert forall|i: int| 0 <= i < lb.drop_first().len() implies lb.drop_first()[i] <= b.len() by {
        assert(lb.drop_first()[i] == lb[i + 1]);
    }
    assert(line_starts(t).skip(c).map_values(g) =~= lb.drop_first());
    assert(lb =~= seq![0usize] + lb.drop_first());
}

/// No more line ends than bytes, and no column beyond the length.
pub proof fn lemma_counts_bounded(t: Seq<u8>)
    ensures
        newline_count(t) <= t.len(),
        column(t) <= t.len(),
    decreases t.len(),
{
    if t.len() > 0 {
        lemma_counts_bounded(t.drop_last());
    }
}

/// A byte string is the concatenation of its first `k` bytes and the rest.
pub proof fn lemma_take_skip(t: Seq<u8>, k: int)
    requires
        0 <= k <= t.len(),
    ensures
        t.take(k) + t.skip(k) == t,
{
    assert(t.take(k) + t.skip(k) =~= t);
}

/// One more byte: line ends and column step as the byte says.
pub proof fn lemma_push(t: Seq<u8>, b: u8)
    ensures
        t.push(b).drop_last() == t,
        newline_count(t.push(b)) == newline_count(t) + if b == NEWLINE {
            1nat
        } else {
            0nat
        },
        column(t.push(b)) == if b == NEWLINE {
            0
        } else {
            column(t) + 1
        },
        line_starts(t.push(b)) == if b == NEWLINE {
            line_starts(t).push((t.len() + 1) as usize)
        } else {
            line_starts(t)
        },
{
    assert(t.push(b).drop_last() =~= t);
}

/// How many bytes of `u` come before its first line end (all of them when
/// it has none).
pub open spec fn rest_of_line(u: Seq<u8>) -> nat
    decreases u.len(),
{
    if u.len() == 0 || u[0] == NEWLINE {
        0
    } else {
        1 + rest_of_line(u.drop_first())
    }
}

/// `u` holds no line end.
pub open spec fn no_newline(u: Seq<u8>) -> bool {
    forall|i: int| 0 <= i < u.len() ==> u[i] != NEWLINE
}

/// Where vertical moves aim: on the line before the caret's, the column
/// `sticky`, or that line's end when it is shorter.
pub open spec fn line_above(t: Seq<u8>, p: int, sticky: int) -> int {
    let e = p - column(t.take(p)) - 1;
    let len = column(t.take(e)) as int;
    e - len + if sticky < len {
        sticky
    } else {
        len
    }
}

/// Where vertical moves aim: on the line after the caret's, the column
/// `sticky`, or that line's end when it is shorter.
pub open spec fn line_below(t: Seq<u8>, p: int, sticky: int) -> int {
    let f = p + rest_of_line(t.skip(p)) + 1;
    let len = rest_of_line(t.skip(f)) as int;
    f + if sticky < len {
        sticky
    } else {
        len
    }
}

/// A byte string without line ends has none to count.
pub proof fn lemma_no_newline_count(u: Seq<u8>)
    ensures
        no_newline(u) <==> newline_count(u) == 0,
    decreases u.len(),
{
    if u.len() > 0 {
        lemma_no_newline_count(u.drop_last());
        if no_newline(u) {
            assert(no_newline(u.drop_last()));
        }
        if newline_count(u) == 0 {
            assert forall|i: int| 0 <= i < u.len() implies u[i] != NEWLINE by {
                if i < u.len() - 1 {
                    assert(u[i] == u.drop_last()[i]);
                }
            }
        }
    }
}

/// The first line end of `u` lies `rest_of_line(u)` bytes in, if there is
/// one; none comes before.
pub proof fn lemma_rest_of_line(u: Seq<u8>)
    ensures
        rest_of_line(u) <= u.len(),
        rest_of_line(u) < u.len() ==> u[rest_of_line(u) as int] == NEWLINE,
        no_newline(u.take(rest_of_line(u) as int)),
    decreases u.len(),
{
    if u.len() > 0 && u[0] != NEWLINE {
        lemma_rest_of_line(u.drop_first());
        let r = rest_of_line(u.drop_first()) as int;
        assert forall|i: int| 0 <= i < r + 1 implies #[trigger] u.take(r + 1)[i] != NEWLINE by {
            if i > 0 {
                assert(u.take(r + 1)[i] == u.drop_first().take(r)[i - 1]);
            }
        }
    } else {
        assert(u.take(0) =~= Seq::<u8>::empty());
    }
}

/// The rest of the line through two byte strings.
pub proof fn lemma_rest_concat(x: Seq<u8>, y: Seq<u8>)
    ensures
        rest_of_line(x + y) == if rest_of_line(x) < x.len() {
            rest_of_line(x)
        } else {
            x.len() + rest_of_line(y)
        },
    decreases x.len(),
{
    if x.len() == 0 {
        assert(x + y =~= y);
    } else {
        assert((x + y)[0] == x[0]);
        if x[0] != NEWLINE {
            lemma_rest_concat(x.drop_first(), y);
            assert((x + y).drop_first() =~= x.drop_first() + y);
        }
    }
}

/// Every line start after the first follows a line end, and every line end
/// is followed by a line start.
pub proof fn lemma_line_starts_members(u: Seq<u8>)
    requires
        u.len() <= usize::MAX,
    ensures
        forall|i: int|
            1 <= i < line_starts(u).len() ==> 1 <= #[trigger] line_starts(u)[i] && u[line_starts(
                u,
            )[i] - 1] == NEWLINE,
        forall|x: int|
            0 <= x < u.len() && u[x] == NEWLINE ==> exists|i: int|
                1 <= i < line_starts(u).len() && #[trigger] line_starts(u)[i] == x + 1,
    decreases u.len(),
{
    if u.len() > 0 {
        let d = u.drop_last();
        lemma_line_starts_members(d);
        lemma_line_starts(d);
        assert forall|x: int| 0 <= x < u.len() && u[x] == NEWLINE implies exists|i: int|
            1 <= i < line_starts(u).len() && #[trigger] line_starts(u)[i] == x + 1 by {
            if x < d.len() {
                assert(d[x] == u[x]);
                let i = choose|i: int| 1 <= i < line_starts(d).len() && #[trigger] line_starts(d)[i] == x + 1;
                assert(line_starts(u)[i] == x + 1);
            } else {
                assert(line_starts(u)[line_starts(u).len() - 1] == x + 1);
            }
        }
        assert forall|i: int| 1 <= i < line_starts(u).len() implies 1 <= #[trigger] line_starts(u)[i]
            && u[line_starts(u)[i] - 1] == NEWLINE by {
            if i < line_starts(d).len() {
                assert(line_starts(u)[i] == line_starts(d)[i]);
                assert(u[line_starts(d)[i] - 1] == d[line_starts(d)[i] - 1]);
            }
        }
    }
}

/// The rest of the line, read off the line starts.
pub proof fn lemma_rest_from_line_starts(u: Seq<u8>)
    requires
        u.len() <= usize::MAX,
    ensures
        line_starts(u).len() > 1 ==> rest_of_line(u) == line_starts(u)[1] - 1 && rest_of_line(u)
            < u.len(),
        line_starts(u).len() == 1 ==> rest_of_line(u) == u.len(),
{
    lemma_line_starts(u);
    lemma_line_starts_members(u);
    lemma_rest_of_line(u);
    let r = rest_of_line(u) as int;
    let ls = line_starts(u);
    if r < u.len() {
        assert(u[r] == NEWLINE);
        let i = choose|i: int| 1 <= i < ls.len() && #[trigger] ls[i] == r + 1;
        if ls.len() > 1 {
            assert(ls[1] <= ls[i]);
            assert(u[ls[1] - 1] == NEWLINE);
            if ls[1] - 1 < r {
                assert(u.take(r)[ls[1] - 1] == NEWLINE);
            }
        }
    } else {
        if ls.len() > 1 {
            assert(u[ls[1] - 1] == NEWLINE);
            assert(u.take(r)[ls[1] - 1] == u[ls[1] - 1]);
        }
    }
}

/// Within the caret's line, moving back keeps the line count and takes the
/// column down by as much.
pub proof fn lemma_column_window(t: Seq<u8>, q: int)
    requires
        t.len() - column(t) <= q <= t.len(),
    ensures
        newline_count(t.take(q)) == newline_count(t),
        column(t.take(q)) == column(t) - (t.len() - q),
    decreases t.len(),
{
    lemma_counts_bounded(t);
    if q == t.len() {
        assert(t.take(q) =~= t);
    } else {
        let d = t.drop_last();
        assert(d.take(q) =~= t.take(q));
        lemma_column_window(d, q);
    }
}

/// Below a line there is the end of the line before it, and one line end
/// fewer before that.
pub proof fn lemma_prev_line_end(t: Seq<u8>)
    requires
        newline_count(t) > 0,
    ensures
        column(t) < t.len(),
        t[t.len() - column(t) - 1] == NEWLINE,
        newline_count(t.take(t.len() - column(t) - 1)) == newline_count(t) - 1,
    decreases t.len(),
{
    let d = t.drop_last();
    if t.last() == NEWLINE {
        assert(t.take(t.len() - 1) =~= d);
    } else {
        lemma_prev_line_end(d);
        assert(d.take(d.len() - column(d) - 1) =~= t.take(t.len() - column(t) - 1));
    }
}

/// With line ends after the caret, its line ends before the text does.
pub proof fn lemma_has_line_below(t: Seq<u8>, p: int)
    requires
        0 <= p <= t.len(),
        newline_count(t.take(p)) < newline_count(t),
    ensures
        p + rest_of_line(t.skip(p)) < t.len(),
{
    let u = t.skip(p);
    lemma_take_skip(t, p);
    lemma_newline_count_concat(t.take(p), u);
    lemma_rest_of_line(u);
    if rest_of_line(u) == u.len() {
        assert(u.take(u.len() as int) =~= u);
        lemma_no_newline_count(u);
    }
}

/// Going down: past the caret's line end, then `col` bytes into the next
/// line, which hold no line end.
pub proof fn lemma_down_counts(t: Seq<u8>, p: int, col: int)
    requires
        0 <= p,
        p + rest_of_line(t.skip(p)) < t.len(),
        0 <= col <= rest_of_line(t.skip(p + rest_of_line(t.skip(p)) + 1)),
    ensures
        ({
            let f = p + rest_of_line(t.skip(p)) + 1;
            &&& newline_count(t.take(f + col)) == newline_count(t.take(p)) + 1
            &&& column(t.take(f + col)) == col
        }),
{
    let u = t.skip(p);
    let r1 = rest_of_line(u) as int;
    let f = p + r1 + 1;
    let v = t.skip(f);
    lemma_rest_of_line(u);
    lemma_rest_of_line(v);
    assert(t.take(f) =~= t.take(p) + u.take(r1).push(NEWLINE));
    lemma_no_newline_count(u.take(r1));
    lemma_push(u.take(r1), NEWLINE);
    lemma_newline_count_concat(t.take(p), u.take(r1).push(NEWLINE));
    lemma_column_concat(t.take(p), u.take(r1).push(NEWLINE));
    let r2 = rest_of_line(v) as int;
    assert(v.take(col) =~= v.take(r2).take(col));
    assert(no_newline(v.take(col)));
    lemma_no_newline_count(v.take(col));
    assert(t.take(f + col) =~= t.take(f) + v.take(col));
    lemma_newline_count_concat(t.take(f), v.take(col));
    lemma_column_concat(t.take(f), v.take(col));
}

} // verus!
