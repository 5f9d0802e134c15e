//! `str::lines` on UTF-8 bytes: lines end at `\n`, a `\r` right before the
//! `\n` is dropped with it, and a final line ending is optional.

use vstd::prelude::*;

verus! {

pub const NEWLINE: u8 = 10;

pub const CARRIAGE_RETURN: u8 = 13;

/// Index of the first `\n` in `s`, or -1.
pub open spec fn first_newline(s: Seq<u8>) -> int
    decreases s.len(),
{
    if s.len() == 0 {
        -1
    } else if s[0] == NEWLINE {
        0
    } else {
        let r = first_newline(s.drop_first());
        if r < 0 {
            -1
        } else {
            r + 1
        }
    }
}

/// A line taken up to its `\n`, with a `\r` right before that `\n` removed.
pub open spec fn strip_cr(l: Seq<u8>) -> Seq<u8> {
    if l.len() > 0 && l.last() == CARRIAGE_RETURN {
        l.drop_last()
    } else {
        l
    }
}

/// The items of `s.lines()`.
pub open spec fn lines(s: Seq<u8>) -> Seq<Seq<u8>>
    decreases s.len(),
{
    if s.len() == 0 {
        Seq::empty()
    } else {
        let k = first_newline(s);
        proof {
            lemma_first_newline_range(s);
        }
        if k < 0 {
            seq![s]
        } else {
            seq![strip_cr(s.subrange(0, k))] + lines(s.subrange(k + 1, s.len() as int))
        }
    }
}

pub proof fn lemma_first_newline_range(s: Seq<u8>)
    ensures
        -1 <= first_newline(s) < s.len(),
    decreases s.len(),
{
    if s.len() > 0 && s[0] != NEWLINE {
        lemma_first_newline_range(s.drop_first());
    }
}

proof fn lemma_first_newline(t: Seq<u8>, k: int)
    requires
        0 <= k <= t.len(),
        forall|j: int| 0 <= j < k ==> t[j] != NEWLINE,
        k < t.len() ==> t[k] == NEWLINE,
    ensures
        first_newline(t) == (if k < t.len() {
            k
        } else {
            -1
        }),
    decreases k,
{
    if k > 0 {
        let u = t.drop_first();
        assert forall|j: int| 0 <= j < k - 1 implies u[j] != NEWLINE by {
            assert(u[j] == t[j + 1]);
        }
        if k < t.len() {
            assert(u[k - 1] == t[k]);
        }
        lemma_first_newline(u, k - 1);
    }
}

/// One line of `s[from..]`: the line's byte range and where the rest
/// starts.
pub struct LineSpan {
    pub start: usize,
    pub end: usize,
    pub next: usize,
}

/// The first line of `s[from..]`, which must not be empty.
pub fn next_line(s: &[u8], from: usize) -> (r: LineSpan)
    requires
        from < s@.len(),
    ensures
        from <= r.start <= r.end <= r.next <= s@.len(),
        from < r.next,
        lines(s@.subrange(from as int, s@.len() as int)) == seq![s@.subrange(
            r.start as int,
            r.end as int,
        )] + lines(s@.subrange(r.next as int, s@.len() as int)),
{
    let mut i = from;
    while i < s.len() && s[i] != NEWLINE
        invariant
            from <= i <= s@.len(),
            forall|j: int| from <= j < i ==> s@[j] != NEWLINE,
        decreases s@.len() - i,
    {
        i += 1;
    }
    let ghost t = s@.subrange(from as int, s@.len() as int);
    proof {
        lemma_first_newline(t, i - from);
    }
    if i == s.len() {
        proof {
            let e = s@.subrange(s@.len() as int, s@.len() as int);
            assert(e.len() == 0);
            assert(lines(e) =~= Seq::<Seq<u8>>::empty());
            assert(lines(t) =~= seq![t] + lines(e));
        }
        LineSpan { start: from, end: i, next: i }
    } else {
        let end = if i > from && s[i - 1] == CARRIAGE_RETURN {
            i - 1
        } else {
            i
        };
        proof {
            let k = i - from;
            assert(t.subrange(0, k) =~= s@.subrange(from as int, i as int));
            assert(t.subrange(k + 1, t.len() as int) =~= s@.subrange(i + 1, s@.len() as int));
            assert(strip_cr(t.subrange(0, k)) =~= s@.subrange(from as int, end as int));
        }
        LineSpan { start: from, end, next: i + 1 }
    }
}

/// Byte ranges of the items of `s.lines()`, in order.
pub fn line_spans(s: &[u8]) -> (r: Vec<(usize, usize)>)
    ensures
        r@.len() == lines(s@).len(),
        forall|i: int|
            #![trigger r@[i]]
            0 <= i < r@.len() ==> r@[i].0 <= r@[i].1 <= s@.len() && lines(s@)[i] == s@.subrange(
                r@[i].0 as int,
                r@[i].1 as int,
            ),
{
    let mut out: Vec<(usize, usize)> = Vec::new();
    let mut pos: usize = 0;
    let ghost done: Seq<Seq<u8>> = Seq::empty();
    assert(s@.subrange(0, s@.len() as int) =~= s@);
    while pos < s.len()
        invariant
            pos <= s@.len(),
            done.len() == out@.len(),
            lines(s@) == done + lines(s@.subrange(pos as int, s@.len() as int)),
            forall|i: int|
                #![trigger out@[i]]
                0 <= i < out@.len() ==> out@[i].0 <= out@[i].1 <= s@.len() && done[i]
                    == s@.subrange(out@[i].0 as int, out@[i].1 as int),
        decreases s@.len() - pos,
    {
        let sp = next_line(s, pos);
        let ghost old_out = out@;
        out.push((sp.start, sp.end));
        proof {
            let l = s@.subrange(sp.start as int, sp.end as int);
            assert(done.push(l) + lines(s@.subrange(sp.next as int, s@.len() as int)) =~= done
                + (seq![l] + lines(s@.subrange(sp.next as int, s@.len() as int))));
            let old_done = done;
            done = done.push(l);
            assert forall|i: int| #![trigger out@[i]] 0 <= i < out@.len() implies out@[i].0 <= out@[i].1 <= s@.len()
                && done[i] == s@.subrange(out@[i].0 as int, out@[i].1 as int) by {
                if i < old_out.len() {
                    assert(out@[i] == old_out[i]);
                    assert(done[i] == old_done[i]);
                }
            }
        }
        pos = sp.next;
    }
    proof {
        let e = s@.subrange(pos as int, s@.len() as int);
        assert(e.len() == 0);
        assert(lines(e) =~= Seq::<Seq<u8>>::empty());
        assert(lines(s@) =~= done);
    }
    out
}

} // verus!
