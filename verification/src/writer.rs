//! A writer that hands bytes on line by line and breaks lines that grow
//! longer than a column limit at spaces.

use vstd::prelude::*;

verus! {

/// The byte `' '`.
pub const SPACE: u8 = 32;

/// The byte `'\n'`.
pub const NEWLINE: u8 = 10;

// ---------------------------------------------------------------------------
// Searching bytes
// ---------------------------------------------------------------------------

/// Index of the first `x` in `b` at or after `i`.
pub open spec fn first_index_of(b: Seq<u8>, x: u8, i: int) -> Option<int>
    decreases b.len() - i,
{
    if i >= b.len() {
        None
    } else if i >= 0 && b[i] == x {
        Some(i)
    } else {
        first_index_of(b, x, i + 1)
    }
}

/// Index of the last space in `b` at or before `i`.
pub open spec fn last_space_upto(b: Seq<u8>, i: int) -> Option<int>
    decreases i + 1,
{
    if i < 0 {
        None
    } else if i < b.len() && b[i] == SPACE {
        Some(i)
    } else {
        last_space_upto(b, i - 1)
    }
}

/// Where a line longer than `n` columns is broken: at the last space at or
/// before column `n`, else at the first space after it.
pub open spec fn break_point(b: Seq<u8>, n: int) -> Option<int> {
    match last_space_upto(b, n) {
        Some(i) => Some(i),
        None => first_index_of(b, SPACE, n),
    }
}

/// Splits `b` at its newlines: the bytes up to and including the last
/// newline, and the bytes after it.
pub open spec fn split_lines(b: Seq<u8>) -> (Seq<u8>, Seq<u8>)
    decreases b.len(),
{
    match first_index_of(b, NEWLINE, 0) {
        Some(i) => if 0 <= i < b.len() {
            let r = split_lines(b.skip(i + 1));
            (b.take(i + 1) + r.0, r.1)
        } else {
            (Seq::empty(), b)
        },
        None => (Seq::empty(), b),
    }
}

/// Breaks `b` (which holds no newline) into lines of at most `n` columns
/// where spaces allow it: the finished lines, and the rest.
pub open spec fn wrap(b: Seq<u8>, n: nat) -> (Seq<u8>, Seq<u8>)
    decreases b.len(),
{
    if b.len() <= n {
        (Seq::empty(), b)
    } else {
        match break_point(b, n as int) {
            Some(j) => if 0 <= j < b.len() {
                let r = wrap(b.skip(j + 1), n);
                (b.take(j) + seq![NEWLINE] + r.0, r.1)
            } else {
                (Seq::empty(), b)
            },
            None => (Seq::empty(), b),
        }
    }
}

/// Breaking `b` into lines of `n` columns comes to an end: whenever more
/// than `n` bytes are left, a space remains to break at.
pub open spec fn wrap_terminates(b: Seq<u8>, n: nat) -> bool
    decreases b.len(),
{
    if b.len() <= n {
        true
    } else {
        match break_point(b, n as int) {
            Some(j) => 0 <= j < b.len() && wrap_terminates(b.skip(j + 1), n),
            None => false,
        }
    }
}

/// What one `write` of `buf` does to a writer holding `b`: the bytes it
/// emits, and the bytes it keeps.
pub open spec fn write_step(b: Seq<u8>, buf: Seq<u8>, n: nat) -> (Seq<u8>, Seq<u8>) {
    let s = split_lines(b + buf);
    let w = wrap(s.1, n);
    (s.0 + w.0, w.1)
}

/// A writing of `buf` into a writer holding `b` that comes to an end.
pub open spec fn write_terminates(b: Seq<u8>, buf: Seq<u8>, n: nat) -> bool {
    wrap_terminates(split_lines(b + buf).1, n)
}

/// Returns the index of the first `x` in `v`.
pub fn find_byte(v: &Vec<u8>, x: u8) -> (r: Option<usize>)
    ensures
        match r {
            Some(i) => first_index_of(v@, x, 0) == Some(i as int),
            None => first_index_of(v@, x, 0) is None,
        },
{
    let mut i: usize = 0;
    while i < v.len()
        invariant
            i <= v.len(),
            first_index_of(v@, x, 0) == first_index_of(v@, x, i as int),
        decreases v.len() - i,
    {
        if v[i] == x {
            return Some(i);
        }
        i = i + 1;
    }
    None
}

// ---------------------------------------------------------------------------
// The writer
// ---------------------------------------------------------------------------

/// Buffers written bytes and hands them on line by line, breaking lines
/// longer than `n_cols` at spaces. The bytes it hands on are appended to an
/// output vector that each method takes.
pub struct MaxWidthWriter {
    line_buffer: Vec<u8>,
    n_cols: usize,
}

impl MaxWidthWriter {
    /// The bytes held back, not yet handed on.
    pub closed spec fn buffer(&self) -> Seq<u8> {
        self.line_buffer@
    }

    /// The column limit.
    pub closed spec fn cols(&self) -> nat {
        self.n_cols as nat
    }

    /// A writer with an empty buffer that breaks lines after `n_cols` columns.
    pub fn new(n_cols: usize) -> (w: Self)
        ensures
            w.buffer() == Seq::<u8>::empty(),
            w.cols() == n_cols,
    {
        MaxWidthWriter { line_buffer: Vec::new(), n_cols }
    }

    /// Hands on the buffer up to index `i`, with a newline in place of the
    /// byte at `i`, and keeps what follows it.
    fn flush_partial(&mut self, i: usize, out: &mut Vec<u8>)
        requires
            i < old(self).buffer().len(),
        ensures
            final(out)@ == old(out)@ + old(self).buffer().take(i as int) + seq![NEWLINE],
            final(self).buffer() == old(self).buffer().skip(i + 1),
            final(self).cols() == old(self).cols(),
    {
        let ghost b = self.line_buffer@;
        self.line_buffer.set(i, NEWLINE);
        let mut k: usize = 0;
        while k <= i
            invariant
                i < self.line_buffer.len(),
                self.n_cols == old(self).n_cols,
                self.line_buffer@ == b.update(i as int, NEWLINE),
                k <= i + 1,
                out@ == old(out)@ + self.line_buffer@.take(k as int),
            decreases i + 1 - k,
        {
            out.push(self.line_buffer[k]);
            proof {
                assert(self.line_buffer@.take(k + 1) =~= self.line_buffer@.take(k as int).push(
                    self.line_buffer@[k as int],
                ));
            }
            k = k + 1;
        }
        proof {
            assert(self.line_buffer@.take(i + 1) =~= b.take(i as int) + seq![NEWLINE]);
        }
        let len: usize = self.line_buffer.len();
        let rest: usize = len - i - 1;
        let mut k: usize = 0;
        while k < rest
            invariant
                len == self.line_buffer.len(),
                len == b.len(),
                i < len,
                self.n_cols == old(self).n_cols,
                rest == len - i - 1,
                k <= rest,
                forall|t: int| 0 <= t < k ==> self.line_buffer@[t] == b[t + i + 1],
                forall|t: int| k <= t < len ==> self.line_buffer@[t] == b.update(i as int, NEWLINE)[t],
            decreases rest - k,
        {
            let v = self.line_buffer[k + i + 1];
            self.line_buffer.set(k, v);
            k = k + 1;
        }
        self.line_buffer.truncate(rest);
        proof {
            assert(self.line_buffer@ =~= b.skip(i + 1));
        }
    }

    /// When the buffer is longer than the column limit, hands on its first
    /// line, broken at the last space at or before the limit or else at the
    /// first space after it; does nothing when there is no such space or the
    /// buffer is shorter than the limit.
    pub fn flush_line(&mut self, out: &mut Vec<u8>)
        requires
            old(self).buffer().len() != old(self).cols(),
        ensures
            final(self).cols() == old(self).cols(),
            old(self).buffer().len() < old(self).cols() ==> {
                &&& final(out)@ == old(out)@
                &&& final(self).buffer() == old(self).buffer()
            },
            old(self).buffer().len() > old(self).cols() ==> match break_point(
                old(self).buffer(),
                old(self).cols() as int,
            ) {
                Some(j) => {
                    &&& 0 <= j < old(self).buffer().len()
                    &&& final(out)@ == old(out)@ + old(self).buffer().take(j) + seq![NEWLINE]
                    &&& final(self).buffer() == old(self).buffer().skip(j + 1)
                },
                None => {
                    &&& final(out)@ == old(out)@
                    &&& final(self).buffer() == old(self).buffer()
                },
            },
    {
        let n: usize = self.n_cols;
        let len: usize = self.line_buffer.len();
        if len < n {
            return;
        }
        let ghost b = self.line_buffer@;
        let mut i: usize = n;
        loop
            invariant
                b == self.line_buffer@,
                b == old(self).line_buffer@,
                old(self).n_cols == self.n_cols,
                out@ == old(out)@,
                len == b.len(),
                n == self.n_cols,
                n < len,
                i <= n,
                last_space_upto(b, n as int) == last_space_upto(b, i as int),
            ensures
                last_space_upto(b, n as int) is None,
                b == self.line_buffer@,
                b == old(self).line_buffer@,
                old(self).n_cols == self.n_cols,
                n < len,
                n == self.n_cols,
            decreases i,
        {
            if self.line_buffer[i] == SPACE {
                assert(last_space_upto(b, i as int) == Some(i as int));
                self.flush_partial(i, out);
                return;
            }
            assert(last_space_upto(b, i as int) == last_space_upto(b, i - 1));
            if i == 0 {
                assert(last_space_upto(b, -1) is None);
                break;
            }
            i = i - 1;
        }
        let mut k: usize = n;
        while k < len
            invariant
                b == self.line_buffer@,
                b == old(self).line_buffer@,
                old(self).n_cols == self.n_cols,
                out@ == old(out)@,
                len == b.len(),
                n == self.n_cols,
                n < len,
                n <= k <= len,
                last_space_upto(b, n as int) is None,
                first_index_of(b, SPACE, n as int) == first_index_of(b, SPACE, k as int),
            decreases len - k,
        {
            if self.line_buffer[k] == SPACE {
                assert(first_index_of(b, SPACE, k as int) == Some(k as int));
                self.flush_partial(k, out);
                return;
            }
            assert(first_index_of(b, SPACE, k as int) == first_index_of(b, SPACE, k + 1));
            k = k + 1;
        }
        assert(first_index_of(b, SPACE, len as int) is None);
    }

    /// Takes in `buf`: hands on every line that it completes, then breaks
    /// what is left into lines of at most `cols()` columns where spaces
    /// allow it. Returns the number of bytes taken in.
    pub fn write(&mut self, buf: &[u8], out: &mut Vec<u8>) -> (written: usize)
        requires
            write_terminates(old(self).buffer(), buf@, old(self).cols()),
        ensures
            written == buf@.len(),
            final(self).cols() == old(self).cols(),
            final(out)@ == old(out)@ + write_step(old(self).buffer(), buf@, old(self).cols()).0,
            final(self).buffer() == write_step(old(self).buffer(), buf@, old(self).cols()).1,
    {
        let ghost b0 = self.line_buffer@;
        let ghost n = self.n_cols as nat;
        let mut k: usize = 0;
        while k < buf.len()
            invariant
                k <= buf.len(),
                self.line_buffer@ == b0 + buf@.take(k as int),
                self.n_cols == n,
            decreases buf.len() - k,
        {
            self.line_buffer.push(buf[k]);
            proof {
                assert(b0 + buf@.take(k + 1) =~= (b0 + buf@.take(k as int)).push(buf@[k as int]));
            }
            k = k + 1;
        }
        proof {
            assert(buf@.take(buf@.len() as int) =~= buf@);
        }
        let ghost s0 = split_lines(b0 + buf@);
        let ghost out0 = out@;
        let mut pos = find_byte(&self.line_buffer, NEWLINE);
        while pos.is_some()
            invariant
                self.n_cols == n,
                out0 + s0.0 == out@ + split_lines(self.line_buffer@).0,
                s0.1 == split_lines(self.line_buffer@).1,
                match pos {
                    Some(i) => first_index_of(self.line_buffer@, NEWLINE, 0) == Some(i as int),
                    None => first_index_of(self.line_buffer@, NEWLINE, 0) is None,
                },
            decreases self.line_buffer@.len(),
        {
            let i = pos.unwrap();
            let ghost lb = self.line_buffer@;
            proof {
                lemma_first_index_in_range(lb, NEWLINE, 0);
            }
            self.flush_partial(i, out);
            proof {
                assert(lb.take(i as int) + seq![NEWLINE] =~= lb.take(i + 1));
                let r = split_lines(lb.skip(i + 1));
                assert(split_lines(lb) == (lb.take(i + 1) + r.0, r.1));
                assert(out0 + s0.0 =~= out@ + r.0);
            }
            pos = find_byte(&self.line_buffer, NEWLINE);
        }
        proof {
            assert(split_lines(self.line_buffer@) == (Seq::<u8>::empty(), self.line_buffer@));
            assert(out@ =~= out0 + s0.0);
        }
        let ghost w0 = wrap(s0.1, n);
        while self.line_buffer.len() > self.n_cols
            invariant
                self.n_cols == n,
                out0 + s0.0 + w0.0 == out@ + wrap(self.line_buffer@, n).0,
                w0.1 == wrap(self.line_buffer@, n).1,
                wrap_terminates(self.line_buffer@, n),
            decreases self.line_buffer@.len(),
        {
            let ghost lb = self.line_buffer@;
            self.flush_line(out);
            proof {
                let j = break_point(lb, n as int)->Some_0;
                let r = wrap(lb.skip(j + 1), n);
                assert(wrap(lb, n) == (lb.take(j) + seq![NEWLINE] + r.0, r.1));
                assert(out0 + s0.0 + w0.0 =~= out@ + r.0);
            }
        }
        proof {
            assert(out@ =~= out0 + (s0.0 + w0.0));
        }
        buf.len()
    }

    /// Hands on everything in the buffer and empties it.
    pub fn flush(&mut self, out: &mut Vec<u8>)
        ensures
            final(out)@ == old(out)@ + old(self).buffer(),
            final(self).buffer() == Seq::<u8>::empty(),
            final(self).cols() == old(self).cols(),
    {
        let mut k: usize = 0;
        while k < self.line_buffer.len()
            invariant
                k <= self.line_buffer.len(),
                self.line_buffer@ == old(self).line_buffer@,
                out@ == old(out)@ + self.line_buffer@.take(k as int),
            decreases self.line_buffer.len() - k,
        {
            out.push(self.line_buffer[k]);
            proof {
                assert(self.line_buffer@.take(k + 1) =~= self.line_buffer@.take(k as int).push(
                    self.line_buffer@[k as int],
                ));
            }
            k = k + 1;
        }
        proof {
            assert(self.line_buffer@.take(k as int) =~= self.line_buffer@);
        }
        self.line_buffer.clear();
    }
}

/// A first occurrence found from `i` lies between `i` and the end.
pub proof fn lemma_first_index_in_range(b: Seq<u8>, x: u8, i: int)
    requires
        i >= 0,
    ensures
        first_index_of(b, x, i) matches Some(j) ==> i <= j < b.len() && b[j] == x,
    decreases b.len() - i,
{
    if i < b.len() && b[i] != x {
        lemma_first_index_in_range(b, x, i + 1);
    }
}


// ---------------------------------------------------------------------------
// Runs, lines and words
// ---------------------------------------------------------------------------

/// Whether `c` ends a run of bytes: a newline always, a space too when
/// `words` is set.
pub open spec fn is_sep(c: u8, words: bool) -> bool {
    c == NEWLINE || (words && c == SPACE)
}

/// Length of the run of bytes after the last separator in `b`.
pub open spec fn tail_run(b: Seq<u8>, words: bool) -> nat
    decreases b.len(),
{
    if b.len() == 0 {
        0
    } else if is_sep(b.last(), words) {
        0
    } else {
        tail_run(b.drop_last(), words) + 1
    }
}

/// Every run of bytes between separators in `b` is at most `m` long.
pub open spec fn runs_within(b: Seq<u8>, words: bool, m: nat) -> bool
    decreases b.len(),
{
    b.len() == 0 || (runs_within(b.drop_last(), words, m) && tail_run(b, words) <= m)
}

/// Every line of `b` (the bytes between newlines) is at most `n` long.
pub open spec fn lines_within(b: Seq<u8>, n: nat) -> bool {
    runs_within(b, false, n)
}

/// Every word of `b` (the bytes between spaces and newlines) is at most
/// `m` long.
pub open spec fn words_within(b: Seq<u8>, m: nat) -> bool {
    runs_within(b, true, m)
}

/// `b` is empty or ends with a newline.
pub open spec fn ends_line(b: Seq<u8>) -> bool {
    b.len() == 0 || b.last() == NEWLINE
}

/// `b` holds no byte `x`.
pub open spec fn no_byte(b: Seq<u8>, x: u8) -> bool {
    forall|k: int| 0 <= k < b.len() ==> b[k] != x
}

/// Two byte strings of one length that differ only where a space of `a`
/// stands as a newline in `b`.
pub open spec fn respaced(a: Seq<u8>, b: Seq<u8>) -> bool {
    &&& a.len() == b.len()
    &&& forall|k: int| 0 <= k < a.len() ==> (a[k] == b[k] || (a[k] == SPACE && b[k] == NEWLINE))
}

pub proof fn lemma_tail_run_le_len(b: Seq<u8>, words: bool)
    ensures
        tail_run(b, words) <= b.len(),
    decreases b.len(),
{
    if b.len() > 0 {
        lemma_tail_run_le_len(b.drop_last(), words);
    }
}

/// A byte string no longer than `m` has no run longer than `m`.
pub proof fn lemma_short_runs_within(b: Seq<u8>, words: bool, m: nat)
    requires
        b.len() <= m,
    ensures
        runs_within(b, words, m),
    decreases b.len(),
{
    if b.len() > 0 {
        lemma_short_runs_within(b.drop_last(), words, m);
        lemma_tail_run_le_len(b, words);
    }
}

/// After a separator, the run at the end only counts what follows it.
pub proof fn lemma_tail_run_concat(a: Seq<u8>, b: Seq<u8>, words: bool)
    requires
        a.len() == 0 || is_sep(a.last(), words),
    ensures
        tail_run(a + b, words) == tail_run(b, words),
    decreases b.len(),
{
    if b.len() == 0 {
        assert(a + b =~= a);
    } else {
        assert((a + b).drop_last() =~= a + b.drop_last());
        assert((a + b).last() == b.last());
        lemma_tail_run_concat(a, b.drop_last(), words);
    }
}

/// Joined after a separator, two byte strings keep their runs apart.
pub proof fn lemma_runs_within_concat(a: Seq<u8>, b: Seq<u8>, words: bool, m: nat)
    requires
        a.len() == 0 || is_sep(a.last(), words),
    ensures
        runs_within(a + b, words, m) <==> (runs_within(a, words, m) && runs_within(b, words, m)),
    decreases b.len(),
{
    if b.len() == 0 {
        assert(a + b =~= a);
    } else {
        assert((a + b).drop_last() =~= a + b.drop_last());
        lemma_runs_within_concat(a, b.drop_last(), words, m);
        lemma_tail_run_concat(a, b, words);
    }
}

/// Runs within a limit stay so in every prefix.
pub proof fn lemma_runs_within_prefix(b: Seq<u8>, words: bool, m: nat, k: int)
    requires
        runs_within(b, words, m),
        0 <= k <= b.len(),
    ensures
        runs_within(b.take(k), words, m),
    decreases b.len(),
{
    if k == b.len() {
        assert(b.take(k) =~= b);
    } else {
        assert(b.drop_last().take(k) =~= b.take(k));
        lemma_runs_within_prefix(b.drop_last(), words, m, k);
    }
}

/// Without separators, the whole of `b` is one run.
pub proof fn lemma_tail_run_no_sep(b: Seq<u8>, words: bool)
    requires
        forall|k: int| 0 <= k < b.len() ==> !is_sep(b[k], words),
    ensures
        tail_run(b, words) == b.len(),
    decreases b.len(),
{
    if b.len() > 0 {
        lemma_tail_run_no_sep(b.drop_last(), words);
    }
}

pub proof fn lemma_last_space_upto(b: Seq<u8>, i: int)
    requires
        i < b.len(),
    ensures
        last_space_upto(b, i) matches Some(j) ==> 0 <= j <= i && b[j] == SPACE,
        last_space_upto(b, i) is None ==> forall|k: int| 0 <= k <= i ==> b[k] != SPACE,
    decreases i + 1,
{
    if i >= 0 && b[i] != SPACE {
        lemma_last_space_upto(b, i - 1);
    }
}

pub proof fn lemma_first_index_none(b: Seq<u8>, x: u8, i: int)
    requires
        i >= 0,
    ensures
        first_index_of(b, x, i) is None ==> forall|k: int| i <= k < b.len() ==> b[k] != x,
        no_byte(b, x) ==> first_index_of(b, x, i) is None,
    decreases b.len() - i,
{
    if i < b.len() {
        lemma_first_index_none(b, x, i + 1);
    }
}

/// Without newlines nothing is split off.
pub proof fn lemma_split_lines_none(b: Seq<u8>)
    requires
        no_byte(b, NEWLINE),
    ensures
        split_lines(b) == (Seq::<u8>::empty(), b),
{
    lemma_first_index_none(b, NEWLINE, 0);
}

/// The first newline of `a + [NEWLINE] + c`, when `a` holds none, ends the
/// first line handed on.
pub proof fn lemma_split_lines_first(a: Seq<u8>, c: Seq<u8>)
    requires
        no_byte(a, NEWLINE),
    ensures
        split_lines(a + seq![NEWLINE] + c) == (a + seq![NEWLINE] + split_lines(c).0, split_lines(c).1),
{
    let x = a + seq![NEWLINE] + c;
    assert forall|k: int| 0 <= k < a.len() implies x[k] != NEWLINE by {
        assert(x[k] == a[k]);
    }
    lemma_first_index_skip(x, NEWLINE, 0, a.len() as int);
    assert(first_index_of(x, NEWLINE, a.len() as int) == Some(a.len() as int));
    assert(x.take(a.len() + 1int) =~= a + seq![NEWLINE]);
    assert(x.skip(a.len() + 1int) =~= c);
}

/// Bytes that are not `x` can be skipped when looking for `x`.
pub proof fn lemma_first_index_skip(b: Seq<u8>, x: u8, i: int, j: int)
    requires
        0 <= i <= j <= b.len(),
        forall|k: int| i <= k < j ==> b[k] != x,
    ensures
        first_index_of(b, x, i) == first_index_of(b, x, j),
    decreases j - i,
{
    if i < j {
        lemma_first_index_skip(b, x, i + 1, j);
    }
}

/// Breaking a newline-free byte string whose words fit the column limit
/// comes to an end, hands on lines within the limit, and keeps a rest
/// within the limit that ends with the same word.
pub proof fn lemma_wrap(x: Seq<u8>, n: nat, m: nat)
    requires
        no_byte(x, NEWLINE),
        words_within(x, m),
        m <= n,
    ensures
        wrap_terminates(x, n),
        lines_within(wrap(x, n).0, n),
        ends_line(wrap(x, n).0),
        no_byte(wrap(x, n).1, NEWLINE),
        wrap(x, n).1.len() <= n,
        words_within(wrap(x, n).1, m),
        tail_run(wrap(x, n).1, true) == tail_run(x, true),
        respaced(x, wrap(x, n).0 + wrap(x, n).1),
    decreases x.len(),
{
    if x.len() <= n {
        assert(wrap(x, n).0 + wrap(x, n).1 =~= x);
    } else {
        lemma_last_space_upto(x, n as int);
        if last_space_upto(x, n as int) is None {
            let p = x.take(n + 1int);
            lemma_tail_run_no_sep(p, true);
            lemma_runs_within_prefix(x, true, m, n + 1int);
            assert(false);
        }
        let j = last_space_upto(x, n as int)->Some_0;
        assert(break_point(x, n as int) == Some(j));
        let a = x.take(j + 1);
        let r = x.skip(j + 1);
        assert(x =~= a + r);
        lemma_runs_within_concat(a, r, true, m);
        lemma_tail_run_concat(a, r, true);
        lemma_wrap(r, n, m);
        let line = x.take(j) + seq![NEWLINE];
        let wr = wrap(r, n);
        assert(wrap(x, n) == (line + wr.0, wr.1));
        lemma_short_runs_within(x.take(j), false, n);
        assert(line.drop_last() =~= x.take(j));
        lemma_runs_within_concat(line, wr.0, false, n);
        if wr.0.len() > 0 {
            assert((line + wr.0).last() == wr.0.last());
        }
        lemma_wrap_respaced(x, n);
    }
}

/// One write of a newline-free piece into a newline-free buffer whose
/// words fit the column limit.
pub proof fn lemma_step_plain(b: Seq<u8>, c: Seq<u8>, n: nat, m: nat)
    requires
        no_byte(b + c, NEWLINE),
        words_within(b + c, m),
        m <= n,
    ensures
        write_terminates(b, c, n),
        lines_within(write_step(b, c, n).0, n),
        ends_line(write_step(b, c, n).0),
        no_byte(write_step(b, c, n).1, NEWLINE),
        write_step(b, c, n).1.len() <= n,
        words_within(write_step(b, c, n).1, m),
        tail_run(write_step(b, c, n).1, true) == tail_run(b + c, true),
        respaced(b + c, write_step(b, c, n).0 + write_step(b, c, n).1),
{
    lemma_split_lines_none(b + c);
    lemma_wrap(b + c, n, m);
    assert(Seq::<u8>::empty() + wrap(b + c, n).0 =~= wrap(b + c, n).0);
}

/// A lone newline written into a newline-free buffer within the limit
/// hands on the buffer as one line and leaves it empty.
pub proof fn lemma_step_newline(b: Seq<u8>, n: nat)
    requires
        no_byte(b, NEWLINE),
        b.len() <= n,
    ensures
        write_terminates(b, seq![NEWLINE], n),
        write_step(b, seq![NEWLINE], n) == (b + seq![NEWLINE], Seq::<u8>::empty()),
        lines_within(b + seq![NEWLINE], n),
        ends_line(b + seq![NEWLINE]),
{
    lemma_split_lines_first(b, Seq::empty());
    assert(b + seq![NEWLINE] + Seq::<u8>::empty() =~= b + seq![NEWLINE]);
    lemma_split_lines_none(Seq::<u8>::empty());
    assert(b + seq![NEWLINE] + Seq::<u8>::empty() =~= b + seq![NEWLINE]);
    lemma_short_runs_within(b, false, n);
    assert((b + seq![NEWLINE]).drop_last() =~= b);
}


// ---------------------------------------------------------------------------
// Many writes
// ---------------------------------------------------------------------------

/// What writing the pieces `cs`, one after the other, does to a writer
/// holding `b`: all the bytes handed on, and the bytes kept.
pub open spec fn feed(b: Seq<u8>, cs: Seq<Seq<u8>>, n: nat) -> (Seq<u8>, Seq<u8>)
    decreases cs.len(),
{
    if cs.len() == 0 {
        (Seq::empty(), b)
    } else {
        let s = feed(b, cs.drop_last(), n);
        let t = write_step(s.1, cs.last(), n);
        (s.0 + t.0, t.1)
    }
}

/// Every one of the writes of `feed(b, cs, n)` comes to an end.
pub open spec fn feed_terminates(b: Seq<u8>, cs: Seq<Seq<u8>>, n: nat) -> bool
    decreases cs.len(),
{
    cs.len() == 0 || (feed_terminates(b, cs.drop_last(), n) && write_terminates(
        feed(b, cs.drop_last(), n).1,
        cs.last(),
        n,
    ))
}

/// The pieces `cs` joined together.
pub open spec fn concat_all(cs: Seq<Seq<u8>>) -> Seq<u8>
    decreases cs.len(),
{
    if cs.len() == 0 {
        Seq::empty()
    } else {
        concat_all(cs.drop_last()) + cs.last()
    }
}

pub proof fn lemma_feed_push(b: Seq<u8>, cs: Seq<Seq<u8>>, c: Seq<u8>, n: nat)
    ensures
        feed(b, cs.push(c), n) == (feed(b, cs, n).0 + write_step(feed(b, cs, n).1, c, n).0,
        write_step(feed(b, cs, n).1, c, n).1),
        feed_terminates(b, cs.push(c), n) == (feed_terminates(b, cs, n) && write_terminates(
            feed(b, cs, n).1,
            c,
            n,
        )),
        concat_all(cs.push(c)) == concat_all(cs) + c,
{
    assert(cs.push(c).drop_last() =~= cs);
}

/// Writing `c1 + c2` is writing `c1`, then `c2`.
pub proof fn lemma_feed_append(b: Seq<u8>, c1: Seq<Seq<u8>>, c2: Seq<Seq<u8>>, n: nat)
    ensures
        feed(b, c1 + c2, n) == (feed(b, c1, n).0 + feed(feed(b, c1, n).1, c2, n).0, feed(
            feed(b, c1, n).1,
            c2,
            n,
        ).1),
        feed_terminates(b, c1 + c2, n) == (feed_terminates(b, c1, n) && feed_terminates(
            feed(b, c1, n).1,
            c2,
            n,
        )),
        concat_all(c1 + c2) == concat_all(c1) + concat_all(c2),
    decreases c2.len(),
{
    if c2.len() == 0 {
        assert(c1 + c2 =~= c1);
        assert(feed(b, c1, n).0 + Seq::<u8>::empty() =~= feed(b, c1, n).0);
        assert(concat_all(c1) + Seq::<u8>::empty() =~= concat_all(c1));
    } else {
        let d = c2.drop_last();
        assert(c1 + c2 =~= (c1 + d).push(c2.last()));
        assert(c2 =~= d.push(c2.last()));
        lemma_feed_append(b, c1, d, n);
        lemma_feed_push(b, c1 + d, c2.last(), n);
        lemma_feed_push(feed(b, c1, n).1, d, c2.last(), n);
        let s1 = feed(b, c1, n);
        let s2 = feed(s1.1, d, n);
        let t = write_step(s2.1, c2.last(), n);
        assert(s1.0 + s2.0 + t.0 =~= s1.0 + (s2.0 + t.0));
        assert(concat_all(c1) + concat_all(d) + c2.last() =~= concat_all(c1) + (concat_all(d)
            + c2.last()));
    }
}

/// The writes of a prefix of `cs` come to an end when all of `cs`'s do.
pub proof fn lemma_feed_terminates_prefix(b: Seq<u8>, cs: Seq<Seq<u8>>, n: nat, k: int)
    requires
        feed_terminates(b, cs, n),
        0 <= k <= cs.len(),
    ensures
        feed_terminates(b, cs.take(k), n),
    decreases cs.len(),
{
    if k == cs.len() {
        assert(cs.take(k) =~= cs);
    } else {
        assert(cs.drop_last().take(k) =~= cs.take(k));
        lemma_feed_terminates_prefix(b, cs.drop_last(), n, k);
    }
}

pub proof fn lemma_respaced_trans(a: Seq<u8>, b: Seq<u8>, c: Seq<u8>)
    requires
        respaced(a, b),
        respaced(b, c),
    ensures
        respaced(a, c),
{
}

pub proof fn lemma_respaced_concat(a1: Seq<u8>, b1: Seq<u8>, a2: Seq<u8>, b2: Seq<u8>)
    requires
        respaced(a1, b1),
        respaced(a2, b2),
    ensures
        respaced(a1 + a2, b1 + b2),
{
    assert forall|k: int| 0 <= k < (a1 + a2).len() implies ((a1 + a2)[k] == (b1 + b2)[k] || (
    (a1 + a2)[k] == SPACE && (b1 + b2)[k] == NEWLINE)) by {
        if k >= a1.len() {
            assert((a1 + a2)[k] == a2[k - a1.len()]);
            assert((b1 + b2)[k] == b2[k - b1.len()]);
        }
    }
}

/// Splitting at newlines keeps every byte.
pub proof fn lemma_split_lines_whole(x: Seq<u8>)
    ensures
        split_lines(x).0 + split_lines(x).1 == x,
    decreases x.len(),
{
    lemma_first_index_in_range(x, NEWLINE, 0);
    match first_index_of(x, NEWLINE, 0) {
        Some(i) => {
            lemma_split_lines_whole(x.skip(i + 1));
            let r = split_lines(x.skip(i + 1));
            assert(x.take(i + 1) + r.0 + r.1 =~= x.take(i + 1) + (r.0 + r.1));
            assert(x.take(i + 1) + x.skip(i + 1) =~= x);
        },
        None => {
            assert(Seq::<u8>::empty() + x =~= x);
        },
    }
}

/// Breaking lines only turns spaces into newlines.
pub proof fn lemma_wrap_respaced(x: Seq<u8>, n: nat)
    requires
        wrap_terminates(x, n),
    ensures
        respaced(x, wrap(x, n).0 + wrap(x, n).1),
    decreases x.len(),
{
    if x.len() <= n {
        assert(wrap(x, n).0 + wrap(x, n).1 =~= x);
    } else {
        let j = break_point(x, n as int)->Some_0;
        let r = x.skip(j + 1);
        lemma_wrap_respaced(r, n);
        let wr = wrap(r, n);
        let line = x.take(j) + seq![NEWLINE];
        assert(x[j] == SPACE) by {
            lemma_last_space_upto(x, n as int);
            lemma_first_index_in_range(x, SPACE, n as int);
        }
        let head = x.take(j + 1);
        assert(respaced(head, line));
        lemma_respaced_concat(head, line, r, wr.0 + wr.1);
        assert(head + r =~= x);
        assert(line + (wr.0 + wr.1) =~= wrap(x, n).0 + wrap(x, n).1);
    }
}

/// A write hands on and keeps the bytes given to the writer, with some
/// spaces turned into newlines and nothing else changed.
pub proof fn lemma_write_step_respaced(b: Seq<u8>, c: Seq<u8>, n: nat)
    requires
        write_terminates(b, c, n),
    ensures
        respaced(b + c, write_step(b, c, n).0 + write_step(b, c, n).1),
{
    let s = split_lines(b + c);
    lemma_split_lines_whole(b + c);
    lemma_wrap_respaced(s.1, n);
    let w = wrap(s.1, n);
    assert(respaced(s.0, s.0)) by {
    }
    lemma_respaced_concat(s.0, s.0, s.1, w.0 + w.1);
    assert(s.0 + (w.0 + w.1) =~= write_step(b, c, n).0 + write_step(b, c, n).1);
}

/// A run of writes hands on and keeps the bytes given to the writer, with
/// some spaces turned into newlines and nothing else changed.
pub proof fn lemma_feed_respaced(b: Seq<u8>, cs: Seq<Seq<u8>>, n: nat)
    requires
        feed_terminates(b, cs, n),
    ensures
        respaced(b + concat_all(cs), feed(b, cs, n).0 + feed(b, cs, n).1),
    decreases cs.len(),
{
    if cs.len() == 0 {
        assert(b + concat_all(cs) =~= b);
        assert(feed(b, cs, n).0 + feed(b, cs, n).1 =~= b);
    } else {
        let d = cs.drop_last();
        let c = cs.last();
        lemma_feed_respaced(b, d, n);
        let s = feed(b, d, n);
        lemma_write_step_respaced(s.1, c, n);
        let t = write_step(s.1, c, n);
        assert(respaced(c, c)) by {
        }
        lemma_respaced_concat(b + concat_all(d), s.0 + s.1, c, c);
        assert(respaced(s.0, s.0)) by {
        }
        lemma_respaced_concat(s.0, s.0, s.1 + c, t.0 + t.1);
        assert(s.0 + s.1 + c =~= s.0 + (s.1 + c));
        assert(s.0 + (t.0 + t.1) =~= (s.0 + t.0) + t.1);
        assert(b + concat_all(d) + c =~= b + concat_all(cs));
        lemma_respaced_trans(b + concat_all(cs), s.0 + s.1 + c, feed(b, cs, n).0 + feed(b, cs, n).1);
    }
}


/// Joining two byte strings that end their last lines keeps their lines.
pub proof fn lemma_lines_join(a: Seq<u8>, b: Seq<u8>, n: nat)
    requires
        lines_within(a, n),
        ends_line(a),
        lines_within(b, n),
        ends_line(b),
    ensures
        lines_within(a + b, n),
        ends_line(a + b),
{
    lemma_runs_within_concat(a, b, false, n);
    if b.len() == 0 {
        assert(a + b =~= a);
    } else {
        assert((a + b).last() == b.last());
    }
}

/// Two byte strings with the same run at their end grow the same runs when
/// `c` is appended to both.
pub proof fn lemma_runs_transfer(x: Seq<u8>, y: Seq<u8>, c: Seq<u8>, words: bool, m: nat)
    requires
        runs_within(x, words, m),
        runs_within(y + c, words, m),
        tail_run(x, words) == tail_run(y, words),
    ensures
        runs_within(x + c, words, m),
        tail_run(x + c, words) == tail_run(y + c, words),
    decreases c.len(),
{
    if c.len() == 0 {
        assert(x + c =~= x);
        assert(y + c =~= y);
    } else {
        let d = c.drop_last();
        assert((x + c).drop_last() =~= x + d);
        assert((y + c).drop_last() =~= y + d);
        assert((x + c).last() == c.last());
        assert((y + c).last() == c.last());
        lemma_runs_within_prefix(y + c, words, m, (y + d).len() as int);
        assert((y + c).take((y + d).len() as int) =~= y + d);
        lemma_runs_transfer(x, y, d, words, m);
    }
}

/// Writing newline-free pieces whose words, together with the buffer's,
/// fit a limit within the column limit: every write comes to an end, the
/// lines handed on are within the column limit, and the buffer stays so.
pub proof fn lemma_feed_plain(b: Seq<u8>, cs: Seq<Seq<u8>>, n: nat, m: nat)
    requires
        m <= n,
        no_byte(b, NEWLINE),
        b.len() <= n,
        words_within(b, m),
        no_byte(concat_all(cs), NEWLINE),
        words_within(b + concat_all(cs), m),
    ensures
        feed_terminates(b, cs, n),
        lines_within(feed(b, cs, n).0, n),
        ends_line(feed(b, cs, n).0),
        no_byte(feed(b, cs, n).1, NEWLINE),
        feed(b, cs, n).1.len() <= n,
        words_within(feed(b, cs, n).1, m),
        tail_run(feed(b, cs, n).1, true) == tail_run(b + concat_all(cs), true),
    decreases cs.len(),
{
    if cs.len() == 0 {
        assert(b + concat_all(cs) =~= b);
        lemma_short_runs_within(Seq::<u8>::empty(), false, n);
    } else {
        let d = cs.drop_last();
        let c = cs.last();
        assert(concat_all(cs) == concat_all(d) + c);
        let y = b + concat_all(d);
        assert(y + c =~= b + concat_all(cs));
        lemma_runs_within_prefix(b + concat_all(cs), true, m, y.len() as int);
        assert((b + concat_all(cs)).take(y.len() as int) =~= y);
        assert forall|k: int| 0 <= k < concat_all(d).len() implies concat_all(d)[k] != NEWLINE by {
            assert(concat_all(cs)[k] == concat_all(d)[k]);
        }
        lemma_feed_plain(b, d, n, m);
        let s = feed(b, d, n);
        lemma_runs_transfer(s.1, y, c, true, m);
        assert forall|k: int| 0 <= k < (s.1 + c).len() implies (s.1 + c)[k] != NEWLINE by {
            if k >= s.1.len() {
                assert(concat_all(cs)[concat_all(d).len() + k - s.1.len()] == c[k - s.1.len()]);
            }
        }
        lemma_step_plain(s.1, c, n, m);
        lemma_lines_join(s.0, write_step(s.1, c, n).0, n);
    }
}


/// A writing that comes to an end leaves less than a line: at most `n`
/// bytes and no newline.
pub proof fn lemma_write_step_bounded(b: Seq<u8>, c: Seq<u8>, n: nat)
    requires
        write_terminates(b, c, n),
    ensures
        write_step(b, c, n).1.len() <= n,
        no_byte(write_step(b, c, n).1, NEWLINE),
{
    lemma_split_lines_rest(b + c);
    lemma_wrap_rest(split_lines(b + c).1, n);
}

/// What splitting at newlines keeps holds no newline.
pub proof fn lemma_split_lines_rest(x: Seq<u8>)
    ensures
        no_byte(split_lines(x).1, NEWLINE),
    decreases x.len(),
{
    lemma_first_index_in_range(x, NEWLINE, 0);
    lemma_first_index_none(x, NEWLINE, 0);
    if let Some(i) = first_index_of(x, NEWLINE, 0) {
        lemma_split_lines_rest(x.skip(i + 1));
    }
}

/// What breaking lines keeps, when it comes to an end, is within the limit
/// and holds no newline it did not have.
pub proof fn lemma_wrap_rest(x: Seq<u8>, n: nat)
    requires
        wrap_terminates(x, n),
        no_byte(x, NEWLINE),
    ensures
        wrap(x, n).1.len() <= n,
        no_byte(wrap(x, n).1, NEWLINE),
    decreases x.len(),
{
    if x.len() > n {
        let j = break_point(x, n as int)->Some_0;
        let r = x.skip(j + 1);
        assert forall|k: int| 0 <= k < r.len() implies r[k] != NEWLINE by {
            assert(r[k] == x[k + j + 1]);
        }
        lemma_wrap_rest(r, n);
    }
}


/// The run at the end of `x` is the run at the end of what splitting it at
/// newlines keeps.
pub proof fn lemma_split_lines_tail(x: Seq<u8>)
    ensures
        tail_run(split_lines(x).1, true) == tail_run(x, true),
    decreases x.len(),
{
    lemma_first_index_in_range(x, NEWLINE, 0);
    if let Some(i) = first_index_of(x, NEWLINE, 0) {
        let a = x.take(i + 1);
        let r = x.skip(i + 1);
        assert(x =~= a + r);
        lemma_tail_run_concat(a, r, true);
        lemma_split_lines_tail(r);
    }
}

/// Breaking a newline-free byte string into lines of `n` columns comes to
/// an end exactly when its last word is at most `n` bytes long.
pub proof fn lemma_wrap_terminates_iff(x: Seq<u8>, n: nat)
    requires
        no_byte(x, NEWLINE),
    ensures
        wrap_terminates(x, n) <==> tail_run(x, true) <= n,
    decreases x.len(),
{
    lemma_tail_run_le_len(x, true);
    if x.len() > n {
        lemma_last_space_upto(x, n as int);
        lemma_first_index_in_range(x, SPACE, n as int);
        lemma_first_index_none(x, SPACE, n as int);
        match break_point(x, n as int) {
            Some(j) => {
                assert(0 <= j < x.len() && x[j] == SPACE);
                let a = x.take(j + 1);
                let r = x.skip(j + 1);
                assert(x =~= a + r);
                lemma_tail_run_concat(a, r, true);
                assert forall|k: int| 0 <= k < r.len() implies r[k] != NEWLINE by {
                    assert(r[k] == x[k + j + 1]);
                }
                lemma_wrap_terminates_iff(r, n);
            },
            None => {
                assert forall|k: int| 0 <= k < x.len() implies !is_sep(x[k], true) by {
                    if k > n {
                    }
                }
                lemma_tail_run_no_sep(x, true);
            },
        }
    }
}

/// One write: when the bytes after the last space or newline of the buffer
/// and the piece are at most `n`, the write comes to an end, hands on and
/// keeps the bytes given with only spaces turned into newlines, and keeps
/// at most `n` bytes and no newline; when they are more, it never ends.
pub proof fn lemma_write_law(b: Seq<u8>, c: Seq<u8>, n: nat)
    ensures
        write_terminates(b, c, n) <==> tail_run(b + c, true) <= n,
        tail_run(b + c, true) <= n ==> {
            &&& respaced(b + c, write_step(b, c, n).0 + write_step(b, c, n).1)
            &&& write_step(b, c, n).1.len() <= n
            &&& no_byte(write_step(b, c, n).1, NEWLINE)
        },
{
    lemma_split_lines_rest(b + c);
    lemma_split_lines_tail(b + c);
    lemma_wrap_terminates_iff(split_lines(b + c).1, n);
    if tail_run(b + c, true) <= n {
        lemma_write_step_respaced(b, c, n);
        lemma_write_step_bounded(b, c, n);
    }
}

} // verus!
