//! The DIMACS shortest-path graph format (`.gr`): a problem line
//! `p sp <n> <m>`, arc lines `a <u> <v> <w>` with 1-based vertices, and
//! anything else ignored. Lines are read as characters and split on Unicode
//! white space; the weight token is handed back as it stands, for the caller
//! to read as a binary64 value.
use crate::graph::{finish, Graph};
use vstd::prelude::*;

verus! {

/// Unicode white space (the `White_Space` property, as `char::is_whitespace`
/// reads it): tab through carriage return, space, next line, no-break space,
/// ogham space mark, the spaces U+2000 to U+200A, line and paragraph
/// separators, narrow no-break space, medium mathematical space and
/// ideographic space.
pub open spec fn is_space(b: char) -> bool {
    ||| b == '\u{20}'
    ||| ('\u{9}' <= b && b <= '\u{D}')
    ||| b == '\u{85}'
    ||| b == '\u{A0}'
    ||| b == '\u{1680}'
    ||| ('\u{2000}' <= b && b <= '\u{200A}')
    ||| b == '\u{2028}'
    ||| b == '\u{2029}'
    ||| b == '\u{202F}'
    ||| b == '\u{205F}'
    ||| b == '\u{3000}'
}

/// Whether `b` is white space.
pub fn space(b: char) -> (r: bool)
    ensures
        r == is_space(b),
{
    b == '\u{20}' || ('\u{9}' <= b && b <= '\u{D}') || b == '\u{85}' || b == '\u{A0}' || b == '\u{1680}'
        || ('\u{2000}' <= b && b <= '\u{200A}') || b == '\u{2028}' || b == '\u{2029}' || b == '\u{202F}'
        || b == '\u{205F}' || b == '\u{3000}'
}

/// Length of the leading run of non-space characters of `s`.
pub open spec fn run_len(s: Seq<char>) -> nat
    decreases s.len(),
{
    if s.len() == 0 || is_space(s[0]) {
        0
    } else {
        1 + run_len(s.drop_first())
    }
}

/// A leading run is a prefix of non-space characters ended by a space or by the
/// end of `s`.
pub proof fn lemma_run_len(s: Seq<char>)
    ensures
        run_len(s) <= s.len(),
        s.len() > 0 && !is_space(s[0]) ==> run_len(s) >= 1,
        forall|i: int| 0 <= i < run_len(s) ==> !is_space(#[trigger] s[i]),
        run_len(s) < s.len() ==> is_space(s[run_len(s) as int]),
    decreases s.len(),
{
    if s.len() > 0 && !is_space(s[0]) {
        lemma_run_len(s.drop_first());
        assert forall|i: int| 0 <= i < run_len(s) implies !is_space(#[trigger] s[i]) by {
            if i > 0 {
                assert(s[i] == s.drop_first()[i - 1]);
            }
        }
        if run_len(s) < s.len() {
            assert(s[run_len(s) as int] == s.drop_first()[run_len(s) - 1]);
        }
    }
}

/// The maximal runs of non-space characters of `s`, in order.
pub open spec fn tokens(s: Seq<char>) -> Seq<Seq<char>>
    decreases s.len(),
{
    if s.len() == 0 {
        Seq::empty()
    } else if is_space(s[0]) {
        tokens(s.drop_first())
    } else {
        proof {
            lemma_run_len(s);
        }
        seq![s.take(run_len(s) as int)] + tokens(s.skip(run_len(s) as int))
    }
}

/// Value of a string of decimal digits.
pub open spec fn digits_value(t: Seq<char>) -> nat
    decreases t.len(),
{
    if t.len() == 0 {
        0
    } else {
        digits_value(t.drop_last()) * 10 + (t.last() as int - 48) as nat
    }
}

/// Every character is an ASCII decimal digit.
pub open spec fn all_digits(t: Seq<char>) -> bool {
    forall|i: int| 0 <= i < t.len() ==> '0' <= #[trigger] t[i] <= '9'
}

/// An unsigned decimal integer as `str::parse::<usize>` reads it: an
/// optional `+`, then at least one digit, and a value that fits in `usize`.
pub open spec fn usize_token(t: Seq<char>) -> Option<usize> {
    let d = if t.len() > 0 && t[0] == '+' {
        t.drop_first()
    } else {
        t
    };
    if d.len() > 0 && all_digits(d) && digits_value(d) <= usize::MAX {
        Some(digits_value(d) as usize)
    } else {
        None
    }
}

/// A line of a DIMACS file.
#[derive(PartialEq, Eq, Debug)]
pub enum DimacsLine {
    /// `p <kind> <n> <m>`: the vertex and arc counts.
    Problem { n: usize, m: usize },
    /// `a <u> <v> <w>`: an arc, its endpoints made 0-based, its weight token
    /// as written.
    Arc { tail: usize, head: usize, weight: Vec<char> },
    /// A blank, comment or unknown line.
    Other,
}

/// Why a DIMACS file cannot be read.
#[derive(Clone, Copy, PartialEq, Eq, Structural, Debug)]
pub enum DimacsError {
    /// A problem or arc line has too few fields.
    MissingField,
    /// A count or vertex field is not an unsigned decimal integer.
    BadNumber,
    /// A vertex field is 0, but vertices are numbered from 1.
    ZeroVertex,
    /// An arc comes before any problem line.
    NoProblemLine,
    /// An arc leaves a vertex beyond the declared count.
    VertexOutOfRange,
    /// The arc count no longer fits in `usize`.
    TooManyArcs,
    /// The number of arcs read differs from the declared count.
    ArcCountMismatch,
}

/// What a line parses to, given its tokens.
pub open spec fn line_spec(t: Seq<Seq<char>>) -> Result<(int, int, int, Seq<char>), DimacsError> {
    if t.len() == 0 {
        Ok((0, 0, 0, Seq::empty()))
    } else if t[0] == seq!['p'] {
        if t.len() < 3 {
            Err(DimacsError::MissingField)
        } else if usize_token(t[2]) is None {
            Err(DimacsError::BadNumber)
        } else if t.len() < 4 {
            Err(DimacsError::MissingField)
        } else if usize_token(t[3]) is None {
            Err(DimacsError::BadNumber)
        } else {
            Ok((1, usize_token(t[2])->0 as int, usize_token(t[3])->0 as int, Seq::empty()))
        }
    } else if t[0] == seq!['a'] {
        if t.len() < 2 {
            Err(DimacsError::MissingField)
        } else if usize_token(t[1]) is None {
            Err(DimacsError::BadNumber)
        } else if usize_token(t[1])->0 == 0 {
            Err(DimacsError::ZeroVertex)
        } else if t.len() < 3 {
            Err(DimacsError::MissingField)
        } else if usize_token(t[2]) is None {
            Err(DimacsError::BadNumber)
        } else if usize_token(t[2])->0 == 0 {
            Err(DimacsError::ZeroVertex)
        } else if t.len() < 4 {
            Err(DimacsError::MissingField)
        } else {
            Ok((2, usize_token(t[1])->0 - 1, usize_token(t[2])->0 - 1, t[3]))
        }
    } else {
        Ok((0, 0, 0, Seq::empty()))
    }
}

/// An arc line `a u v w` with `u, v >= 1` is the arc from `u - 1` to
/// `v - 1`: the first vertex field is always the tail and the second the
/// head, so exchanging the two fields exchanges tail and head; the weight
/// token is the fourth field as written.
pub proof fn lemma_arc_line_direction(t: Seq<Seq<char>>)
    requires
        t.len() >= 4,
        t[0] == seq!['a'],
        usize_token(t[1]) matches Some(u) && u >= 1,
        usize_token(t[2]) matches Some(v) && v >= 1,
    ensures
        line_spec(t) matches Ok(r) && r.0 == 2 && r.1 + 1 == usize_token(t[1])->0 && r.2 + 1 == usize_token(
            t[2],
        )->0 && r.3 == t[3],
        line_spec(t.update(1, t[2]).update(2, t[1])) matches Ok(q) && q.1 == line_spec(t)->Ok_0.2 && q.2
            == line_spec(t)->Ok_0.1,
{
    let t2 = t.update(1, t[2]).update(2, t[1]);
    assert(t2[0] == t[0] && t2[1] == t[2] && t2[2] == t[1] && t2[3] == t[3]);
    assert(seq!['a'][0] == 'a');
    assert(seq!['p'][0] == 'p');
    assert(t[0] != seq!['p']);
}

/// A problem line `p <kind> n m` declares `n` vertices (the third field)
/// and `m` arcs (the fourth); the kind is not read.
pub proof fn lemma_problem_line_fields(t: Seq<Seq<char>>)
    requires
        t.len() >= 4,
        t[0] == seq!['p'],
        usize_token(t[2]) is Some,
        usize_token(t[3]) is Some,
    ensures
        line_spec(t) matches Ok(r) && r.0 == 1 && r.1 == usize_token(t[2])->0 && r.2 == usize_token(t[3])->0,
        forall|k: Seq<char>| line_spec(#[trigger] t.update(1, k)) == line_spec(t),
{
    assert forall|k: Seq<char>| line_spec(#[trigger] t.update(1, k)) == line_spec(t) by {
        let t2 = t.update(1, k);
        assert(t2[0] == t[0] && t2[2] == t[2] && t2[3] == t[3]);
    }
}

/// The parsed line `l` is what `line_spec` describes.
pub open spec fn line_matches(l: DimacsLine, s: (int, int, int, Seq<char>)) -> bool {
    match l {
        DimacsLine::Problem { n, m } => s.0 == 1 && n == s.1 && m == s.2,
        DimacsLine::Arc { tail, head, weight } => s.0 == 2 && tail == s.1 && head == s.2 && weight@ == s.3,
        DimacsLine::Other => s.0 == 0,
    }
}

/// The character strings held by a list of vectors.
pub open spec fn views(r: Seq<Vec<char>>) -> Seq<Seq<char>> {
    r.map_values(|v: Vec<char>| v@)
}

/// Splits a line into its tokens.
pub fn split_tokens(line: &[char]) -> (r: Vec<Vec<char>>)
    ensures
        views(r@) == tokens(line@),
{
    let len = line.len();
    let mut r: Vec<Vec<char>> = Vec::new();
    let mut i: usize = 0;
    proof {
        assert(line@.skip(0) == line@);
        assert(views(r@) == Seq::<Seq<char>>::empty());
    }
    while i < len
        invariant
            len == line@.len(),
            i <= len,
            tokens(line@) == views(r@) + tokens(line@.skip(i as int)),
        decreases len - i,
    {
        let ghost rest = line@.skip(i as int);
        let b = line[i];
        if space(b) {
            proof {
                assert(rest[0] == b);
                assert(rest.drop_first() == line@.skip(i + 1));
            }
            i = i + 1;
        } else {
            let mut t: Vec<char> = Vec::new();
            let mut j: usize = i;
            while j < len && !space(line[j])
                invariant
                    len == line@.len(),
                    i <= j <= len,
                    t@ == line@.subrange(i as int, j as int),
                    forall|k: int| i <= k < j ==> !is_space(#[trigger] line@[k]),
                decreases len - j,
            {
                t.push(line[j]);
                j = j + 1;
            }
            proof {
                lemma_run_len(rest);
                assert(rest[0] == b);
                let q = run_len(rest) as int;
                if q < j - i {
                    assert(rest[q] == line@[i + q]);
                }
                if q > j - i {
                    assert(rest[j - i] == line@[j as int]);
                }
                assert(q == j - i);
                assert(rest.take(q) == t@);
                assert(rest.skip(q) == line@.skip(j as int));
                assert(views(r@.push(t)) == views(r@).push(t@));
                assert(tokens(rest) == seq![t@] + tokens(line@.skip(j as int)));
            }
            r.push(t);
            i = j;
        }
    }
    proof {
        assert(line@.skip(len as int) == Seq::<char>::empty());
    }
    r
}

proof fn lemma_digits_grow(t: Seq<char>, i: int)
    requires
        0 <= i <= t.len(),
        all_digits(t),
    ensures
        digits_value(t.take(i)) <= digits_value(t),
    decreases t.len() - i,
{
    if i < t.len() {
        lemma_digits_grow(t, i + 1);
        assert(t.take(i + 1).drop_last() == t.take(i));
    } else {
        assert(t.take(i) == t);
    }
}

/// Reads an unsigned decimal integer the way `str::parse::<usize>` does.
pub fn parse_usize(t: &[char]) -> (r: Option<usize>)
    ensures
        r == usize_token(t@),
{
    let len = t.len();
    let start: usize = if len > 0 && t[0] == '+' {
        1
    } else {
        0
    };
    let ghost d = if t@.len() > 0 && t@[0] == '+' {
        t@.drop_first()
    } else {
        t@
    };
    proof {
        assert(d == t@.skip(start as int));
    }
    if start == len {
        return None;
    }
    let mut v: usize = 0;
    let mut i: usize = start;
    while i < len
        invariant
            len == t@.len(),
            start <= i <= len,
            d == t@.skip(start as int),
            d == (if t@.len() > 0 && t@[0] == '+' {
                t@.drop_first()
            } else {
                t@
            }),
            d.len() > 0,
            all_digits(d.take(i - start)),
            v == digits_value(d.take(i - start)),
        decreases len - i,
    {
        let c = t[i];
        proof {
            assert(d[i - start] == c);
            assert(d.take(i - start + 1).drop_last() == d.take(i - start));
        }
        if c < '0' || c > '9' {
            return None;
        }
        let digit = (c as u32 - 48) as usize;
        if v > (usize::MAX - digit) / 10 {
            proof {
                if all_digits(d) {
                    lemma_digits_grow(d, i - start + 1);
                    assert(digits_value(d.take(i - start + 1)) == v * 10 + digit);
                    assert(v * 10 + digit > usize::MAX) by (nonlinear_arith)
                        requires
                            v > (usize::MAX - digit) / 10,
                            digit <= 9,
                    ;
                }
            }
            return None;
        }
        assert(v * 10 + digit <= usize::MAX) by (nonlinear_arith)
            requires
                v <= (usize::MAX - digit) / 10,
                digit <= 9,
        ;
        v = v * 10 + digit;
        i = i + 1;
    }
    proof {
        assert(d.take(i - start) == d);
    }
    Some(v)
}

/// Parses one line of a DIMACS file.
pub fn parse_dimacs_line(line: &[char]) -> (r: Result<DimacsLine, DimacsError>)
    ensures
        match line_spec(tokens(line@)) {
            Ok(s) => r matches Ok(l) && line_matches(l, s),
            Err(e) => r == Err::<DimacsLine, DimacsError>(e),
        },
{
    let mut t = split_tokens(line);
    let ghost tk = tokens(line@);
    proof {
        assert(t@.len() == tk.len());
        assert forall|i: int| 0 <= i < tk.len() implies #[trigger] t@[i]@ == tk[i] by {
            assert(views(t@)[i] == t@[i]@);
        }
    }
    if t.len() == 0 {
        return Ok(DimacsLine::Other);
    }
    let is_p = t[0].len() == 1 && t[0][0] == 'p';
    let is_a = t[0].len() == 1 && t[0][0] == 'a';
    proof {
        if is_p {
            assert(tk[0] =~= seq!['p']);
        } else {
            assert(tk[0] != seq!['p']) by {
                if tk[0] == seq!['p'] {
                    assert(t@[0]@[0] == 'p');
                }
            }
        }
        if is_a {
            assert(tk[0] =~= seq!['a']);
        } else {
            assert(tk[0] != seq!['a']) by {
                if tk[0] == seq!['a'] {
                    assert(t@[0]@[0] == 'a');
                }
            }
        }
    }
    if is_p {
        if t.len() < 3 {
            return Err(DimacsError::MissingField);
        }
        let n = match parse_usize(t[2].as_slice()) {
            Some(n) => n,
            None => {
                return Err(DimacsError::BadNumber);
            },
        };
        if t.len() < 4 {
            return Err(DimacsError::MissingField);
        }
        let m = match parse_usize(t[3].as_slice()) {
            Some(m) => m,
            None => {
                return Err(DimacsError::BadNumber);
            },
        };
        Ok(DimacsLine::Problem { n, m })
    } else if is_a {
        if t.len() < 2 {
            return Err(DimacsError::MissingField);
        }
        let u = match parse_usize(t[1].as_slice()) {
            Some(u) => u,
            None => {
                return Err(DimacsError::BadNumber);
            },
        };
        if u == 0 {
            return Err(DimacsError::ZeroVertex);
        }
        if t.len() < 3 {
            return Err(DimacsError::MissingField);
        }
        let v = match parse_usize(t[2].as_slice()) {
            Some(v) => v,
            None => {
                return Err(DimacsError::BadNumber);
            },
        };
        if v == 0 {
            return Err(DimacsError::ZeroVertex);
        }
        if t.len() < 4 {
            return Err(DimacsError::MissingField);
        }
        let mut weight: Vec<char> = Vec::new();
        std::mem::swap(&mut t[3], &mut weight);
        Ok(DimacsLine::Arc { tail: u - 1, head: v - 1, weight })
    } else {
        Ok(DimacsLine::Other)
    }
}

/// Builds a graph from the lines of a DIMACS file.
pub struct DimacsReader {
    /// The graph under construction, once a problem line has been read.
    pub graph: Option<Graph>,
    /// The arc count the last problem line declared.
    pub expected: usize,
}

impl DimacsReader {
    /// The graph, once there is one, is consistent.
    pub open spec fn wf(&self) -> bool {
        self.graph matches Some(g) ==> g.wf()
    }

    /// A reader that has seen no line yet.
    pub fn new() -> (r: DimacsReader)
        ensures
            r.wf(),
            r.graph is None,
            r.expected == 0,
    {
        DimacsReader { graph: None, expected: 0 }
    }

    /// A problem line: starts a fresh graph of `n` isolated vertices that
    /// should end with `m` arcs.
    pub fn problem(&mut self, n: usize, m: usize)
        ensures
            final(self).wf(),
            final(self).expected == m,
            final(self).graph matches Some(g) && g.n == n && g.m == 0 && g.heads_in_range() && forall|u: int|
                0 <= u < n ==> (#[trigger] g.adj@[u])@.len() == 0,
    {
        self.graph = Some(Graph::new(n));
        self.expected = m;
    }

    /// An arc line with 0-based endpoints and the bit pattern of its weight.
    pub fn arc(&mut self, tail: usize, head: usize, w: u64) -> (r: Result<(), DimacsError>)
        requires
            old(self).wf(),
        ensures
            final(self).wf(),
            final(self).expected == old(self).expected,
            match old(self).graph {
                None => r == Err::<(), DimacsError>(DimacsError::NoProblemLine) && final(self).graph is None,
                Some(g) => if tail >= g.n {
                    r == Err::<(), DimacsError>(DimacsError::VertexOutOfRange) && final(self).graph == old(
                        self,
                    ).graph
                } else if g.m == usize::MAX {
                    r == Err::<(), DimacsError>(DimacsError::TooManyArcs) && final(self).graph == old(
                        self,
                    ).graph
                } else {
                    &&& r is Ok
                    &&& final(self).graph matches Some(h) && h.n == g.n && h.m == g.m + 1 && h.out(
                        tail as int,
                    ) == g.out(tail as int).push((head, w)) && forall|u: int|
                        0 <= u < g.n && u != tail ==> #[trigger] h.out(u) == g.out(u)
                },
            },
    {
        match self.graph.take() {
            None => Err(DimacsError::NoProblemLine),
            Some(mut g) => {
                if tail >= g.n {
                    self.graph = Some(g);
                    return Err(DimacsError::VertexOutOfRange);
                }
                if g.m == usize::MAX {
                    self.graph = Some(g);
                    return Err(DimacsError::TooManyArcs);
                }
                let ghost g0 = g;
                g.add_edge(tail, head, w);
                proof {
                    assert forall|u: int| 0 <= u < g0.n && u != tail implies #[trigger] g.out(u) == g0.out(u) by {
                        assert(g.adj@[u] == g0.adj@[u]);
                    }
                }
                self.graph = Some(g);
                Ok(())
            },
        }
    }

    /// The graph read, its lists sorted by weight rank, once the file has
    /// ended: an error if no problem line came or the arc count differs from
    /// the declared one.
    pub fn finish(self) -> (r: Result<Graph, DimacsError>)
        requires
            self.wf(),
        ensures
            match self.graph {
                None => r == Err::<Graph, DimacsError>(DimacsError::NoProblemLine),
                Some(g) => if g.m != self.expected {
                    r == Err::<Graph, DimacsError>(DimacsError::ArcCountMismatch)
                } else {
                    r matches Ok(h) && h.wf() && h.n == g.n && h.m == g.m && forall|u: int|
                        0 <= u < g.n ==> crate::sort::sorted_by(#[trigger] h.out(u)) && h.out(
                            u,
                        ).to_multiset() == g.out(u).to_multiset()
                },
            },
    {
        match self.graph {
            None => Err(DimacsError::NoProblemLine),
            Some(mut g) => {
                if g.m != self.expected {
                    return Err(DimacsError::ArcCountMismatch);
                }
                finish(&mut g);
                Ok(g)
            },
        }
    }
}

} // verus!
