//! The `.ascii` dataset format.
//!
//! A file starts with a header line of three unsigned integers separated by
//! spaces or tabs: the dimension of each vector, the number of vectors, and
//! a third value kept as is. Each following line holds number tokens
//! separated by spaces or tabs, may end in spaces, and ends in `\n`. Lines
//! are read while they are well formed and have one token per dimension;
//! their count must then equal the declared number of vectors. What follows
//! is left unread.
//!
//! A token is a run of the bytes a decimal number is written with; the
//! positions of each token are returned so that the caller can convert it.
use vstd::prelude::*;

verus! {

/// Dimensionality of the NASA test dataset.
pub const NASA_DIMENSION: usize = 20;

/// Dimensionality of the colors test dataset.
pub const COLORS_DIMENSION: usize = 112;

/// The header of a dataset file.
#[derive(Debug, Clone, Copy, PartialEq, Eq, Structural)]
pub struct FileConfig {
    /// Dimension size for each vector.
    pub dimensions: u64,
    /// Number of vectors in the dataset.
    pub lines: u64,
    /// Third header value, kept as read.
    pub mysterious: u64,
}

/// Why a file could not be read.
#[derive(Debug, Clone, Copy, PartialEq, Eq, Structural)]
pub enum ParseError {
    /// The header line is not three unsigned integers that fit in 64 bits.
    Header,
    /// Not one line after the header is well formed with one token per dimension.
    NoLines,
    /// The number of well-formed lines differs from the header's count.
    LineCount { expected: u64, found: usize },
    /// The header's dimension differs from the one asked for.
    Dimensions { wanted: usize, declared: u64 },
}

/// A token's first position and the position just past it.
pub type Span = (usize, usize);

pub open spec fn is_digit(b: u8) -> bool {
    48 <= b <= 57
}

/// Space or tab.
pub open spec fn is_blank(b: u8) -> bool {
    b == 32 || b == 9
}

/// Digits, signs, the decimal point and exponent markers.
pub open spec fn is_number_byte(b: u8) -> bool {
    is_digit(b) || b == 43 || b == 45 || b == 46 || b == 101 || b == 69
}

pub open spec fn is_newline(b: u8) -> bool {
    b == 10
}

/// First position at or after `p` where `keep` fails (or the end).
pub open spec fn run_end(s: Seq<u8>, p: nat, keep: spec_fn(u8) -> bool) -> nat
    decreases s.len() - p,
{
    if p < s.len() && keep(s[p as int]) {
        run_end(s, p + 1, keep)
    } else {
        p
    }
}

/// Value of the decimal digits at positions `p .. e`.
pub open spec fn digits_value(s: Seq<u8>, p: nat, e: nat) -> nat
    decreases e - p,
{
    if e <= p {
        0
    } else {
        digits_value(s, p, (e - 1) as nat) * 10 + (s[e - 1] - 48) as nat
    }
}

/// An unsigned integer at `p`: its value and the position after its digits,
/// when at least one digit is there and the value fits in 64 bits.
pub open spec fn u64_at(s: Seq<u8>, p: nat) -> Option<(u64, nat)> {
    let e = run_end(s, p, |b: u8| is_digit(b));
    if e > p && digits_value(s, p, e) <= u64::MAX {
        Some((digits_value(s, p, e) as u64, e))
    } else {
        None
    }
}

/// The header: three integers, each pair separated by blanks, then a newline.
/// Gives the configuration and the position after the newline.
pub open spec fn header(s: Seq<u8>) -> Option<(FileConfig, nat)> {
    match u64_at(s, 0) {
        None => None,
        Some((dimensions, e1)) => {
            let p2 = run_end(s, e1, |b: u8| is_blank(b));
            match if p2 > e1 { u64_at(s, p2) } else { None } {
                None => None,
                Some((lines, e2)) => {
                    let p3 = run_end(s, e2, |b: u8| is_blank(b));
                    match if p3 > e2 { u64_at(s, p3) } else { None } {
                        None => None,
                        Some((mysterious, e3)) => if e3 < s.len() && is_newline(s[e3 as int]) {
                            Some((FileConfig { dimensions, lines, mysterious }, e3 + 1))
                        } else {
                            None
                        },
                    }
                },
            }
        },
    }
}

/// The rest of a line from `p`, where a token may start: the spans of its
/// tokens and the position after its newline, when it is well formed.
pub open spec fn line_from(s: Seq<u8>, p: nat) -> Option<(Seq<Span>, nat)>
    decreases s.len() - p,
{
    if p < s.len() && is_number_byte(s[p as int]) {
        let e = run_end(s, p, |b: u8| is_number_byte(b));
        let f = run_end(s, e, |b: u8| is_blank(b));
        if f > e && f < s.len() && is_number_byte(s[f as int]) && e > p {
            match line_from(s, f) {
                None => None,
                Some((toks, g)) => Some((seq![(p as usize, e as usize)] + toks, g)),
            }
        } else if f < s.len() && is_newline(s[f as int]) {
            Some((seq![(p as usize, e as usize)], f + 1))
        } else {
            None
        }
    } else {
        let f = run_end(s, p, |b: u8| is_blank(b));
        if f < s.len() && is_newline(s[f as int]) {
            Some((Seq::empty(), f + 1))
        } else {
            None
        }
    }
}

/// The well-formed lines of `dims` tokens from `p` on, read while there
/// are such lines, and the position after the last one read.
pub open spec fn lines_from(s: Seq<u8>, p: nat, dims: nat) -> (Seq<Seq<Span>>, nat)
    decreases s.len() - p,
{
    match line_from(s, p) {
        Some((toks, e)) => if toks.len() == dims && p < e <= s.len() {
            let (rest, f) = lines_from(s, e, dims);
            (seq![toks] + rest, f)
        } else {
            (Seq::empty(), p)
        },
        None => (Seq::empty(), p),
    }
}

/// What reading a file gives: the position where reading stopped, the
/// header, and the token spans of each vector.
pub open spec fn parsed(s: Seq<u8>) -> Result<(nat, FileConfig, Seq<Seq<Span>>), ParseError> {
    match header(s) {
        None => Err(ParseError::Header),
        Some((cfg, h)) => {
            let (vs, e) = lines_from(s, h, cfg.dimensions as nat);
            if vs.len() == 0 {
                Err(ParseError::NoLines)
            } else if vs.len() != cfg.lines {
                Err(ParseError::LineCount { expected: cfg.lines, found: vs.len() as usize })
            } else {
                Ok((e, cfg, vs))
            }
        },
    }
}

/// The end of a run stays within the input and past its start.
proof fn lemma_run_end(s: Seq<u8>, p: nat, keep: spec_fn(u8) -> bool)
    requires
        p <= s.len(),
    ensures
        p <= run_end(s, p, keep) <= s.len(),
        forall|i: int| p <= i < run_end(s, p, keep) ==> keep(#[trigger] s[i]),
        run_end(s, p, keep) < s.len() ==> !keep(s[run_end(s, p, keep) as int]),
    decreases s.len() - p,
{
    if p < s.len() && keep(s[p as int]) {
        lemma_run_end(s, p + 1, keep);
    }
}

/// Reading more digits never makes the value smaller.
proof fn lemma_digits_grow(s: Seq<u8>, p: nat, m: nat, e: nat)
    requires
        p <= m <= e <= s.len(),
        forall|i: int| p <= i < e ==> is_digit(#[trigger] s[i]),
    ensures
        digits_value(s, p, m) <= digits_value(s, p, e),
    decreases e - m,
{
    if m < e {
        lemma_digits_grow(s, p, m, (e - 1) as nat);
    }
}

/// First position at or after `p` where `s` is not a blank.
fn skip_blanks(s: &[u8], p: usize) -> (r: usize)
    requires
        p <= s@.len(),
    ensures
        r == run_end(s@, p as nat, |b: u8| is_blank(b)),
{
    proof {
        lemma_run_end(s@, p as nat, |b: u8| is_blank(b));
    }
    let mut i = p;
    while i < s.len() && (s[i] == 32 || s[i] == 9)
        invariant
            p <= i <= s@.len(),
            run_end(s@, i as nat, |b: u8| is_blank(b)) == run_end(s@, p as nat, |b: u8| is_blank(b)),
        decreases s@.len() - i,
    {
        i = i + 1;
    }
    i
}

/// First position at or after `p` where `s` is not a number byte.
fn skip_number(s: &[u8], p: usize) -> (r: usize)
    requires
        p <= s@.len(),
    ensures
        r == run_end(s@, p as nat, |b: u8| is_number_byte(b)),
{
    let mut i = p;
    while i < s.len() && is_number_byte_exec(s[i])
        invariant
            p <= i <= s@.len(),
            run_end(s@, i as nat, |b: u8| is_number_byte(b)) == run_end(s@, p as nat, |b: u8| is_number_byte(b)),
        decreases s@.len() - i,
    {
        i = i + 1;
    }
    i
}

fn is_number_byte_exec(b: u8) -> (r: bool)
    ensures
        r == is_number_byte(b),
{
    (48 <= b && b <= 57) || b == 43 || b == 45 || b == 46 || b == 101 || b == 69
}

/// Reads an unsigned integer at `p`.
pub fn parse_u64(s: &[u8], p: usize) -> (r: Option<(u64, usize)>)
    requires
        p <= s@.len(),
    ensures
        r matches Some((v, e)) ==> u64_at(s@, p as nat) == Some((v, e as nat)),
        r is None ==> u64_at(s@, p as nat) is None,
{
    let ghost end = run_end(s@, p as nat, |b: u8| is_digit(b));
    proof {
        lemma_run_end(s@, p as nat, |b: u8| is_digit(b));
    }
    let mut i = p;
    let mut v: u64 = 0;
    while i < s.len() && 48 <= s[i] && s[i] <= 57
        invariant
            p <= i <= end <= s@.len(),
            end == run_end(s@, p as nat, |b: u8| is_digit(b)),
            forall|k: int| p <= k < end ==> is_digit(#[trigger] s@[k]),
            run_end(s@, i as nat, |b: u8| is_digit(b)) == end,
            v == digits_value(s@, p as nat, i as nat),
        decreases s@.len() - i,
    {
        let d = (s[i] - 48) as u64;
        proof {
            lemma_run_end(s@, (i + 1) as nat, |b: u8| is_digit(b));
        }
        if v > (u64::MAX - d) / 10 {
            proof {
                assert(digits_value(s@, p as nat, (i + 1) as nat) == v * 10 + d);
                assert(v * 10 + d > u64::MAX) by (nonlinear_arith)
                    requires
                        v > (u64::MAX - d) / 10,
                        d <= 9,
                ;
                lemma_digits_grow(s@, p as nat, (i + 1) as nat, end);
            }
            return None;
        }
        proof {
            assert(v * 10 + d <= u64::MAX) by (nonlinear_arith)
                requires
                    v <= (u64::MAX - d) / 10,
                    d <= 9,
            ;
        }
        v = v * 10 + d;
        i = i + 1;
    }
    if i == p {
        None
    } else {
        Some((v, i))
    }
}

/// Reads the header line.
pub fn parse_config(s: &[u8]) -> (r: Option<(FileConfig, usize)>)
    ensures
        r matches Some((c, e)) ==> header(s@) == Some((c, e as nat)),
        r is None ==> header(s@) is None,
{
    let (dimensions, e1) = match parse_u64(s, 0) {
        Some(x) => x,
        None => return None,
    };
    proof {
        lemma_run_end(s@, 0, |b: u8| is_digit(b));
    }
    let p2 = skip_blanks(s, e1);
    proof {
        lemma_run_end(s@, e1 as nat, |b: u8| is_blank(b));
    }
    if p2 == e1 {
        return None;
    }
    let (lines, e2) = match parse_u64(s, p2) {
        Some(x) => x,
        None => return None,
    };
    proof {
        lemma_run_end(s@, p2 as nat, |b: u8| is_digit(b));
    }
    let p3 = skip_blanks(s, e2);
    proof {
        lemma_run_end(s@, e2 as nat, |b: u8| is_blank(b));
    }
    if p3 == e2 {
        return None;
    }
    let (mysterious, e3) = match parse_u64(s, p3) {
        Some(x) => x,
        None => return None,
    };
    proof {
        lemma_run_end(s@, p3 as nat, |b: u8| is_digit(b));
    }
    if e3 < s.len() && s[e3] == 10 {
        Some((FileConfig { dimensions, lines, mysterious }, e3 + 1))
    } else {
        None
    }
}

/// Reads one line from `p`: the spans of its tokens and the position after
/// its newline.
pub fn parse_line(s: &[u8], p: usize) -> (r: Option<(Vec<Span>, usize)>)
    requires
        p <= s@.len(),
    ensures
        r matches Some((t, e)) ==> line_from(s@, p as nat) == Some((t@, e as nat)),
        r is None ==> line_from(s@, p as nat) is None,
{
    let mut toks: Vec<Span> = Vec::new();
    let mut q = p;
    while q < s.len() && is_number_byte_exec(s[q])
        invariant
            p <= q <= s@.len(),
            q == p || (q < s@.len() && is_number_byte(s@[q as int])),
            line_from(s@, p as nat) == match line_from(s@, q as nat) {
                None => None,
                Some((rest, g)) => Some((toks@ + rest, g)),
            },
        decreases s@.len() - q,
    {
        let e = skip_number(s, q);
        proof {
            lemma_run_end(s@, q as nat, |b: u8| is_number_byte(b));
        }
        let f = skip_blanks(s, e);
        proof {
            lemma_run_end(s@, e as nat, |b: u8| is_blank(b));
        }
        if f > e && f < s.len() && is_number_byte_exec(s[f]) && e > q {
            let ghost old_toks = toks@;
            toks.push((q, e));
            proof {
                assert(toks@ == old_toks + seq![(q, e)]);
                match line_from(s@, f as nat) {
                    None => {},
                    Some((rest, g)) => {
                        assert(old_toks + (seq![(q, e)] + rest) == toks@ + rest);
                    },
                }
            }
            q = f;
        } else if f < s.len() && s[f] == 10 {
            toks.push((q, e));
            return Some((toks, f + 1));
        } else {
            return None;
        }
    }
    let f = skip_blanks(s, q);
    proof {
        lemma_run_end(s@, q as nat, |b: u8| is_blank(b));
    }
    if f < s.len() && s[f] == 10 {
        proof {
            assert(toks@ + Seq::<Span>::empty() == toks@);
        }
        Some((toks, f + 1))
    } else {
        None
    }
}

/// Reads the well-formed lines of `dims` tokens from `p` on, while there
/// are such lines.
fn parse_lines(s: &[u8], p: usize, dims: u64) -> (r: (Vec<Vec<Span>>, usize))
    requires
        p <= s@.len(),
    ensures
        lines_from(s@, p as nat, dims as nat) == (r.0@.map_values(|v: Vec<Span>| v@), r.1 as nat),
{
    let mut out: Vec<Vec<Span>> = Vec::new();
    let mut q = p;
    loop
        invariant
            p <= q <= s@.len(),
            lines_from(s@, p as nat, dims as nat) == {
                let (rest, f) = lines_from(s@, q as nat, dims as nat);
                (out@.map_values(|v: Vec<Span>| v@) + rest, f)
            },
        decreases s@.len() - q,
    {
        let ghost before = out@.map_values(|v: Vec<Span>| v@);
        match parse_line(s, q) {
            Some((toks, e)) => {
                if toks.len() as u64 == dims && q < e && e <= s.len() {
                    let ghost t = toks@;
                    out.push(toks);
                    proof {
                        assert(out@.map_values(|v: Vec<Span>| v@) == before.push(t));
                        let (rest, f) = lines_from(s@, e as nat, dims as nat);
                        assert(before + (seq![t] + rest) == before.push(t) + rest);
                    }
                    q = e;
                } else {
                    proof {
                        assert(before + Seq::<Seq<Span>>::empty() == before);
                    }
                    return (out, q);
                }
            },
            None => {
                proof {
                    assert(before + Seq::<Seq<Span>>::empty() == before);
                }
                return (out, q);
            },
        }
    }
}

/// Reads a dataset file: the position where reading stopped, the header,
/// and for each vector the spans of its tokens.
pub fn parse(s: &[u8]) -> (r: Result<(usize, (FileConfig, Vec<Vec<Span>>)), ParseError>)
    ensures
        match (r, parsed(s@)) {
            (Ok((e, (c, vs))), Ok((e2, c2, vs2))) => e == e2 && c == c2 && vs@.map_values(
                |v: Vec<Span>| v@,
            ) == vs2,
            (Err(x), Err(y)) => x == y,
            _ => false,
        },
{
    let (cfg, h) = match parse_config(s) {
        Some(x) => x,
        None => return Err(ParseError::Header),
    };
    proof {
        lemma_header_end(s@);
    }
    let (vs, e) = parse_lines(s, h, cfg.dimensions);
    if vs.len() == 0 {
        Err(ParseError::NoLines)
    } else if vs.len() as u64 != cfg.lines {
        Err(ParseError::LineCount { expected: cfg.lines, found: vs.len() })
    } else {
        Ok((e, (cfg, vs)))
    }
}

/// Reads a dataset file whose vectors have `N` dimensions; a header that
/// declares another dimension is refused.
pub fn parse_array<const N: usize>(s: &[u8]) -> (r: Result<(usize, (FileConfig, Vec<Vec<Span>>)), ParseError>)
    ensures
        match header(s@) {
            Some((c, _)) => if c.dimensions != N as u64 {
                r == Err::<(usize, (FileConfig, Vec<Vec<Span>>)), ParseError>(
                    ParseError::Dimensions { wanted: N, declared: c.dimensions },
                )
            } else {
                match (r, parsed(s@)) {
                    (Ok((e, (c, vs))), Ok((e2, c2, vs2))) => e == e2 && c == c2 && vs@.map_values(
                        |v: Vec<Span>| v@,
                    ) == vs2 && forall|j: int| 0 <= j < vs@.len() ==> (#[trigger] vs@[j])@.len() == N,
                    (Err(x), Err(y)) => x == y,
                    _ => false,
                }
            },
            None => r == Err::<(usize, (FileConfig, Vec<Vec<Span>>)), ParseError>(ParseError::Header),
        },
{
    match parse_config(s) {
        Some((c, _)) => {
            if c.dimensions != N as u64 {
                return Err(ParseError::Dimensions { wanted: N, declared: c.dimensions });
            }
        },
        None => return Err(ParseError::Header),
    }
    let r = parse(s);
    proof {
        if r is Ok {
            let c = r->Ok_0.1.0;
            let vs = r->Ok_0.1.1;
            let h = header(s@).unwrap().1;
            lemma_lines_have_dims(s@, h, c.dimensions as nat);
            assert forall|j: int| 0 <= j < vs@.len() implies (#[trigger] vs@[j])@.len() == N by {
                assert(vs@.map_values(|v: Vec<Span>| v@)[j] == vs@[j]@);
            }
        }
    }
    r
}

/// The header ends within the input.
proof fn lemma_header_end(s: Seq<u8>)
    ensures
        header(s) matches Some((_, e)) ==> e <= s.len(),
{
}

/// Every line read has the asked number of tokens.
proof fn lemma_lines_have_dims(s: Seq<u8>, p: nat, dims: nat)
    ensures
        forall|j: int| 0 <= j < lines_from(s, p, dims).0.len() ==> (#[trigger] lines_from(s, p, dims).0[j]).len() == dims,
    decreases s.len() - p,
{
    match line_from(s, p) {
        Some((toks, e)) => if toks.len() == dims && p < e <= s.len() {
            lemma_lines_have_dims(s, e, dims);
            let (rest, f) = lines_from(s, e, dims);
            assert forall|j: int| 0 <= j < lines_from(s, p, dims).0.len() implies (#[trigger] lines_from(s, p, dims).0[j]).len() == dims by {
                if j > 0 {
                    assert(lines_from(s, p, dims).0[j] == rest[j - 1]);
                }
            }
        },
        None => {},
    }
}

} // verus!
