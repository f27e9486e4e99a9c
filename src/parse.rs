//! The text form of a network: a header line `n m`, then one line `from to`
//! for each street. Numbers are decimal; spaces, tabs and carriage returns
//! separate them.
use vstd::prelude::*;
use crate::graph::{street_in_lists, street_lists, streets_in_range, GraphError, Network};

verus! {

/// Why a text does not describe a network.
#[derive(Debug, Clone, Copy, PartialEq, Eq)]
pub enum InputError {
    /// The text holds no line.
    MissingHeader,
    /// The line at this index (the header is line 0) is not two decimal
    /// numbers that fit a `usize`.
    MalformedLine(usize),
    /// The street on the line at this index names a crossing outside `0..n`.
    CrossingOutOfRange(usize),
}

/// Bytes that separate numbers on a line.
pub open spec fn is_space(b: u8) -> bool {
    b == 32 || b == 9 || b == 11 || b == 12 || b == 13
}

pub open spec fn is_digit(b: u8) -> bool {
    48 <= b <= 57
}

/// The pieces of `s` between newline bytes; there is always at least one.
pub open spec fn pieces(s: Seq<u8>) -> Seq<Seq<u8>>
    decreases s.len(),
{
    if s.len() == 0 {
        seq![Seq::empty()]
    } else {
        let p = pieces(s.drop_last());
        if s.last() == 10 {
            p.push(Seq::empty())
        } else {
            p.update(p.len() - 1, p.last().push(s.last()))
        }
    }
}

/// The lines of `s`: its pieces, but for the empty one after a final newline.
pub open spec fn lines(s: Seq<u8>) -> Seq<Seq<u8>> {
    let p = pieces(s);
    if p.last().len() == 0 {
        p.drop_last()
    } else {
        p
    }
}

/// The tokens of `s`: its maximal runs of bytes that are not spaces.
pub open spec fn tokens(s: Seq<u8>) -> Seq<Seq<u8>>
    decreases s.len(),
{
    if s.len() == 0 {
        Seq::empty()
    } else {
        let t = tokens(s.drop_last());
        let c = s.last();
        if is_space(c) {
            t
        } else if s.len() >= 2 && !is_space(s[s.len() - 2]) {
            t.update(t.len() - 1, t.last().push(c))
        } else {
            t.push(seq![c])
        }
    }
}

/// The number that the decimal digits `s` write.
pub open spec fn decimal(s: Seq<u8>) -> nat
    decreases s.len(),
{
    if s.len() == 0 {
        0
    } else {
        decimal(s.drop_last()) * 10 + (s.last() - 48) as nat
    }
}

/// `s` is a decimal number that fits a `usize`.
pub open spec fn is_number(s: Seq<u8>) -> bool {
    &&& s.len() > 0
    &&& forall|i: int| 0 <= i < s.len() ==> is_digit(#[trigger] s[i])
    &&& decimal(s) <= usize::MAX
}

/// The two numbers of a line, if it holds exactly two.
pub open spec fn line_pair(line: Seq<u8>) -> Option<(usize, usize)> {
    let t = tokens(line);
    if t.len() == 2 && is_number(t[0]) && is_number(t[1]) {
        Some((decimal(t[0]) as usize, decimal(t[1]) as usize))
    } else {
        None
    }
}

/// Line `i` is the first line that is not two numbers.
pub open spec fn first_bad_line(ls: Seq<Seq<u8>>, i: int) -> bool {
    &&& 0 <= i < ls.len()
    &&& line_pair(ls[i]) is None
    &&& forall|j: int| 0 <= j < i ==> #[trigger] line_pair(ls[j]) is Some
}

/// What the text `s` describes: the number of crossings and the streets.
pub open spec fn parsed(s: Seq<u8>) -> Result<(usize, Seq<(usize, usize)>), InputError> {
    let ls = lines(s);
    if ls.len() == 0 {
        Err(InputError::MissingHeader)
    } else if exists|i: int| first_bad_line(ls, i) {
        Err(InputError::MalformedLine((choose|i: int| first_bad_line(ls, i)) as usize))
    } else {
        Ok(((line_pair(ls[0])->0).0, Seq::new((ls.len() - 1) as nat, |i: int| line_pair(ls[i + 1])->0)))
    }
}

proof fn lemma_decimal_grows(s: Seq<u8>, i: int)
    requires
        0 <= i <= s.len(),
        forall|j: int| 0 <= j < s.len() ==> is_digit(#[trigger] s[j]),
    ensures
        decimal(s.take(i)) <= decimal(s),
    decreases s.len() - i,
{
    if i < s.len() {
        lemma_decimal_grows(s, i + 1);
        assert(s.take(i + 1).drop_last() =~= s.take(i));
    } else {
        assert(s.take(i) =~= s);
    }
}

/// The decimal number that `tok` writes, if it is one that fits a `usize`.
pub fn parse_number(tok: &Vec<u8>) -> (r: Option<usize>)
    ensures
        r == if is_number(tok@) {
            Some(decimal(tok@) as usize)
        } else {
            None::<usize>
        },
{
    if tok.len() == 0 {
        return None;
    }
    let mut i: usize = 0;
    while i < tok.len()
        invariant
            i <= tok.len(),
            forall|j: int| 0 <= j < i ==> is_digit(#[trigger] tok@[j]),
        decreases tok.len() - i,
    {
        if tok[i] < 48 || tok[i] > 57 {
            return None;
        }
        i += 1;
    }
    let mut val: usize = 0;
    let mut i: usize = 0;
    while i < tok.len()
        invariant
            i <= tok.len(),
            forall|j: int| 0 <= j < tok.len() ==> is_digit(#[trigger] tok@[j]),
            val == decimal(tok@.take(i as int)),
        decreases tok.len() - i,
    {
        let d = (tok[i] - 48) as usize;
        assert(tok@.take(i as int + 1).drop_last() =~= tok@.take(i as int));
        if val > (usize::MAX - d) / 10 {
            proof {
                lemma_decimal_grows(tok@, i as int + 1);
            }
            return None;
        }
        val = val * 10 + d;
        i += 1;
    }
    assert(tok@.take(i as int) =~= tok@);
    Some(val)
}

/// The tokens of `line`.
fn split_tokens(line: &Vec<u8>) -> (toks: Vec<Vec<u8>>)
    ensures
        toks@.map_values(|t: Vec<u8>| t@) == tokens(line@),
{
    let mut toks: Vec<Vec<u8>> = Vec::new();
    let mut i: usize = 0;
    while i < line.len()
        invariant
            i <= line.len(),
            toks@.map_values(|t: Vec<u8>| t@) == tokens(line@.take(i as int)),
            i > 0 && !is_space(line@[i - 1]) ==> toks.len() > 0,
        decreases line.len() - i,
    {
        let c = line[i];
        let ghost pre = line@.take(i as int);
        assert(line@.take(i as int + 1).drop_last() =~= pre);
        assert(line@.take(i as int + 1).last() == c);
        let space = c == 32 || c == 9 || c == 11 || c == 12 || c == 13;
        if !space {
            if i > 0 && !(line[i - 1] == 32 || line[i - 1] == 9 || line[i - 1] == 11 || line[i - 1] == 12
                || line[i - 1] == 13) {
                assert(line@.take(i as int + 1)[i - 1] == line@[i - 1]);
                let last = toks.len() - 1;
                let mut t = toks.pop().unwrap();
                t.push(c);
                toks.push(t);
                assert(toks@.map_values(|t: Vec<u8>| t@) =~= tokens(pre).update(last as int, tokens(pre)[last as int].push(c)));
            } else {
                if i > 0 {
                    assert(line@.take(i as int + 1)[i - 1] == line@[i - 1]);
                }
                let mut t: Vec<u8> = Vec::new();
                t.push(c);
                toks.push(t);
                assert(t@ =~= seq![c]);
                assert(toks@.map_values(|t: Vec<u8>| t@) =~= tokens(pre).push(seq![c]));
            }
        }
        i += 1;
    }
    assert(line@.take(i as int) =~= line@);
    toks
}

/// The two numbers of `line`, if it holds exactly two.
pub fn parse_line(line: &Vec<u8>) -> (r: Option<(usize, usize)>)
    ensures
        r == line_pair(line@),
{
    let toks = split_tokens(line);
    if toks.len() != 2 {
        return None;
    }
    assert(toks[0]@ == tokens(line@)[0]);
    assert(toks[1]@ == tokens(line@)[1]);
    let a = parse_number(&toks[0]);
    let b = parse_number(&toks[1]);
    match (a, b) {
        (Some(x), Some(y)) => Some((x, y)),
        _ => None,
    }
}

/// The lines of `s`.
pub fn split_lines(s: &Vec<u8>) -> (ls: Vec<Vec<u8>>)
    ensures
        ls@.map_values(|l: Vec<u8>| l@) == lines(s@),
{
    let mut ps: Vec<Vec<u8>> = Vec::new();
    ps.push(Vec::new());
    assert(ps@.map_values(|l: Vec<u8>| l@) =~= pieces(s@.take(0)));
    let mut i: usize = 0;
    while i < s.len()
        invariant
            i <= s.len(),
            ps.len() > 0,
            ps@.map_values(|l: Vec<u8>| l@) == pieces(s@.take(i as int)),
        decreases s.len() - i,
    {
        let c = s[i];
        let ghost pre = s@.take(i as int);
        assert(s@.take(i as int + 1).drop_last() =~= pre);
        assert(s@.take(i as int + 1).last() == c);
        if c == 10 {
            ps.push(Vec::new());
            assert(ps@.map_values(|l: Vec<u8>| l@) =~= pieces(pre).push(Seq::empty()));
        } else {
            let last = ps.len() - 1;
            let mut l = ps.pop().unwrap();
            l.push(c);
            ps.push(l);
            assert(ps@.map_values(|l: Vec<u8>| l@) =~= pieces(pre).update(last as int, pieces(pre)[last as int].push(c)));
        }
        i += 1;
    }
    assert(s@.take(i as int) =~= s@);
    let last = ps.len() - 1;
    assert(ps[last as int]@ == pieces(s@).last());
    if ps[last].len() == 0 {
        ps.pop();
        assert(ps@.map_values(|l: Vec<u8>| l@) =~= pieces(s@).drop_last());
    }
    ps
}

proof fn lemma_first_bad_unique(ls: Seq<Seq<u8>>, i: int, j: int)
    requires
        first_bad_line(ls, i),
        first_bad_line(ls, j),
    ensures
        i == j,
{
    if i < j {
        assert(line_pair(ls[i]) is Some);
    }
    if j < i {
        assert(line_pair(ls[j]) is Some);
    }
}

/// The number of crossings and the streets that the text `s` describes.
pub fn parse_input(s: &Vec<u8>) -> (r: Result<(usize, Vec<(usize, usize)>), InputError>)
    ensures
        match r {
            Ok((n, streets)) => parsed(s@) == Ok::<(usize, Seq<(usize, usize)>), InputError>((n, streets@)),
            Err(e) => parsed(s@) == Err::<(usize, Seq<(usize, usize)>), InputError>(e),
        },
{
    let ls = split_lines(s);
    let ghost lv = lines(s@);
    assert(ls.len() == lv.len());
    if ls.len() == 0 {
        return Err(InputError::MissingHeader);
    }
    let mut n: usize = 0;
    let mut streets: Vec<(usize, usize)> = Vec::new();
    let mut i: usize = 0;
    while i < ls.len()
        invariant
            ls@.map_values(|l: Vec<u8>| l@) == lv,
            lv == lines(s@),
            ls.len() > 0,
            i <= ls.len(),
            forall|j: int| 0 <= j < i ==> #[trigger] line_pair(lv[j]) is Some,
            i > 0 ==> n == (line_pair(lv[0])->0).0,
            streets@ =~= Seq::new(if i > 0 { (i - 1) as nat } else { 0 }, |j: int| line_pair(lv[j + 1])->0),
        decreases ls.len() - i,
    {
        assert(ls[i as int]@ == lv[i as int]);
        match parse_line(&ls[i]) {
            None => {
                assert(first_bad_line(lv, i as int));
                proof {
                    let k = choose|k: int| first_bad_line(lv, k);
                    lemma_first_bad_unique(lv, i as int, k);
                }
                return Err(InputError::MalformedLine(i));
            },
            Some((a, b)) => {
                if i == 0 {
                    n = a;
                } else {
                    streets.push((a, b));
                }
            },
        }
        i += 1;
    }
    Ok((n, streets))
}

impl Network {
    /// The network that the text `s` describes.
    pub fn from_reader(s: &Vec<u8>) -> (r: Result<Network, InputError>)
        ensures
            match r {
                Ok(g) => parsed(s@) is Ok && {
                    let (n, streets) = parsed(s@)->Ok_0;
                    streets_in_range(n as nat, streets) && g.wf() && g.n() == n && g.outs() == street_lists(
                        n as nat,
                        streets,
                    ) && g.ins() == street_in_lists(n as nat, streets)
                },
                Err(InputError::CrossingOutOfRange(line)) => parsed(s@) is Ok && {
                    let (n, streets) = parsed(s@)->Ok_0;
                    1 <= line <= streets.len() && !(streets[line - 1].0 < n && streets[line - 1].1 < n)
                        && streets_in_range(n as nat, streets.take(line - 1))
                },
                Err(e) => parsed(s@) == Err::<(usize, Seq<(usize, usize)>), InputError>(e),
            },
    {
        let (n, streets) = parse_input(s)?;
        match Network::from_streets(n, &streets) {
            Ok(g) => Ok(g),
            Err(GraphError::CrossingOutOfRange(i)) => Err(InputError::CrossingOutOfRange(i + 1)),
        }
    }

}

} // verus!
