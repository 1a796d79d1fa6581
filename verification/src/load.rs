//! Reading a graph from the plain-text edge-list format, one line at a time.
//!
//! The first line that is neither blank nor a comment (first token starting
//! with `#`) gives the vertex count; every later such line gives an edge
//! `u v [weight]` with zero-based vertex indices.
use vstd::prelude::*;
use crate::graph::{Graph, GraphError};

verus! {

/// `char::is_whitespace`: the characters with the Unicode `White_Space`
/// property.
pub open spec fn is_ws(c: char) -> bool {
    ||| ('\u{9}' <= c && c <= '\u{d}')
    ||| c == ' '
    ||| c == '\u{85}'
    ||| c == '\u{a0}'
    ||| c == '\u{1680}'
    ||| ('\u{2000}' <= c && c <= '\u{200a}')
    ||| c == '\u{2028}'
    ||| c == '\u{2029}'
    ||| c == '\u{202f}'
    ||| c == '\u{205f}'
    ||| c == '\u{3000}'
}

fn is_whitespace(c: char) -> (b: bool)
    ensures
        b == is_ws(c),
{
    ('\u{9}' <= c && c <= '\u{d}') || c == ' ' || c == '\u{85}' || c == '\u{a0}' || c == '\u{1680}' || (
    '\u{2000}' <= c && c <= '\u{200a}') || c == '\u{2028}' || c == '\u{2029}' || c == '\u{202f}' || c
        == '\u{205f}' || c == '\u{3000}'
}

/// Scanning `s` from the left: the whitespace-separated tokens completed so
/// far, and the token being read.
pub open spec fn scan_tokens(s: Seq<char>) -> (Seq<Seq<char>>, Seq<char>)
    decreases s.len(),
{
    if s.len() == 0 {
        (Seq::empty(), Seq::empty())
    } else {
        let prev = scan_tokens(s.drop_last());
        let c = s.last();
        if is_ws(c) {
            if prev.1.len() > 0 {
                (prev.0.push(prev.1), Seq::empty())
            } else {
                (prev.0, Seq::empty())
            }
        } else {
            (prev.0, prev.1.push(c))
        }
    }
}

/// The maximal runs of non-whitespace characters of `s`, left to right
/// (what `str::split_whitespace` yields).
pub open spec fn ws_tokens(s: Seq<char>) -> Seq<Seq<char>> {
    let st = scan_tokens(s);
    if st.1.len() > 0 {
        st.0.push(st.1)
    } else {
        st.0
    }
}

fn chars_of(line: &str) -> (v: Vec<char>)
    ensures
        v@ == line@,
{
    let mut v: Vec<char> = Vec::new();
    for c in it: line.chars()
        invariant
            it.seq() == line@,
            v@ == it.seq().take(it.index() as int),
    {
        v.push(c);
    }
    v
}

/// The tokens of `s` as character ranges `[start, end)`.
fn token_spans(s: &Vec<char>) -> (spans: Vec<(usize, usize)>)
    ensures
        spans@.len() == ws_tokens(s@).len(),
        forall|k: int|
            0 <= k < spans@.len() ==> {
                &&& (#[trigger] spans@[k]).0 < spans@[k].1 <= s@.len()
                &&& s@.subrange(spans@[k].0 as int, spans@[k].1 as int) == ws_tokens(s@)[k]
            },
{
    let mut spans: Vec<(usize, usize)> = Vec::new();
    let mut cur: Option<usize> = None;
    let mut i: usize = 0;
    while i < s.len()
        invariant
            i <= s@.len(),
            spans@.len() == scan_tokens(s@.take(i as int)).0.len(),
            forall|k: int|
                0 <= k < spans@.len() ==> {
                    &&& (#[trigger] spans@[k]).0 < spans@[k].1 <= i
                    &&& s@.subrange(spans@[k].0 as int, spans@[k].1 as int) == scan_tokens(s@.take(i as int)).0[k]
                },
            cur is None ==> scan_tokens(s@.take(i as int)).1.len() == 0,
            cur matches Some(st) ==> st < i && s@.subrange(st as int, i as int) == scan_tokens(s@.take(i as int)).1,
        decreases s@.len() - i,
    {
        let c = s[i];
        proof {
            assert(s@.take(i + 1).drop_last() =~= s@.take(i as int));
            assert(s@.take(i + 1).last() == c);
        }
        let ghost sp0 = spans@;
        if is_whitespace(c) {
            if let Some(st) = cur {
                spans.push((st, i));
                cur = None;
            }
        } else {
            if cur.is_none() {
                cur = Some(i);
            }
        }
        proof {
            let st1 = scan_tokens(s@.take(i + 1));
            let st0 = scan_tokens(s@.take(i as int));
            assert forall|k: int| 0 <= k < spans@.len() implies {
                &&& (#[trigger] spans@[k]).0 < spans@[k].1 <= i + 1
                &&& s@.subrange(spans@[k].0 as int, spans@[k].1 as int) == st1.0[k]
            } by {
                if k < sp0.len() {
                    assert(spans@[k] == sp0[k]);
                }
            }
            if let Some(st) = cur {
                assert(s@.subrange(st as int, i + 1) =~= s@.subrange(st as int, i as int).push(c));
                assert(s@.subrange(st as int, i + 1) =~= st1.1);
            }
        }
        i += 1;
    }
    proof {
        assert(s@.take(i as int) =~= s@);
    }
    if let Some(st) = cur {
        spans.push((st, i));
    }
    spans
}

pub open spec fn is_digit(c: char) -> bool {
    '0' <= c && c <= '9'
}

pub open spec fn all_digits(d: Seq<char>) -> bool {
    forall|i: int| 0 <= i < d.len() ==> is_digit(#[trigger] d[i])
}

/// `s` without a leading `+`.
pub open spec fn unsigned_digits(s: Seq<char>) -> Seq<char> {
    if s.len() > 0 && s[0] == '+' {
        s.drop_first()
    } else {
        s
    }
}

/// The number written in decimal by the digits `d`.
pub open spec fn decimal_value(d: Seq<char>) -> nat
    decreases d.len(),
{
    if d.len() == 0 {
        0
    } else {
        decimal_value(d.drop_last()) * 10 + ((d.last() as nat) - ('0' as nat)) as nat
    }
}

/// `usize::from_str`: an optional `+` followed by one or more ASCII digits,
/// whose value fits in `usize`.
pub open spec fn parse_usize(s: Seq<char>) -> Option<usize> {
    let d = unsigned_digits(s);
    if d.len() == 0 || !all_digits(d) || decimal_value(d) > usize::MAX {
        None
    } else {
        Some(decimal_value(d) as usize)
    }
}

proof fn lemma_decimal_prefix(d: Seq<char>, k: int)
    requires
        0 <= k <= d.len(),
        all_digits(d),
    ensures
        decimal_value(d.take(k)) <= decimal_value(d),
    decreases d.len() - k,
{
    if k < d.len() {
        lemma_decimal_prefix(d, k + 1);
        assert(d.take(k + 1).drop_last() =~= d.take(k));
        assert(is_digit(d[k]));
    } else {
        assert(d.take(k) =~= d);
    }
}

/// Parses the characters `s[start..end]` as `usize::from_str` does.
fn parse_usize_span(s: &Vec<char>, start: usize, end: usize) -> (r: Option<usize>)
    requires
        start <= end <= s@.len(),
    ensures
        r == parse_usize(s@.subrange(start as int, end as int)),
{
    let ghost t = s@.subrange(start as int, end as int);
    let mut i = start;
    if i < end && s[i] == '+' {
        i = i + 1;
    }
    let ghost d = s@.subrange(i as int, end as int);
    proof {
        if t.len() > 0 && t[0] == '+' {
            assert(d =~= t.drop_first());
        } else {
            assert(d =~= t);
        }
    }
    if i == end {
        return None;
    }
    let first = i;
    let mut value: usize = 0;
    while i < end
        invariant
            start <= first <= i <= end <= s@.len(),
            d == s@.subrange(first as int, end as int),
            t == s@.subrange(start as int, end as int),
            d == unsigned_digits(t),
            d.len() > 0,
            forall|j: int| 0 <= j < i - first ==> is_digit(#[trigger] d[j]),
            value == decimal_value(d.take(i - first)),
        decreases end - i,
    {
        let c = s[i];
        assert(d[i - first] == c);
        if !('0' <= c && c <= '9') {
            assert(!is_digit(d[i - first]));
            assert(!all_digits(d));
            return None;
        }
        let digit = (c as u32 - '0' as u32) as usize;
        proof {
            assert(d.take(i - first + 1).drop_last() =~= d.take(i - first));
        }
        let next = match value.checked_mul(10) {
            Some(m) => m.checked_add(digit),
            None => None,
        };
        match next {
            Some(x) => {
                value = x;
            },
            None => {
                proof {
                    let k = i - first + 1;
                    assert(d.take(k).last() == c);
                    assert(value * 10 + digit > usize::MAX);
                    assert(decimal_value(d.take(k)) == value * 10 + digit);
                    if all_digits(d) {
                        lemma_decimal_prefix(d, k);
                    }
                }
                return None;
            },
        }
        i += 1;
    }
    proof {
        assert(d.take(i - first) =~= d);
    }
    Some(value)
}

/// `d` as a decimal digit character.
pub open spec fn digit_char(d: nat) -> char {
    (('0' as nat) + d) as char
}

/// The decimal representation of `n`, without leading zeros.
pub open spec fn decimal(n: nat) -> Seq<char>
    decreases n,
{
    if n < 10 {
        seq![digit_char(n)]
    } else {
        decimal(n / 10) + seq![digit_char(n % 10)]
    }
}

/// The digit `d` as a one-character string.
fn digit_str(d: usize) -> (s: &'static str)
    requires
        d < 10,
    ensures
        s@ == seq![digit_char(d as nat)],
{
    if d == 0 {
        proof {
            reveal_strlit("0");
        }
        "0"
    } else if d == 1 {
        proof {
            reveal_strlit("1");
        }
        "1"
    } else if d == 2 {
        proof {
            reveal_strlit("2");
        }
        "2"
    } else if d == 3 {
        proof {
            reveal_strlit("3");
        }
        "3"
    } else if d == 4 {
        proof {
            reveal_strlit("4");
        }
        "4"
    } else if d == 5 {
        proof {
            reveal_strlit("5");
        }
        "5"
    } else if d == 6 {
        proof {
            reveal_strlit("6");
        }
        "6"
    } else if d == 7 {
        proof {
            reveal_strlit("7");
        }
        "7"
    } else if d == 8 {
        proof {
            reveal_strlit("8");
        }
        "8"
    } else {
        proof {
            reveal_strlit("9");
        }
        "9"
    }
}

/// `n` written in decimal, without leading zeros.
fn decimal_string(n: usize) -> (s: String)
    ensures
        s@ == decimal(n as nat),
    decreases n,
{
    if n < 10 {
        String::from_str(digit_str(n))
    } else {
        let mut s = decimal_string(n / 10);
        s.append(digit_str(n % 10));
        s
    }
}

/// `res` is the parse error with message `msg`.
pub open spec fn is_parse_error<T>(res: Result<T, GraphError>, msg: Seq<char>) -> bool {
    res matches Err(GraphError::Parse(m)) && m@ == msg
}

/// The message `prefix` followed by the one-based number of line `line_idx`.
pub open spec fn line_message(prefix: Seq<char>, line_idx: nat) -> Seq<char> {
    prefix + decimal(line_idx + 1)
}

/// The message `prefix`, the token `tok`, a closing quote and the one-based
/// number of line `line_idx`.
pub open spec fn token_message(prefix: Seq<char>, tok: Seq<char>, line_idx: nat) -> Seq<char> {
    prefix + tok + "' on line "@ + decimal(line_idx + 1)
}

fn make_line_message(prefix: &str, line_idx: usize) -> (m: String)
    requires
        line_idx < usize::MAX,
    ensures
        m@ == line_message(prefix@, line_idx as nat),
{
    let mut m = String::from_str(prefix);
    let num = decimal_string(line_idx + 1);
    m.append(num.as_str());
    m
}

fn make_token_message(prefix: &str, line: &str, start: usize, end: usize, line_idx: usize) -> (m: String)
    requires
        line_idx < usize::MAX,
        start <= end <= line@.len(),
    ensures
        m@ == token_message(prefix@, line@.subrange(start as int, end as int), line_idx as nat),
{
    let mut m = String::from_str(prefix);
    m.append(line.substring_char(start, end));
    m.append("' on line ");
    let num = decimal_string(line_idx + 1);
    m.append(num.as_str());
    m
}

impl GraphError {
    /// The error for a weight token that is not a number.
    pub fn invalid_weight(token: &str, line_idx: usize) -> (e: GraphError)
        requires
            line_idx < usize::MAX,
        ensures
            e matches GraphError::Parse(m) && m@ == token_message("Invalid weight '"@, token@, line_idx as nat),
    {
        let m = make_token_message("Invalid weight '", token, 0, token.unicode_len(), line_idx);
        proof {
            assert(token@.subrange(0, token@.len() as int) =~= token@);
        }
        GraphError::Parse(m)
    }
}

/// An edge line that still needs its weight: the line's index, its two
/// vertices and, when the line has a third token, that token.
#[derive(Debug, Clone)]
pub struct EdgeLine {
    pub line_idx: usize,
    pub u: usize,
    pub v: usize,
    pub weight_token: Option<String>,
}

/// Reads an edge list line by line. `graph` is `None` until the vertex count
/// has been read.
#[derive(Debug, Clone)]
pub struct GraphLoader {
    pub graph: Option<Graph>,
}

/// `g` is the graph that `Graph::new(n)` makes.
pub open spec fn is_fresh_graph(g: Graph, n: nat) -> bool {
    &&& g.num_nodes() == n
    &&& g.wf()
    &&& forall|u: int|
        0 <= u < n ==> (#[trigger] g.nodes@[u]).weight == crate::graph::UNIT_WEIGHT_KEY
            && g.nodes@[u].neighbors@.len() == 0
}

/// A line is skipped when it holds no token or its first token starts with
/// `#`.
pub open spec fn is_skipped(toks: Seq<Seq<char>>) -> bool {
    toks.len() == 0 || toks[0][0] == '#'
}

/// What reading line `line_idx` with text `line` does, from loader state
/// `old` to `new`, answering `res`.
pub open spec fn read_line_outcome(
    old: GraphLoader,
    line_idx: nat,
    line: Seq<char>,
    new: GraphLoader,
    res: Result<Option<EdgeLine>, GraphError>,
) -> bool {
    let toks = ws_tokens(line);
    if is_skipped(toks) {
        res matches Ok(None) && new == old
    } else if old.graph is None {
        match parse_usize(toks[0]) {
            None => is_parse_error(res, token_message("Invalid node count '"@, toks[0], line_idx)) && new == old,
            Some(n) => if n == 0 {
                is_parse_error(res, "Graph must have at least one vertex"@) && new == old
            } else {
                res matches Ok(None) && new.graph matches Some(g) && is_fresh_graph(g, n as nat)
            },
        }
    } else if toks.len() < 2 {
        is_parse_error(res, line_message("Expected edge definition on line "@, line_idx)) && new == old
    } else if parse_usize(toks[0]) is None {
        is_parse_error(res, token_message("Invalid vertex '"@, toks[0], line_idx)) && new == old
    } else if parse_usize(toks[1]) is None {
        is_parse_error(res, token_message("Invalid vertex '"@, toks[1], line_idx)) && new == old
    } else {
        &&& new == old
        &&& res matches Ok(Some(e))
        &&& e.line_idx == line_idx
        &&& e.u == parse_usize(toks[0])->0
        &&& e.v == parse_usize(toks[1])->0
        &&& toks.len() >= 3 ==> (e.weight_token matches Some(w) && w@ == toks[2])
        &&& toks.len() < 3 ==> e.weight_token is None
    }
}

/// What adding the edge of `edge` with weight key `weight` does, from
/// loader state `old` (which has a graph) to `new`, answering `res`.
pub open spec fn add_edge_outcome(old: GraphLoader, edge: EdgeLine, weight: u64, new: GraphLoader, res: Result<(), GraphError>) -> bool {
    let g0 = old.graph->0;
    if edge.u >= g0.num_nodes() || edge.v >= g0.num_nodes() {
        &&& is_parse_error(res, line_message("Vertex index out of bounds on line "@, edge.line_idx as nat))
        &&& new == old
    } else {
        &&& res is Ok
        &&& new.graph matches Some(g1)
        &&& crate::graph::edge_added(g0, g1, edge.u, edge.v, weight)
        &&& g0.wf() ==> g1.wf()
    }
}

impl GraphLoader {
    pub fn new() -> (l: GraphLoader)
        ensures
            l.graph is None,
    {
        GraphLoader { graph: None }
    }

    /// Reads line `line_idx` (zero-based). The first line that is neither
    /// blank nor a comment sets the vertex count; any later such line is an
    /// edge, returned for its weight to be read.
    pub fn read_line(&mut self, line_idx: usize, line: &str) -> (res: Result<Option<EdgeLine>, GraphError>)
        requires
            line_idx < usize::MAX,
        ensures
            read_line_outcome(*old(self), line_idx as nat, line@, *final(self), res),
    {
        let chars = chars_of(line);
        let spans = token_spans(&chars);
        let ghost toks = ws_tokens(line@);
        if spans.len() == 0 {
            return Ok(None);
        }
        proof {
            assert(line@.subrange(spans@[0].0 as int, spans@[0].1 as int) == toks[0]);
            assert(toks[0][0] == chars@[spans@[0].0 as int]);
        }
        if chars[spans[0].0] == '#' {
            return Ok(None);
        }
        let (s0, e0) = spans[0];
        if self.graph.is_none() {
            match parse_usize_span(&chars, s0, e0) {
                None => {
                    let m = make_token_message("Invalid node count '", line, s0, e0, line_idx);
                    return Err(GraphError::Parse(m));
                },
                Some(n) => {
                    if n == 0 {
                        return Err(GraphError::Parse(String::from_str("Graph must have at least one vertex")));
                    }
                    self.graph = Some(Graph::new(n));
                    return Ok(None);
                },
            }
        }
        if spans.len() < 2 {
            let m = make_line_message("Expected edge definition on line ", line_idx);
            return Err(GraphError::Parse(m));
        }
        let (s1, e1) = spans[1];
        proof {
            assert(line@.subrange(s1 as int, e1 as int) == toks[1]);
        }
        let u = match parse_usize_span(&chars, s0, e0) {
            Some(u) => u,
            None => {
                let m = make_token_message("Invalid vertex '", line, s0, e0, line_idx);
                return Err(GraphError::Parse(m));
            },
        };
        let v = match parse_usize_span(&chars, s1, e1) {
            Some(v) => v,
            None => {
                let m = make_token_message("Invalid vertex '", line, s1, e1, line_idx);
                return Err(GraphError::Parse(m));
            },
        };
        let weight_token = if spans.len() >= 3 {
            let (s2, e2) = spans[2];
            proof {
                assert(line@.subrange(s2 as int, e2 as int) == toks[2]);
            }
            Some(String::from_str(line.substring_char(s2, e2)))
        } else {
            None
        };
        Ok(Some(EdgeLine { line_idx, u, v, weight_token }))
    }

    /// Adds the edge of `edge` with weight key `weight`, after checking that
    /// both vertices exist.
    pub fn add_edge_line(&mut self, edge: &EdgeLine, weight: u64) -> (res: Result<(), GraphError>)
        requires
            old(self).graph is Some,
            edge.line_idx < usize::MAX,
        ensures
            add_edge_outcome(*old(self), *edge, weight, *final(self), res),
    {
        let mut g = self.graph.take().unwrap();
        let n = g.node_count();
        if edge.u >= n || edge.v >= n {
            self.graph = Some(g);
            let m = make_line_message("Vertex index out of bounds on line ", edge.line_idx);
            return Err(GraphError::Parse(m));
        }
        g.add_edge(edge.u, edge.v, weight);
        self.graph = Some(g);
        Ok(())
    }

    /// The graph read, or an error when no vertex count was found.
    pub fn finish(self) -> (res: Result<Graph, GraphError>)
        ensures
            self.graph is None ==> is_parse_error(res, "File did not contain a node count"@),
            self.graph matches Some(g) ==> (res matches Ok(r) && r == g),
    {
        match self.graph {
            Some(g) => Ok(g),
            None => Err(GraphError::Parse(String::from_str("File did not contain a node count"))),
        }
    }
}

/// What is known of the input after some lines: nothing yet (`None`), or the
/// vertex count and the edges read so far, in order, with their weight keys.
pub type FileSoFar = Option<(usize, Seq<(usize, usize, u64)>)>;

/// Reading line `i` with text `line` after `st`: the next state, or the
/// message of the error the line causes. `key` is the weight key of the
/// line's third token, `None` when that token is not a number; a line with
/// two tokens has the unit weight. The checks come in the order the reader
/// makes them: the vertex count, the token count, the two vertices, the
/// weight, and last the vertex bounds.
pub open spec fn line_step(st: FileSoFar, i: nat, line: Seq<char>, key: Option<u64>) -> Result<FileSoFar, Seq<char>> {
    let toks = ws_tokens(line);
    if is_skipped(toks) {
        Ok(st)
    } else {
        match st {
            None => match parse_usize(toks[0]) {
                None => Err(token_message("Invalid node count '"@, toks[0], i)),
                Some(n) => if n == 0 {
                    Err("Graph must have at least one vertex"@)
                } else {
                    Ok(Some((n, Seq::empty())))
                },
            },
            Some((n, es)) => if toks.len() < 2 {
                Err(line_message("Expected edge definition on line "@, i))
            } else if parse_usize(toks[0]) is None {
                Err(token_message("Invalid vertex '"@, toks[0], i))
            } else if parse_usize(toks[1]) is None {
                Err(token_message("Invalid vertex '"@, toks[1], i))
            } else {
                let u = parse_usize(toks[0])->0;
                let v = parse_usize(toks[1])->0;
                let w = if toks.len() >= 3 {
                    key
                } else {
                    Some(crate::graph::UNIT_WEIGHT_KEY)
                };
                match w {
                    None => Err(token_message("Invalid weight '"@, toks[2], i)),
                    Some(w) => if u >= n || v >= n {
                        Err(line_message("Vertex index out of bounds on line "@, i))
                    } else {
                        Ok(Some((n, es.push((u, v, w)))))
                    },
                }
            },
        }
    }
}

/// The state after the first `k` lines (line `i` has index `i` and weight
/// key `keys[i]`), or the message of the first line that fails.
pub open spec fn file_so_far(lines: Seq<Seq<char>>, keys: Seq<Option<u64>>, k: nat) -> Result<FileSoFar, Seq<char>>
    decreases k,
{
    if k == 0 {
        Ok(None)
    } else {
        match file_so_far(lines, keys, (k - 1) as nat) {
            Err(m) => Err(m),
            Ok(st) => line_step(st, (k - 1) as nat, lines[k - 1], keys[k - 1]),
        }
    }
}

/// What reading the whole input gives: the vertex count and the edges in
/// order, or the message of the first failing line, or the missing-count
/// error when no line gives a vertex count.
pub open spec fn file_result(lines: Seq<Seq<char>>, keys: Seq<Option<u64>>) -> Result<(usize, Seq<(usize, usize, u64)>), Seq<char>> {
    match file_so_far(lines, keys, lines.len()) {
        Err(m) => Err(m),
        Ok(None) => Err("File did not contain a node count"@),
        Ok(Some(p)) => Ok(p),
    }
}

/// The loader `l` holds what `st` says: no graph before the vertex count;
/// after it, `Graph::new(n)` with the edges so far added in order.
pub open spec fn loader_holds(l: GraphLoader, st: FileSoFar) -> bool {
    match st {
        None => l.graph is None,
        Some((n, es)) => l.graph matches Some(g) && g.num_nodes() == n && g.wf()
            && crate::graph::adjacency(g) == crate::graph::adjacency_after(n as nat, es)
            && forall|u: int| 0 <= u < n ==> (#[trigger] g.nodes@[u]).weight == crate::graph::UNIT_WEIGHT_KEY,
    }
}

/// What the reading loop does with line `i`, by the contracts of `read_line`
/// and `add_edge_line`: from loader `l0` to loader `l1`, or stopping with the
/// parse error `stop`. On an edge line the weight key is `key` (`None` when
/// the third token is not a number, which stops the loop with the message
/// of `GraphError::invalid_weight`), or the unit key without a third token.
pub open spec fn loop_step(l0: GraphLoader, i: nat, line: Seq<char>, key: Option<u64>, l1: GraphLoader, stop: Option<Seq<char>>) -> bool {
    exists|lr: GraphLoader, read: Result<Option<EdgeLine>, GraphError>| #[trigger] loop_step_by(l0, i, line, key, l1, stop, lr, read)
}

/// `loop_step`, with `read_line` answering `read` and leaving the loader `lr`.
pub open spec fn loop_step_by(
    l0: GraphLoader,
    i: nat,
    line: Seq<char>,
    key: Option<u64>,
    l1: GraphLoader,
    stop: Option<Seq<char>>,
    lr: GraphLoader,
    read: Result<Option<EdgeLine>, GraphError>,
) -> bool {
    &&& read_line_outcome(l0, i, line, lr, read)
    &&& match read {
        Err(e) => e matches GraphError::Parse(m) && stop == Some(m@),
        Ok(None) => stop is None && l1 == lr,
        Ok(Some(edge)) => {
            let w = if edge.weight_token is Some {
                key
            } else {
                Some(crate::graph::UNIT_WEIGHT_KEY)
            };
            match w {
                None => stop == Some(token_message("Invalid weight '"@, edge.weight_token->0@, i)),
                Some(k) => exists|res: Result<(), GraphError>| #[trigger] add_step_by(lr, edge, k, l1, stop, res),
            }
        },
    }
}

/// `add_edge_line` answers `res` and leaves `l1`; the loop stops with its
/// parse error, if any.
pub open spec fn add_step_by(
    lr: GraphLoader,
    edge: EdgeLine,
    k: u64,
    l1: GraphLoader,
    stop: Option<Seq<char>>,
    res: Result<(), GraphError>,
) -> bool {
    &&& add_edge_outcome(lr, edge, k, l1, res)
    &&& match res {
        Ok(_) => stop is None,
        Err(e) => e matches GraphError::Parse(m) && stop == Some(m@),
    }
}

/// One line read by the loop follows `line_step`.
proof fn lemma_loop_step(l0: GraphLoader, st: FileSoFar, i: nat, line: Seq<char>, key: Option<u64>, l1: GraphLoader, stop: Option<Seq<char>>)
    requires
        loader_holds(l0, st),
        loop_step(l0, i, line, key, l1, stop),
    ensures
        match line_step(st, i, line, key) {
            Ok(st1) => stop is None && loader_holds(l1, st1),
            Err(m) => stop == Some(m),
        },
{
    let (lr, read) = choose|lr: GraphLoader, read: Result<Option<EdgeLine>, GraphError>|
        #[trigger] loop_step_by(l0, i, line, key, l1, stop, lr, read);
    let toks = ws_tokens(line);
    if !is_skipped(toks) {
        match st {
            None => {
                if let Some(n) = parse_usize(toks[0]) {
                    if n != 0 {
                        let g = lr.graph->0;
                        assert forall|u: int| 0 <= u < n implies #[trigger] g.adj(u) == crate::graph::adjacency_after(n as nat, Seq::empty())[u] by {
                            assert(g.nodes@[u].neighbors@.len() == 0);
                            assert(g.adj(u) =~= Seq::<crate::graph::Neighbor>::empty());
                        }
                        assert(crate::graph::adjacency(g) =~= crate::graph::adjacency_after(n as nat, Seq::empty()));
                    }
                }
            },
            Some((n, es)) => {
                if let Ok(Some(edge)) = read {
                    assert(lr == l0);
                    let w = if edge.weight_token is Some {
                        key
                    } else {
                        Some(crate::graph::UNIT_WEIGHT_KEY)
                    };
                    if let Some(k) = w {
                        let res = choose|res: Result<(), GraphError>| #[trigger] add_step_by(lr, edge, k, l1, stop, res);
                        if edge.u < n && edge.v < n {
                            let g0 = lr.graph->0;
                            let g1 = l1.graph->0;
                            crate::graph::lemma_adjacency_step(g0, g1, n as nat, es, edge.u, edge.v, k);
                            assert(loader_holds(l1, Some((n, es.push((edge.u, edge.v, k))))));
                        }
                    }
                }
            },
        }
    }
}

/// The state after the first `k` lines, all read without error.
proof fn lemma_loop_run(lines: Seq<Seq<char>>, keys: Seq<Option<u64>>, ls: Seq<GraphLoader>, k: nat)
    requires
        k <= lines.len(),
        keys.len() == lines.len(),
        ls.len() > k,
        ls[0].graph is None,
        forall|i: int| 0 <= i < k ==> #[trigger] loop_step(ls[i], i as nat, lines[i], keys[i], ls[i + 1], None),
    ensures
        file_so_far(lines, keys, k) matches Ok(st) && loader_holds(ls[k as int], st),
    decreases k,
{
    if k > 0 {
        lemma_loop_run(lines, keys, ls, (k - 1) as nat);
        let st = file_so_far(lines, keys, (k - 1) as nat)->Ok_0;
        assert(loop_step(ls[k - 1], (k - 1) as nat, lines[k - 1], keys[k - 1], ls[k as int], None));
        lemma_loop_step(ls[k - 1], st, (k - 1) as nat, lines[k - 1], keys[k - 1], ls[k as int], None);
    }
}

/// An error stays the answer whatever lines follow.
proof fn lemma_error_kept(lines: Seq<Seq<char>>, keys: Seq<Option<u64>>, k: nat, m: nat)
    requires
        k <= m,
        file_so_far(lines, keys, k) is Err,
    ensures
        file_so_far(lines, keys, m) == file_so_far(lines, keys, k),
    decreases m,
{
    if m > k {
        lemma_error_kept(lines, keys, k, (m - 1) as nat);
    }
}

/// Reading a whole input line by line. `ls[i]` is the loader before line
/// `i`, starting from `GraphLoader::new()`; the loop reads each line by
/// `read_line` and, on an edge line, adds its edge by `add_edge_line` with
/// the weight key of its third token (`keys[i]`, `None` when that token is
/// not a number). When every line is read without error, `finish` answers
/// `Graph::new(n)` with the edges of the edge lines added in order, or the
/// missing-count error, as `file_result` says; when line `k` stops the loop,
/// its error is the answer `file_result` gives.
pub proof fn lemma_read_file(
    lines: Seq<Seq<char>>,
    keys: Seq<Option<u64>>,
    ls: Seq<GraphLoader>,
    k: nat,
    stop: Option<Seq<char>>,
)
    requires
        keys.len() == lines.len(),
        k <= lines.len(),
        ls.len() == k + 2,
        ls[0].graph is None,
        forall|i: int| 0 <= i < k ==> #[trigger] loop_step(ls[i], i as nat, lines[i], keys[i], ls[i + 1], None),
        stop is None ==> k == lines.len(),
        stop is Some ==> k < lines.len() && loop_step(ls[k as int], k, lines[k as int], keys[k as int], ls[k + 1 as int], stop),
    ensures
        stop matches Some(m) ==> file_result(lines, keys) == Err::<(usize, Seq<(usize, usize, u64)>), Seq<char>>(m),
        stop is None ==> match file_result(lines, keys) {
            Ok((n, es)) => ls[k as int].graph matches Some(g) && g.num_nodes() == n && g.wf()
                && crate::graph::adjacency(g) == crate::graph::adjacency_after(n as nat, es)
                && forall|u: int| 0 <= u < n ==> (#[trigger] g.nodes@[u]).weight == crate::graph::UNIT_WEIGHT_KEY,
            Err(m) => ls[k as int].graph is None && m == "File did not contain a node count"@,
        },
{
    lemma_loop_run(lines, keys, ls, k);
    let st = file_so_far(lines, keys, k)->Ok_0;
    if let Some(m) = stop {
        lemma_loop_step(ls[k as int], st, k, lines[k as int], keys[k as int], ls[k + 1 as int], stop);
        assert(file_so_far(lines, keys, k + 1) == Err::<FileSoFar, Seq<char>>(m));
        lemma_error_kept(lines, keys, k + 1, lines.len());
    }
}

/// The decimal notation of `n` is a nonempty run of digits, without a sign,
/// whose value is `n`.
proof fn lemma_decimal_digits(n: nat)
    ensures
        decimal(n).len() >= 1,
        all_digits(decimal(n)),
        decimal(n)[0] != '+',
        decimal_value(decimal(n)) == n,
    decreases n,
{
    let s = decimal(n);
    if n < 10 {
        assert(s.drop_last() =~= Seq::<char>::empty());
        assert(s.last() == digit_char(n));
        assert((digit_char(n) as nat) == ('0' as nat) + n);
        assert(decimal_value(s) == decimal_value(s.drop_last()) * 10 + ((s.last() as nat) - ('0' as nat)) as nat);
        assert(decimal_value(Seq::<char>::empty()) == 0);
    } else {
        lemma_decimal_digits(n / 10);
        let t = decimal(n / 10);
        assert(s.drop_last() =~= t);
        assert(s.last() == digit_char(n % 10));
        assert((digit_char(n % 10) as nat) == ('0' as nat) + n % 10);
        assert(s[0] == t[0]);
        assert forall|i: int| 0 <= i < s.len() implies is_digit(#[trigger] s[i]) by {
            if i < t.len() {
                assert(s[i] == t[i]);
            }
        }
        assert((n / 10) * 10 + n % 10 == n);
        assert(decimal_value(s) == decimal_value(s.drop_last()) * 10 + ((s.last() as nat) - ('0' as nat)) as nat);
        assert(decimal_value(s) == decimal_value(t) * 10 + n % 10);
    }
}

/// Numbers are read in decimal: the decimal notation of any `n` that fits in
/// `usize` reads back as `n`, with or without a leading `+`.
pub proof fn lemma_parse_decimal(n: nat)
    requires
        n <= usize::MAX,
    ensures
        parse_usize(decimal(n)) == Some(n as usize),
        parse_usize(seq!['+'] + decimal(n)) == Some(n as usize),
{
    lemma_decimal_digits(n);
    assert((seq!['+'] + decimal(n)).drop_first() =~= decimal(n));
}

/// The notation is base ten: ten is written `10`, and `12` reads as twelve.
pub proof fn lemma_base_ten()
    ensures
        decimal(10) == seq!['1', '0'],
        parse_usize(seq!['1', '2']) == Some(12usize),
{
    assert(decimal(1) =~= seq![digit_char(1)]);
    assert(decimal(10) =~= seq!['1', '0']);
    let one = seq!['1'];
    let s = seq!['1', '2'];
    assert(one.drop_last() =~= Seq::<char>::empty());
    assert(one.last() == '1');
    assert(('1' as nat) - ('0' as nat) == 1);
    assert(decimal_value(one) == decimal_value(one.drop_last()) * 10 + ((one.last() as nat) - ('0' as nat)) as nat);
    assert(decimal_value(one) == 1);
    assert(s.drop_last() =~= one);
    assert(s.last() == '2');
    assert(decimal_value(s) == decimal_value(s.drop_last()) * 10 + ((s.last() as nat) - ('0' as nat)) as nat);
}

/// A run of characters none of which is whitespace.
pub open spec fn no_ws(t: Seq<char>) -> bool {
    forall|i: int| 0 <= i < t.len() ==> !is_ws(#[trigger] t[i])
}

proof fn lemma_scan_append(s: Seq<char>, t: Seq<char>)
    requires
        no_ws(t),
    ensures
        scan_tokens(s + t) == (scan_tokens(s).0, scan_tokens(s).1 + t),
    decreases t.len(),
{
    if t.len() == 0 {
        assert(s + t =~= s);
        assert(scan_tokens(s).1 + t =~= scan_tokens(s).1);
    } else {
        let t0 = t.drop_last();
        assert forall|i: int| 0 <= i < t0.len() implies !is_ws(#[trigger] t0[i]) by {
            assert(t0[i] == t[i]);
        }
        lemma_scan_append(s, t0);
        assert((s + t).drop_last() =~= s + t0);
        assert((s + t).last() == t.last());
        assert(!is_ws(t[t.len() - 1]));
        assert(scan_tokens(s).1 + t0.push(t.last()) =~= scan_tokens(s).1 + t);
        assert(t0.push(t.last()) =~= t);
    }
}

proof fn lemma_digits_no_ws(t: Seq<char>)
    requires
        all_digits(t),
    ensures
        no_ws(t),
{
    assert forall|i: int| 0 <= i < t.len() implies !is_ws(#[trigger] t[i]) by {
        assert(is_digit(t[i]));
    }
}

/// A line holding `a`, a space and `b`, both nonempty and without
/// whitespace, has the two tokens `a` and `b`.
proof fn lemma_two_tokens(a: Seq<char>, b: Seq<char>)
    requires
        a.len() >= 1,
        b.len() >= 1,
        no_ws(a),
        no_ws(b),
    ensures
        ws_tokens(a) == seq![a],
        ws_tokens(a + seq![' '] + b) == seq![a, b],
{
    let e = Seq::<char>::empty();
    lemma_scan_append(e, a);
    assert(e + a =~= a);
    assert(e + scan_tokens(e).1 + a =~= a) by {
        assert(scan_tokens(e).1 =~= e);
    }
    assert(scan_tokens(a) == (Seq::<Seq<char>>::empty(), a)) by {
        assert(scan_tokens(e).1 + a =~= a);
    }
    assert(ws_tokens(a) =~= seq![a]);
    let asp = a + seq![' '];
    assert(asp.drop_last() =~= a);
    assert(asp.last() == ' ');
    assert(scan_tokens(asp) == (seq![a], e)) by {
        assert(Seq::<Seq<char>>::empty().push(a) =~= seq![a]);
    }
    lemma_scan_append(asp, b);
    assert(e + b =~= b);
    assert(ws_tokens(asp + b) =~= seq![a, b]);
}

/// Reading the vertex count: before any count, a line that holds just
/// `n >= 1` in decimal makes the graph `Graph::new(n)`.
pub proof fn lemma_read_count_line(l0: GraphLoader, i: nat, n: nat, l1: GraphLoader, res: Result<Option<EdgeLine>, GraphError>)
    requires
        l0.graph is None,
        1 <= n <= usize::MAX,
        read_line_outcome(l0, i, decimal(n), l1, res),
    ensures
        res matches Ok(None),
        l1.graph matches Some(g) && is_fresh_graph(g, n),
{
    lemma_parse_decimal(n);
    lemma_decimal_digits(n);
    lemma_digits_no_ws(decimal(n));
    lemma_two_tokens(decimal(n), decimal(n));
    assert(decimal(n)[0] != '#') by {
        assert(is_digit(decimal(n)[0]));
    }
}

/// Reading an edge: after the count, a line `u v` with both vertices in
/// decimal is the edge from `u` to `v`, with no weight token.
pub proof fn lemma_read_edge_line(
    l0: GraphLoader,
    i: nat,
    u: nat,
    v: nat,
    l1: GraphLoader,
    res: Result<Option<EdgeLine>, GraphError>,
)
    requires
        l0.graph is Some,
        u <= usize::MAX,
        v <= usize::MAX,
        read_line_outcome(l0, i, decimal(u) + seq![' '] + decimal(v), l1, res),
    ensures
        res matches Ok(Some(e)) && e.u == u && e.v == v && e.line_idx == i && e.weight_token is None,
        l1 == l0,
{
    lemma_parse_decimal(u);
    lemma_parse_decimal(v);
    lemma_decimal_digits(u);
    lemma_decimal_digits(v);
    lemma_digits_no_ws(decimal(u));
    lemma_digits_no_ws(decimal(v));
    lemma_two_tokens(decimal(u), decimal(v));
    assert(decimal(u)[0] != '#') by {
        assert(is_digit(decimal(u)[0]));
    }
}

} // verus!
