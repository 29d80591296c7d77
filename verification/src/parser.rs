//! Reading an instance file.
//!
//! White space beyond ASCII is first written as single spaces; the text is
//! then cut into lines at line feeds and each line into tokens at ASCII white
//! space. The tokens of each line are applied in order to the state of the
//! reader, up to a line whose first token is `EOF`. Counts, set ids and node ids
//! are read here; coordinates, profits and the travel budget are decimal numbers
//! and are handed on as their raw tokens.
use vstd::prelude::*;

verus! {

/// ASCII white space: tab, line feed, vertical tab, form feed, carriage return
/// and space.
pub open spec fn is_space(b: u8) -> bool {
    b == 32 || (9 <= b && b <= 13)
}

/// The first index in `i..end` whose byte is not white space, or `end`.
pub open spec fn skip_space(s: Seq<u8>, i: int, end: int) -> int
    decreases end - i,
{
    if i >= end {
        i
    } else if is_space(s[i]) {
        skip_space(s, i + 1, end)
    } else {
        i
    }
}

/// The first index in `i..end` whose byte is white space, or `end`.
pub open spec fn token_end(s: Seq<u8>, i: int, end: int) -> int
    decreases end - i,
{
    if i >= end {
        i
    } else if is_space(s[i]) {
        i
    } else {
        token_end(s, i + 1, end)
    }
}

/// `skip_space` stops at the first byte that is not white space.
pub proof fn lemma_skip_space(s: Seq<u8>, i: int, end: int)
    requires
        i <= end,
    ensures
        i <= skip_space(s, i, end) <= end,
        skip_space(s, i, end) < end ==> !is_space(s[skip_space(s, i, end)]),
        forall|k: int| i <= k < skip_space(s, i, end) ==> is_space(#[trigger] s[k]),
    decreases end - i,
{
    if i < end && is_space(s[i]) {
        lemma_skip_space(s, i + 1, end);
    }
}

/// `token_end` stops at the first byte that is white space.
pub proof fn lemma_token_end(s: Seq<u8>, i: int, end: int)
    requires
        i <= end,
    ensures
        i <= token_end(s, i, end) <= end,
        token_end(s, i, end) < end ==> is_space(s[token_end(s, i, end)]),
        forall|k: int| i <= k < token_end(s, i, end) ==> !is_space(#[trigger] s[k]),
    decreases end - i,
{
    if i < end && !is_space(s[i]) {
        lemma_token_end(s, i + 1, end);
    }
}

/// The tokens of `s[i..end]`: its maximal runs of bytes that are not white
/// space, in order.
pub open spec fn tokens_from(s: Seq<u8>, i: int, end: int) -> Seq<Seq<u8>>
    decreases end - i,
{
    if i >= end {
        Seq::empty()
    } else {
        let a = skip_space(s, i, end);
        if a >= end {
            Seq::empty()
        } else {
            let b = token_end(s, a, end);
            proof {
                lemma_skip_space(s, i, end);
                lemma_token_end(s, a + 1, end);
            }
            seq![s.subrange(a, b)] + tokens_from(s, b, end)
        }
    }
}

/// `spans` cut the tokens `toks` out of `s`.
pub open spec fn spans_match(s: Seq<u8>, spans: Seq<(usize, usize)>, toks: Seq<Seq<u8>>) -> bool {
    &&& spans.len() == toks.len()
    &&& forall|k: int|
        0 <= k < spans.len() ==> {
            &&& (#[trigger] spans[k]).0 <= spans[k].1 <= s.len()
            &&& s.subrange(spans[k].0 as int, spans[k].1 as int) == toks[k]
        }
}

fn space_byte(b: u8) -> (r: bool)
    ensures
        r == is_space(b),
{
    b == 32 || (9 <= b && b <= 13)
}

fn skip_space_at(s: &[u8], i: usize, end: usize) -> (r: usize)
    requires
        i <= end <= s@.len(),
    ensures
        r == skip_space(s@, i as int, end as int),
{
    let mut k = i;
    while k < end && space_byte(s[k])
        invariant
            i <= k <= end,
            end <= s@.len(),
            skip_space(s@, k as int, end as int) == skip_space(s@, i as int, end as int),
        decreases end - k,
    {
        k = k + 1;
    }
    k
}

fn token_end_at(s: &[u8], i: usize, end: usize) -> (r: usize)
    requires
        i <= end <= s@.len(),
    ensures
        r == token_end(s@, i as int, end as int),
{
    let mut k = i;
    while k < end && !space_byte(s[k])
        invariant
            i <= k <= end,
            end <= s@.len(),
            token_end(s@, k as int, end as int) == token_end(s@, i as int, end as int),
        decreases end - k,
    {
        k = k + 1;
    }
    k
}

/// The spans of the tokens of `s[start..end]`.
pub fn token_spans(s: &[u8], start: usize, end: usize) -> (r: Vec<(usize, usize)>)
    requires
        start <= end <= s@.len(),
    ensures
        spans_match(s@, r@, tokens_from(s@, start as int, end as int)),
{
    let mut r: Vec<(usize, usize)> = Vec::new();
    let ghost mut acc: Seq<Seq<u8>> = Seq::empty();
    let mut pos = start;
    loop
        invariant
            start <= pos <= end <= s@.len(),
            spans_match(s@, r@, acc),
            acc + tokens_from(s@, pos as int, end as int) == tokens_from(
                s@,
                start as int,
                end as int,
            ),
        decreases end - pos,
    {
        let a = skip_space_at(s, pos, end);
        proof {
            lemma_skip_space(s@, pos as int, end as int);
        }
        if a >= end {
            assert(tokens_from(s@, pos as int, end as int) =~= Seq::empty());
            assert(acc =~= tokens_from(s@, start as int, end as int));
            return r;
        }
        let b = token_end_at(s, a, end);
        proof {
            lemma_token_end(s@, a + 1, end as int);
            let t = s@.subrange(a as int, b as int);
            assert(tokens_from(s@, pos as int, end as int) == seq![t] + tokens_from(
                s@,
                b as int,
                end as int,
            ));
            assert(acc.push(t) + tokens_from(s@, b as int, end as int) =~= acc + (seq![t]
                + tokens_from(s@, b as int, end as int)));
            acc = acc.push(t);
        }
        r.push((a, b));
        pos = b;
    }
}

/// A decimal digit.
pub open spec fn is_digit(b: u8) -> bool {
    48 <= b && b <= 57
}

/// The number written by the decimal digits `t` (0 for no digits).
pub open spec fn digits_value(t: Seq<u8>) -> nat
    decreases t.len(),
{
    if t.len() == 0 {
        0
    } else {
        (digits_value(t.drop_last()) * 10 + (t.last() - 48)) as nat
    }
}

/// The digits of an unsigned number: the token without one leading `+`.
pub open spec fn unsigned_digits(t: Seq<u8>) -> Seq<u8> {
    if t.len() > 0 && t[0] == 43 {
        t.drop_first()
    } else {
        t
    }
}

/// What reading `t` as a `usize` gives: an optional `+`, then one or more
/// decimal digits whose number fits in a `usize`.
pub open spec fn read_usize(t: Seq<u8>) -> Option<usize> {
    let d = unsigned_digits(t);
    if d.len() > 0 && (forall|k: int| 0 <= k < d.len() ==> is_digit(#[trigger] d[k]))
        && digits_value(d) <= usize::MAX {
        Some(digits_value(d) as usize)
    } else {
        None
    }
}

/// A prefix of a run of digits writes a number no larger than the whole run.
proof fn lemma_digits_prefix(t: Seq<u8>, k: int)
    requires
        0 <= k <= t.len(),
        forall|j: int| 0 <= j < t.len() ==> is_digit(#[trigger] t[j]),
    ensures
        digits_value(t.take(k)) <= digits_value(t),
    decreases t.len(),
{
    if k < t.len() {
        let u = t.drop_last();
        assert(u.take(k) =~= t.take(k));
        assert forall|j: int| 0 <= j < u.len() implies is_digit(#[trigger] u[j]) by {
            assert(u[j] == t[j]);
        }
        lemma_digits_prefix(u, k);
    } else {
        assert(t.take(k) =~= t);
    }
}

/// Reads `s[a..b]` as a `usize`.
pub fn parse_usize(s: &[u8], a: usize, b: usize) -> (r: Option<usize>)
    requires
        a <= b <= s@.len(),
    ensures
        r == read_usize(s@.subrange(a as int, b as int)),
{
    let ghost t = s@.subrange(a as int, b as int);
    let mut i = a;
    if a < b && s[a] == 43 {
        i = a + 1;
    }
    let ghost d = unsigned_digits(t);
    assert(d =~= s@.subrange(i as int, b as int));
    if i >= b {
        return None;
    }
    let mut v: usize = 0;
    let mut k = i;
    while k < b
        invariant
            a <= i <= k <= b <= s@.len(),
            d == s@.subrange(i as int, b as int),
            d == unsigned_digits(s@.subrange(a as int, b as int)),
            forall|j: int| 0 <= j < k - i ==> is_digit(#[trigger] d[j]),
            v == digits_value(d.take(k - i)),
        decreases b - k,
    {
        let c = s[k];
        assert(c == d[k - i]);
        if c < 48 || c > 57 {
            assert(!is_digit(d[k - i]));
            return None;
        }
        proof {
            assert(d.take(k - i + 1).drop_last() =~= d.take(k - i));
        }
        let next = v.checked_mul(10);
        match next {
            None => {
                proof {
                    if forall|j: int| 0 <= j < d.len() ==> is_digit(#[trigger] d[j]) {
                        lemma_digits_prefix(d, k - i + 1);
                    }
                }
                return None;
            },
            Some(w) => {
                let next2 = w.checked_add((c - 48) as usize);
                match next2 {
                    None => {
                        proof {
                            if forall|j: int| 0 <= j < d.len() ==> is_digit(#[trigger] d[j]) {
                                lemma_digits_prefix(d, k - i + 1);
                            }
                        }
                        return None;
                    },
                    Some(x) => {
                        v = x;
                    },
                }
            },
        }
        k = k + 1;
    }
    assert(d.take(k - i) =~= d);
    Some(v)
}

/// Why an instance file cannot be read.
#[derive(Clone, Copy, PartialEq, Eq, Structural, Debug)]
pub enum ParseError {
    /// A keyword line or a data line lacks one of its fields.
    MissingValue,
    /// A count, a set id or a node id is not an unsigned decimal integer that
    /// fits in a `usize`.
    BadInteger,
    /// A set line names a set at or past the number of sets.
    SetOutOfRange,
    /// A set line names node 0 or a node past the number of nodes (node ids
    /// count from 1 in the file).
    NodeOutOfRange,
}

/// The part of the file the reader is in.
#[derive(Clone, Copy, PartialEq, Eq, Structural, Debug)]
pub enum Section {
    /// Before `NODE_COORD_SECTION` and `GTSP_SET_SECTION:`.
    Header,
    /// After `NODE_COORD_SECTION`: one node and its two coordinates per line.
    Nodes,
    /// After `GTSP_SET_SECTION:`: a set id, its profit and its node ids per line.
    Sets,
}

/// What has been read of an instance: the counts, the raw tokens of the
/// travel budget, of the coordinates and of the profits (an empty token where
/// none was given), the set of each node, the (0-based) nodes of each set, the
/// section the reader is in and whether `EOF` was met.
pub struct InstanceText {
    pub num_nodes: usize,
    pub num_clusters: usize,
    pub t_max: Vec<u8>,
    pub coords: Vec<(Vec<u8>, Vec<u8>)>,
    pub profits: Vec<Vec<u8>>,
    pub cluster_of_node: Vec<usize>,
    pub nodes_of_cluster: Vec<Vec<usize>>,
    pub section: Section,
    pub finished: bool,
}

/// The mathematical value of an `InstanceText`.
pub struct InstanceModel {
    pub num_nodes: usize,
    pub num_clusters: usize,
    pub t_max: Seq<u8>,
    pub coords: Seq<(Seq<u8>, Seq<u8>)>,
    pub profits: Seq<Seq<u8>>,
    pub cluster_of_node: Seq<usize>,
    pub nodes_of_cluster: Seq<Seq<usize>>,
    pub section: Section,
    pub finished: bool,
}

impl View for InstanceText {
    type V = InstanceModel;

    open spec fn view(&self) -> InstanceModel {
        InstanceModel {
            num_nodes: self.num_nodes,
            num_clusters: self.num_clusters,
            t_max: self.t_max@,
            coords: self.coords@.map_values(|c: (Vec<u8>, Vec<u8>)| (c.0@, c.1@)),
            profits: self.profits@.map_values(|p: Vec<u8>| p@),
            cluster_of_node: self.cluster_of_node@,
            nodes_of_cluster: self.nodes_of_cluster@.map_values(|v: Vec<usize>| v@),
            section: self.section,
            finished: self.finished,
        }
    }
}

/// The reader before the first line.
pub open spec fn empty_instance() -> InstanceModel {
    InstanceModel {
        num_nodes: 0,
        num_clusters: 0,
        t_max: Seq::empty(),
        coords: Seq::empty(),
        profits: Seq::empty(),
        cluster_of_node: Seq::empty(),
        nodes_of_cluster: Seq::empty(),
        section: Section::Header,
        finished: false,
    }
}

/// The bytes of `DIMENSION:`.
pub open spec fn kw_dimension() -> Seq<u8> {
    seq![68u8, 73, 77, 69, 78, 83, 73, 79, 78, 58]
}

/// The bytes of `SETS:`.
pub open spec fn kw_sets() -> Seq<u8> {
    seq![83u8, 69, 84, 83, 58]
}

/// The bytes of `TMAX:`.
pub open spec fn kw_tmax() -> Seq<u8> {
    seq![84u8, 77, 65, 88, 58]
}

/// The bytes of `NODE_COORD_SECTION`.
pub open spec fn kw_node_section() -> Seq<u8> {
    seq![78u8, 79, 68, 69, 95, 67, 79, 79, 82, 68, 95, 83, 69, 67, 84, 73, 79, 78]
}

/// The bytes of `GTSP_SET_SECTION:`.
pub open spec fn kw_set_section() -> Seq<u8> {
    seq![71u8, 84, 83, 80, 95, 83, 69, 84, 95, 83, 69, 67, 84, 73, 79, 78, 58]
}

/// The bytes of `EOF`.
pub open spec fn kw_eof() -> Seq<u8> {
    seq![69u8, 79, 70]
}

/// The node tokens `t[k..]` of a set line of set `sid`, added in order: each
/// 1-based node id joins the set, and the set becomes the node's set.
pub open spec fn add_members(m: InstanceModel, sid: int, t: Seq<Seq<u8>>, k: int) -> Result<
    InstanceModel,
    ParseError,
>
    decreases t.len() - k,
{
    if k >= t.len() {
        Ok(m)
    } else {
        match read_usize(t[k]) {
            None => Err(ParseError::BadInteger),
            Some(id) => if id == 0 || id - 1 >= m.cluster_of_node.len() {
                Err(ParseError::NodeOutOfRange)
            } else {
                add_members(
                    InstanceModel {
                        nodes_of_cluster: m.nodes_of_cluster.update(
                            sid,
                            m.nodes_of_cluster[sid].push((id - 1) as usize),
                        ),
                        cluster_of_node: m.cluster_of_node.update(id - 1, sid as usize),
                        ..m
                    },
                    sid,
                    t,
                    k + 1,
                )
            },
        }
    }
}

/// One line, split into its tokens `t`, applied to the reader `m`.
///
/// `DIMENSION: n` sets the number of nodes and gives every node set 0;
/// `SETS: c` sets the number of sets and empties their profits and nodes;
/// `TMAX: x` keeps the budget token; `NODE_COORD_SECTION`, `GTSP_SET_SECTION:`
/// and `EOF` change section or stop. In the node section a line `id x y` adds a
/// coordinate pair; in the set section a line `set profit node...` sets the
/// profit token of the set and adds its nodes. Other lines change nothing.
pub open spec fn apply_line(m: InstanceModel, t: Seq<Seq<u8>>) -> Result<InstanceModel, ParseError> {
    if t.len() == 0 {
        Ok(m)
    } else if t[0] == kw_dimension() {
        if t.len() < 2 {
            Err(ParseError::MissingValue)
        } else {
            match read_usize(t[1]) {
                None => Err(ParseError::BadInteger),
                Some(n) => Ok(
                    InstanceModel {
                        num_nodes: n,
                        cluster_of_node: Seq::new(n as nat, |i: int| 0usize),
                        ..m
                    },
                ),
            }
        }
    } else if t[0] == kw_sets() {
        if t.len() < 2 {
            Err(ParseError::MissingValue)
        } else {
            match read_usize(t[1]) {
                None => Err(ParseError::BadInteger),
                Some(c) => Ok(
                    InstanceModel {
                        num_clusters: c,
                        profits: Seq::new(c as nat, |i: int| Seq::<u8>::empty()),
                        nodes_of_cluster: Seq::new(c as nat, |i: int| Seq::<usize>::empty()),
                        ..m
                    },
                ),
            }
        }
    } else if t[0] == kw_tmax() {
        if t.len() < 2 {
            Err(ParseError::MissingValue)
        } else {
            Ok(InstanceModel { t_max: t[1], ..m })
        }
    } else if t[0] == kw_node_section() {
        Ok(InstanceModel { section: Section::Nodes, ..m })
    } else if t[0] == kw_set_section() {
        Ok(InstanceModel { section: Section::Sets, ..m })
    } else if t[0] == kw_eof() {
        Ok(InstanceModel { finished: true, ..m })
    } else if m.section == Section::Nodes {
        if t.len() < 3 {
            Err(ParseError::MissingValue)
        } else {
            Ok(InstanceModel { coords: m.coords.push((t[1], t[2])), ..m })
        }
    } else if m.section == Section::Sets {
        match read_usize(t[0]) {
            None => Err(ParseError::BadInteger),
            Some(sid) => if t.len() < 2 {
                Err(ParseError::MissingValue)
            } else if sid >= m.profits.len() {
                Err(ParseError::SetOutOfRange)
            } else {
                add_members(InstanceModel { profits: m.profits.update(sid as int, t[1]), ..m }, sid as int, t, 2)
            },
        }
    } else {
        Ok(m)
    }
}

/// The index of the first line feed at or after `i`, or the length of `s`.
pub open spec fn line_end(s: Seq<u8>, i: int) -> int
    decreases s.len() - i,
{
    if i >= s.len() {
        i
    } else if s[i] == 10 {
        i
    } else {
        line_end(s, i + 1)
    }
}

/// `line_end` stops at the first line feed.
pub proof fn lemma_line_end(s: Seq<u8>, i: int)
    requires
        i <= s.len(),
    ensures
        i <= line_end(s, i) <= s.len(),
        line_end(s, i) < s.len() ==> s[line_end(s, i)] == 10,
    decreases s.len() - i,
{
    if i < s.len() && s[i] != 10 {
        lemma_line_end(s, i + 1);
    }
}

/// The lines of `s` from index `i` on applied in order to the reader `m`, up to
/// the end of the text, an `EOF` line or the first line that cannot be read.
pub open spec fn read_lines(m: InstanceModel, s: Seq<u8>, i: int) -> Result<InstanceModel, ParseError>
    decreases s.len() + 1 - i,
{
    if i < 0 || i >= s.len() || m.finished {
        Ok(m)
    } else {
        let e = line_end(s, i);
        match apply_line(m, tokens_from(s, i, e)) {
            Ok(m2) => {
                proof {
                    lemma_line_end(s, i);
                }
                read_lines(m2, s, e + 1)
            },
            Err(err) => Err(err),
        }
    }
}

/// What reading the whole text `s` of an instance file gives.
pub open spec fn read_instance(s: Seq<u8>) -> Result<InstanceModel, ParseError> {
    read_lines(empty_instance(), s, 0)
}

/// The keywords of the format, as byte strings.
struct Keywords {
    dimension: Vec<u8>,
    sets: Vec<u8>,
    tmax: Vec<u8>,
    node_section: Vec<u8>,
    set_section: Vec<u8>,
    eof: Vec<u8>,
}

impl Keywords {
    spec fn wf(&self) -> bool {
        &&& self.dimension@ == kw_dimension()
        &&& self.sets@ == kw_sets()
        &&& self.tmax@ == kw_tmax()
        &&& self.node_section@ == kw_node_section()
        &&& self.set_section@ == kw_set_section()
        &&& self.eof@ == kw_eof()
    }

    fn new() -> (r: Keywords)
        ensures
            r.wf(),
    {
        let r = Keywords {
            dimension: vec![68u8, 73, 77, 69, 78, 83, 73, 79, 78, 58],
            sets: vec![83u8, 69, 84, 83, 58],
            tmax: vec![84u8, 77, 65, 88, 58],
            node_section: vec![
                78u8,
                79,
                68,
                69,
                95,
                67,
                79,
                79,
                82,
                68,
                95,
                83,
                69,
                67,
                84,
                73,
                79,
                78,
            ],
            set_section: vec![71u8, 84, 83, 80, 95, 83, 69, 84, 95, 83, 69, 67, 84, 73, 79, 78, 58],
            eof: vec![69u8, 79, 70],
        };
        assert(r.dimension@ =~= kw_dimension());
        assert(r.sets@ =~= kw_sets());
        assert(r.tmax@ =~= kw_tmax());
        assert(r.node_section@ =~= kw_node_section());
        assert(r.set_section@ =~= kw_set_section());
        assert(r.eof@ =~= kw_eof());
        r
    }
}

/// Whether `s[a..b]` is the byte string `kw`.
fn span_is(s: &[u8], a: usize, b: usize, kw: &Vec<u8>) -> (r: bool)
    requires
        a <= b <= s@.len(),
    ensures
        r == (s@.subrange(a as int, b as int) == kw@),
{
    if b - a != kw.len() {
        assert(s@.subrange(a as int, b as int).len() != kw@.len());
        return false;
    }
    let mut k: usize = 0;
    while k < kw.len()
        invariant
            a <= b <= s@.len(),
            b - a == kw@.len(),
            k <= kw@.len(),
            forall|j: int| 0 <= j < k ==> s@[a + j] == kw@[j],
        decreases kw.len() - k,
    {
        if s[a + k] != kw[k] {
            assert(s@.subrange(a as int, b as int)[k as int] != kw@[k as int]);
            return false;
        }
        k = k + 1;
    }
    assert(s@.subrange(a as int, b as int) =~= kw@);
    true
}

/// A copy of `s[a..b]`.
fn span_bytes(s: &[u8], a: usize, b: usize) -> (r: Vec<u8>)
    requires
        a <= b <= s@.len(),
    ensures
        r@ == s@.subrange(a as int, b as int),
{
    let mut r: Vec<u8> = Vec::new();
    let mut k = a;
    while k < b
        invariant
            a <= k <= b <= s@.len(),
            r@ == s@.subrange(a as int, k as int),
        decreases b - k,
    {
        r.push(s[k]);
        k = k + 1;
        assert(r@ =~= s@.subrange(a as int, k as int));
    }
    r
}

impl InstanceText {
    /// The profits and the node lists are kept for the same sets.
    pub open spec fn inv(&self) -> bool {
        self.profits@.len() == self.nodes_of_cluster@.len()
    }

    /// The reader before the first line.
    pub fn new() -> (r: Self)
        ensures
            r@ == empty_instance(),
            r.inv(),
    {
        let r = InstanceText {
            num_nodes: 0,
            num_clusters: 0,
            t_max: Vec::new(),
            coords: Vec::new(),
            profits: Vec::new(),
            cluster_of_node: Vec::new(),
            nodes_of_cluster: Vec::new(),
            section: Section::Header,
            finished: false,
        };
        assert(r@.coords =~= Seq::empty());
        assert(r@.profits =~= Seq::empty());
        assert(r@.nodes_of_cluster =~= Seq::empty());
        r
    }

    /// One line, the bytes `s[start..end]`, applied to the reader.
    fn apply_line(&mut self, s: &[u8], start: usize, end: usize, kw: &Keywords) -> (r: Result<
        (),
        ParseError,
    >)
        requires
            start <= end <= s@.len(),
            kw.wf(),
            old(self).inv(),
        ensures
            final(self).inv(),
            match apply_line(old(self)@, tokens_from(s@, start as int, end as int)) {
                Ok(m) => r is Ok && final(self)@ == m,
                Err(e) => r == Err::<(), ParseError>(e),
            },
    {
        let spans = token_spans(s, start, end);
        let ghost t = tokens_from(s@, start as int, end as int);
        let ghost m = self@;
        if spans.len() == 0 {
            return Ok(());
        }
        let (a0, b0) = spans[0];
        assert(s@.subrange(a0 as int, b0 as int) == t[0]);
        if span_is(s, a0, b0, &kw.dimension) || span_is(s, a0, b0, &kw.sets) {
            let is_dim = span_is(s, a0, b0, &kw.dimension);
            if spans.len() < 2 {
                return Err(ParseError::MissingValue);
            }
            let (a1, b1) = spans[1];
            assert(s@.subrange(a1 as int, b1 as int) == t[1]);
            match parse_usize(s, a1, b1) {
                None => {
                    return Err(ParseError::BadInteger);
                },
                Some(n) => {
                    if is_dim {
                        self.num_nodes = n;
                        self.cluster_of_node = vec![0usize; n];
                        assert(self@.cluster_of_node =~= Seq::new(n as nat, |i: int| 0usize));
                        assert(self@.coords =~= m.coords);
                        assert(self@.profits =~= m.profits);
                        assert(self@.nodes_of_cluster =~= m.nodes_of_cluster);
                    } else {
                        let mut profits: Vec<Vec<u8>> = Vec::new();
                        let mut nodes: Vec<Vec<usize>> = Vec::new();
                        let mut c: usize = 0;
                        while c < n
                            invariant
                                c <= n,
                                profits@.len() == c,
                                nodes@.len() == c,
                                forall|j: int| 0 <= j < c ==> (#[trigger] profits@[j])@.len() == 0,
                                forall|j: int| 0 <= j < c ==> (#[trigger] nodes@[j])@.len() == 0,
                            decreases n - c,
                        {
                            profits.push(Vec::new());
                            nodes.push(Vec::new());
                            c = c + 1;
                        }
                        self.num_clusters = n;
                        self.profits = profits;
                        self.nodes_of_cluster = nodes;
                        assert forall|j: int| 0 <= j < n implies #[trigger] self@.profits[j]
                            == Seq::<u8>::empty() by {
                            assert(self.profits@[j]@ =~= Seq::<u8>::empty());
                        }
                        assert forall|j: int| 0 <= j < n implies #[trigger] self@.nodes_of_cluster[j]
                            == Seq::<usize>::empty() by {
                            assert(self.nodes_of_cluster@[j]@ =~= Seq::<usize>::empty());
                        }
                        assert(self@.profits =~= Seq::new(n as nat, |i: int| Seq::<u8>::empty()));
                        assert(self@.nodes_of_cluster =~= Seq::new(
                            n as nat,
                            |i: int| Seq::<usize>::empty(),
                        ));
                        assert(self@.coords =~= m.coords);
                    }
                    return Ok(());
                },
            }
        }
        if span_is(s, a0, b0, &kw.tmax) {
            if spans.len() < 2 {
                return Err(ParseError::MissingValue);
            }
            let (a1, b1) = spans[1];
            assert(s@.subrange(a1 as int, b1 as int) == t[1]);
            self.t_max = span_bytes(s, a1, b1);
            assert(self@.coords =~= m.coords);
            assert(self@.profits =~= m.profits);
            assert(self@.nodes_of_cluster =~= m.nodes_of_cluster);
            return Ok(());
        }
        if span_is(s, a0, b0, &kw.node_section) {
            self.section = Section::Nodes;
            return Ok(());
        }
        if span_is(s, a0, b0, &kw.set_section) {
            self.section = Section::Sets;
            return Ok(());
        }
        if span_is(s, a0, b0, &kw.eof) {
            self.finished = true;
            return Ok(());
        }
        if self.section == Section::Nodes {
            if spans.len() < 3 {
                return Err(ParseError::MissingValue);
            }
            let (a1, b1) = spans[1];
            let (a2, b2) = spans[2];
            assert(s@.subrange(a1 as int, b1 as int) == t[1]);
            assert(s@.subrange(a2 as int, b2 as int) == t[2]);
            let x = span_bytes(s, a1, b1);
            let y = span_bytes(s, a2, b2);
            self.coords.push((x, y));
            assert(self@.coords =~= m.coords.push((t[1], t[2])));
            assert(self@.profits =~= m.profits);
            assert(self@.nodes_of_cluster =~= m.nodes_of_cluster);
            return Ok(());
        }
        if self.section == Section::Sets {
            match parse_usize(s, a0, b0) {
                None => {
                    return Err(ParseError::BadInteger);
                },
                Some(sid) => {
                    if spans.len() < 2 {
                        return Err(ParseError::MissingValue);
                    }
                    if sid >= self.profits.len() {
                        return Err(ParseError::SetOutOfRange);
                    }
                    let (a1, b1) = spans[1];
                    assert(s@.subrange(a1 as int, b1 as int) == t[1]);
                    let p = span_bytes(s, a1, b1);
                    self.profits.set(sid, p);
                    assert(self@.profits =~= m.profits.update(sid as int, t[1]));
                    assert(self@.coords =~= m.coords);
                    assert(self@.nodes_of_cluster =~= m.nodes_of_cluster);
                    return self.add_set_members(s, &spans, sid, Ghost(t));
                },
            }
        }
        Ok(())
    }

    /// The node tokens of a set line, from the third token on, added to set
    /// `sid`.
    fn add_set_members(
        &mut self,
        s: &[u8],
        spans: &Vec<(usize, usize)>,
        sid: usize,
        Ghost(t): Ghost<Seq<Seq<u8>>>,
    ) -> (r: Result<(), ParseError>)
        requires
            old(self).inv(),
            sid < old(self).nodes_of_cluster@.len(),
            spans_match(s@, spans@, t),
            2 <= spans@.len(),
        ensures
            final(self).inv(),
            match add_members(old(self)@, sid as int, t, 2) {
                Ok(m) => r is Ok && final(self)@ == m,
                Err(e) => r == Err::<(), ParseError>(e),
            },
    {
        let mut k: usize = 2;
        while k < spans.len()
            invariant
                2 <= k <= spans@.len(),
                self.inv(),
                sid < self.nodes_of_cluster@.len(),
                spans_match(s@, spans@, t),
                add_members(old(self)@, sid as int, t, 2) == add_members(self@, sid as int, t, k as int),
            decreases spans@.len() - k,
        {
            let (a, b) = spans[k];
            assert(s@.subrange(a as int, b as int) == t[k as int]);
            match parse_usize(s, a, b) {
                None => {
                    return Err(ParseError::BadInteger);
                },
                Some(id) => {
                    if id == 0 || id - 1 >= self.cluster_of_node.len() {
                        return Err(ParseError::NodeOutOfRange);
                    }
                    let ghost m = self@;
                    let mut members: Vec<usize> = Vec::new();
                    self.nodes_of_cluster.set_and_swap(sid, &mut members);
                    members.push(id - 1);
                    self.nodes_of_cluster.set_and_swap(sid, &mut members);
                    self.cluster_of_node.set(id - 1, sid);
                    proof {
                        let m2 = InstanceModel {
                            nodes_of_cluster: m.nodes_of_cluster.update(
                                sid as int,
                                m.nodes_of_cluster[sid as int].push((id - 1) as usize),
                            ),
                            cluster_of_node: m.cluster_of_node.update(id - 1, sid as usize),
                            ..m
                        };
                        assert(self@.nodes_of_cluster =~= m2.nodes_of_cluster);
                        assert(self@.cluster_of_node =~= m2.cluster_of_node);
                        assert(self@.profits =~= m2.profits);
                        assert(self@.coords =~= m2.coords);
                        assert(self@ == m2);
                    }
                },
            }
            k = k + 1;
        }
        Ok(())
    }
}

fn line_end_at(s: &[u8], i: usize) -> (r: usize)
    requires
        i <= s@.len(),
    ensures
        r == line_end(s@, i as int),
{
    let mut k = i;
    while k < s.len() && s[k] != 10
        invariant
            i <= k <= s@.len(),
            line_end(s@, k as int) == line_end(s@, i as int),
        decreases s@.len() - k,
    {
        k = k + 1;
    }
    k
}

/// The length of the UTF-8 encoding of a white space character beyond ASCII
/// that starts at `i` in `s` (U+0085, U+00A0, U+1680, U+2000 to U+200A, U+2028,
/// U+2029, U+202F, U+205F or U+3000), or 0 where none starts there.
pub open spec fn wide_space_len(s: Seq<u8>, i: int) -> int {
    if 0 <= i && i + 1 < s.len() && s[i] == 0xC2 && (s[i + 1] == 0x85 || s[i + 1] == 0xA0) {
        2
    } else if 0 <= i && i + 2 < s.len() && ((s[i] == 0xE1 && s[i + 1] == 0x9A && s[i + 2] == 0x80)
        || (s[i] == 0xE2 && s[i + 1] == 0x80 && ((0x80 <= s[i + 2] && s[i + 2] <= 0x8A) || s[i + 2]
        == 0xA8 || s[i + 2] == 0xA9 || s[i + 2] == 0xAF)) || (s[i] == 0xE2 && s[i + 1] == 0x81
        && s[i + 2] == 0x9F) || (s[i] == 0xE3 && s[i + 1] == 0x80 && s[i + 2] == 0x80)) {
        3
    } else {
        0
    }
}

/// The bytes of `s` from `i` on, each white space character beyond ASCII
/// written as a single space.
pub open spec fn fold_spaces_from(s: Seq<u8>, i: int) -> Seq<u8>
    decreases s.len() - i,
{
    if i < 0 || i >= s.len() {
        Seq::empty()
    } else if wide_space_len(s, i) > 0 {
        seq![32u8] + fold_spaces_from(s, i + wide_space_len(s, i))
    } else {
        seq![s[i]] + fold_spaces_from(s, i + 1)
    }
}

fn wide_space_len_at(s: &[u8], i: usize) -> (r: usize)
    requires
        i < s@.len(),
    ensures
        r == wide_space_len(s@, i as int),
{
    let n = s.len();
    if n - i > 1 && s[i] == 0xC2 && (s[i + 1] == 0x85 || s[i + 1] == 0xA0) {
        2
    } else if n - i > 2 && ((s[i] == 0xE1 && s[i + 1] == 0x9A && s[i + 2] == 0x80) || (s[i] == 0xE2
        && s[i + 1] == 0x80 && ((0x80 <= s[i + 2] && s[i + 2] <= 0x8A) || s[i + 2] == 0xA8 || s[i
        + 2] == 0xA9 || s[i + 2] == 0xAF)) || (s[i] == 0xE2 && s[i + 1] == 0x81 && s[i + 2] == 0x9F)
        || (s[i] == 0xE3 && s[i + 1] == 0x80 && s[i + 2] == 0x80)) {
        3
    } else {
        0
    }
}

/// The text with each white space character beyond ASCII written as a single
/// space.
pub fn fold_spaces(s: &[u8]) -> (r: Vec<u8>)
    ensures
        r@ == fold_spaces_from(s@, 0),
{
    let mut out: Vec<u8> = Vec::new();
    let mut i: usize = 0;
    while i < s.len()
        invariant
            i <= s@.len(),
            out@ + fold_spaces_from(s@, i as int) == fold_spaces_from(s@, 0),
        decreases s@.len() - i,
    {
        let l = wide_space_len_at(s, i);
        let ghost prev = out@;
        if l > 0 {
            out.push(32u8);
            proof {
                assert(prev + fold_spaces_from(s@, i as int) == prev + (seq![32u8] + fold_spaces_from(
                    s@,
                    i + l,
                )));
                assert(prev + (seq![32u8] + fold_spaces_from(s@, i + l)) =~= out@ + fold_spaces_from(
                    s@,
                    i + l,
                ));
            }
            i = i + l;
        } else {
            out.push(s[i]);
            proof {
                assert(prev + (seq![s@[i as int]] + fold_spaces_from(s@, i + 1)) =~= out@
                    + fold_spaces_from(s@, i + 1));
            }
            i = i + 1;
        }
    }
    proof {
        assert(out@ + fold_spaces_from(s@, i as int) =~= out@);
    }
    out
}

/// Reads the text of an instance file: its lines, split at white space (ASCII
/// or beyond, see `fold_spaces`), are applied in order to an empty reader, up
/// to the end of the text or a line `EOF`. Fails on the first line that cannot
/// be read.
pub fn parse_instance_text(s: &[u8]) -> (r: Result<InstanceText, ParseError>)
    ensures
        match read_instance(fold_spaces_from(s@, 0)) {
            Ok(m) => r matches Ok(x) && x@ == m && x.inv(),
            Err(e) => r == Err::<InstanceText, ParseError>(e),
        },
{
    let folded = fold_spaces(s);
    parse_folded(folded.as_slice())
}

/// Reads text whose white space is ASCII, as `parse_instance_text` does.
fn parse_folded(s: &[u8]) -> (r: Result<InstanceText, ParseError>)
    ensures
        match read_instance(s@) {
            Ok(m) => r matches Ok(x) && x@ == m && x.inv(),
            Err(e) => r == Err::<InstanceText, ParseError>(e),
        },
{
    let kw = Keywords::new();
    let mut st = InstanceText::new();
    let mut i: usize = 0;
    while i < s.len() && !st.finished
        invariant
            i <= s@.len(),
            kw.wf(),
            st.inv(),
            read_instance(s@) == read_lines(st@, s@, i as int),
        decreases s@.len() - i,
    {
        let e = line_end_at(s, i);
        proof {
            lemma_line_end(s@, i as int);
        }
        let ghost before = st@;
        assert(read_lines(before, s@, i as int) == match apply_line(
            before,
            tokens_from(s@, i as int, e as int),
        ) {
            Ok(m2) => read_lines(m2, s@, e + 1),
            Err(err) => Err(err),
        });
        match st.apply_line(s, i, e, &kw) {
            Ok(()) => {},
            Err(x) => {
                return Err(x);
            },
        }
        assert(read_lines(before, s@, i as int) == read_lines(st@, s@, e + 1));
        if e < s.len() {
            i = e + 1;
        } else {
            i = e;
            assert(read_lines(st@, s@, e + 1) == Ok::<InstanceModel, ParseError>(st@));
        }
    }
    Ok(st)
}

} // verus!
