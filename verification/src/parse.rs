use crate::ledger::Ledger;
use crate::ledger::Node;
use crate::ledger::ValidNode;
use crate::ledger::origin;
use vstd::prelude::*;

verus! {

// ---------------------------------------------------------------------------
// Whitespace and token structure of a line
// ---------------------------------------------------------------------------

/// ASCII whitespace: tab, line feed, vertical tab, form feed, carriage
/// return, space.
pub open spec fn is_space(b: u8) -> bool {
    b == 9 || b == 10 || b == 11 || b == 12 || b == 13 || b == 32
}

/// Width in bytes of the whitespace character starting at `i`, or 0 when
/// none starts there: the ASCII whitespace bytes and the UTF-8 encodings of
/// the other Unicode white-space characters (next line, no-break space,
/// ogham space mark, the en-quad..hair-space range, line and paragraph
/// separators, narrow no-break space, medium mathematical space, and
/// ideographic space).
pub open spec fn space_width(s: Seq<u8>, i: int) -> int {
    if !(0 <= i < s.len()) {
        0
    } else if is_space(s[i]) {
        1
    } else if s[i] == 0xc2 && i + 1 < s.len() && (s[i + 1] == 0x85 || s[i + 1] == 0xa0) {
        2
    } else if i + 2 < s.len() {
        if s[i] == 0xe1 && s[i + 1] == 0x9a && s[i + 2] == 0x80 {
            3
        } else if s[i] == 0xe2 && s[i + 1] == 0x80 && (0x80 <= s[i + 2] <= 0x8a || s[i + 2] == 0xa8
            || s[i + 2] == 0xa9 || s[i + 2] == 0xaf) {
            3
        } else if s[i] == 0xe2 && s[i + 1] == 0x81 && s[i + 2] == 0x9f {
            3
        } else if s[i] == 0xe3 && s[i + 1] == 0x80 && s[i + 2] == 0x80 {
            3
        } else {
            0
        }
    } else {
        0
    }
}

/// First index at or after `i` where a whitespace character starts or the
/// sequence ends: the end of the token running from `i`.
pub open spec fn token_end(s: Seq<u8>, i: int) -> int
    decreases s.len() - i,
{
    if i < s.len() && space_width(s, i) == 0 {
        token_end(s, i + 1)
    } else {
        i
    }
}

pub proof fn lemma_token_end_bounds(s: Seq<u8>, i: int)
    requires
        i <= s.len(),
    ensures
        i <= token_end(s, i) <= s.len(),
    decreases s.len() - i,
{
    if i < s.len() && space_width(s, i) == 0 {
        lemma_token_end_bounds(s, i + 1);
    }
}

/// The whitespace-separated tokens of `s` from index `i` on: maximal runs
/// of bytes at which no whitespace character starts, in order.
pub open spec fn tokens_from(s: Seq<u8>, i: int) -> Seq<Seq<u8>>
    decreases s.len() - i,
    via tokens_from_dec
{
    if i >= s.len() {
        Seq::empty()
    } else if space_width(s, i) > 0 {
        tokens_from(s, i + space_width(s, i))
    } else {
        seq![s.subrange(i, token_end(s, i))] + tokens_from(s, token_end(s, i))
    }
}

#[via_fn]
proof fn tokens_from_dec(s: Seq<u8>, i: int) {
    if i < s.len() && space_width(s, i) == 0 {
        lemma_token_end_bounds(s, i + 1);
    }
}

/// The tokens of a whole line.
pub open spec fn spec_tokens(s: Seq<u8>) -> Seq<Seq<u8>> {
    tokens_from(s, 0)
}

fn space_width_at(s: &[u8], i: usize) -> (w: usize)
    requires
        i < s@.len(),
    ensures
        w as int == space_width(s@, i as int),
{
    let b = s[i];
    if b == 9 || b == 10 || b == 11 || b == 12 || b == 13 || b == 32 {
        return 1;
    }
    let n = s.len();
    if b == 0xc2 && i + 1 < n && (s[i + 1] == 0x85 || s[i + 1] == 0xa0) {
        return 2;
    }
    if i + 1 < n && i + 2 < n {
        let b1 = s[i + 1];
        let b2 = s[i + 2];
        if b == 0xe1 && b1 == 0x9a && b2 == 0x80 {
            return 3;
        }
        if b == 0xe2 && b1 == 0x80 && ((0x80 <= b2 && b2 <= 0x8a) || b2 == 0xa8 || b2 == 0xa9
            || b2 == 0xaf) {
            return 3;
        }
        if b == 0xe2 && b1 == 0x81 && b2 == 0x9f {
            return 3;
        }
        if b == 0xe3 && b1 == 0x80 && b2 == 0x80 {
            return 3;
        }
    }
    0
}

/// Splits a line into its whitespace-separated tokens.
fn tokenize(line: &[u8]) -> (r: Vec<Vec<u8>>)
    ensures
        r.deep_view() == spec_tokens(line@),
{
    let n = line.len();
    let mut r: Vec<Vec<u8>> = Vec::new();
    let mut i: usize = 0;
    while i < n
        invariant
            i <= n,
            n == line@.len(),
            tokens_from(line@, 0) == r.deep_view() + tokens_from(line@, i as int),
        decreases n - i,
    {
        let w = space_width_at(line, i);
        if w > 0 {
            i = i + w;
        } else {
            let ghost start = i as int;
            let ghost dv0 = r.deep_view();
            let mut tok: Vec<u8> = Vec::new();
            while i < n && space_width_at(line, i) == 0
                invariant
                    0 <= start <= i <= n,
                    n == line@.len(),
                    tok@ == line@.subrange(start, i as int),
                    token_end(line@, start) == token_end(line@, i as int),
                decreases n - i,
            {
                tok.push(line[i]);
                proof {
                    assert(tok@ =~= line@.subrange(start, i + 1));
                }
                i = i + 1;
            }
            proof {
                assert(token_end(line@, i as int) == i as int);
                assert(tok@ == line@.subrange(start, token_end(line@, start)));
            }
            let ghost tokv = tok@;
            r.push(tok);
            proof {
                assert(r.deep_view() =~~= dv0 + seq![tokv]);
                assert(tokens_from(line@, start) == seq![tokv] + tokens_from(
                    line@,
                    i as int,
                ));
                assert(dv0 + (seq![tokv] + tokens_from(line@, i as int)) =~= (dv0 + seq![tokv])
                    + tokens_from(line@, i as int));
            }
        }
    }
    proof {
        assert(r.deep_view() + tokens_from(line@, i as int) =~= r.deep_view());
    }
    r
}

// ---------------------------------------------------------------------------
// Unsigned decimal numbers
// ---------------------------------------------------------------------------

pub open spec fn is_digit(b: u8) -> bool {
    48 <= b && b <= 57
}

/// Value of a string of decimal digits (most significant first).
pub open spec fn digits_val(s: Seq<u8>) -> int
    decreases s.len(),
{
    if s.len() == 0 {
        0
    } else {
        10 * digits_val(s.drop_last()) + (s.last() - 48)
    }
}

pub open spec fn all_digits(s: Seq<u8>) -> bool {
    forall|k: int| 0 <= k < s.len() ==> is_digit(#[trigger] s[k])
}

/// The digits of an unsigned decimal token, with at most one leading `+`
/// sign allowed.
pub open spec fn uint_body(tok: Seq<u8>) -> Seq<u8> {
    if tok.len() > 0 && tok[0] == 43 {
        tok.drop_first()
    } else {
        tok
    }
}

/// What parsing a token as an unsigned decimal integer yields: the digits'
/// value when the token is well-formed and the value is at most `max`,
/// nothing otherwise.
pub open spec fn spec_parse_uint(tok: Seq<u8>, max: int) -> Option<int> {
    let body = uint_body(tok);
    if body.len() > 0 && all_digits(body) && digits_val(body) <= max {
        Some(digits_val(body))
    } else {
        None
    }
}

pub proof fn lemma_digits_val_nonneg(s: Seq<u8>)
    requires
        all_digits(s),
    ensures
        digits_val(s) >= 0,
    decreases s.len(),
{
    if s.len() > 0 {
        assert(all_digits(s.drop_last()));
        lemma_digits_val_nonneg(s.drop_last());
    }
}

/// A digit string's value only grows as more digits are appended.
pub proof fn lemma_digits_val_prefix(s: Seq<u8>, k: int)
    requires
        all_digits(s),
        0 <= k <= s.len(),
    ensures
        digits_val(s.take(k)) <= digits_val(s),
    decreases s.len() - k,
{
    if k == s.len() {
        assert(s.take(k) =~= s);
    } else {
        assert(s.take(k + 1).drop_last() =~= s.take(k));
        assert(all_digits(s.take(k)));
        lemma_digits_val_nonneg(s.take(k));
        assert(digits_val(s.take(k + 1)) == 10 * digits_val(s.take(k)) + (s[k] - 48));
        lemma_digits_val_prefix(s, k + 1);
    }
}

fn is_digit_byte(b: u8) -> (r: bool)
    ensures
        r == is_digit(b),
{
    48 <= b && b <= 57
}

/// Parses a token as an unsigned 64-bit decimal integer.
fn parse_u64_token(tok: &[u8]) -> (r: Option<u64>)
    ensures
        r is Some <==> spec_parse_uint(tok@, u64::MAX as int) is Some,
        r is Some ==> r->Some_0 as int == spec_parse_uint(tok@, u64::MAX as int)->Some_0,
{
    let n = tok.len();
    let start: usize = if n > 0 && tok[0] == 43 {
        1
    } else {
        0
    };
    proof {
        assert(uint_body(tok@) =~= tok@.subrange(start as int, n as int));
    }
    if start == n {
        return None;
    }
    let ghost body = uint_body(tok@);
    let mut acc: u64 = 0;
    let mut i: usize = start;
    while i < n
        invariant
            start <= i <= n,
            n == tok@.len(),
            body == uint_body(tok@),
            body == tok@.subrange(start as int, n as int),
            all_digits(body.take(i - start)),
            acc == digits_val(body.take(i - start)),
        decreases n - i,
    {
        let b = tok[i];
        if !is_digit_byte(b) {
            proof {
                assert(body[i - start] == tok@[i as int]);
                assert(!all_digits(body));
            }
            return None;
        }
        let d = b - 48;
        proof {
            assert(body.take(i - start + 1).drop_last() =~= body.take(i - start));
            assert(body.take(i - start + 1).last() == tok@[i as int]);
            assert(all_digits(body.take(i - start + 1)));
        }
        if acc > (u64::MAX - (d as u64)) / 10 {
            // The digits seen so far already exceed what fits: the full
            // token is either over the limit or not a number at all.
            proof {
                assert(10 * (acc as int) + d > u64::MAX) by (nonlinear_arith)
                    requires
                        acc > (u64::MAX - (d as u64)) / 10,
                        0 <= d <= 9,
                        acc <= u64::MAX,
                ;
                if all_digits(body) {
                    lemma_digits_val_prefix(body, i - start + 1);
                    assert(digits_val(body) > u64::MAX);
                }
            }
            return None;
        }
        proof {
            assert(10 * (acc as int) + d <= u64::MAX) by (nonlinear_arith)
                requires
                    acc <= (u64::MAX - (d as u64)) / 10,
                    0 <= d <= 9,
            ;
        }
        acc = acc * 10 + (d as u64);
        i = i + 1;
    }
    proof {
        assert(body.take(i - start) =~= body);
    }
    Some(acc)
}

/// Parses a token as an unsigned decimal integer that must fit in `usize`.
fn parse_usize_token(tok: &[u8]) -> (r: Option<usize>)
    ensures
        r is Some <==> spec_parse_uint(tok@, usize::MAX as int) is Some,
        r is Some ==> r->Some_0 as int == spec_parse_uint(tok@, usize::MAX as int)->Some_0,
{
    match parse_u64_token(tok) {
        Some(v) => {
            if v <= usize::MAX as u64 {
                Some(v as usize)
            } else {
                None
            }
        },
        None => None,
    }
}

// ---------------------------------------------------------------------------
// Per-record validation
// ---------------------------------------------------------------------------

/// Why one record failed validation. Every cause but `MissingToken`
/// invalidates only the record itself; a line with fewer than three tokens
/// aborts the whole parse.
#[derive(Debug, PartialEq, Eq, Clone, Copy)]
pub enum NodeParseError {
    ZeroNode,
    FutureRef,
    SelfRef,
    NoValidRef,
    InvalidTimestamp,
    ParseError,
    MissingToken,
}

/// A whole-run failure: the ledger text itself is malformed.
#[derive(Debug, PartialEq, Eq, Clone, Copy)]
pub enum FatalError {
    /// The header line is missing or blank, or a record line has fewer than
    /// three tokens.
    InputError,
    /// The header line is not a single unsigned integer that fits the
    /// machine word.
    ParseError,
    /// The stream ended before the declared number of records was read.
    UnexpectedEndOfInput,
    /// Non-blank content follows the declared records.
    ExpectedEndOfInput,
}

/// How a 0-indexed reference resolves: a position holding a known-invalid
/// record resolves to nothing; every other position resolves to itself.
pub open spec fn spec_ok_ref(node_ref: int, nodes: Seq<Node>) -> Option<usize>
    recommends
        0 <= node_ref <= usize::MAX,
{
    if 0 <= node_ref < nodes.len() && nodes[node_ref] is Invalid {
        None
    } else {
        Some(node_ref as usize)
    }
}

/// Whether a candidate timestamp precedes the timestamp of an already-valid
/// record it references.
pub open spec fn spec_invalid_timestamp(node_ref: int, timestamp: u64, nodes: Seq<Node>) -> bool {
    0 <= node_ref < nodes.len() && nodes[node_ref] is Valid && timestamp < nodes[
        node_ref
    ]->Valid_0.timestamp
}

/// Validation of one record from its three parsed tokens, against the
/// internal sequence `nodes` built so far (origin included). The reference
/// tokens are 1-indexed; 0 is not addressable. The forward bound admits a
/// reference up to one position past the record currently being created.
pub open spec fn spec_check_node(
    left_tok: int,
    right_tok: int,
    timestamp: u64,
    nodes: Seq<Node>,
) -> Result<ValidNode, NodeParseError>
    recommends
        0 <= left_tok <= usize::MAX,
        0 <= right_tok <= usize::MAX,
{
    let next_index = nodes.len() + 1;
    if left_tok == 0 || right_tok == 0 {
        Err(NodeParseError::ZeroNode)
    } else {
        let li = left_tok - 1;
        let ri = right_tok - 1;
        if li > next_index || ri > next_index {
            Err(NodeParseError::FutureRef)
        } else if li == next_index && ri == next_index {
            Err(NodeParseError::SelfRef)
        } else if spec_invalid_timestamp(li, timestamp, nodes) || spec_invalid_timestamp(
            ri,
            timestamp,
            nodes,
        ) {
            Err(NodeParseError::InvalidTimestamp)
        } else {
            let left = spec_ok_ref(li, nodes);
            let right = spec_ok_ref(ri, nodes);
            if left is None && right is None {
                Err(NodeParseError::NoValidRef)
            } else {
                Ok(ValidNode { left, right, timestamp })
            }
        }
    }
}

/// What parsing one record line against the internal sequence `nodes`
/// yields. Tokens are read left to right: a missing token is found only
/// after the tokens before it parsed.
pub open spec fn spec_parse_node(line: Seq<u8>, nodes: Seq<Node>) -> Result<
    ValidNode,
    NodeParseError,
> {
    let toks = spec_tokens(line);
    if toks.len() == 0 {
        Err(NodeParseError::MissingToken)
    } else if spec_parse_uint(toks[0], usize::MAX as int) is None {
        Err(NodeParseError::ParseError)
    } else if toks.len() == 1 {
        Err(NodeParseError::MissingToken)
    } else if spec_parse_uint(toks[1], usize::MAX as int) is None {
        Err(NodeParseError::ParseError)
    } else if toks.len() == 2 {
        Err(NodeParseError::MissingToken)
    } else if spec_parse_uint(toks[2], u64::MAX as int) is None {
        Err(NodeParseError::ParseError)
    } else {
        spec_check_node(
            spec_parse_uint(toks[0], usize::MAX as int)->Some_0,
            spec_parse_uint(toks[1], usize::MAX as int)->Some_0,
            spec_parse_uint(toks[2], u64::MAX as int)->Some_0 as u64,
            nodes,
        )
    }
}

impl Ledger {
    /// Resolves a 0-indexed reference against the records seen so far.
    pub fn ok_ref(node_ref: usize, nodes: &Vec<Node>) -> (r: Option<usize>)
        ensures
            r == spec_ok_ref(node_ref as int, nodes@),
    {
        if node_ref < nodes.len() {
            match nodes[node_ref] {
                Node::Invalid => {
                    return None;
                },
                Node::Valid(_) => {},
            }
        }
        Some(node_ref)
    }

    /// Whether a candidate timestamp precedes the timestamp of an
    /// already-valid record it references.
    pub fn invalid_timestamp(node_ref: usize, timestamp: u64, nodes: &Vec<Node>) -> (r: bool)
        ensures
            r == spec_invalid_timestamp(node_ref as int, timestamp, nodes@),
    {
        if node_ref < nodes.len() {
            match nodes[node_ref] {
                Node::Valid(node) => {
                    if timestamp < node.timestamp {
                        return true;
                    }
                },
                Node::Invalid => {},
            }
        }
        false
    }

    /// Parses and validates one record line against the internal sequence
    /// built so far (origin included).
    pub fn parse_node(line: &[u8], nodes: &Vec<Node>) -> (r: Result<ValidNode, NodeParseError>)
        ensures
            r == spec_parse_node(line@, nodes@),
    {
        let toks = tokenize(line);
        if toks.len() == 0 {
            return Err(NodeParseError::MissingToken);
        }
        proof {
            assert(toks@[0].deep_view() =~= toks@[0]@);
        }
        let left_tok = match parse_usize_token(toks[0].as_slice()) {
            Some(v) => v,
            None => {
                return Err(NodeParseError::ParseError);
            },
        };
        if toks.len() == 1 {
            return Err(NodeParseError::MissingToken);
        }
        proof {
            assert(toks@[1].deep_view() =~= toks@[1]@);
        }
        let right_tok = match parse_usize_token(toks[1].as_slice()) {
            Some(v) => v,
            None => {
                return Err(NodeParseError::ParseError);
            },
        };
        if toks.len() == 2 {
            return Err(NodeParseError::MissingToken);
        }
        proof {
            assert(toks@[2].deep_view() =~= toks@[2]@);
        }
        let timestamp = match parse_u64_token(toks[2].as_slice()) {
            Some(v) => v,
            None => {
                return Err(NodeParseError::ParseError);
            },
        };
        if left_tok == 0 || right_tok == 0 {
            return Err(NodeParseError::ZeroNode);
        }
        // Change to zero index. The bound comparisons are phrased to avoid
        // computing `nodes.len() + 1` in machine arithmetic.
        let li = left_tok - 1;
        let ri = right_tok - 1;
        if (li >= 1 && li - 1 > nodes.len()) || (ri >= 1 && ri - 1 > nodes.len()) {
            return Err(NodeParseError::FutureRef);
        }
        if (li >= 1 && li - 1 == nodes.len()) && (ri >= 1 && ri - 1 == nodes.len()) {
            return Err(NodeParseError::SelfRef);
        }
        if Ledger::invalid_timestamp(li, timestamp, nodes) || Ledger::invalid_timestamp(
            ri,
            timestamp,
            nodes,
        ) {
            return Err(NodeParseError::InvalidTimestamp);
        }
        let left = Ledger::ok_ref(li, nodes);
        let right = Ledger::ok_ref(ri, nodes);
        if left.is_none() && right.is_none() {
            return Err(NodeParseError::NoValidRef);
        }
        Ok(ValidNode { left, right, timestamp })
    }
}

// ---------------------------------------------------------------------------
// The stream: lines, header, record list, trailing blanks
// ---------------------------------------------------------------------------

/// First index at or after `i` that is the end of the stream or holds a
/// line feed.
pub open spec fn line_end(s: Seq<u8>, i: int) -> int
    decreases s.len() - i,
{
    if i < s.len() && s[i] != 10 {
        line_end(s, i + 1)
    } else {
        i
    }
}

pub proof fn lemma_line_end_bounds(s: Seq<u8>, i: int)
    requires
        i <= s.len(),
    ensures
        i <= line_end(s, i) <= s.len(),
    decreases s.len() - i,
{
    if i < s.len() && s[i] != 10 {
        lemma_line_end_bounds(s, i + 1);
    }
}

/// The line starting at `i`, without its terminating line feed.
pub open spec fn spec_line(s: Seq<u8>, i: int) -> Seq<u8> {
    s.subrange(i, line_end(s, i))
}

/// Where reading the line starting at `i` leaves the cursor.
pub open spec fn next_pos(s: Seq<u8>, i: int) -> int {
    if line_end(s, i) < s.len() {
        line_end(s, i) + 1
    } else {
        line_end(s, i)
    }
}

/// What reading `k` record lines from position `pos` yields: the extended
/// internal sequence and the cursor after the last line, or the fatal
/// failure that stopped the pass. A record that fails validation is
/// appended as `Invalid`; only a line with fewer than three tokens, or a
/// stream that ends early, is fatal.
pub open spec fn spec_parse_records(s: Seq<u8>, pos: int, k: nat, nodes: Seq<Node>) -> Result<
    (Seq<Node>, int),
    FatalError,
>
    decreases k,
{
    if k == 0 {
        Ok((nodes, pos))
    } else if pos >= s.len() {
        Err(FatalError::UnexpectedEndOfInput)
    } else {
        let line = spec_line(s, pos);
        let p2 = next_pos(s, pos);
        match spec_parse_node(line, nodes) {
            Ok(v) => spec_parse_records(s, p2, (k - 1) as nat, nodes.push(Node::Valid(v))),
            Err(e) => if e == NodeParseError::MissingToken {
                Err(FatalError::InputError)
            } else {
                spec_parse_records(s, p2, (k - 1) as nat, nodes.push(Node::Invalid))
            },
        }
    }
}

/// Whether everything from `pos` to the end of the stream is blank.
pub open spec fn spec_trailing_ok(s: Seq<u8>, pos: int) -> bool
    decreases s.len() - pos,
    via spec_trailing_ok_dec
{
    if pos >= s.len() {
        true
    } else {
        spec_tokens(spec_line(s, pos)).len() == 0 && spec_trailing_ok(s, next_pos(s, pos))
    }
}

#[via_fn]
proof fn spec_trailing_ok_dec(s: Seq<u8>, pos: int) {
    if pos < s.len() {
        lemma_line_end_bounds(s, pos);
    }
}

/// The declared record count, when the header line holds exactly one
/// unsigned integer that fits the machine word.
pub open spec fn spec_header_count(line: Seq<u8>) -> Option<int> {
    let toks = spec_tokens(line);
    if toks.len() == 1 {
        spec_parse_uint(toks[0], usize::MAX as int)
    } else {
        None
    }
}

/// What parsing a whole stream yields: the externally visible sequence
/// (origin stripped), or the fatal failure.
pub open spec fn spec_parse(s: Seq<u8>) -> Result<Seq<Node>, FatalError> {
    let header = spec_line(s, 0);
    if spec_tokens(header).len() == 0 {
        Err(FatalError::InputError)
    } else if spec_header_count(header) is None {
        Err(FatalError::ParseError)
    } else {
        let n = spec_header_count(header)->Some_0;
        match spec_parse_records(s, next_pos(s, 0), n as nat, seq![origin()]) {
            Ok(p) => if spec_trailing_ok(s, p.1) {
                Ok(p.0.drop_first())
            } else {
                Err(FatalError::ExpectedEndOfInput)
            },
            Err(e) => Err(e),
        }
    }
}

// ---------------------------------------------------------------------------
// Laws of the parser
// ---------------------------------------------------------------------------

/// Reading `k` record lines to completion appends exactly `k` nodes, one
/// per declared record, valid or not.
pub proof fn lemma_parse_records_len(s: Seq<u8>, pos: int, k: nat, nodes: Seq<Node>)
    requires
        spec_parse_records(s, pos, k, nodes) is Ok,
    ensures
        spec_parse_records(s, pos, k, nodes)->Ok_0.0.len() == nodes.len() + k,
    decreases k,
{
    if k > 0 && pos < s.len() {
        let res = spec_parse_node(spec_line(s, pos), nodes);
        if res is Ok {
            lemma_parse_records_len(
                s,
                next_pos(s, pos),
                (k - 1) as nat,
                nodes.push(Node::Valid(res->Ok_0)),
            );
        } else if res->Err_0 != NodeParseError::MissingToken {
            lemma_parse_records_len(s, next_pos(s, pos), (k - 1) as nat, nodes.push(Node::Invalid));
        }
    }
}

/// For every input that parses, the externally visible sequence has exactly
/// the length the header declared.
pub proof fn lemma_parse_len(s: Seq<u8>)
    requires
        spec_parse(s) is Ok,
    ensures
        spec_header_count(spec_line(s, 0)) is Some,
        spec_parse(s)->Ok_0.len() == spec_header_count(spec_line(s, 0))->Some_0,
{
    let header = spec_line(s, 0);
    let toks = spec_tokens(header);
    let n = spec_header_count(header)->Some_0;
    lemma_digits_val_nonneg(uint_body(toks[0]));
    lemma_parse_records_len(s, next_pos(s, 0), n as nat, seq![origin()]);
}

/// A record whose reference tokens are both zero is always invalid,
/// whatever its timestamp and whatever records came before it.
pub proof fn lemma_zero_refs_invalid(timestamp: u64, nodes: Seq<Node>)
    ensures
        spec_check_node(0, 0, timestamp, nodes) == Err::<ValidNode, NodeParseError>(
            NodeParseError::ZeroNode,
        ),
{
}

/// A record referencing a position beyond the permitted forward bound is
/// always invalid.
pub proof fn lemma_future_ref_invalid(
    left_tok: int,
    right_tok: int,
    timestamp: u64,
    nodes: Seq<Node>,
)
    requires
        left_tok - 1 > nodes.len() + 1 || right_tok - 1 > nodes.len() + 1,
    ensures
        spec_check_node(left_tok, right_tok, timestamp, nodes) is Err,
{
}

/// A record both of whose references resolve to nothing is always invalid.
pub proof fn lemma_no_valid_ref_invalid(
    left_tok: int,
    right_tok: int,
    timestamp: u64,
    nodes: Seq<Node>,
)
    requires
        spec_ok_ref(left_tok - 1, nodes) is None,
        spec_ok_ref(right_tok - 1, nodes) is None,
    ensures
        spec_check_node(left_tok, right_tok, timestamp, nodes) is Err,
{
}

/// Reads the line starting at `start`, without its terminating line feed,
/// and returns it with the position after it.
fn read_line(s: &[u8], start: usize) -> (r: (Vec<u8>, usize))
    requires
        start <= s@.len(),
    ensures
        r.0@ == spec_line(s@, start as int),
        r.1 as int == next_pos(s@, start as int),
        start <= r.1 <= s@.len(),
        start < s@.len() ==> start < r.1,
{
    let n = s.len();
    let mut line: Vec<u8> = Vec::new();
    let mut i: usize = start;
    while i < n && s[i] != 10
        invariant
            start <= i <= n,
            n == s@.len(),
            line_end(s@, start as int) == line_end(s@, i as int),
            line@ == s@.subrange(start as int, i as int),
        decreases n - i,
    {
        line.push(s[i]);
        proof {
            assert(line@ =~= s@.subrange(start as int, i + 1));
        }
        i = i + 1;
    }
    proof {
        assert(line_end(s@, i as int) == i as int);
    }
    if i < n {
        (line, i + 1)
    } else {
        (line, i)
    }
}

impl Ledger {
    /// Parses a whole ledger stream: one header line declaring the record
    /// count, that many record lines, then only blank lines. Every record
    /// line yields one node, valid or invalid; a malformed header, a short
    /// stream, a record line with fewer than three tokens, or non-blank
    /// trailing content is fatal.
    #[verifier::loop_isolation(false)]
    pub fn parse(input: &[u8]) -> (r: Result<Ledger, FatalError>)
        ensures
            match spec_parse(input@) {
                Ok(s) => r is Ok && r->Ok_0@ == s,
                Err(e) => r is Err && r->Err_0 == e,
            },
    {
        let n_input = input.len();
        let (header, mut pos) = read_line(input, 0);
        let toks = tokenize(header.as_slice());
        if toks.len() == 0 {
            return Err(FatalError::InputError);
        }
        if toks.len() != 1 {
            return Err(FatalError::ParseError);
        }
        proof {
            assert(toks@[0].deep_view() =~= toks@[0]@);
        }
        let num_nodes = match parse_usize_token(toks[0].as_slice()) {
            Some(v) => v,
            None => {
                return Err(FatalError::ParseError);
            },
        };
        let mut nodes: Vec<Node> = Vec::new();
        nodes.push(Node::new(0, 0, 0));
        let ghost pos0 = pos as int;
        let mut i: usize = 0;
        while i < num_nodes
            invariant
                i <= num_nodes,
                pos <= n_input,
                nodes@.len() == i + 1,
                spec_parse_records(input@, pos0, num_nodes as nat, seq![origin()])
                    == spec_parse_records(input@, pos as int, (num_nodes - i) as nat, nodes@),
            decreases num_nodes - i,
        {
            if pos >= n_input {
                return Err(FatalError::UnexpectedEndOfInput);
            }
            let (line, p2) = read_line(input, pos);
            let ghost old_nodes = nodes@;
            let ghost old_pos = pos as int;
            pos = p2;
            match Ledger::parse_node(line.as_slice(), &nodes) {
                Ok(v) => {
                    nodes.push(Node::Valid(v));
                },
                Err(e) => {
                    match e {
                        NodeParseError::MissingToken => {
                            return Err(FatalError::InputError);
                        },
                        _ => {
                            nodes.push(Node::Invalid);
                        },
                    }
                },
            }
            proof {
                assert(spec_parse_records(
                    input@,
                    old_pos,
                    (num_nodes - i) as nat,
                    old_nodes,
                ) == spec_parse_records(input@, pos as int, (num_nodes - i - 1) as nat, nodes@));
            }
            i = i + 1;
        }
        let ghost end_pos = pos as int;
        while pos < n_input
            invariant
                pos <= n_input,
                spec_trailing_ok(input@, end_pos) == spec_trailing_ok(input@, pos as int),
            decreases n_input - pos,
        {
            let (line, p2) = read_line(input, pos);
            let blank_toks = tokenize(line.as_slice());
            if blank_toks.len() > 0 {
                return Err(FatalError::ExpectedEndOfInput);
            }
            pos = p2;
        }
        // Exclude the origin node.
        let ghost full = nodes@;
        nodes.remove(0);
        proof {
            assert(nodes@ =~= full.drop_first());
        }
        Ok(Ledger(nodes))
    }
}

} // verus!
