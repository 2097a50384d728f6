use crate::element::{
    all_white, all_white_text, classify, closer_of, end_line, get_end_bracket, get_element, is_blank, is_white, is_whitespace_char, leaf,
    lemma_trees_len, lemma_trees_push, opt_tree, same_text, trees, Element, Tree, Value,
    ValueType, ValueView,
};
use vstd::prelude::*;

verus! {

/// The characters of each string, in order.
pub open spec fn texts(v: Seq<String>) -> Seq<Seq<char>> {
    v.map_values(|t: String| t@)
}

/// ASCII punctuation: printable, neither a letter, a digit nor a space.
pub open spec fn is_punct(c: char) -> bool {
    ('!' <= c && c <= '/') || (':' <= c && c <= '@') || ('[' <= c && c <= '`') || ('{' <= c
        && c <= '~')
}

/// The tokens so far, with the pending buffer added when it holds anything.
pub open spec fn flush(ts: Seq<Seq<char>>, buf: Seq<char>) -> Seq<Seq<char>> {
    if buf.len() > 0 {
        ts.push(buf)
    } else {
        ts
    }
}

/// The tokens of `s` from index `i` on, given the tokens `ts` already emitted
/// and the pending buffer `buf`. A whitespace run and a run of other
/// characters each make one token, each punctuation character is a token of
/// its own, `#` ends the line, and a line separator token closes the list.
pub open spec fn scan(s: Seq<char>, i: int, ts: Seq<Seq<char>>, buf: Seq<char>) -> Seq<Seq<char>>
    decreases s.len() - i,
{
    if i < 0 || i >= s.len() {
        flush(ts, buf).push(end_line())
    } else {
        let c = s[i];
        if is_white(c) {
            if buf.len() > 0 && !is_white(buf[0]) {
                scan(s, i + 1, ts.push(buf), seq![c])
            } else {
                scan(s, i + 1, ts, buf.push(c))
            }
        } else if is_punct(c) {
            if c == '#' {
                flush(ts, buf).push(end_line())
            } else {
                scan(s, i + 1, flush(ts, buf).push(seq![c]), Seq::empty())
            }
        } else {
            if buf.len() > 0 && is_white(buf[0]) {
                scan(s, i + 1, ts.push(buf), seq![c])
            } else {
                scan(s, i + 1, ts, buf.push(c))
            }
        }
    }
}

/// The tokens of one line of text.
pub open spec fn tokens_of(s: Seq<char>) -> Seq<Seq<char>> {
    scan(s, 0, Seq::empty(), Seq::empty())
}

/// Relies on `String::push`: it appends one character.
#[verifier::external_body]
fn push_char(s: &mut String, c: char)
    ensures
        final(s)@ == old(s)@.push(c),
{
    s.push(c)
}

fn is_punct_char(c: char) -> (r: bool)
    ensures
        r == is_punct(c),
{
    ('!' <= c && c <= '/') || (':' <= c && c <= '@') || ('[' <= c && c <= '`') || ('{' <= c
        && c <= '~')
}

/// Appends one finished token.
fn push_token(tokens: &mut Vec<String>, t: String)
    ensures
        texts(final(tokens)@) == texts(old(tokens)@).push(t@),
{
    tokens.push(t);
    assert(texts(final(tokens)@) =~= texts(old(tokens)@).push(t@));
}

/// Splits one line into tokens and appends the line separator.
pub fn line_to_tokens(buffer: &str) -> (r: Vec<String>)
    ensures
        texts(r@) == tokens_of(buffer@),
{
    let ghost s = buffer@;
    let n = buffer.unicode_len();
    let mut tokens: Vec<String> = Vec::new();
    let mut token = String::new();
    let mut i: usize = 0;
    assert(texts(tokens@) =~= Seq::<Seq<char>>::empty());
    while i < n
        invariant
            n == s.len(),
            s == buffer@,
            i <= n,
            scan(s, i as int, texts(tokens@), token@) == tokens_of(s),
        ensures
            scan(s, n as int, texts(tokens@), token@) == tokens_of(s),
        decreases n - i,
    {
        let c = buffer.get_char(i);
        let ghost ts0 = texts(tokens@);
        let ghost b0 = token@;
        if is_whitespace_char(c) {
            if token.unicode_len() > 0 && !is_whitespace_char(token.as_str().get_char(0)) {
                push_token(&mut tokens, token);
                token = String::new();
            }
            push_char(&mut token, c);
            assert(token@ =~= if b0.len() > 0 && !is_white(b0[0]) { seq![c] } else { b0.push(c) });
        } else if is_punct_char(c) {
            if token.unicode_len() > 0 {
                push_token(&mut tokens, token);
                token = String::new();
            }
            if c == '#' {
                assert(token@ =~= Seq::<char>::empty());
                i = n;
                break;
            }
            let mut one = String::new();
            push_char(&mut one, c);
            assert(one@ =~= seq![c]);
            push_token(&mut tokens, one);
            assert(texts(tokens@) == flush(ts0, b0).push(seq![c]));
            assert(token@ =~= Seq::<char>::empty());
        } else {
            if token.unicode_len() > 0 && is_whitespace_char(token.as_str().get_char(0)) {
                push_token(&mut tokens, token);
                token = String::new();
            }
            push_char(&mut token, c);
            assert(token@ =~= if b0.len() > 0 && is_white(b0[0]) { seq![c] } else { b0.push(c) });
        }
        i += 1;
    }
    proof {
        reveal_strlit("\n");
        assert("\n"@ =~= end_line());
    }
    assert(tokens_of(s) == flush(texts(tokens@), token@).push(end_line()));
    if token.unicode_len() > 0 {
        push_token(&mut tokens, token);
    }
    let eol = "\n".to_owned();
    assert(eol@ == end_line());
    push_token(&mut tokens, eol);
    tokens
}

/// The fatal faults that abort a parse.
#[derive(Debug, Clone, Copy, PartialEq, Eq, Structural)]
pub enum ParseError {
    /// A bracket that opens no known scope, such as a stray closer.
    UnmatchedBracket,
    /// `let` not followed by an `=` binding.
    LetWithoutAssign,
    /// `if` with no condition.
    IfWithoutCondition,
    /// `if` whose condition is not followed by a `{` scope.
    IfWithoutBrace,
    /// `else` with no body.
    ElseWithoutBody,
    /// Two top-level statements with no line break between them.
    MissingSeparator,
    /// An announced operator that could not be read.
    MissingOperator,
    /// An operator that would have to bind inside an operator with no operand.
    MisplacedOperator,
    /// A statement of a whole-file parse that starts with a token that
    /// stands for no value.
    UnrecognizedToken,
}

/// What a parse step yields: the element read, if any, and the cursor after it.
pub type Parsed = Result<(Option<Tree>, int), ParseError>;

/// The children read in a loop, and the cursor after them.
pub type ParsedItems = Result<(Seq<Tree>, int), ParseError>;

/// Tokens left from position `p` on.
pub open spec fn rem(ts: Seq<Seq<char>>, p: int) -> int {
    if 0 <= p < ts.len() {
        ts.len() - p
    } else {
        0
    }
}

/// The whole-file form ranks above every other.
pub open spec fn rank(limit: int) -> int {
    if limit == -1 {
        3
    } else {
        1
    }
}

pub open spec fn else_word() -> Seq<char> {
    seq!['e', 'l', 's', 'e']
}

/// Rebuilds `expect` from the tokens from `cur` on, passing over blank
/// tokens, once `acc` has been gathered; the cursor after it on a match.
pub open spec fn read_literal(ts: Seq<Seq<char>>, cur: int, acc: Seq<char>, expect: Seq<char>) -> Option<int>
    decreases rem(ts, cur),
{
    if acc.len() >= expect.len() {
        if acc == expect {
            Some(cur)
        } else {
            None
        }
    } else if cur < 0 || cur >= ts.len() {
        None
    } else {
        read_literal(ts, cur + 1, if is_blank(ts[cur]) { acc } else { acc + ts[cur] }, expect)
    }
}

/// The classification of the first token from `p` on that is not a
/// whitespace run (nor a line separator, where `skip_lines`).
pub open spec fn peek(ts: Seq<Seq<char>>, p: int, skip_lines: bool) -> Option<ValueView>
    decreases rem(ts, p),
{
    if p < 0 || p >= ts.len() {
        None
    } else {
        let c = classify(ts[p]);
        if c matches Some(ValueView::Space(_)) || (skip_lines && c matches Some(ValueView::EndLine)) {
            peek(ts, p + 1, skip_lines)
        } else {
            c
        }
    }
}

/// Whether an operator of precedence `pr` can be placed into `t`: on its way
/// down the right spine it never meets an operator without operands.
pub open spec fn can_graft(t: Tree, pr: i32) -> bool
    decreases t,
{
    match t.value {
        ValueView::Operator(_, q) => if pr > q {
            t.children.len() > 0 && can_graft(t.children[t.children.len() - 1], pr)
        } else {
            true
        },
        _ => true,
    }
}

/// Places operator node `o` of precedence `pr`, with right operand `r`, into
/// `t`: inside the rightmost branch while `t` is an operator that binds less
/// tightly, above it otherwise.
pub open spec fn graft(t: Tree, o: Tree, pr: i32, r: Option<Tree>) -> Tree
    decreases t,
{
    let descend = match t.value {
        ValueView::Operator(_, q) => pr > q && t.children.len() > 0,
        _ => false,
    };
    if descend {
        Tree {
            value: t.value,
            value_type: t.value_type,
            children: t.children.drop_last().push(
                graft(t.children[t.children.len() - 1], o, pr, r),
            ),
        }
    } else {
        Tree {
            value: o.value,
            value_type: o.value_type,
            children: match r {
                Some(x) => o.children.push(t).push(x),
                None => o.children.push(t),
            },
        }
    }
}

// The cursor comparisons in the parsing functions below (a step that would
// not move the cursor forward ends the step) never decide anything on a real
// parse: each executable function proves that its sub-parses advance. They
// make the termination of the recursion evident.

/// The element at `pos`: read with `expect` rebuilt from the tokens, or the
/// single token there when `expect` is empty; at `limit == -1` the whole file.
/// Operators of precedence below `limit` are not read; `end` is the closer
/// of the enclosing scope.
pub open spec fn parse_spec(ts: Seq<Seq<char>>, pos: int, expect: Seq<char>, limit: int, end: Seq<char>) -> Parsed
    decreases rem(ts, pos), rank(limit), 1int,
{
    if pos < 0 || pos >= ts.len() {
        Ok((None, pos))
    } else if limit == -1 {
        match file_items(ts, pos, end, false, Seq::empty()) {
            Err(e) => Err(e),
            Ok((kids, p)) => {
                let root = Tree { value: ValueView::FileScope, value_type: ValueType::Unresolved, children: kids };
                if pos <= p {
                    infix(ts, p, root, limit, end)
                } else {
                    Ok((Some(root), p))
                }
            },
        }
    } else {
        let read = if expect.len() == 0 {
            Some(pos + 1)
        } else {
            read_literal(ts, pos, Seq::empty(), expect)
        };
        match read {
            None => Ok((None, pos)),
            Some(pa) => {
                let tok = if expect.len() == 0 { ts[pos] } else { expect };
                match classify(tok) {
                    None => Ok((None, pos)),
                    Some(v) => {
                        let r = primary(ts, pos, pa, v, limit, end);
                        if expect.len() > 0 && r matches Ok((None, _)) {
                            Ok((None, pos))
                        } else {
                            r
                        }
                    },
                }
            },
        }
    }
}

/// What follows once a token of value `v` was read at `pos`, with the cursor
/// now at `pa`.
pub open spec fn primary(ts: Seq<Seq<char>>, pos: int, pa: int, v: ValueView, limit: int, end: Seq<char>) -> Parsed
    decreases rem(ts, pos), 1int, 0int,
{
    if pa <= pos || pos < 0 || pos >= ts.len() {
        Ok((None, pos))
    } else {
        match v {
            ValueView::EndLine => if limit > 0 {
                parse_spec(ts, pa, Seq::empty(), limit, end)
            } else {
                Ok((Some(leaf(v)), pa))
            },
            ValueView::Space(_) => parse_spec(ts, pa, Seq::empty(), limit, end),
            ValueView::Operator(_, pr) => if pr < limit {
                Ok((None, pos))
            } else {
                Ok((Some(leaf(v)), pa))
            },
            ValueView::Bracket(b) => if b == end {
                Ok((Some(leaf(v)), pa))
            } else {
                match closer_of(b) {
                    None => Err(ParseError::UnmatchedBracket),
                    Some(eb) => match scope_items(ts, pa, eb, Seq::empty()) {
                        Err(e) => Err(e),
                        Ok((kids, pb)) => {
                            let t = Tree { value: v, value_type: ValueType::Inference, children: kids };
                            if pa <= pb {
                                infix(ts, pb, t, limit, eb)
                            } else {
                                Ok((Some(t), pb))
                            }
                        },
                    },
                }
            },
            ValueView::Symbol(w) => if w == seq!['l', 'e', 't'] {
                match parse_spec(ts, pa, Seq::empty(), 1, Seq::empty()) {
                    Err(e) => Err(e),
                    Ok((Some(n), pb)) => if n.value matches ValueView::Operator(s, _) && s == seq!['='] && pb > pos {
                        infix(ts, pb, Tree { value: v, value_type: ValueType::Inference, children: n.children }, limit, end)
                    } else {
                        Err(ParseError::LetWithoutAssign)
                    },
                    Ok((None, _)) => Err(ParseError::LetWithoutAssign),
                }
            } else if w == seq!['i', 'f'] {
                if_form(ts, pos, pa, v, limit, end)
            } else if w == else_word() {
                match parse_spec(ts, pa, Seq::empty(), 1, Seq::empty()) {
                    Err(e) => Err(e),
                    Ok((Some(x), pb)) => if pb > pos {
                        infix(ts, pb, Tree { value: v, value_type: ValueType::Inference, children: seq![x] }, limit, end)
                    } else {
                        Err(ParseError::ElseWithoutBody)
                    },
                    Ok((None, _)) => Err(ParseError::ElseWithoutBody),
                }
            } else {
                infix(ts, pa, leaf(v), limit, end)
            },
            _ => infix(ts, pa, leaf(v), limit, end),
        }
    }
}

/// `if`: a condition, a `{` scope, then an optional `else` whose body is
/// kept unwrapped.
pub open spec fn if_form(ts: Seq<Seq<char>>, pos: int, pa: int, v: ValueView, limit: int, end: Seq<char>) -> Parsed
    decreases rem(ts, pos), 0int, 0int,
{
    if pa <= pos || pos < 0 || pos >= ts.len() {
        Ok((None, pos))
    } else {
        match parse_spec(ts, pa, Seq::empty(), 1, Seq::empty()) {
            Err(e) => Err(e),
            Ok((None, _)) => Err(ParseError::IfWithoutCondition),
            Ok((Some(c), pb)) => if pb <= pos {
                Err(ParseError::IfWithoutCondition)
            } else {
                match parse_spec(ts, pb, Seq::empty(), 1, Seq::empty()) {
                    Err(e) => Err(e),
                    Ok((None, _)) => Err(ParseError::IfWithoutBrace),
                    Ok((Some(b), pc)) => if b.value != ValueView::Bracket(seq!['{']) || pc <= pos {
                        Err(ParseError::IfWithoutBrace)
                    } else if peek(ts, pc, true) == Some(ValueView::Symbol(else_word())) {
                        match parse_spec(ts, pc, else_word(), 1, Seq::empty()) {
                            Err(e) => Err(e),
                            Ok((Some(x), pd)) => if x.children.len() > 0 && pd > pos {
                                infix(ts, pd, Tree { value: v, value_type: ValueType::Inference, children: seq![c, b, x.children[0]] }, limit, end)
                            } else {
                                Err(ParseError::ElseWithoutBody)
                            },
                            Ok((None, _)) => Err(ParseError::ElseWithoutBody),
                        }
                    } else {
                        infix(ts, pc, Tree { value: v, value_type: ValueType::Inference, children: seq![c, b] }, limit, end)
                    },
                }
            },
        }
    }
}

/// The statements of a file from `p` on, after `acc`; `sep` tells that a
/// statement was read with no line separator after it yet.
pub open spec fn file_items(ts: Seq<Seq<char>>, p: int, end: Seq<char>, sep: bool, acc: Seq<Tree>) -> ParsedItems
    decreases rem(ts, p), 2int, 0int,
{
    if p < 0 || p >= ts.len() {
        Ok((acc, p))
    } else {
        match parse_spec(ts, p, Seq::empty(), 0, end) {
            Err(e) => Err(e),
            Ok((None, q)) => if q >= ts.len() {
                Ok((acc, q))
            } else {
                Err(ParseError::UnrecognizedToken)
            },
            Ok((Some(x), q)) => if q <= p {
                Err(ParseError::UnrecognizedToken)
            } else if x.value == ValueView::EndLine {
                file_items(ts, q, end, false, acc)
            } else if sep {
                Err(ParseError::MissingSeparator)
            } else {
                file_items(ts, q, end, true, acc.push(x))
            },
        }
    }
}

/// The children of a scope closed by `eb`, from `p` on, after `acc`; line
/// separators are dropped and the closer ends the scope.
pub open spec fn scope_items(ts: Seq<Seq<char>>, p: int, eb: Seq<char>, acc: Seq<Tree>) -> ParsedItems
    decreases rem(ts, p), 2int, 0int,
{
    if p < 0 || p >= ts.len() {
        Ok((acc, p))
    } else {
        match parse_spec(ts, p, Seq::empty(), 0, eb) {
            Err(e) => Err(e),
            Ok((None, q)) => Ok((acc, q)),
            Ok((Some(x), q)) => if q <= p || x.value == ValueView::Bracket(eb) {
                Ok((acc, q))
            } else if x.value == ValueView::EndLine {
                scope_items(ts, q, eb, acc)
            } else {
                scope_items(ts, q, eb, acc.push(x))
            },
        }
    }
}

/// The right operand of an operator of precedence `pr` takes in only
/// operators that bind strictly tighter, so that equal precedences group
/// to the left.
pub open spec fn right_limit(pr: i32) -> i32 {
    if pr < i32::MAX {
        (pr + 1) as i32
    } else {
        pr
    }
}

/// Extends `t` with each following operator of precedence at least `limit`
/// and its right operand.
pub open spec fn infix(ts: Seq<Seq<char>>, p: int, t: Tree, limit: int, end: Seq<char>) -> Parsed
    decreases rem(ts, p), 2int, 1int,
{
    if p < 0 || p >= ts.len() {
        Ok((Some(t), p))
    } else {
        match peek(ts, p, false) {
            Some(ValueView::Operator(sym, pr)) => if pr < limit || pr < 0 {
                Ok((Some(t), p))
            } else {
                match parse_spec(ts, p, sym, pr as int, end) {
                    Err(e) => Err(e),
                    Ok((None, _)) => Err(ParseError::MissingOperator),
                    Ok((Some(o), pb)) => if pb <= p {
                        Ok((Some(t), p))
                    } else {
                        match o.value {
                            ValueView::Operator(_, opr) => if !can_graft(t, opr) {
                                Err(ParseError::MisplacedOperator)
                            } else {
                                match parse_spec(ts, pb, Seq::empty(), right_limit(opr) as int, end) {
                                    Err(e) => Err(e),
                                    Ok((r, pc)) => {
                                        let t2 = graft(t, o, opr, r);
                                        if pc < pb {
                                            Ok((Some(t2), pc))
                                        } else {
                                            infix(ts, pc, t2, limit, end)
                                        }
                                    },
                                }
                            },
                            _ => Err(ParseError::MisplacedOperator),
                        }
                    },
                }
            },
            _ => Ok((Some(t), p)),
        }
    }
}

/// The model of a parse step's outcome.
pub open spec fn out_view(r: Result<(Option<Element>, usize), ParseError>) -> Parsed {
    match r {
        Ok((e, p)) => Ok((opt_tree(e), p as int)),
        Err(x) => Err(x),
    }
}

/// The model of a loop's children and cursor.
pub open spec fn items_view(r: Result<(Vec<Element>, usize), ParseError>) -> ParsedItems {
    match r {
        Ok((v, p)) => Ok((trees(v@), p as int)),
        Err(x) => Err(x),
    }
}

/// A childless element of inferred type.
fn leaf_of(v: Value) -> (r: Element)
    ensures
        r@ == leaf(v@),
{
    let r = Element { value: v, value_type: ValueType::Inference, childlen: Vec::new() };
    assert(r.view().children =~= Seq::<Tree>::empty());
    r
}

/// An element of inferred type with the given children.
fn node_of(v: Value, kids: Vec<Element>) -> (r: Element)
    ensures
        r@ == (Tree { value: v@, value_type: ValueType::Inference, children: trees(kids@) }),
{
    Element { value: v, value_type: ValueType::Inference, childlen: kids }
}

/// Rebuilds `expect` from the tokens at `pos` on, passing over blank tokens;
/// the cursor after it when it matches.
fn read_literal_at(tokens: &[String], pos: usize, expect: &str) -> (r: Option<usize>)
    requires
        expect@.len() > 0,
        pos <= tokens@.len(),
    ensures
        r matches Some(q) ==> read_literal(texts(tokens@), pos as int, Seq::empty(), expect@) == Some(q as int)
            && pos < q <= tokens@.len(),
        r is None ==> read_literal(texts(tokens@), pos as int, Seq::empty(), expect@) is None,
{
    let ghost ts = texts(tokens@);
    let n = expect.unicode_len();
    let mut acc = String::new();
    let mut cur = pos;
    while acc.unicode_len() < n
        invariant
            ts == texts(tokens@),
            n == expect@.len(),
            n > 0,
            pos <= cur <= tokens@.len(),
            cur > pos || acc@.len() == 0,
            read_literal(ts, cur as int, acc@, expect@) == read_literal(ts, pos as int, Seq::empty(), expect@),
        decreases tokens@.len() - cur,
    {
        if cur >= tokens.len() {
            return None;
        }
        let t = tokens[cur].as_str();
        if !all_white_text(t) {
            acc.append(t);
        }
        cur += 1;
    }
    if same_text(acc.as_str(), expect) {
        Some(cur)
    } else {
        None
    }
}

/// The first element at `p` or after that is not a whitespace run (nor a
/// line separator, where `skip_lines`), without moving the cursor.
fn peek_at(tokens: &[String], p: usize, skip_lines: bool) -> (r: Option<Element>)
    ensures
        r matches Some(e) ==> peek(texts(tokens@), p as int, skip_lines) == Some(e.value@),
        r is None ==> peek(texts(tokens@), p as int, skip_lines) is None,
{
    let ghost ts = texts(tokens@);
    let mut i = p;
    while i < tokens.len()
        invariant
            ts == texts(tokens@),
            p <= i,
            peek(ts, i as int, skip_lines) == peek(ts, p as int, skip_lines),
        decreases tokens@.len() - i,
    {
        match get_element(tokens[i].as_str()) {
            None => return None,
            Some(e) => {
                let pass = match &e.value {
                    Value::Space(_) => true,
                    Value::EndLine => skip_lines,
                    _ => false,
                };
                if !pass {
                    return Some(e);
                }
            },
        }
        i += 1;
    }
    None
}

/// Whether an operator of precedence `pr` can be placed into `t`.
fn can_graft_at(t: &Element, pr: i32) -> (r: bool)
    ensures
        r == can_graft(t@, pr),
    decreases t,
{
    proof {
        lemma_trees_len(t.childlen@);
    }
    match &t.value {
        Value::Operator(_, q) => if pr > *q {
            let n = t.childlen.len();
            if n == 0 {
                false
            } else {
                assert(decreases_to!(t => t.childlen));
                can_graft_at(&t.childlen[n - 1], pr)
            }
        } else {
            true
        },
        _ => true,
    }
}

/// Places operator `o` of precedence `pr` and its right operand `r` into `t`,
/// rotating it into the rightmost branch below operators that bind less
/// tightly.
fn graft_at(t: Element, o: Element, pr: i32, r: Option<Element>) -> (res: Element)
    ensures
        res@ == graft(t@, o@, pr, opt_tree(r)),
    decreases t,
{
    proof {
        lemma_trees_len(t.childlen@);
    }
    let descend = match &t.value {
        Value::Operator(_, q) => pr > *q && t.childlen.len() > 0,
        _ => false,
    };
    if descend {
        let ghost t0 = t;
        let mut t = t;
        let n = t.childlen.len();
        assert(decreases_to!(t0 => t0.childlen));
        assert(decreases_to!(t0.childlen => t0.childlen[n - 1]));
        match t.childlen.pop() {
            Some(last) => {
                let g = graft_at(last, o, pr, r);
                let ghost before = t.childlen@;
                t.childlen.push(g);
                proof {
                    assert(before =~= t0.childlen@.drop_last());
                    lemma_trees_push(before, g);
                    assert(trees(t0.childlen@).drop_last() =~= trees(before));
                }
                t
            },
            None => t,
        }
    } else {
        let mut o = o;
        let ghost k0 = o.childlen@;
        o.childlen.push(t);
        proof {
            lemma_trees_push(k0, t);
        }
        match r {
            Some(x) => {
                let ghost k1 = o.childlen@;
                o.childlen.push(x);
                proof {
                    lemma_trees_push(k1, x);
                }
            },
            None => {},
        }
        o
    }
}

/// The parser proper, with the cursor passed by value and returned.
fn parse_at(tokens: &[String], pos: usize, expect: &str, limit: i32, end: &str) -> (r: Result<(Option<Element>, usize), ParseError>)
    requires
        pos <= tokens@.len(),
    ensures
        out_view(r) == parse_spec(texts(tokens@), pos as int, expect@, limit as int, end@),
        r matches Ok((_, p)) ==> pos <= p <= tokens@.len(),
        r matches Ok((Some(_), p)) ==> (limit != -1 ==> pos < p),
        r matches Ok((None, p)) ==> (expect@.len() > 0 ==> p == pos),
        r is Ok && limit == -1 && pos < tokens@.len() ==> (r matches Ok((_, p)) && p == tokens@.len()),
    decreases rem(texts(tokens@), pos as int), rank(limit as int), 1int,
{
    if pos >= tokens.len() {
        return Ok((None, pos));
    }
    if limit == -1 {
        return match file_items_at(tokens, pos, end) {
            Err(e) => Err(e),
            Ok((kids, p)) => {
                let root = Element { value: Value::FileScope, value_type: ValueType::Unresolved, childlen: kids };
                infix_at(tokens, p, root, limit, end)
            },
        };
    }
    let single = expect.unicode_len() == 0;
    let pa = if single {
        pos + 1
    } else {
        match read_literal_at(tokens, pos, expect) {
            Some(q) => q,
            None => return Ok((None, pos)),
        }
    };
    let tok: &str = if single { tokens[pos].as_str() } else { expect };
    match get_element(tok) {
        None => Ok((None, pos)),
        Some(el) => {
            let r = primary_at(tokens, pos, pa, el.value, limit, end);
            if !single {
                if let Ok((None, _)) = &r {
                    return Ok((None, pos));
                }
            }
            r
        },
    }
}

/// Continues after a token of value `v` was read at `pos`.
fn primary_at(tokens: &[String], pos: usize, pa: usize, v: Value, limit: i32, end: &str) -> (r: Result<(Option<Element>, usize), ParseError>)
    requires
        pos < pa <= tokens@.len(),
        limit != -1,
    ensures
        out_view(r) == primary(texts(tokens@), pos as int, pa as int, v@, limit as int, end@),
        r matches Ok((_, p)) ==> pos <= p <= tokens@.len(),
        r matches Ok((Some(_), p)) ==> pos < p,
    decreases rem(texts(tokens@), pos as int), 1int, 0int,
{
    proof {
        reveal_strlit("");
        reveal_strlit("let");
        reveal_strlit("if");
        reveal_strlit("else");
        reveal_strlit("=");
        assert(""@ =~= Seq::<char>::empty());
        assert("let"@ =~= seq!['l', 'e', 't']);
        assert("if"@ =~= seq!['i', 'f']);
        assert("else"@ =~= else_word());
        assert("="@ =~= seq!['=']);
    }
    match v {
        Value::EndLine => if limit > 0 {
            parse_at(tokens, pa, "", limit, end)
        } else {
            Ok((Some(leaf_of(Value::EndLine)), pa))
        },
        Value::Space(_) => parse_at(tokens, pa, "", limit, end),
        Value::Operator(s, pr) => if pr < limit {
            Ok((None, pos))
        } else {
            Ok((Some(leaf_of(Value::Operator(s, pr))), pa))
        },
        Value::Bracket(b) => {
            if same_text(b.as_str(), end) {
                return Ok((Some(leaf_of(Value::Bracket(b))), pa));
            }
            match get_end_bracket(b.as_str()) {
                None => Err(ParseError::UnmatchedBracket),
                Some(eb) => match scope_items_at(tokens, pa, eb.as_str()) {
                    Err(e) => Err(e),
                    Ok((kids, pb)) => infix_at(tokens, pb, node_of(Value::Bracket(b), kids), limit, eb.as_str()),
                },
            }
        },
        Value::Symbol(w) => {
            if same_text(w.as_str(), "let") {
                match parse_at(tokens, pa, "", 1, "") {
                    Err(e) => Err(e),
                    Ok((Some(n), pb)) => {
                        let assign = match &n.value {
                            Value::Operator(s, _) => same_text(s.as_str(), "="),
                            _ => false,
                        };
                        if assign {
                            infix_at(tokens, pb, node_of(Value::Symbol(w), n.childlen), limit, end)
                        } else {
                            Err(ParseError::LetWithoutAssign)
                        }
                    },
                    Ok((None, _)) => Err(ParseError::LetWithoutAssign),
                }
            } else if same_text(w.as_str(), "if") {
                if_at(tokens, pos, pa, Value::Symbol(w), limit, end)
            } else if same_text(w.as_str(), "else") {
                match parse_at(tokens, pa, "", 1, "") {
                    Err(e) => Err(e),
                    Ok((Some(x), pb)) => {
                        let mut kids: Vec<Element> = Vec::new();
                        proof {
                            lemma_trees_push(kids@, x);
                        }
                        kids.push(x);
                        assert(trees(kids@) =~= seq![x@]);
                        infix_at(tokens, pb, node_of(Value::Symbol(w), kids), limit, end)
                    },
                    Ok((None, _)) => Err(ParseError::ElseWithoutBody),
                }
            } else {
                infix_at(tokens, pa, leaf_of(Value::Symbol(w)), limit, end)
            }
        },
        other => infix_at(tokens, pa, leaf_of(other), limit, end),
    }
}

/// The condition, body and optional `else` of an `if`.
fn if_at(tokens: &[String], pos: usize, pa: usize, v: Value, limit: i32, end: &str) -> (r: Result<(Option<Element>, usize), ParseError>)
    requires
        pos < pa <= tokens@.len(),
    ensures
        out_view(r) == if_form(texts(tokens@), pos as int, pa as int, v@, limit as int, end@),
        r matches Ok((_, p)) ==> pos <= p <= tokens@.len(),
        r matches Ok((Some(_), p)) ==> pos < p,
    decreases rem(texts(tokens@), pos as int), 0int, 0int,
{
    proof {
        reveal_strlit("");
        reveal_strlit("else");
        reveal_strlit("{");
        assert(""@ =~= Seq::<char>::empty());
        assert("else"@ =~= else_word());
        assert("{"@ =~= seq!['{']);
    }
    let (c, pb) = match parse_at(tokens, pa, "", 1, "") {
        Err(e) => return Err(e),
        Ok((None, _)) => return Err(ParseError::IfWithoutCondition),
        Ok((Some(c), pb)) => (c, pb),
    };
    let (b, pc) = match parse_at(tokens, pb, "", 1, "") {
        Err(e) => return Err(e),
        Ok((None, _)) => return Err(ParseError::IfWithoutBrace),
        Ok((Some(b), pc)) => (b, pc),
    };
    let brace = match &b.value {
        Value::Bracket(s) => same_text(s.as_str(), "{"),
        _ => false,
    };
    if !brace {
        return Err(ParseError::IfWithoutBrace);
    }
    let mut kids: Vec<Element> = Vec::new();
    proof {
        lemma_trees_push(kids@, c);
    }
    kids.push(c);
    proof {
        lemma_trees_push(kids@, b);
    }
    kids.push(b);
    let has_else = match peek_at(tokens, pc, true) {
        Some(e) => match &e.value {
            Value::Symbol(s) => same_text(s.as_str(), "else"),
            _ => false,
        },
        None => false,
    };
    if has_else {
        match parse_at(tokens, pc, "else", 1, "") {
            Err(e) => Err(e),
            Ok((Some(x), pd)) => {
                if x.childlen.len() == 0 {
                    return Err(ParseError::ElseWithoutBody);
                }
                proof {
                    lemma_trees_len(x.childlen@);
                }
                let mut xk = x.childlen;
                let first = xk.remove(0);
                proof {
                    lemma_trees_push(kids@, first);
                }
                kids.push(first);
                assert(trees(kids@) =~= seq![c@, b@, x@.children[0]]);
                infix_at(tokens, pd, node_of(v, kids), limit, end)
            },
            Ok((None, _)) => Err(ParseError::ElseWithoutBody),
        }
    } else {
        assert(trees(kids@) =~= seq![c@, b@]);
        infix_at(tokens, pc, node_of(v, kids), limit, end)
    }
}

/// The top-level statements, one per line.
fn file_items_at(tokens: &[String], pos: usize, end: &str) -> (r: Result<(Vec<Element>, usize), ParseError>)
    requires
        pos < tokens@.len(),
    ensures
        items_view(r) == file_items(texts(tokens@), pos as int, end@, false, Seq::empty()),
        r matches Ok((_, p)) ==> p == tokens@.len(),
    decreases rem(texts(tokens@), pos as int), 2int, 0int,
{
    proof {
        reveal_strlit("");
        assert(""@ =~= Seq::<char>::empty());
    }
    let ghost ts = texts(tokens@);
    let mut acc: Vec<Element> = Vec::new();
    let mut p = pos;
    let mut sep = false;
    assert(trees(acc@) =~= Seq::<Tree>::empty());
    while p < tokens.len()
        invariant
            ts == texts(tokens@),
            ""@ == Seq::<char>::empty(),
            pos <= p <= tokens@.len(),
            file_items(ts, p as int, end@, sep, trees(acc@)) == file_items(ts, pos as int, end@, false, Seq::empty()),
        decreases tokens@.len() - p,
    {
        match parse_at(tokens, p, "", 0, end) {
            Err(e) => return Err(e),
            Ok((None, q)) => {
                if q < tokens.len() {
                    return Err(ParseError::UnrecognizedToken);
                }
                return Ok((acc, q));
            },
            Ok((Some(x), q)) => {
                let line = match &x.value {
                    Value::EndLine => true,
                    _ => false,
                };
                if line {
                    sep = false;
                } else if sep {
                    return Err(ParseError::MissingSeparator);
                } else {
                    proof {
                        lemma_trees_push(acc@, x);
                    }
                    acc.push(x);
                    sep = true;
                }
                p = q;
            },
        }
    }
    Ok((acc, p))
}

/// The children of a scope up to its closer `eb`.
fn scope_items_at(tokens: &[String], pos: usize, eb: &str) -> (r: Result<(Vec<Element>, usize), ParseError>)
    requires
        pos <= tokens@.len(),
    ensures
        items_view(r) == scope_items(texts(tokens@), pos as int, eb@, Seq::empty()),
        r matches Ok((_, p)) ==> pos <= p <= tokens@.len(),
    decreases rem(texts(tokens@), pos as int), 2int, 0int,
{
    proof {
        reveal_strlit("");
        assert(""@ =~= Seq::<char>::empty());
    }
    let ghost ts = texts(tokens@);
    let mut acc: Vec<Element> = Vec::new();
    let mut p = pos;
    assert(trees(acc@) =~= Seq::<Tree>::empty());
    while p < tokens.len()
        invariant
            ts == texts(tokens@),
            ""@ == Seq::<char>::empty(),
            pos <= p <= tokens@.len(),
            scope_items(ts, p as int, eb@, trees(acc@)) == scope_items(ts, pos as int, eb@, Seq::empty()),
        decreases tokens@.len() - p,
    {
        match parse_at(tokens, p, "", 0, eb) {
            Err(e) => return Err(e),
            Ok((None, q)) => return Ok((acc, q)),
            Ok((Some(x), q)) => {
                let (closer, line) = match &x.value {
                    Value::Bracket(b) => (same_text(b.as_str(), eb), false),
                    Value::EndLine => (false, true),
                    _ => (false, false),
                };
                if closer {
                    return Ok((acc, q));
                }
                if !line {
                    proof {
                        lemma_trees_push(acc@, x);
                    }
                    acc.push(x);
                }
                p = q;
            },
        }
    }
    Ok((acc, p))
}

/// Grows `left` with each following operator of precedence at least `limit`.
fn infix_at(tokens: &[String], p: usize, left: Element, limit: i32, end: &str) -> (r: Result<(Option<Element>, usize), ParseError>)
    requires
        p <= tokens@.len(),
    ensures
        out_view(r) == infix(texts(tokens@), p as int, left@, limit as int, end@),
        r matches Ok((e, q)) ==> p <= q <= tokens@.len() && e is Some,
    decreases rem(texts(tokens@), p as int), 2int, 1int,
{
    proof {
        reveal_strlit("");
        assert(""@ =~= Seq::<char>::empty());
    }
    let ghost ts = texts(tokens@);
    let ghost t0 = left@;
    let mut t = left;
    let mut cur = p;
    while cur < tokens.len()
        invariant
            ts == texts(tokens@),
            t0 == left@,
            ""@ == Seq::<char>::empty(),
            p <= cur <= tokens@.len(),
            infix(ts, cur as int, t@, limit as int, end@) == infix(ts, p as int, t0, limit as int, end@),
        decreases tokens@.len() - cur,
    {
        let (sym, pr) = match peek_at(tokens, cur, false) {
            Some(e) => match e.value {
                Value::Operator(s, pr) => (s, pr),
                _ => return Ok((Some(t), cur)),
            },
            None => return Ok((Some(t), cur)),
        };
        if pr < limit || pr < 0 {
            return Ok((Some(t), cur));
        }
        let (o, pb) = match parse_at(tokens, cur, sym.as_str(), pr, end) {
            Err(e) => return Err(e),
            Ok((None, _)) => return Err(ParseError::MissingOperator),
            Ok((Some(o), pb)) => (o, pb),
        };
        let opr = match &o.value {
            Value::Operator(_, q) => *q,
            _ => return Err(ParseError::MisplacedOperator),
        };
        if !can_graft_at(&t, opr) {
            return Err(ParseError::MisplacedOperator);
        }
        let rl = if opr < i32::MAX {
            opr + 1
        } else {
            opr
        };
        match parse_at(tokens, pb, "", rl, end) {
            Err(e) => return Err(e),
            Ok((r, pc)) => {
                t = graft_at(t, o, opr, r);
                cur = pc;
            },
        }
    }
    Ok((Some(t), cur))
}

/// Parses one element from `tokens` at `*pos`, advancing `*pos` past it.
///
/// With `expect` empty the token at `*pos` is read; otherwise `expect` is
/// rebuilt from the following non-blank tokens. Operators of precedence
/// below `limit` are not read, and `limit == -1` parses the whole file under
/// a file-scope root. `end_bracket` is the closer of the enclosing scope.
/// A fatal fault is returned as an error and leaves `*pos` unchanged.
pub fn parse_element(tokens: &[String], pos: &mut usize, expect: &str, limit: i32, end_bracket: String) -> (r: Result<Option<Element>, ParseError>)
    ensures
        match parse_spec(texts(tokens@), old(pos)@ as int, expect@, limit as int, end_bracket@) {
            Ok((e, p)) => r matches Ok(x) && opt_tree(x) == e && final(pos)@ == p,
            Err(err) => r == Err::<Option<Element>, ParseError>(err) && final(pos)@ == old(pos)@,
        },
        r is Ok ==> old(pos)@ <= final(pos)@,
        r matches Ok(None) && expect@.len() > 0 ==> final(pos)@ == old(pos)@,
        r is Ok && limit == -1 && old(pos)@ < tokens@.len() ==> final(pos)@ == tokens@.len(),
        r matches Ok(Some(_)) && limit != -1 && old(pos)@ < tokens@.len() ==> old(pos)@ < final(pos)@,
{
    if *pos >= tokens.len() {
        return Ok(None);
    }
    match parse_at(tokens, *pos, expect, limit, end_bracket.as_str()) {
        Ok((e, p)) => {
            *pos = p;
            Ok(e)
        },
        Err(err) => Err(err),
    }
}

/// Parsing is a function of the tokens' text alone: two token lists that
/// spell the same strings give the same outcome, the same tree and the same
/// cursor, or the same fault.
pub proof fn lemma_parse_deterministic(
    a: Seq<String>,
    b: Seq<String>,
    pos: int,
    expect: Seq<char>,
    limit: int,
    end: Seq<char>,
)
    requires
        texts(a) == texts(b),
    ensures
        parse_spec(texts(a), pos, expect, limit, end) == parse_spec(texts(b), pos, expect, limit, end),
{
}

/// Tokenizing is a function of the line's characters alone.
pub proof fn lemma_tokens_deterministic(a: &str, b: &str)
    requires
        a@ == b@,
    ensures
        tokens_of(a@) == tokens_of(b@),
{
}

/// An operator that binds no tighter than the top of the tree becomes the new
/// top, with the whole tree as its left operand: equal precedences group to
/// the left.
pub proof fn lemma_graft_on_top(t: Tree, o: Tree, pr: i32, r: Tree, s: Seq<char>, q: i32)
    requires
        t.value == ValueView::Operator(s, q),
        pr <= q,
        o.children.len() == 0,
    ensures
        graft(t, o, pr, Some(r)) == (Tree { value: o.value, value_type: o.value_type, children: seq![t, r] }),
{
    assert(o.children.push(t).push(r) =~= seq![t, r]);
}

/// An operator that binds tighter than the top of the tree goes into the
/// rightmost branch; the top and its other operands stay as they were.
pub proof fn lemma_graft_rotates(t: Tree, o: Tree, pr: i32, r: Option<Tree>, s: Seq<char>, q: i32)
    requires
        t.value == ValueView::Operator(s, q),
        pr > q,
        t.children.len() > 0,
    ensures
        graft(t, o, pr, r).value == t.value,
        graft(t, o, pr, r).children.len() == t.children.len(),
        graft(t, o, pr, r).children.drop_last() == t.children.drop_last(),
        graft(t, o, pr, r).children.last() == graft(t.children.last(), o, pr, r),
{
    assert(graft(t, o, pr, r).children.drop_last() =~= t.children.drop_last());
}

proof fn lemma_scope_items_clean(ts: Seq<Seq<char>>, p: int, eb: Seq<char>, acc: Seq<Tree>)
    requires
        forall|i: int| 0 <= i < acc.len() ==> #[trigger] acc[i].value != ValueView::EndLine
            && acc[i].value != ValueView::Bracket(eb),
    ensures
        scope_items(ts, p, eb, acc) matches Ok((kids, _)) ==> forall|i: int| 0 <= i < kids.len()
            ==> #[trigger] kids[i].value != ValueView::EndLine && kids[i].value != ValueView::Bracket(eb),
    decreases rem(ts, p),
{
    if 0 <= p < ts.len() {
        match parse_spec(ts, p, Seq::empty(), 0, eb) {
            Ok((Some(x), q)) => {
                if !(q <= p || x.value == ValueView::Bracket(eb)) {
                    if x.value == ValueView::EndLine {
                        lemma_scope_items_clean(ts, q, eb, acc);
                    } else {
                        assert forall|i: int| 0 <= i < acc.push(x).len() implies #[trigger] acc.push(x)[i].value
                            != ValueView::EndLine && acc.push(x)[i].value != ValueView::Bracket(eb) by {
                            if i < acc.len() {
                                assert(acc.push(x)[i] == acc[i]);
                            }
                        }
                        lemma_scope_items_clean(ts, q, eb, acc.push(x));
                    }
                }
            },
            _ => {},
        }
    }
}

/// The children of a bracket scope never include a line separator nor the
/// scope's own closer: line breaks inside brackets are free, and the closer
/// only ends the scope.
pub proof fn lemma_scope_children(ts: Seq<Seq<char>>, p: int, eb: Seq<char>)
    ensures
        scope_items(ts, p, eb, Seq::empty()) matches Ok((kids, _)) ==> forall|i: int| 0 <= i < kids.len()
            ==> #[trigger] kids[i].value != ValueView::EndLine && kids[i].value != ValueView::Bracket(eb),
{
    lemma_scope_items_clean(ts, p, eb, Seq::empty());
}

proof fn lemma_file_items_clean(ts: Seq<Seq<char>>, p: int, end: Seq<char>, sep: bool, acc: Seq<Tree>)
    requires
        forall|i: int| 0 <= i < acc.len() ==> #[trigger] acc[i].value != ValueView::EndLine,
    ensures
        file_items(ts, p, end, sep, acc) matches Ok((kids, _)) ==> forall|i: int| 0 <= i < kids.len()
            ==> #[trigger] kids[i].value != ValueView::EndLine,
    decreases rem(ts, p),
{
    if 0 <= p < ts.len() {
        match parse_spec(ts, p, Seq::empty(), 0, end) {
            Ok((Some(x), q)) => {
                if q > p {
                    if x.value == ValueView::EndLine {
                        lemma_file_items_clean(ts, q, end, false, acc);
                    } else if !sep {
                        assert forall|i: int| 0 <= i < acc.push(x).len() implies #[trigger] acc.push(x)[i].value
                            != ValueView::EndLine by {
                            if i < acc.len() {
                                assert(acc.push(x)[i] == acc[i]);
                            }
                        }
                        lemma_file_items_clean(ts, q, end, true, acc.push(x));
                    }
                }
            },
            _ => {},
        }
    }
}

/// The statements under the root of a whole-file parse never include a line
/// separator: separators only divide statements.
pub proof fn lemma_file_children(ts: Seq<Seq<char>>, p: int, end: Seq<char>)
    ensures
        file_items(ts, p, end, false, Seq::empty()) matches Ok((kids, _)) ==> forall|i: int| 0 <= i < kids.len()
            ==> #[trigger] kids[i].value != ValueView::EndLine,
{
    lemma_file_items_clean(ts, p, end, false, Seq::empty());
}

/// A nonempty run of characters that are neither whitespace nor punctuation.
pub open spec fn is_word(t: Seq<char>) -> bool {
    t.len() > 0 && forall|k: int| 0 <= k < t.len() ==> !is_white(#[trigger] t[k]) && !is_punct(t[k])
}

/// The shapes a token of a line can have: a whitespace run, one punctuation
/// character other than the comment marker, or a word.
pub open spec fn well_formed_token(t: Seq<char>) -> bool {
    all_white(t) || (t.len() == 1 && is_punct(t[0]) && t[0] != '#') || is_word(t)
}

/// What the pending buffer of the tokenizer may hold.
pub open spec fn pending_ok(buf: Seq<char>) -> bool {
    buf.len() == 0 || all_white(buf) || is_word(buf)
}

proof fn lemma_push_well_formed(ts: Seq<Seq<char>>, x: Seq<char>)
    requires
        forall|j: int| 0 <= j < ts.len() ==> well_formed_token(#[trigger] ts[j]),
        well_formed_token(x),
    ensures
        forall|j: int| 0 <= j < ts.push(x).len() ==> well_formed_token(#[trigger] ts.push(x)[j]),
{
    assert forall|j: int| 0 <= j < ts.push(x).len() implies well_formed_token(#[trigger] ts.push(x)[j]) by {
        if j < ts.len() {
            assert(ts.push(x)[j] == ts[j]);
        }
    }
}

proof fn lemma_scan_shape(s: Seq<char>, i: int, ts: Seq<Seq<char>>, buf: Seq<char>)
    requires
        forall|j: int| 0 <= j < ts.len() ==> well_formed_token(#[trigger] ts[j]),
        pending_ok(buf),
    ensures
        scan(s, i, ts, buf).len() >= 1,
        scan(s, i, ts, buf).last() == end_line(),
        forall|j: int| 0 <= j < scan(s, i, ts, buf).len() - 1 ==> well_formed_token(#[trigger] scan(s, i, ts, buf)[j]),
    decreases s.len() - i,
{
    let r = scan(s, i, ts, buf);
    if i < 0 || i >= s.len() || (is_punct(s[i]) && !is_white(s[i]) && s[i] == '#') {
        if buf.len() > 0 {
            lemma_push_well_formed(ts, buf);
        }
        let f = flush(ts, buf);
        assert(r == f.push(end_line()));
        assert forall|j: int| 0 <= j < r.len() - 1 implies well_formed_token(#[trigger] r[j]) by {
            assert(r[j] == f[j]);
        }
    } else {
        let c = s[i];
        if is_white(c) {
            if buf.len() > 0 && !is_white(buf[0]) {
                lemma_push_well_formed(ts, buf);
                assert(all_white(seq![c]));
                lemma_scan_shape(s, i + 1, ts.push(buf), seq![c]);
            } else {
                assert(all_white(buf.push(c))) by {
                    assert forall|k: int| 0 <= k < buf.push(c).len() implies is_white(#[trigger] buf.push(c)[k]) by {
                        if k < buf.len() {
                            assert(buf.push(c)[k] == buf[k]);
                        }
                    }
                }
                lemma_scan_shape(s, i + 1, ts, buf.push(c));
            }
        } else if is_punct(c) {
            if buf.len() > 0 {
                lemma_push_well_formed(ts, buf);
            }
            let f = flush(ts, buf);
            assert(well_formed_token(seq![c]));
            lemma_push_well_formed(f, seq![c]);
            lemma_scan_shape(s, i + 1, f.push(seq![c]), Seq::empty());
        } else {
            if buf.len() > 0 && is_white(buf[0]) {
                lemma_push_well_formed(ts, buf);
                assert(is_word(seq![c]));
                lemma_scan_shape(s, i + 1, ts.push(buf), seq![c]);
            } else {
                assert(is_word(buf.push(c))) by {
                    assert forall|k: int| 0 <= k < buf.push(c).len() implies !is_white(#[trigger] buf.push(c)[k])
                        && !is_punct(buf.push(c)[k]) by {
                        if k < buf.len() {
                            assert(buf.push(c)[k] == buf[k]);
                        }
                    }
                }
                lemma_scan_shape(s, i + 1, ts, buf.push(c));
            }
        }
    }
}

/// Every line yields a list that ends with the line separator, and every
/// token before it is a whitespace run, a single punctuation character other
/// than the comment marker, or a word: punctuation never merges with its
/// neighbours, and the comment never reaches the tokens.
pub proof fn lemma_token_shapes(s: Seq<char>)
    ensures
        tokens_of(s).len() >= 1,
        tokens_of(s).last() == end_line(),
        forall|j: int| 0 <= j < tokens_of(s).len() - 1 ==> well_formed_token(#[trigger] tokens_of(s)[j]),
{
    lemma_scan_shape(s, 0, Seq::empty(), Seq::empty());
}

/// The element read, if it is an operator, binds at least as tightly as
/// `limit`.
pub open spec fn binds_within(r: Parsed, limit: int) -> bool {
    match r {
        Ok((Some(x), _)) => match x.value {
            ValueView::Operator(_, q) => q >= limit,
            _ => true,
        },
        _ => true,
    }
}

pub open spec fn top_within(t: Tree, limit: int) -> bool {
    match t.value {
        ValueView::Operator(_, q) => q >= limit,
        _ => true,
    }
}

proof fn lemma_graft_top(t: Tree, o: Tree, pr: i32, r: Option<Tree>)
    ensures
        graft(t, o, pr, r).value == t.value || graft(t, o, pr, r).value == o.value,
{
}

proof fn lemma_parse_top(ts: Seq<Seq<char>>, pos: int, expect: Seq<char>, limit: int, end: Seq<char>)
    ensures
        binds_within(parse_spec(ts, pos, expect, limit, end), limit),
    decreases rem(ts, pos), rank(limit), 1int,
{
    if pos < 0 || pos >= ts.len() {
    } else if limit == -1 {
        match file_items(ts, pos, end, false, Seq::empty()) {
            Ok((kids, p)) => {
                let root = Tree { value: ValueView::FileScope, value_type: ValueType::Unresolved, children: kids };
                if pos <= p {
                    lemma_infix_top(ts, p, root, limit, end);
                }
            },
            _ => {},
        }
    } else {
        let read = if expect.len() == 0 {
            Some(pos + 1)
        } else {
            read_literal(ts, pos, Seq::empty(), expect)
        };
        if let Some(pa) = read {
            let tok = if expect.len() == 0 { ts[pos] } else { expect };
            if let Some(v) = classify(tok) {
                lemma_primary_top(ts, pos, pa, v, limit, end);
            }
        }
    }
}

proof fn lemma_primary_top(ts: Seq<Seq<char>>, pos: int, pa: int, v: ValueView, limit: int, end: Seq<char>)
    ensures
        binds_within(primary(ts, pos, pa, v, limit, end), limit),
    decreases rem(ts, pos), 1int, 0int,
{
    if pa <= pos || pos < 0 || pos >= ts.len() {
    } else {
        match v {
            ValueView::EndLine => if limit > 0 {
                lemma_parse_top(ts, pa, Seq::empty(), limit, end);
            },
            ValueView::Space(_) => lemma_parse_top(ts, pa, Seq::empty(), limit, end),
            ValueView::Operator(_, _) => {},
            ValueView::Bracket(b) => if b != end {
                if let Some(eb) = closer_of(b) {
                    if let Ok((kids, pb)) = scope_items(ts, pa, eb, Seq::empty()) {
                        let t = Tree { value: v, value_type: ValueType::Inference, children: kids };
                        if pa <= pb {
                            lemma_infix_top(ts, pb, t, limit, eb);
                        }
                    }
                }
            },
            ValueView::Symbol(w) => if w == seq!['l', 'e', 't'] {
                if let Ok((Some(n), pb)) = parse_spec(ts, pa, Seq::empty(), 1, Seq::empty()) {
                    if pb > pos {
                        lemma_infix_top(ts, pb, Tree { value: v, value_type: ValueType::Inference, children: n.children }, limit, end);
                    }
                }
            } else if w == seq!['i', 'f'] {
                lemma_if_top(ts, pos, pa, v, limit, end);
            } else if w == else_word() {
                if let Ok((Some(x), pb)) = parse_spec(ts, pa, Seq::empty(), 1, Seq::empty()) {
                    if pb > pos {
                        lemma_infix_top(ts, pb, Tree { value: v, value_type: ValueType::Inference, children: seq![x] }, limit, end);
                    }
                }
            } else {
                lemma_infix_top(ts, pa, leaf(v), limit, end);
            },
            _ => lemma_infix_top(ts, pa, leaf(v), limit, end),
        }
    }
}

proof fn lemma_if_top(ts: Seq<Seq<char>>, pos: int, pa: int, v: ValueView, limit: int, end: Seq<char>)
    requires
        v is Symbol,
    ensures
        binds_within(if_form(ts, pos, pa, v, limit, end), limit),
    decreases rem(ts, pos), 0int, 0int,
{
    if pa <= pos || pos < 0 || pos >= ts.len() {
    } else if let Ok((Some(c), pb)) = parse_spec(ts, pa, Seq::empty(), 1, Seq::empty()) {
        if pb > pos {
            if let Ok((Some(b), pc)) = parse_spec(ts, pb, Seq::empty(), 1, Seq::empty()) {
                if !(b.value != ValueView::Bracket(seq!['{']) || pc <= pos) {
                    if peek(ts, pc, true) == Some(ValueView::Symbol(else_word())) {
                        if let Ok((Some(x), pd)) = parse_spec(ts, pc, else_word(), 1, Seq::empty()) {
                            if x.children.len() > 0 && pd > pos {
                                lemma_infix_top(ts, pd, Tree { value: v, value_type: ValueType::Inference, children: seq![c, b, x.children[0]] }, limit, end);
                            }
                        }
                    } else {
                        lemma_infix_top(ts, pc, Tree { value: v, value_type: ValueType::Inference, children: seq![c, b] }, limit, end);
                    }
                }
            }
        }
    }
}

proof fn lemma_infix_top(ts: Seq<Seq<char>>, p: int, t: Tree, limit: int, end: Seq<char>)
    requires
        top_within(t, limit),
    ensures
        binds_within(infix(ts, p, t, limit, end), limit),
    decreases rem(ts, p), 2int, 1int,
{
    if p < 0 || p >= ts.len() {
    } else if let Some(ValueView::Operator(sym, pr)) = peek(ts, p, false) {
        if !(pr < limit || pr < 0) {
            lemma_parse_top(ts, p, sym, pr as int, end);
            if let Ok((Some(o), pb)) = parse_spec(ts, p, sym, pr as int, end) {
                if pb > p {
                    if let ValueView::Operator(_, opr) = o.value {
                        if can_graft(t, opr) {
                            if let Ok((r, pc)) = parse_spec(ts, pb, Seq::empty(), right_limit(opr) as int, end) {
                                let t2 = graft(t, o, opr, r);
                                lemma_graft_top(t, o, opr, r);
                                if pc >= pb {
                                    lemma_infix_top(ts, pc, t2, limit, end);
                                }
                            }
                        }
                    }
                }
            }
        }
    }
}

/// An element read with precedence limit `limit` (at least 0) is never
/// topped by an operator that binds less tightly than `limit`. The right
/// operand of an operator of precedence `p` is read with limit `p + 1`, so
/// where it is an operator it binds strictly tighter.
pub proof fn lemma_limit_respected(ts: Seq<Seq<char>>, pos: int, expect: Seq<char>, limit: int, end: Seq<char>)
    requires
        limit >= 0,
    ensures
        binds_within(parse_spec(ts, pos, expect, limit, end), limit),
{
    lemma_parse_top(ts, pos, expect, limit, end);
}

} // verus!
