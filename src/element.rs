use vstd::prelude::*;

verus! {

/// The semantic content of one syntax-tree node.
#[derive(Debug, PartialEq)]
pub enum Value {
    /// A name that starts with an alphabetic character.
    Identifier(String),
    /// A decimal integer literal.
    Integer(i64),
    /// A string literal.
    String(String),
    /// A binary infix operator with its precedence (higher binds tighter).
    Operator(String, i32),
    /// A formula literal.
    Formula(String),
    /// The semantic content of a bracket scope.
    Scope(Box<Value>),
    /// An opening or closing bracket; an opened scope keeps its children.
    Bracket(String),
    /// A reserved word: `let`, `if` or `else`.
    Symbol(String),
    /// The separator that ends every input line.
    EndLine,
    /// A run of whitespace characters.
    Space(String),
    /// The root of a whole-file parse.
    FileScope,
}

#[derive(Debug, Clone, Copy, PartialEq, Eq, Structural)]
pub enum ValueType {
    /// The type is left to be inferred by a later stage.
    Inference,
    /// A synthetic node that carries no type.
    Unresolved,
}

/// One node of the syntax tree with its ordered children.
#[derive(Debug)]
pub struct Element {
    pub value: Value,
    pub value_type: ValueType,
    pub childlen: Vec<Element>,
}

/// The mathematical model of a `Value`: strings become character sequences.
pub enum ValueView {
    Identifier(Seq<char>),
    Integer(i64),
    Str(Seq<char>),
    Operator(Seq<char>, i32),
    Formula(Seq<char>),
    Scope(Box<ValueView>),
    Bracket(Seq<char>),
    Symbol(Seq<char>),
    EndLine,
    Space(Seq<char>),
    FileScope,
}

/// The mathematical model of an `Element`.
pub struct Tree {
    pub value: ValueView,
    pub value_type: ValueType,
    pub children: Seq<Tree>,
}

impl Value {
    pub open spec fn view(&self) -> ValueView
        decreases self,
    {
        match self {
            Value::Identifier(s) => ValueView::Identifier(s@),
            Value::Integer(n) => ValueView::Integer(*n),
            Value::String(s) => ValueView::Str(s@),
            Value::Operator(s, p) => ValueView::Operator(s@, *p),
            Value::Formula(s) => ValueView::Formula(s@),
            Value::Scope(b) => ValueView::Scope(Box::new((**b).view())),
            Value::Bracket(s) => ValueView::Bracket(s@),
            Value::Symbol(s) => ValueView::Symbol(s@),
            Value::EndLine => ValueView::EndLine,
            Value::Space(s) => ValueView::Space(s@),
            Value::FileScope => ValueView::FileScope,
        }
    }
}

impl Element {
    pub open spec fn view(&self) -> Tree
        decreases self, 1nat,
    {
        Tree { value: self.value.view(), value_type: self.value_type, children: trees(self.childlen@) }
    }
}

/// The models of a sequence of elements, in order.
pub open spec fn trees(s: Seq<Element>) -> Seq<Tree>
    decreases s, 0nat,
{
    if s.len() == 0 {
        Seq::empty()
    } else {
        trees(s.drop_last()).push(s.last().view())
    }
}

/// Appending an element appends its model.
pub proof fn lemma_trees_push(s: Seq<Element>, e: Element)
    ensures
        trees(s.push(e)) == trees(s).push(e.view()),
{
    assert(s.push(e).drop_last() =~= s);
}

/// The models line up with the elements one for one.
pub proof fn lemma_trees_len(s: Seq<Element>)
    ensures
        trees(s).len() == s.len(),
        forall|i: int| 0 <= i < s.len() ==> #[trigger] trees(s)[i] == s[i].view(),
    decreases s.len(),
{
    if s.len() > 0 {
        lemma_trees_len(s.drop_last());
    }
}

/// A childless node of inferred type.
pub open spec fn leaf(v: ValueView) -> Tree {
    Tree { value: v, value_type: ValueType::Inference, children: Seq::empty() }
}

/// The precedence of each operator of the table; `None` off the table.
pub open spec fn operator_precedence(t: Seq<char>) -> Option<i32> {
    if t == seq!['*'] || t == seq!['/'] {
        Some(20i32)
    } else if t == seq!['+'] || t == seq!['-'] {
        Some(10i32)
    } else {
        None
    }
}

/// The closer that pairs with an opening bracket.
pub open spec fn closer_of(t: Seq<char>) -> Option<Seq<char>> {
    if t == seq!['('] {
        Some(seq![')'])
    } else if t == seq!['{'] {
        Some(seq!['}'])
    } else {
        None
    }
}

pub open spec fn is_bracket(t: Seq<char>) -> bool {
    t == seq!['('] || t == seq![')'] || t == seq!['{'] || t == seq!['}']
}

pub open spec fn is_keyword(t: Seq<char>) -> bool {
    t == seq!['l', 'e', 't'] || t == seq!['i', 'f'] || t == seq!['e', 'l', 's', 'e']
}

/// Unicode's White_Space property.
pub open spec fn is_white(c: char) -> bool {
    ('\u{9}' <= c && c <= '\u{d}') || c == ' ' || c == '\u{85}' || c == '\u{a0}' || c == '\u{1680}'
        || ('\u{2000}' <= c && c <= '\u{200a}') || c == '\u{2028}' || c == '\u{2029}' || c
        == '\u{202f}' || c == '\u{205f}' || c == '\u{3000}'
}

/// A nonempty run of whitespace characters.
pub open spec fn all_white(t: Seq<char>) -> bool {
    t.len() > 0 && forall|i: int| 0 <= i < t.len() ==> is_white(#[trigger] t[i])
}

pub open spec fn is_digit(c: char) -> bool {
    '0' <= c && c <= '9'
}

pub open spec fn all_digits(t: Seq<char>) -> bool {
    t.len() > 0 && forall|i: int| 0 <= i < t.len() ==> is_digit(#[trigger] t[i])
}

/// The number that a string of decimal digits denotes.
pub open spec fn digits_value(t: Seq<char>) -> int
    decreases t.len(),
{
    if t.len() == 0 {
        0
    } else {
        10 * digits_value(t.drop_last()) + (t.last() as int - '0' as int)
    }
}

/// What `char::is_alphabetic` returns for a character.
pub uninterp spec fn alphabetic(c: char) -> bool;

/// The line separator token.
pub open spec fn end_line() -> Seq<char> {
    seq!['\n']
}

/// How a token is classified, in the order of the lookups, given whether it
/// starts with an alphabetic character; `None` for an unrecognized token.
pub open spec fn classify_as(t: Seq<char>, starts_alphabetic: bool) -> Option<ValueView> {
    if operator_precedence(t) is Some {
        Some(ValueView::Operator(t, operator_precedence(t)->0))
    } else if is_bracket(t) {
        Some(ValueView::Bracket(t))
    } else if t == end_line() {
        Some(ValueView::EndLine)
    } else if all_white(t) {
        Some(ValueView::Space(t))
    } else if is_keyword(t) {
        Some(ValueView::Symbol(t))
    } else if all_digits(t) {
        if digits_value(t) <= i64::MAX {
            Some(ValueView::Integer(digits_value(t) as i64))
        } else {
            None
        }
    } else if t.len() > 0 && starts_alphabetic {
        Some(ValueView::Identifier(t))
    } else {
        None
    }
}

/// Whether a character is alphabetic: among ASCII characters exactly the
/// letters, elsewhere as `char::is_alphabetic` says.
pub open spec fn is_alpha(c: char) -> bool {
    if (c as u32) < 128 {
        ('a' <= c && c <= 'z') || ('A' <= c && c <= 'Z')
    } else {
        alphabetic(c)
    }
}

/// How a token is classified.
pub open spec fn classify(t: Seq<char>) -> Option<ValueView> {
    classify_as(t, t.len() > 0 && is_alpha(t[0]))
}

/// A token that a literal match and a look-ahead pass over.
pub open spec fn is_blank(t: Seq<char>) -> bool {
    all_white(t)
}

/// The model of an optional element.
pub open spec fn opt_tree(e: Option<Element>) -> Option<Tree> {
    match e {
        Some(x) => Some(x.view()),
        None => None,
    }
}

/// Relies on `char::is_alphabetic`: its answer depends on the character
/// alone; of the ASCII characters exactly the letters are alphabetic.
#[verifier::external_body]
fn char_is_alphabetic(c: char) -> (r: bool)
    ensures
        r == alphabetic(c),
        ('a' <= c && c <= 'z') || ('A' <= c && c <= 'Z') ==> r,
        (c as u32) < 128 && !(('a' <= c && c <= 'z') || ('A' <= c && c <= 'Z')) ==> !r,
{
    c.is_alphabetic()
}

/// Whether `c` has Unicode's White_Space property.
pub fn is_whitespace_char(c: char) -> (r: bool)
    ensures
        r == is_white(c),
{
    ('\u{9}' <= c && c <= '\u{d}') || c == ' ' || c == '\u{85}' || c == '\u{a0}' || c == '\u{1680}'
        || ('\u{2000}' <= c && c <= '\u{200a}') || c == '\u{2028}' || c == '\u{2029}' || c
        == '\u{202f}' || c == '\u{205f}' || c == '\u{3000}'
}

/// Whether `t` holds exactly the characters of `w`.
pub fn same_text(t: &str, w: &str) -> (r: bool)
    ensures
        r == (t@ == w@),
{
    let n = t.unicode_len();
    if n != w.unicode_len() {
        return false;
    }
    let mut i: usize = 0;
    while i < n
        invariant
            n == t@.len(),
            n == w@.len(),
            i <= n,
            forall|j: int| 0 <= j < i ==> t@[j] == w@[j],
        decreases n - i,
    {
        if t.get_char(i) != w.get_char(i) {
            return false;
        }
        i += 1;
    }
    assert(t@ =~= w@);
    true
}

/// The operator of the table spelled `ope`.
pub fn get_operator(ope: &String) -> (r: Value)
    requires
        operator_precedence(ope@) is Some,
    ensures
        r@ == ValueView::Operator(ope@, operator_precedence(ope@)->0),
{
    Value::Operator(ope.clone(), operator_precedence_of(ope.as_str()))
}

/// The precedence of an operator known to be in the table.
fn operator_precedence_of(t: &str) -> (r: i32)
    requires
        operator_precedence(t@) is Some,
    ensures
        r == operator_precedence(t@)->0,
{
    if t.unicode_len() == 1 && (t.get_char(0) == '*' || t.get_char(0) == '/') {
        assert(t@ =~= seq![t@[0]]);
        20
    } else {
        10
    }
}

/// The precedence of `t` in the operator table, if it is there.
fn lookup_operator(t: &str) -> (r: Option<i32>)
    ensures
        r == operator_precedence(t@),
{
    if t.unicode_len() == 1 {
        let c = t.get_char(0);
        assert(t@ =~= seq![c]);
        if c == '*' || c == '/' {
            Some(20)
        } else if c == '+' || c == '-' {
            Some(10)
        } else {
            None
        }
    } else {
        None
    }
}

/// The closing bracket that pairs with the opening bracket `bra`.
pub fn get_end_bracket(bra: &str) -> (r: Option<String>)
    ensures
        r matches Some(s) ==> closer_of(bra@) == Some(s@),
        r is None ==> closer_of(bra@) is None,
{
    if bra.unicode_len() == 1 {
        let c = bra.get_char(0);
        assert(bra@ =~= seq![c]);
        if c == '(' {
            let s = ")".to_owned();
            proof {
                reveal_strlit(")");
            }
            assert(s@ =~= seq![')']);
            return Some(s);
        } else if c == '{' {
            let s = "}".to_owned();
            proof {
                reveal_strlit("}");
            }
            assert(s@ =~= seq!['}']);
            return Some(s);
        }
    }
    None
}

/// The model of an optional value.
pub open spec fn opt_value(v: Option<Value>) -> Option<ValueView> {
    match v {
        Some(x) => Some(x.view()),
        None => None,
    }
}

/// A digit string never denotes a negative number.
proof fn lemma_digits_nonneg(t: Seq<char>)
    requires
        forall|i: int| 0 <= i < t.len() ==> is_digit(#[trigger] t[i]),
    ensures
        digits_value(t) >= 0,
    decreases t.len(),
{
    if t.len() > 0 {
        lemma_digits_nonneg(t.drop_last());
    }
}

/// A prefix of a digit string never denotes more than the whole string.
proof fn lemma_digits_prefix(t: Seq<char>, k: int)
    requires
        0 <= k <= t.len(),
        forall|i: int| 0 <= i < t.len() ==> is_digit(#[trigger] t[i]),
    ensures
        digits_value(t.take(k)) <= digits_value(t),
    decreases t.len() - k,
{
    if k < t.len() {
        lemma_digits_prefix(t, k + 1);
        assert(t.take(k + 1).drop_last() =~= t.take(k));
        lemma_digits_nonneg(t.take(k));
    } else {
        assert(t.take(k) =~= t);
    }
}

/// Whether `t` is a nonempty run of whitespace.
pub(crate) fn all_white_text(t: &str) -> (r: bool)
    ensures
        r == all_white(t@),
{
    let n = t.unicode_len();
    if n == 0 {
        return false;
    }
    let mut i: usize = 0;
    while i < n
        invariant
            n == t@.len(),
            i <= n,
            forall|j: int| 0 <= j < i ==> is_white(#[trigger] t@[j]),
        decreases n - i,
    {
        if !is_whitespace_char(t.get_char(i)) {
            return false;
        }
        i += 1;
    }
    true
}

/// Whether `t` is a nonempty run of decimal digits.
fn all_digits_text(t: &str) -> (r: bool)
    ensures
        r == all_digits(t@),
{
    let n = t.unicode_len();
    if n == 0 {
        return false;
    }
    let mut i: usize = 0;
    while i < n
        invariant
            n == t@.len(),
            i <= n,
            forall|j: int| 0 <= j < i ==> is_digit(#[trigger] t@[j]),
        decreases n - i,
    {
        let c = t.get_char(i);
        if !('0' <= c && c <= '9') {
            return false;
        }
        i += 1;
    }
    true
}

/// The value of a digit string, or `None` where it exceeds `i64::MAX`.
fn digits_to_i64(t: &str) -> (r: Option<i64>)
    requires
        all_digits(t@),
    ensures
        r matches Some(v) ==> digits_value(t@) <= i64::MAX && v == digits_value(t@),
        r is None ==> digits_value(t@) > i64::MAX,
{
    let n = t.unicode_len();
    let mut v: i64 = 0;
    let mut i: usize = 0;
    while i < n
        invariant
            n == t@.len(),
            i <= n,
            all_digits(t@),
            0 <= v,
            v == digits_value(t@.take(i as int)),
        decreases n - i,
    {
        let c = t.get_char(i);
        assert(is_digit(t@[i as int]));
        let d = (c as u32 - '0' as u32) as i64;
        assert(t@.take(i + 1).drop_last() =~= t@.take(i as int));
        if v > 922337203685477580 || (v == 922337203685477580 && d > 7) {
            proof {
                lemma_digits_prefix(t@, i + 1);
            }
            return None;
        }
        v = 10 * v + d;
        i += 1;
    }
    assert(t@.take(n as int) =~= t@);
    Some(v)
}

/// Whether `t` is one of the four bracket characters.
fn is_bracket_text(t: &str) -> (r: bool)
    ensures
        r == is_bracket(t@),
{
    if t.unicode_len() == 1 {
        let c = t.get_char(0);
        assert(t@ =~= seq![c]);
        c == '(' || c == ')' || c == '{' || c == '}'
    } else {
        false
    }
}

/// The value a token stands for, by the lookups in order, where
/// `starts_alphabetic` tells whether its first character is alphabetic.
pub fn classify_value(t: &str, starts_alphabetic: bool) -> (r: Option<Value>)
    ensures
        opt_value(r) == classify_as(t@, starts_alphabetic),
{
    proof {
        reveal_strlit("\n");
        reveal_strlit("let");
        reveal_strlit("if");
        reveal_strlit("else");
    }
    if let Some(p) = lookup_operator(t) {
        return Some(Value::Operator(t.to_owned(), p));
    }
    if is_bracket_text(t) {
        return Some(Value::Bracket(t.to_owned()));
    }
    if same_text(t, "\n") {
        assert("\n"@ =~= end_line());
        return Some(Value::EndLine);
    }
    assert(t@ != end_line()) by {
        assert("\n"@ =~= end_line());
    }
    if all_white_text(t) {
        return Some(Value::Space(t.to_owned()));
    }
    let kw = same_text(t, "let") || same_text(t, "if") || same_text(t, "else");
    assert("let"@ =~= seq!['l', 'e', 't']);
    assert("if"@ =~= seq!['i', 'f']);
    assert("else"@ =~= seq!['e', 'l', 's', 'e']);
    if kw {
        return Some(Value::Symbol(t.to_owned()));
    }
    if all_digits_text(t) {
        return match digits_to_i64(t) {
            Some(v) => Some(Value::Integer(v)),
            None => None,
        };
    }
    if t.unicode_len() > 0 && starts_alphabetic {
        return Some(Value::Identifier(t.to_owned()));
    }
    None
}

/// The value a token stands for, by the lookups in order.
fn classify_text(t: &str) -> (r: Option<Value>)
    ensures
        opt_value(r) == classify(t@),
{
    let alpha = t.unicode_len() > 0 && char_is_alphabetic(t.get_char(0));
    classify_value(t, alpha)
}

/// The element that a single token stands for, or `None` for an
/// unrecognized token.
pub fn get_element(token: &str) -> (r: Option<Element>)
    ensures
        opt_tree(r) == (match classify(token@) {
            Some(v) => Some(leaf(v)),
            None => None,
        }),
{
    match classify_text(token) {
        Some(v) => {
            let e = Element { value: v, value_type: ValueType::Inference, childlen: Vec::new() };
            assert(e.childlen@ =~= Seq::<Element>::empty());
            assert(e.view().children =~= Seq::<Tree>::empty());
            Some(e)
        },
        None => None,
    }
}

} // verus!
