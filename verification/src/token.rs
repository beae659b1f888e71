//! Value types of the rewrite engine: tokens, pattern tokens and
//! expressions, together with their mathematical views and their total
//! order (shorter expression first, then lexicographic over tokens).

use vstd::prelude::*;

verus! {

/// Mathematical value of a [`Token`].
pub enum TokenView {
    Element { name: Seq<char> },
    Literal { name: Seq<char> },
}

/// A single unit of an expression.
pub enum Token {
    /// An atom of some structure's domain.
    Element(String),
    /// A reserved syntactic symbol with no meaning of its own.
    Literal(String),
}

impl View for Token {
    type V = TokenView;

    open spec fn view(&self) -> TokenView {
        match self {
            Token::Element(name) => TokenView::Element { name: name@ },
            Token::Literal(name) => TokenView::Literal { name: name@ },
        }
    }
}

impl DeepView for Token {
    type V = TokenView;

    open spec fn deep_view(&self) -> TokenView {
        self@
    }
}

impl Clone for Token {
    fn clone(&self) -> (r: Self)
        ensures
            r == *self,
    {
        match self {
            Token::Element(name) => Token::Element(name.clone()),
            Token::Literal(name) => Token::Literal(name.clone()),
        }
    }
}

impl Token {
    /// Whether two tokens have the same variant and the same name.
    pub fn same_as(&self, other: &Token) -> (r: bool)
        ensures
            r == (self@ == other@),
    {
        match (self, other) {
            (Token::Element(a), Token::Element(b)) => *a == *b,
            (Token::Literal(a), Token::Literal(b)) => *a == *b,
            _ => false,
        }
    }
}

/// Mathematical value of a [`PatternToken`].
pub enum PatternTokenView {
    Concrete(TokenView),
    Variable { name: Seq<char> },
    SpreadVariable { name: Seq<char> },
}

/// One unit of a pattern.
pub enum PatternToken {
    /// Matches exactly this token.
    Concrete(Token),
    /// A variable binding exactly one token.
    Variable(String),
    /// A variable binding a non-empty contiguous run of tokens.
    SpreadVariable(String),
}

impl View for PatternToken {
    type V = PatternTokenView;

    open spec fn view(&self) -> PatternTokenView {
        match self {
            PatternToken::Concrete(token) => PatternTokenView::Concrete(token@),
            PatternToken::Variable(name) => PatternTokenView::Variable { name: name@ },
            PatternToken::SpreadVariable(name) => PatternTokenView::SpreadVariable { name: name@ },
        }
    }
}

impl DeepView for PatternToken {
    type V = PatternTokenView;

    open spec fn deep_view(&self) -> PatternTokenView {
        self@
    }
}

impl Clone for PatternToken {
    fn clone(&self) -> (r: Self)
        ensures
            r == *self,
    {
        match self {
            PatternToken::Concrete(token) => PatternToken::Concrete(token.clone()),
            PatternToken::Variable(name) => PatternToken::Variable(name.clone()),
            PatternToken::SpreadVariable(name) => PatternToken::SpreadVariable(name.clone()),
        }
    }
}

/// An ordered sequence of tokens.
pub struct Expression {
    pub tokens: Vec<Token>,
}

impl View for Expression {
    type V = Seq<TokenView>;

    open spec fn view(&self) -> Seq<TokenView> {
        self.tokens.deep_view()
    }
}

impl DeepView for Expression {
    type V = Seq<TokenView>;

    open spec fn deep_view(&self) -> Seq<TokenView> {
        self@
    }
}

impl Clone for Expression {
    fn clone(&self) -> (r: Self)
        ensures
            r@ == self@,
    {
        let tokens = self.tokens.clone();
        proof {
            assert(tokens.deep_view() =~= self.tokens.deep_view());
        }
        Expression { tokens }
    }
}

impl Expression {
    pub fn new(tokens: Vec<Token>) -> (r: Self)
        ensures
            r.tokens@ == tokens@,
    {
        Expression { tokens }
    }
}

/// Lexicographic order over character sequences, by code point.
pub open spec fn chars_lt(a: Seq<char>, b: Seq<char>) -> bool
    decreases a.len(),
{
    if b.len() == 0 {
        false
    } else if a.len() == 0 {
        true
    } else if a[0] != b[0] {
        a[0] < b[0]
    } else {
        chars_lt(a.drop_first(), b.drop_first())
    }
}

/// Strict order over tokens: elements before literals, names lexicographic.
pub open spec fn token_lt(a: TokenView, b: TokenView) -> bool {
    match (a, b) {
        (TokenView::Element { .. }, TokenView::Literal { .. }) => true,
        (TokenView::Literal { .. }, TokenView::Element { .. }) => false,
        (TokenView::Element { name: x }, TokenView::Element { name: y }) => chars_lt(x, y),
        (TokenView::Literal { name: x }, TokenView::Literal { name: y }) => chars_lt(x, y),
    }
}

/// Lexicographic order over token sequences of equal standing.
pub open spec fn tokens_lt(a: Seq<TokenView>, b: Seq<TokenView>) -> bool
    decreases a.len(),
{
    if b.len() == 0 {
        false
    } else if a.len() == 0 {
        true
    } else if a[0] != b[0] {
        token_lt(a[0], b[0])
    } else {
        tokens_lt(a.drop_first(), b.drop_first())
    }
}

/// Strict order over expressions: the shorter sequence is smaller, ties
/// are broken lexicographically over the tokens.
pub open spec fn expr_lt(a: Seq<TokenView>, b: Seq<TokenView>) -> bool {
    if a.len() != b.len() {
        a.len() < b.len()
    } else {
        tokens_lt(a, b)
    }
}

/// Non-strict expression order.
pub open spec fn expr_le(a: Seq<TokenView>, b: Seq<TokenView>) -> bool {
    a == b || expr_lt(a, b)
}

/// The character-sequence order is a strict total order: exactly one of
/// `a < b`, `a == b`, `b < a` holds.
pub proof fn lemma_chars_lt_trichotomy(a: Seq<char>, b: Seq<char>)
    ensures
        chars_lt(a, b) || chars_lt(b, a) || a == b,
        !(chars_lt(a, b) && chars_lt(b, a)),
        chars_lt(a, b) ==> a != b,
    decreases a.len() + b.len(),
{
    if a.len() == 0 && b.len() == 0 {
        assert(a =~= b);
    } else if a.len() > 0 && b.len() > 0 {
        if a[0] == b[0] {
            lemma_chars_lt_trichotomy(a.drop_first(), b.drop_first());
            if a.drop_first() == b.drop_first() {
                assert(a =~= seq![a[0]] + a.drop_first());
                assert(b =~= seq![b[0]] + b.drop_first());
            }
            if a == b {
                assert(a.drop_first() =~= b.drop_first());
            }
        }
    }
}

/// The character-sequence order is transitive.
pub proof fn lemma_chars_lt_trans(a: Seq<char>, b: Seq<char>, c: Seq<char>)
    requires
        chars_lt(a, b),
        chars_lt(b, c),
    ensures
        chars_lt(a, c),
    decreases a.len() + b.len() + c.len(),
{
    if a.len() == 0 {
    } else if b.len() == 0 {
    } else if c.len() == 0 {
    } else {
        if a[0] == b[0] && b[0] == c[0] {
            lemma_chars_lt_trans(a.drop_first(), b.drop_first(), c.drop_first());
        }
    }
}

/// The token order is a strict total order.
pub proof fn lemma_token_lt_trichotomy(a: TokenView, b: TokenView)
    ensures
        token_lt(a, b) || token_lt(b, a) || a == b,
        !(token_lt(a, b) && token_lt(b, a)),
        token_lt(a, b) ==> a != b,
{
    match (a, b) {
        (TokenView::Element { name: x }, TokenView::Element { name: y }) => {
            lemma_chars_lt_trichotomy(x, y);
        },
        (TokenView::Literal { name: x }, TokenView::Literal { name: y }) => {
            lemma_chars_lt_trichotomy(x, y);
        },
        _ => {},
    }
}

/// The token order is transitive.
pub proof fn lemma_token_lt_trans(a: TokenView, b: TokenView, c: TokenView)
    requires
        token_lt(a, b),
        token_lt(b, c),
    ensures
        token_lt(a, c),
{
    match (a, b) {
        (TokenView::Element { name: x }, TokenView::Element { name: y }) => {
            match c {
                TokenView::Element { name: z } => {
                    lemma_chars_lt_trans(x, y, z);
                },
                _ => {},
            }
        },
        (TokenView::Literal { name: x }, TokenView::Literal { name: y }) => {
            match c {
                TokenView::Literal { name: z } => {
                    lemma_chars_lt_trans(x, y, z);
                },
                _ => {},
            }
        },
        _ => {},
    }
}

/// The lexicographic token-sequence order is a strict total order.
pub proof fn lemma_tokens_lt_trichotomy(a: Seq<TokenView>, b: Seq<TokenView>)
    ensures
        tokens_lt(a, b) || tokens_lt(b, a) || a == b,
        !(tokens_lt(a, b) && tokens_lt(b, a)),
        tokens_lt(a, b) ==> a != b,
    decreases a.len() + b.len(),
{
    if a.len() == 0 && b.len() == 0 {
        assert(a =~= b);
    } else if a.len() > 0 && b.len() > 0 {
        lemma_token_lt_trichotomy(a[0], b[0]);
        if a[0] == b[0] {
            lemma_tokens_lt_trichotomy(a.drop_first(), b.drop_first());
            if a.drop_first() == b.drop_first() {
                assert(a =~= seq![a[0]] + a.drop_first());
                assert(b =~= seq![b[0]] + b.drop_first());
            }
            if a == b {
                assert(a.drop_first() =~= b.drop_first());
            }
        }
    }
}

/// The lexicographic token-sequence order is transitive.
pub proof fn lemma_tokens_lt_trans(a: Seq<TokenView>, b: Seq<TokenView>, c: Seq<TokenView>)
    requires
        tokens_lt(a, b),
        tokens_lt(b, c),
    ensures
        tokens_lt(a, c),
    decreases a.len() + b.len() + c.len(),
{
    if a.len() == 0 {
    } else if b.len() == 0 {
    } else if c.len() == 0 {
    } else {
        lemma_token_lt_trichotomy(a[0], b[0]);
        lemma_token_lt_trichotomy(b[0], c[0]);
        lemma_token_lt_trichotomy(a[0], c[0]);
        if a[0] == b[0] && b[0] == c[0] {
            lemma_tokens_lt_trans(a.drop_first(), b.drop_first(), c.drop_first());
        } else if a[0] != b[0] && b[0] != c[0] {
            lemma_token_lt_trans(a[0], b[0], c[0]);
        }
    }
}

/// The expression order is a strict total order.
pub proof fn lemma_expr_lt_trichotomy(a: Seq<TokenView>, b: Seq<TokenView>)
    ensures
        expr_lt(a, b) || expr_lt(b, a) || a == b,
        !(expr_lt(a, b) && expr_lt(b, a)),
        expr_lt(a, b) ==> a != b,
{
    if a.len() == b.len() {
        lemma_tokens_lt_trichotomy(a, b);
    }
}

/// The expression order is transitive.
pub proof fn lemma_expr_lt_trans(a: Seq<TokenView>, b: Seq<TokenView>, c: Seq<TokenView>)
    requires
        expr_lt(a, b),
        expr_lt(b, c),
    ensures
        expr_lt(a, c),
{
    if a.len() == b.len() && b.len() == c.len() {
        lemma_tokens_lt_trans(a, b, c);
    }
}

/// Compares two strings lexicographically by code point.
pub fn str_lt(a: &String, b: &String) -> (r: bool)
    ensures
        r == chars_lt(a@, b@),
{
    let av = crate::chars::chars_of(a.as_str());
    let bv = crate::chars::chars_of(b.as_str());
    let mut i: usize = 0;
    proof {
        assert(a@.skip(0) == a@);
        assert(b@.skip(0) == b@);
        assert(av@.take(0) =~= bv@.take(0));
    }
    loop
        invariant
            i <= av.len(),
            i <= bv.len(),
            av@ == a@,
            bv@ == b@,
            av@.take(i as int) == bv@.take(i as int),
            chars_lt(a@, b@) == chars_lt(a@.skip(i as int), b@.skip(i as int)),
        decreases av.len() - i,
    {
        if i == bv.len() {
            proof {
                assert(b@.skip(i as int).len() == 0);
            }
            return false;
        }
        if i == av.len() {
            proof {
                assert(a@.skip(i as int).len() == 0);
                assert(b@.skip(i as int).len() > 0);
            }
            return true;
        }
        let ca = av[i];
        let cb = bv[i];
        proof {
            assert(a@.skip(i as int)[0] == a@[i as int]);
            assert(b@.skip(i as int)[0] == b@[i as int]);
            assert(a@.skip(i as int).drop_first() == a@.skip(i + 1));
            assert(b@.skip(i as int).drop_first() == b@.skip(i + 1));
        }
        if ca != cb {
            return ca < cb;
        }
        proof {
            assert(av@.take(i + 1) == av@.take(i as int).push(ca));
            assert(bv@.take(i + 1) == bv@.take(i as int).push(cb));
        }
        i = i + 1;
    }
}

/// Compares two tokens under the token order.
pub fn token_lt_exec(a: &Token, b: &Token) -> (r: bool)
    ensures
        r == token_lt(a@, b@),
{
    match (a, b) {
        (Token::Element(_), Token::Literal(_)) => true,
        (Token::Literal(_), Token::Element(_)) => false,
        (Token::Element(x), Token::Element(y)) => str_lt(x, y),
        (Token::Literal(x), Token::Literal(y)) => str_lt(x, y),
    }
}

/// Compares two expressions under the expression order.
pub fn expr_lt_exec(a: &Expression, b: &Expression) -> (r: bool)
    ensures
        r == expr_lt(a@, b@),
{
    if a.tokens.len() != b.tokens.len() {
        return a.tokens.len() < b.tokens.len();
    }
    let mut i: usize = 0;
    proof {
        assert(a@.skip(0) == a@);
        assert(b@.skip(0) == b@);
        assert(a@.take(0) =~= b@.take(0));
    }
    loop
        invariant
            i <= a.tokens.len(),
            a.tokens.len() == b.tokens.len(),
            a@.take(i as int) == b@.take(i as int),
            tokens_lt(a@, b@) == tokens_lt(a@.skip(i as int), b@.skip(i as int)),
            expr_lt(a@, b@) == tokens_lt(a@, b@),
        decreases a.tokens.len() - i,
    {
        if i == a.tokens.len() {
            proof {
                assert(a@.skip(i as int).len() == 0);
                assert(b@.skip(i as int).len() == 0);
            }
            return false;
        }
        let ta = &a.tokens[i];
        let tb = &b.tokens[i];
        proof {
            assert(a@.skip(i as int)[0] == a@[i as int]);
            assert(b@.skip(i as int)[0] == b@[i as int]);
            assert(a@.skip(i as int).drop_first() == a@.skip(i + 1));
            assert(b@.skip(i as int).drop_first() == b@.skip(i + 1));
        }
        if !ta.same_as(tb) {
            return token_lt_exec(ta, tb);
        }
        proof {
            assert(a@.take(i + 1) == a@.take(i as int).push(a@[i as int]));
            assert(b@.take(i + 1) == b@.take(i as int).push(b@[i as int]));
        }
        i = i + 1;
    }
}

/// Whether two expressions hold equal tokens.
pub fn expr_eq(a: &Expression, b: &Expression) -> (r: bool)
    ensures
        r == (a@ == b@),
{
    if a.tokens.len() != b.tokens.len() {
        proof {
            assert(a@.len() == a.tokens.len());
            assert(b@.len() == b.tokens.len());
        }
        return false;
    }
    let mut i: usize = 0;
    while i < a.tokens.len()
        invariant
            i <= a.tokens.len(),
            a.tokens.len() == b.tokens.len(),
            a@.take(i as int) == b@.take(i as int),
        decreases a.tokens.len() - i,
    {
        if !a.tokens[i].same_as(&b.tokens[i]) {
            proof {
                assert(a@[i as int] != b@[i as int]);
            }
            return false;
        }
        proof {
            assert(a@.take(i + 1) == a@.take(i as int).push(a@[i as int]));
            assert(b@.take(i + 1) == b@.take(i as int).push(b@[i as int]));
        }
        i = i + 1;
    }
    proof {
        assert(a@ == a@.take(a.tokens.len() as int));
        assert(b@ == b@.take(b.tokens.len() as int));
    }
    true
}

} // verus!
