//! Company tokens: their appearance, and the ordered collection of tokens
//! that a game defines, one per company.
use vstd::prelude::*;

verus! {

/// A colour in a token's palette.
#[derive(Debug, Clone, Copy, PartialEq, Eq, Structural, Hash)]
pub struct Colour {
    /// The amount of red, must be between 0 and 255 (inclusive).
    pub red: usize,
    /// The amount of green, must be between 0 and 255 (inclusive).
    pub green: usize,
    /// The amount of blue, must be between 0 and 255 (inclusive).
    pub blue: usize,
    /// The alpha transparency, must be between 0 and 100 (inclusive).
    pub alpha: Option<usize>,
}

impl From<(usize, usize, usize)> for Colour {
    /// An opaque colour with the given red, green and blue amounts.
    fn from(src: (usize, usize, usize)) -> (c: Self) {
        Colour { red: src.0, green: src.1, blue: src.2, alpha: None }
    }
}

impl vstd::std_specs::convert::FromSpecImpl<(usize, usize, usize)> for Colour {
    open spec fn obeys_from_spec() -> bool {
        true
    }

    open spec fn from_spec(src: (usize, usize, usize)) -> Self {
        Colour { red: src.0, green: src.1, blue: src.2, alpha: None }
    }
}

/// The appearance of a token.
#[derive(Debug, Clone, Copy, PartialEq, Eq, Structural, Hash)]
pub enum TokenStyle {
    SideArcs { bg: Colour, fg: Colour, text: Colour },
    TopArcs { bg: Colour, fg: Colour, text: Colour },
    TopSquares { bg: Colour, fg: Colour, text: Colour },
    TopLines { bg: Colour, fg: Colour, text: Colour },
    TopTriangles { bg: Colour, fg: Colour, text: Colour },
    TripleTriangles { bg: Colour, fg: Colour, text: Colour },
    TribandV { sides: Colour, middle: Colour, text: Colour },
    TribandH { sides: Colour, middle: Colour, text: Colour },
    TricolourV { left: Colour, middle: Colour, right: Colour, text: Colour },
    TricolourH { top: Colour, middle: Colour, bottom: Colour, text: Colour },
}

/// The colour in which a token style writes the company's name.
pub open spec fn text_of(style: TokenStyle) -> Colour {
    match style {
        TokenStyle::SideArcs { text, .. } => text,
        TokenStyle::TopArcs { text, .. } => text,
        TokenStyle::TopSquares { text, .. } => text,
        TokenStyle::TopLines { text, .. } => text,
        TokenStyle::TopTriangles { text, .. } => text,
        TokenStyle::TripleTriangles { text, .. } => text,
        TokenStyle::TribandV { text, .. } => text,
        TokenStyle::TribandH { text, .. } => text,
        TokenStyle::TricolourV { text, .. } => text,
        TokenStyle::TricolourH { text, .. } => text,
    }
}

impl TokenStyle {
    /// Returns the colour of the text drawn on tokens of this style.
    pub fn text_colour(&self) -> (c: &Colour)
        ensures
            *c == text_of(*self),
    {
        match self {
            TokenStyle::SideArcs { text, .. } => text,
            TokenStyle::TopArcs { text, .. } => text,
            TokenStyle::TopSquares { text, .. } => text,
            TokenStyle::TopLines { text, .. } => text,
            TokenStyle::TopTriangles { text, .. } => text,
            TokenStyle::TripleTriangles { text, .. } => text,
            TokenStyle::TribandV { text, .. } => text,
            TokenStyle::TribandH { text, .. } => text,
            TokenStyle::TricolourV { text, .. } => text,
            TokenStyle::TricolourH { text, .. } => text,
        }
    }
}

/// A token that may occupy a token space on a tile.
#[derive(Debug, Clone, Copy, PartialEq, Eq, Structural, Hash)]
pub struct Token {
    pub style: TokenStyle,
    /// The horizontal position of the text, as a percentage of the width.
    pub x_pcnt: usize,
    /// The vertical position of the text, as a percentage of the height.
    pub y_pcnt: usize,
}

impl Token {
    /// Returns a token of the given style, with its text centred.
    pub fn new(style: TokenStyle) -> (t: Self)
        ensures
            t.style == style,
            t.x_pcnt == 50,
            t.y_pcnt == 50,
    {
        Token { style, x_pcnt: 50, y_pcnt: 50 }
    }

    /// Returns this token with its text moved to the given position.
    pub fn shift_text(self, x_pcnt: usize, y_pcnt: usize) -> (t: Self)
        ensures
            t.style == self.style,
            t.x_pcnt == x_pcnt,
            t.y_pcnt == y_pcnt,
    {
        Token { style: self.style, x_pcnt, y_pcnt }
    }
}

/// Returns whether two strings hold the same characters.
pub fn str_eq(a: &str, b: &str) -> (r: bool)
    ensures
        r == (a@ == b@),
{
    let n = a.unicode_len();
    if n != b.unicode_len() {
        return false;
    }
    let mut i: usize = 0;
    while i < n
        invariant
            n == a@.len(),
            n == b@.len(),
            i <= n,
            forall|j: int| 0 <= j < i ==> a@[j] == b@[j],
        decreases n - i,
    {
        if a.get_char(i) != b.get_char(i) {
            return false;
        }
        i = i + 1;
    }
    assert(a@ =~= b@);
    true
}

/// The position of the first occurrence of `t` in `s`, if any.
pub open spec fn first_index_of<T>(s: Seq<T>, t: T) -> Option<int> {
    if exists|i: int| 0 <= i < s.len() && s[i] == t {
        Some(choose|i: int| 0 <= i < s.len() && s[i] == t && forall|j: int| 0 <= j < i ==> s[j] != t)
    } else {
        None
    }
}

/// The token that follows `t` among the companies' tokens, wrapping around
/// from the last token to the first, if `t` is one of them.
pub open spec fn following(s: Seq<Token>, t: Token) -> Option<Token> {
    match first_index_of(s, t) {
        Some(ix) => Some(s[if ix < s.len() - 1 { ix + 1 } else { 0 }]),
        None => None,
    }
}

/// The token that precedes `t` among the companies' tokens, wrapping around
/// from the first token to the last, if `t` is one of them.
pub open spec fn preceding(s: Seq<Token>, t: Token) -> Option<Token> {
    match first_index_of(s, t) {
        Some(ix) => Some(s[if ix > 0 { ix - 1 } else { s.len() - 1 }]),
        None => None,
    }
}

/// Where no token occurs twice, stepping to the next token and back to the
/// previous one (or back, then forward) returns to the token one started
/// from.
pub proof fn lemma_next_prev_inverse(s: Seq<Token>, t: Token)
    requires
        s.no_duplicates(),
        s.contains(t),
    ensures
        following(s, t) matches Some(n) && preceding(s, n) == Some(t),
        preceding(s, t) matches Some(p) && following(s, p) == Some(t),
{
    let i = choose|i: int| 0 <= i < s.len() && s[i] == t;
    lemma_first_index_unique(s, i);
    let n_ix = if i < s.len() - 1 { i + 1 } else { 0 };
    let p_ix = if i > 0 { i - 1 } else { s.len() - 1 };
    lemma_first_index_unique(s, n_ix);
    lemma_first_index_unique(s, p_ix);
}

/// Where no token occurs twice, each token's first occurrence is its only one.
proof fn lemma_first_index_unique(s: Seq<Token>, i: int)
    requires
        s.no_duplicates(),
        0 <= i < s.len(),
    ensures
        first_index_of(s, s[i]) == Some(i),
{
    lemma_first_index(s, s[i], i);
}

/// The first occurrence is at `i` when `t` occurs at `i` and not before.
pub proof fn lemma_first_index<T>(s: Seq<T>, t: T, i: int)
    requires
        0 <= i < s.len(),
        s[i] == t,
        forall|j: int| 0 <= j < i ==> s[j] != t,
    ensures
        first_index_of(s, t) == Some(i),
{
    assert(exists|k: int| 0 <= k < s.len() && s[k] == t);
    let c = choose|k: int| 0 <= k < s.len() && s[k] == t && forall|j: int| 0 <= j < k ==> s[j] != t;
    assert(0 <= i < s.len() && s[i] == t && forall|j: int| 0 <= j < i ==> s[j] != t);
    assert(0 <= c < s.len() && s[c] == t && forall|j: int| 0 <= j < c ==> s[j] != t);
    if c < i {
        assert(s[c] != t);
    } else if c > i {
        assert(s[i] != t);
    }
}

/// The collection of tokens associated with the companies, each with its
/// company's name, in a fixed order.
#[derive(Debug)]
pub struct Tokens {
    names: Vec<String>,
    tokens: Vec<Token>,
    count: usize,
}

impl Clone for Tokens {
    fn clone(&self) -> (t: Self)
        ensures
            t.token_seq() == self.token_seq(),
            t.name_seq() == self.name_seq(),
    {
        proof {
            use_type_invariant(self);
        }
        let names = self.names.clone();
        let tokens = self.tokens.clone();
        proof {
            assert(tokens@ =~= self.tokens@);
            assert(names@.len() == self.names@.len());
            assert forall|j: int| 0 <= j < names@.len() implies names@[j]@ == self.names@[j]@ by {
                assert(vstd::pervasive::cloned(self.names@[j], names@[j]));
            }
        }
        let t = Tokens { names, tokens, count: self.count };
        assert(t.name_seq() =~= self.name_seq());
        t
    }
}

impl Tokens {
    #[verifier::type_invariant]
    spec fn well_formed(self) -> bool {
        &&& self.names@.len() == self.tokens@.len()
        &&& self.count == self.tokens@.len()
    }

    /// The tokens, in order.
    pub closed spec fn token_seq(&self) -> Seq<Token> {
        self.tokens@
    }

    /// The company names, in the order of their tokens.
    pub closed spec fn name_seq(&self) -> Seq<Seq<char>> {
        self.names@.map_values(|n: String| n@)
    }

    /// Collects the named tokens, keeping their order.
    pub fn new(src: Vec<(String, Token)>) -> (t: Self)
        ensures
            t.token_seq() == src@.map_values(|p: (String, Token)| p.1),
            t.name_seq() == src@.map_values(|p: (String, Token)| p.0@),
    {
        let mut names: Vec<String> = Vec::new();
        let mut tokens: Vec<Token> = Vec::new();
        let count = src.len();
        let mut i: usize = 0;
        while i < count
            invariant
                count == src@.len(),
                i <= count,
                names@.len() == i,
                tokens@.len() == i,
                forall|j: int| 0 <= j < i ==> #[trigger] tokens@[j] == src@[j].1,
                forall|j: int| 0 <= j < i ==> (#[trigger] names@[j])@ == src@[j].0@,
            decreases count - i,
        {
            let name = src[i].0.clone();
            names.push(name);
            tokens.push(src[i].1);
            i = i + 1;
        }
        let t = Tokens { names, tokens, count };
        assert(t.token_seq() =~= src@.map_values(|p: (String, Token)| p.1));
        assert(t.name_seq() =~= src@.map_values(|p: (String, Token)| p.0@));
        t
    }

    /// Returns the tokens, in order.
    pub fn tokens(&self) -> (s: &[Token])
        ensures
            s@ == self.token_seq(),
    {
        self.tokens.as_slice()
    }

    /// Returns the company names, in the order of their tokens.
    pub fn names(&self) -> (s: &[String])
        ensures
            s@.map_values(|n: String| n@) == self.name_seq(),
    {
        proof {
            use_type_invariant(self);
        }
        let s = self.names.as_slice();
        assert(s@.map_values(|n: String| n@) =~= self.name_seq());
        s
    }

    /// Returns the number of tokens.
    pub fn count(&self) -> (n: usize)
        ensures
            n == self.token_seq().len(),
            n == self.name_seq().len(),
    {
        proof {
            use_type_invariant(self);
        }
        self.count
    }

    /// Returns the first token.
    pub fn first_token(&self) -> (t: Token)
        requires
            self.token_seq().len() > 0,
        ensures
            t == self.token_seq()[0],
    {
        self.tokens[0]
    }

    /// Returns the last token.
    pub fn last_token(&self) -> (t: Token)
        requires
            self.token_seq().len() > 0,
        ensures
            t == self.token_seq().last(),
    {
        proof {
            use_type_invariant(self);
        }
        self.tokens[self.count - 1]
    }

    /// Returns the position of the first occurrence of a token.
    fn index_of(&self, token: &Token) -> (r: Option<usize>)
        ensures
            match r {
                Some(ix) => first_index_of(self.token_seq(), *token) == Some(ix as int)
                    && ix < self.token_seq().len() && ix < self.name_seq().len(),
                None => first_index_of(self.token_seq(), *token) is None,
            },
    {
        proof {
            use_type_invariant(self);
        }
        let mut i: usize = 0;
        while i < self.tokens.len()
            invariant
                i <= self.tokens@.len(),
                self.names@.len() == self.tokens@.len(),
                forall|j: int| 0 <= j < i ==> self.tokens@[j] != *token,
            decreases self.tokens@.len() - i,
        {
            if self.tokens[i] == *token {
                proof {
                    lemma_first_index(self.tokens@, *token, i as int);
                }
                return Some(i);
            }
            i = i + 1;
        }
        None
    }

    /// Returns the token that precedes the given token, wrapping around from
    /// the first token to the last, or `None` if the token is not one of
    /// these tokens.
    pub fn prev_token(&self, token: &Token) -> (r: Option<Token>)
        ensures
            r == preceding(self.token_seq(), *token),
    {
        proof {
            use_type_invariant(self);
        }
        match self.index_of(token) {
            Some(ix) => {
                let prev = if ix > 0 { ix - 1 } else { self.count - 1 };
                Some(self.tokens[prev])
            },
            None => None,
        }
    }

    /// Returns the token that follows the given token, wrapping around from
    /// the last token to the first, or `None` if the token is not one of
    /// these tokens.
    pub fn next_token(&self, token: &Token) -> (r: Option<Token>)
        ensures
            r == following(self.token_seq(), *token),
    {
        proof {
            use_type_invariant(self);
        }
        match self.index_of(token) {
            Some(ix) => {
                let next = if ix < self.count - 1 { ix + 1 } else { 0 };
                Some(self.tokens[next])
            },
            None => None,
        }
    }

    /// Returns the position of the first company with the given name.
    fn name_index(&self, name: &str) -> (r: Option<usize>)
        ensures
            match r {
                Some(ix) => first_index_of(self.name_seq(), name@) == Some(ix as int)
                    && ix < self.token_seq().len() && ix < self.name_seq().len(),
                None => first_index_of(self.name_seq(), name@) is None,
            },
    {
        proof {
            use_type_invariant(self);
        }
        let ghost s = self.name_seq();
        let mut i: usize = 0;
        while i < self.names.len()
            invariant
                s == self.name_seq(),
                s.len() == self.names@.len(),
                self.names@.len() == self.tokens@.len(),
                i <= self.names@.len(),
                forall|j: int| 0 <= j < s.len() ==> #[trigger] s[j] == self.names@[j]@,
                forall|j: int| 0 <= j < i ==> s[j] != name@,
            decreases self.names@.len() - i,
        {
            if str_eq(self.names[i].as_str(), name) {
                proof {
                    lemma_first_index(s, name@, i as int);
                }
                return Some(i);
            }
            i = i + 1;
        }
        None
    }

    /// Returns the token of the first company with the given name, if any.
    pub fn token(&self, name: &str) -> (r: Option<&Token>)
        ensures
            match first_index_of(self.name_seq(), name@) {
                Some(ix) => r == Some(&self.token_seq()[ix]),
                None => r is None,
            },
    {
        proof {
            use_type_invariant(self);
        }
        match self.name_index(name) {
            Some(ix) => Some(&self.tokens[ix]),
            None => None,
        }
    }

    /// Returns the name of the first company with the given token, if any.
    pub fn name(&self, token: &Token) -> (r: Option<&str>)
        ensures
            match first_index_of(self.token_seq(), *token) {
                Some(ix) => r is Some && r->0@ == self.name_seq()[ix],
                None => r is None,
            },
    {
        proof {
            use_type_invariant(self);
        }
        match self.index_of(token) {
            Some(ix) => Some(self.names[ix].as_str()),
            None => None,
        }
    }
}

} // verus!
