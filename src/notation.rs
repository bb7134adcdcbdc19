use vstd::prelude::*;
use vstd::string::StrSliceExecFns;

verus! {

/// The five symbols of a notation, as characters.
pub struct Symbols {
    pub neg: Seq<char>,
    pub and: Seq<char>,
    pub or: Seq<char>,
    pub con: Seq<char>,
    pub bicon: Seq<char>,
}

/// Whether one of two symbols is a prefix of the other, so that a reader
/// could not tell them apart.
pub open spec fn clash(a: Seq<char>, b: Seq<char>) -> bool {
    a.is_prefix_of(b) || b.is_prefix_of(a)
}

/// Whether a symbol may stand beside the four others.
pub open spec fn fits(s: Seq<char>, o1: Seq<char>, o2: Seq<char>, o3: Seq<char>, o4: Seq<char>) -> bool {
    !clash(s, o1) && !clash(s, o2) && !clash(s, o3) && !clash(s, o4)
}

/// The characters of a string slice, one by one.
pub fn chars_of(s: &str) -> (r: Vec<char>)
    ensures
        r@ == s@,
{
    let n = s.unicode_len();
    let mut r: Vec<char> = Vec::new();
    let mut i: usize = 0;
    while i < n
        invariant
            n == s@.len(),
            i <= n,
            r@ == s@.subrange(0, i as int),
        decreases n - i,
    {
        r.push(s.get_char(i));
        i = i + 1;
        assert(r@ =~= s@.subrange(0, i as int));
    }
    assert(r@ =~= s@);
    r
}

/// Whether `a` is a prefix of `b`.
pub fn starts_with_chars(b: &Vec<char>, from: usize, a: &Vec<char>) -> (r: bool)
    requires
        from <= b@.len(),
    ensures
        r == a@.is_prefix_of(b@.subrange(from as int, b@.len() as int)),
{
    if a.len() > b.len() - from {
        return false;
    }
    let bl = b.len();
    let mut i: usize = 0;
    while i < a.len()
        invariant
            bl == b@.len(),
            a@.len() + from <= bl,
            i <= a@.len(),
            forall|j: int| 0 <= j < i ==> a@[j] == b@[from + j],
        decreases a@.len() - i,
    {
        if a[i] != b[from + i] {
            return false;
        }
        i = i + 1;
    }
    assert(a@ =~= b@.subrange(from as int, b@.len() as int).subrange(0, a@.len() as int));
    true
}

fn clashes(a: &str, b: &str) -> (r: bool)
    ensures
        r == clash(a@, b@),
{
    let av = chars_of(a);
    let bv = chars_of(b);
    assert(bv@.subrange(0, bv@.len() as int) =~= bv@);
    assert(av@.subrange(0, av@.len() as int) =~= av@);
    starts_with_chars(&bv, 0, &av) || starts_with_chars(&av, 0, &bv)
}

/// The symbols used to print expression trees, and to read them where a
/// notation is given to the parser.
#[derive(Debug, Clone)]
pub struct OperatorNotation {
    neg: String,
    and: String,
    or: String,
    con: String,
    bicon: String,
}

impl View for OperatorNotation {
    type V = Symbols;

    closed spec fn view(&self) -> Symbols {
        Symbols {
            neg: self.neg@,
            and: self.and@,
            or: self.or@,
            con: self.con@,
            bicon: self.bicon@,
        }
    }
}

/// Whether no symbol of a notation is a prefix of another.
pub open spec fn distinct_symbols(s: Symbols) -> bool {
    &&& fits(s.neg, s.and, s.or, s.con, s.bicon)
    &&& fits(s.and, s.neg, s.or, s.con, s.bicon)
    &&& fits(s.or, s.neg, s.and, s.con, s.bicon)
    &&& fits(s.con, s.neg, s.and, s.or, s.bicon)
    &&& fits(s.bicon, s.neg, s.and, s.or, s.con)
}

fn make(neg: &str, and: &str, or: &str, con: &str, bicon: &str) -> (r: OperatorNotation)
    ensures
        r@ == (Symbols { neg: neg@, and: and@, or: or@, con: con@, bicon: bicon@ }),
{
    OperatorNotation {
        neg: neg.to_owned(),
        and: and.to_owned(),
        or: or.to_owned(),
        con: con.to_owned(),
        bicon: bicon.to_owned(),
    }
}

impl OperatorNotation {
    /// ASCII notation: `~`, `&`, `v`, `->`, `<->`.
    pub fn ascii() -> (r: Self)
        ensures
            r@ == ascii_symbols(),
    {
        proof {
            reveal_strlit("~");
            reveal_strlit("&");
            reveal_strlit("v");
            reveal_strlit("->");
            reveal_strlit("<->");
            assert("~"@ =~= seq!['~']);
            assert("&"@ =~= seq!['&']);
            assert("v"@ =~= seq!['v']);
            assert("->"@ =~= seq!['-', '>']);
            assert("<->"@ =~= seq!['<', '-', '>']);
        }
        make("~", "&", "v", "->", "<->")
    }

    /// Mathematical notation: `¬`, `^`, `∨`, `➞`, `⟷`.
    pub fn mathematical() -> (r: Self)
        ensures
            r@ == (Symbols { neg: "¬"@, and: "^"@, or: "∨"@, con: "➞"@, bicon: "⟷"@ }),
    {
        make("¬", "^", "∨", "➞", "⟷")
    }

    /// ASCII form of mathematical notation: `~`, `^`, `v`, `->`, `<->`.
    pub fn mathematical_ascii() -> (r: Self)
        ensures
            r@ == (Symbols { neg: "~"@, and: "^"@, or: "v"@, con: "->"@, bicon: "<->"@ }),
    {
        make("~", "^", "v", "->", "<->")
    }

    /// Bit-logic notation: `¬`, `⋅`, `+`, `➞`, `⟷`.
    pub fn bits() -> (r: Self)
        ensures
            r@ == (Symbols { neg: "¬"@, and: "⋅"@, or: "+"@, con: "➞"@, bicon: "⟷"@ }),
    {
        make("¬", "⋅", "+", "➞", "⟷")
    }

    /// ASCII form of bit-logic notation: `~`, `*`, `+`, `->`, `<->`.
    pub fn bits_ascii() -> (r: Self)
        ensures
            r@ == (Symbols { neg: "~"@, and: "*"@, or: "+"@, con: "->"@, bicon: "<->"@ }),
    {
        make("~", "*", "+", "->", "<->")
    }

    /// Boolean-logic notation: `!`, `&`, `|`, `➞`, `⟷`.
    pub fn boolean() -> (r: Self)
        ensures
            r@ == (Symbols { neg: "!"@, and: "&"@, or: "|"@, con: "➞"@, bicon: "⟷"@ }),
    {
        make("!", "&", "|", "➞", "⟷")
    }

    /// ASCII form of boolean-logic notation: `!`, `&`, `|`, `->`, `<->`.
    pub fn boolean_ascii() -> (r: Self)
        ensures
            r@ == (Symbols { neg: "!"@, and: "&"@, or: "|"@, con: "->"@, bicon: "<->"@ }),
    {
        make("!", "&", "|", "->", "<->")
    }

    /// The conjunction symbol.
    pub fn and(&self) -> (r: &str)
        ensures
            r@ == self@.and,
    {
        self.and.as_str()
    }

    /// The disjunction symbol.
    pub fn or(&self) -> (r: &str)
        ensures
            r@ == self@.or,
    {
        self.or.as_str()
    }

    /// The negation symbol.
    pub fn neg(&self) -> (r: &str)
        ensures
            r@ == self@.neg,
    {
        self.neg.as_str()
    }

    /// The conditional symbol.
    pub fn con(&self) -> (r: &str)
        ensures
            r@ == self@.con,
    {
        self.con.as_str()
    }

    /// The biconditional symbol.
    pub fn bicon(&self) -> (r: &str)
        ensures
            r@ == self@.bicon,
    {
        self.bicon.as_str()
    }

    /// Sets the conjunction symbol, unless it is a prefix of another role's
    /// symbol or has one as its prefix; returns whether it was set.
    pub fn set_and(&mut self, symbol: String) -> (r: bool)
        ensures
            r == fits(symbol@, old(self)@.neg, old(self)@.or, old(self)@.con, old(self)@.bicon),
            r ==> final(self)@ == (Symbols { and: symbol@, ..old(self)@ }),
            !r ==> final(self)@ == old(self)@,
    {
        let ok = !clashes(&symbol, &self.neg) && !clashes(&symbol, &self.or) && !clashes(
            &symbol,
            &self.con,
        ) && !clashes(&symbol, &self.bicon);
        if ok {
            self.and = symbol;
        }
        ok
    }

    /// Sets the disjunction symbol under the same rule as `set_and`.
    pub fn set_or(&mut self, symbol: String) -> (r: bool)
        ensures
            r == fits(symbol@, old(self)@.neg, old(self)@.and, old(self)@.con, old(self)@.bicon),
            r ==> final(self)@ == (Symbols { or: symbol@, ..old(self)@ }),
            !r ==> final(self)@ == old(self)@,
    {
        let ok = !clashes(&symbol, &self.neg) && !clashes(&symbol, &self.and) && !clashes(
            &symbol,
            &self.con,
        ) && !clashes(&symbol, &self.bicon);
        if ok {
            self.or = symbol;
        }
        ok
    }

    /// Sets the negation symbol under the same rule as `set_and`.
    pub fn set_neg(&mut self, symbol: String) -> (r: bool)
        ensures
            r == fits(symbol@, old(self)@.and, old(self)@.or, old(self)@.con, old(self)@.bicon),
            r ==> final(self)@ == (Symbols { neg: symbol@, ..old(self)@ }),
            !r ==> final(self)@ == old(self)@,
    {
        let ok = !clashes(&symbol, &self.and) && !clashes(&symbol, &self.or) && !clashes(
            &symbol,
            &self.con,
        ) && !clashes(&symbol, &self.bicon);
        if ok {
            self.neg = symbol;
        }
        ok
    }

    /// Sets the conditional symbol under the same rule as `set_and`.
    pub fn set_con(&mut self, symbol: String) -> (r: bool)
        ensures
            r == fits(symbol@, old(self)@.neg, old(self)@.and, old(self)@.or, old(self)@.bicon),
            r ==> final(self)@ == (Symbols { con: symbol@, ..old(self)@ }),
            !r ==> final(self)@ == old(self)@,
    {
        let ok = !clashes(&symbol, &self.neg) && !clashes(&symbol, &self.and) && !clashes(
            &symbol,
            &self.or,
        ) && !clashes(&symbol, &self.bicon);
        if ok {
            self.con = symbol;
        }
        ok
    }

    /// Sets the biconditional symbol under the same rule as `set_and`.
    pub fn set_bicon(&mut self, symbol: String) -> (r: bool)
        ensures
            r == fits(symbol@, old(self)@.neg, old(self)@.and, old(self)@.or, old(self)@.con),
            r ==> final(self)@ == (Symbols { bicon: symbol@, ..old(self)@ }),
            !r ==> final(self)@ == old(self)@,
    {
        let ok = !clashes(&symbol, &self.neg) && !clashes(&symbol, &self.and) && !clashes(
            &symbol,
            &self.or,
        ) && !clashes(&symbol, &self.con);
        if ok {
            self.bicon = symbol;
        }
        ok
    }
}

/// The symbols of the ASCII notation, which is also the default.
pub open spec fn ascii_symbols() -> Symbols {
    Symbols {
        neg: seq!['~'],
        and: seq!['&'],
        or: seq!['v'],
        con: seq!['-', '>'],
        bicon: seq!['<', '-', '>'],
    }
}

impl Default for OperatorNotation {
    /// The ASCII notation.
    fn default() -> (r: Self)
        ensures
            r@ == ascii_symbols(),
    {
        OperatorNotation::ascii()
    }
}

} // verus!
