//! Values that name variables and versions in a history.
//!
//! A history may name its variables by strings or by numbers. Everything the
//! consistency checks need of such a name is its text: two names are the same variable
//! exactly when their texts are equal, and the text is what histories print.
use vstd::prelude::*;
use vstd::string::StringExecFns;

verus! {

/// The character of a decimal digit.
pub open spec fn digit_char(d: nat) -> char {
    if d == 0 { '0' }
    else if d == 1 { '1' }
    else if d == 2 { '2' }
    else if d == 3 { '3' }
    else if d == 4 { '4' }
    else if d == 5 { '5' }
    else if d == 6 { '6' }
    else if d == 7 { '7' }
    else if d == 8 { '8' }
    else { '9' }
}

/// The decimal text of a natural number, without leading zeros.
pub open spec fn decimal(n: nat) -> Seq<char>
    decreases n,
{
    if n < 10 {
        seq![digit_char(n)]
    } else {
        decimal(n / 10).push(digit_char(n % 10))
    }
}

/// The decimal text is never empty.
pub proof fn lemma_decimal_nonempty(n: nat)
    ensures
        decimal(n).len() >= 1,
    decreases n,
{
    if n >= 10 {
        lemma_decimal_nonempty(n / 10);
    }
}

/// Distinct digits have distinct characters.
pub proof fn lemma_digit_char_injective(a: nat, b: nat)
    requires
        a < 10,
        b < 10,
        digit_char(a) == digit_char(b),
    ensures
        a == b,
{
}

/// Distinct numbers have distinct decimal texts.
pub proof fn lemma_decimal_injective(a: nat, b: nat)
    requires
        decimal(a) == decimal(b),
    ensures
        a == b,
    decreases a + b,
{
    if a < 10 && b < 10 {
        assert(decimal(a) == seq![digit_char(a)]);
        assert(decimal(b) == seq![digit_char(b)]);
        assert(decimal(a)[0] == digit_char(a));
        assert(decimal(b)[0] == digit_char(b));
        lemma_digit_char_injective(a, b);
    } else if a < 10 {
        lemma_decimal_nonempty(b / 10);
        assert(decimal(b).len() >= 2);
        assert(decimal(a).len() == 1);
    } else if b < 10 {
        lemma_decimal_nonempty(a / 10);
        assert(decimal(a).len() >= 2);
        assert(decimal(b).len() == 1);
    } else {
        let da = decimal(a);
        let db = decimal(b);
        assert(da.last() == digit_char(a % 10));
        assert(db.last() == digit_char(b % 10));
        lemma_digit_char_injective(a % 10, b % 10);
        assert(da.drop_last() =~= decimal(a / 10));
        assert(db.drop_last() =~= decimal(b / 10));
        lemma_decimal_injective(a / 10, b / 10);
    }
}

/// `<str as PartialEq>::eq`: string slices are equal exactly when their
/// character sequences are.
#[verifier::external_body]
pub fn str_equal(a: &str, b: &str) -> (r: bool)
    ensures
        r == (a@ == b@),
{
    a == b
}

/// The text of one decimal digit.
fn digit_text(d: u64) -> (s: String)
    requires
        d < 10,
    ensures
        s@ == seq![digit_char(d as nat)],
{
    if d == 0 {
        proof { reveal_strlit("0"); }
        String::from_str("0")
    } else if d == 1 {
        proof { reveal_strlit("1"); }
        String::from_str("1")
    } else if d == 2 {
        proof { reveal_strlit("2"); }
        String::from_str("2")
    } else if d == 3 {
        proof { reveal_strlit("3"); }
        String::from_str("3")
    } else if d == 4 {
        proof { reveal_strlit("4"); }
        String::from_str("4")
    } else if d == 5 {
        proof { reveal_strlit("5"); }
        String::from_str("5")
    } else if d == 6 {
        proof { reveal_strlit("6"); }
        String::from_str("6")
    } else if d == 7 {
        proof { reveal_strlit("7"); }
        String::from_str("7")
    } else if d == 8 {
        proof { reveal_strlit("8"); }
        String::from_str("8")
    } else {
        proof { reveal_strlit("9"); }
        String::from_str("9")
    }
}

/// The decimal text of a number.
pub fn decimal_text(n: u64) -> (s: String)
    ensures
        s@ == decimal(n as nat),
    decreases n,
{
    if n < 10 {
        digit_text(n)
    } else {
        let mut s = decimal_text(n / 10);
        let d = digit_text(n % 10);
        s.append(d.as_str());
        s
    }
}

/// A name of a variable or a version: a value with a text.
pub trait Label: Sized {
    /// The text of the name.
    spec fn label(&self) -> Seq<char>;

    /// Whether two names have the same text.
    fn same_label(&self, other: &Self) -> (r: bool)
        ensures
            r == (self.label() == other.label());

    /// A copy of the name.
    fn copy_label(&self) -> (r: Self)
        ensures
            r.label() == self.label();

    /// The text of the name as a string.
    fn label_text(&self) -> (r: String)
        ensures
            r@ == self.label();
}

impl Label for u64 {
    open spec fn label(&self) -> Seq<char> {
        decimal(*self as nat)
    }

    fn same_label(&self, other: &Self) -> (r: bool) {
        proof {
            if decimal(*self as nat) == decimal(*other as nat) {
                lemma_decimal_injective(*self as nat, *other as nat);
            }
        }
        *self == *other
    }

    fn copy_label(&self) -> (r: Self) {
        *self
    }

    fn label_text(&self) -> (r: String) {
        decimal_text(*self)
    }
}

impl<'a> Label for &'a str {
    open spec fn label(&self) -> Seq<char> {
        (*self)@
    }

    fn same_label(&self, other: &Self) -> (r: bool) {
        str_equal(*self, *other)
    }

    fn copy_label(&self) -> (r: Self) {
        *self
    }

    fn label_text(&self) -> (r: String) {
        String::from_str(*self)
    }
}

impl Label for String {
    open spec fn label(&self) -> Seq<char> {
        self@
    }

    fn same_label(&self, other: &Self) -> (r: bool) {
        *self == *other
    }

    fn copy_label(&self) -> (r: Self) {
        self.clone()
    }

    fn label_text(&self) -> (r: String) {
        self.clone()
    }
}

} // verus!
