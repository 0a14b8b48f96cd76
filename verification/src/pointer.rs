//! Pointers: token sequences that address one location inside a tree, and
//! the interpretation of a token as an array index.

use vstd::prelude::*;

verus! {

/// A pointer: a sequence of reference tokens, each an object key or an
/// array index. The empty pointer addresses the root.
pub struct Pointer {
    pub tokens: Vec<String>,
}

impl View for Pointer {
    type V = Seq<Seq<char>>;

    open spec fn view(&self) -> Seq<Seq<char>> {
        Seq::new(
            self.tokens@.len(),
            |i: int|
                if 0 <= i < self.tokens@.len() {
                    self.tokens@[i]@
                } else {
                    Seq::<char>::empty()
                },
        )
    }
}

impl Pointer {
    /// Build a pointer from its tokens.
    pub fn new(tokens: Vec<String>) -> (p: Pointer)
        ensures
            p@.len() == tokens@.len(),
            forall|i: int| 0 <= i < tokens@.len() ==> p@[i] == #[trigger] tokens@[i]@,
    {
        Pointer { tokens }
    }
}

/// A decimal digit.
pub open spec fn is_digit(c: char) -> bool {
    48 <= c as u32 <= 57
}

/// The value of one decimal digit.
pub open spec fn digit_val(c: char) -> int {
    c as u32 - 48
}

/// Every character of the token is a decimal digit.
pub open spec fn all_digits(s: Seq<char>) -> bool {
    forall|i: int| 0 <= i < s.len() ==> is_digit(#[trigger] s[i])
}

/// The decimal value of a digit string.
pub open spec fn dec_val(s: Seq<char>) -> int
    decreases s.len(),
{
    if s.len() == 0 {
        0
    } else {
        dec_val(s.drop_last()) * 10 + digit_val(s.last())
    }
}

/// The numeric reading of a token: its decimal value when it is a nonempty
/// digit string, nothing otherwise.
pub open spec fn tok_index(s: Seq<char>) -> Option<int> {
    if s.len() > 0 && all_digits(s) {
        Some(dec_val(s))
    } else {
        None
    }
}

/// The token `-`, which addresses the slot one past the end of an array.
pub open spec fn is_dash(s: Seq<char>) -> bool {
    s.len() == 1 && s[0] == '-'
}

/// `p` addresses `q` or an ancestor of `q`.
pub open spec fn is_prefix_of(p: Seq<Seq<char>>, q: Seq<Seq<char>>) -> bool {
    p.len() <= q.len() && forall|i: int| 0 <= i < p.len() ==> p[i] == #[trigger] q[i]
}

pub proof fn lemma_dec_val_nonneg(s: Seq<char>)
    requires
        all_digits(s),
    ensures
        dec_val(s) >= 0,
    decreases s.len(),
{
    if s.len() > 0 {
        assert(all_digits(s.drop_last()));
        lemma_dec_val_nonneg(s.drop_last());
    }
}

/// A digit string is worth at least any of its prefixes.
pub proof fn lemma_dec_val_prefix(s: Seq<char>, i: int)
    requires
        all_digits(s),
        0 <= i <= s.len(),
    ensures
        dec_val(s) >= dec_val(s.subrange(0, i)),
    decreases s.len() - i,
{
    if i == s.len() {
        assert(s.subrange(0, i) =~= s);
    } else {
        let t = s.subrange(0, i + 1);
        assert(t.drop_last() =~= s.subrange(0, i));
        assert(all_digits(s.subrange(0, i)));
        lemma_dec_val_nonneg(s.subrange(0, i));
        assert(dec_val(t) == dec_val(s.subrange(0, i)) * 10 + digit_val(s[i]));
        lemma_dec_val_prefix(s, i + 1);
    }
}

/// Read a token as an array index bounded by `max`: the token's decimal
/// value when it is a nonempty digit string worth at most `max`, nothing
/// otherwise.
#[verifier::loop_isolation(false)]
pub fn tok_to_index(tok: &String, max: usize) -> (r: Option<usize>)
    ensures
        match r {
            Some(u) => u <= max && tok_index(tok@) == Some(u as int),
            None => match tok_index(tok@) {
                Some(n) => n > max,
                None => true,
            },
        },
{
    let s = tok.as_str();
    let n = s.unicode_len();
    if n == 0 {
        return None;
    }
    let mut acc: u128 = 0;
    let mut i: usize = 0;
    while i < n
        invariant
            0 < n == tok@.len(),
            i <= n,
            all_digits(tok@.subrange(0, i as int)),
            acc <= max as u128,
            acc as int == dec_val(tok@.subrange(0, i as int)),
        decreases n - i,
    {
        let c = s.get_char(i);
        let d = c as u32;
        if d < 48 || d > 57 {
            proof {
                assert(!is_digit(tok@[i as int]));
                assert(tok_index(tok@) is None);
            }
            return None;
        }
        proof {
            assert(tok@.subrange(0, i + 1).drop_last() =~= tok@.subrange(0, i as int));
            assert(tok@.subrange(0, i + 1).last() == tok@[i as int]);
            assert(all_digits(tok@.subrange(0, i + 1)));
        }
        acc = acc * 10 + ((d - 48) as u128);
        i += 1;
        if acc > max as u128 {
            proof {
                if tok_index(tok@) is Some {
                    lemma_dec_val_prefix(tok@, i as int);
                }
            }
            return None;
        }
    }
    proof {
        assert(tok@.subrange(0, n as int) =~= tok@);
    }
    Some(acc as usize)
}

/// Whether a token is the append marker `-`.
pub fn is_dash_token(tok: &String) -> (b: bool)
    ensures
        b == is_dash(tok@),
{
    let s = tok.as_str();
    if s.unicode_len() != 1 {
        return false;
    }
    s.get_char(0) == '-'
}

/// Whether `p` addresses `q` itself or an ancestor of `q`.
#[verifier::loop_isolation(false)]
pub fn pointer_is_prefix(p: &Pointer, q: &Pointer) -> (b: bool)
    ensures
        b == is_prefix_of(p@, q@),
{
    if p.tokens.len() > q.tokens.len() {
        return false;
    }
    let mut i: usize = 0;
    while i < p.tokens.len()
        invariant
            i <= p@.len(),
            p@.len() <= q@.len(),
            forall|j: int| 0 <= j < i ==> p@[j] == #[trigger] q@[j],
        decreases p@.len() - i,
    {
        if !(p.tokens[i] == q.tokens[i]) {
            proof {
                assert(p@[i as int] != q@[i as int]);
            }
            return false;
        }
        i += 1;
    }
    true
}

} // verus!
