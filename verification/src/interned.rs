//! Names the compiler uses often, recognized once.
use vstd::prelude::*;

verus! {

/// The fixed names of compiler entry points.
pub open spec fn fixed_names() -> Seq<Seq<char>> {
    seq![
        "cloned"@,
        "then_fn"@,
        "finish_or_fn"@,
        "finish_fn"@,
        "conditional_compile_if"@,
        "guard_fn"@,
        "next_txs"@,
        "suggested_txs"@,
    ]
}

/// A decimal numeral of a number below one hundred, without leading zeros.
pub open spec fn small_numeral(s: Seq<char>) -> bool {
    ||| s.len() == 1 && '0' <= s[0] <= '9'
    ||| s.len() == 2 && '1' <= s[0] <= '9' && '0' <= s[1] <= '9'
}

/// The strings that are interned.
pub open spec fn is_interned(s: Seq<char>) -> bool {
    fixed_names().contains(s) || small_numeral(s)
}

/// Whether two strings hold the same characters.
fn same_text(a: &str, b: &str) -> (r: bool)
    ensures
        r == (a@ == b@),
{
    let n = a.unicode_len();
    if n != b.unicode_len() {
        return false;
    }
    let mut i: usize = 0;
    while i < n
        invariant
            n == a@.len(),
            n == b@.len(),
            i <= n,
            forall|k: int| 0 <= k < i ==> a@[k] == b@[k],
        decreases n - i,
    {
        if a.get_char(i) != b.get_char(i) {
            return false;
        }
        i += 1;
    }
    assert(a@ =~= b@);
    true
}

/// Whether a character is an ASCII digit.
fn is_digit(c: char) -> (r: bool)
    ensures
        r == ('0' <= c <= '9'),
{
    '0' <= c && c <= '9'
}

/// The interned copy of `s`: one of the fixed names or a numeral below one
/// hundred; `None` for any other string.
pub fn get_interned(s: &str) -> (r: Option<String>)
    ensures
        r is Some <==> is_interned(s@),
        r matches Some(t) ==> t@ == s@,
{
    let names = [
        "cloned",
        "then_fn",
        "finish_or_fn",
        "finish_fn",
        "conditional_compile_if",
        "guard_fn",
        "next_txs",
        "suggested_txs",
    ];
    let mut i: usize = 0;
    while i < 8
        invariant
            i <= 8,
            forall|k: int| 0 <= k < 8 ==> #[trigger] names@[k]@ == fixed_names()[k],
            forall|k: int| 0 <= k < i ==> fixed_names()[k] != s@,
        decreases 8 - i,
    {
        if same_text(names[i], s) {
            return Some(s.to_string());
        }
        i += 1;
    }
    assert(!fixed_names().contains(s@)) by {
        if fixed_names().contains(s@) {
            let k = choose|k: int| 0 <= k < fixed_names().len() && fixed_names()[k] == s@;
            assert(fixed_names()[k] != s@);
        }
    }
    let n = s.unicode_len();
    let numeral = if n == 1 {
        is_digit(s.get_char(0))
    } else if n == 2 {
        let first = s.get_char(0);
        is_digit(first) && first != '0' && is_digit(s.get_char(1))
    } else {
        false
    };
    if numeral {
        Some(s.to_string())
    } else {
        None
    }
}

} // verus!
