//! Unique action names: a name already used is renamed with a counter.
use vstd::prelude::*;
use vstd::set_lib::{lemma_int_range, lemma_len_subset, lemma_map_size, set_int_range};

verus! {

/// The decimal digit `d`.
pub open spec fn digit_char(d: int) -> char {
    (48 + d) as char
}

/// The decimal representation of `n`, without leading zeros.
pub open spec fn decimal(n: nat) -> Seq<char>
    decreases n,
{
    if n < 10 {
        seq![digit_char(n as int)]
    } else {
        decimal(n / 10).push(digit_char((n % 10) as int))
    }
}

/// The separator between a name and its counter.
pub open spec fn renamed_infix() -> Seq<char> {
    "_renamed_"@
}

/// The `i`-th name tried for `a`: `a` itself, then `a` renamed with the
/// counters 0, 1, 2, ...
pub open spec fn candidate(a: Seq<char>, i: nat) -> Seq<char> {
    if i == 0 {
        a
    } else {
        a + renamed_infix() + decimal((i - 1) as nat)
    }
}

/// Appends the decimal digit `d` to `s`.
fn push_digit(s: &mut String, d: u64)
    requires
        d < 10,
    ensures
        final(s)@ == old(s)@.push(digit_char(d as int)),
{
    proof {
        reveal_strlit("0");
        reveal_strlit("1");
        reveal_strlit("2");
        reveal_strlit("3");
        reveal_strlit("4");
        reveal_strlit("5");
        reveal_strlit("6");
        reveal_strlit("7");
        reveal_strlit("8");
        reveal_strlit("9");
    }
    let digit: &str = if d == 0 {
        "0"
    } else if d == 1 {
        "1"
    } else if d == 2 {
        "2"
    } else if d == 3 {
        "3"
    } else if d == 4 {
        "4"
    } else if d == 5 {
        "5"
    } else if d == 6 {
        "6"
    } else if d == 7 {
        "7"
    } else if d == 8 {
        "8"
    } else {
        "9"
    };
    assert(digit@ =~= seq![digit_char(d as int)]);
    s.append(digit);
    assert(s@ =~= old(s)@.push(digit_char(d as int)));
}

/// Appends `n` in decimal to `s`.
pub(crate) fn push_decimal(s: &mut String, n: u64)
    ensures
        final(s)@ == old(s)@ + decimal(n as nat),
    decreases n,
{
    if n >= 10 {
        push_decimal(s, n / 10);
    }
    push_digit(s, n % 10);
    assert(s@ =~= old(s)@ + decimal(n as nat));
}

/// The name `a` renamed with the counter `count`: the name, the separator,
/// and the counter in decimal.
fn renamed(a: &String, count: u64) -> (r: String)
    ensures
        r@ == a@ + renamed_infix() + decimal(count as nat),
{
    let mut r = a.clone();
    r.append("_renamed_");
    push_decimal(&mut r, count);
    assert(r@ =~= a@ + renamed_infix() + decimal(count as nat));
    r
}

proof fn lemma_digit(d: int)
    requires
        0 <= d < 10,
    ensures
        digit_char(d) as int == 48 + d,
{
}

proof fn lemma_decimal_nonempty(n: nat)
    ensures
        decimal(n).len() >= 1,
        n < 10 <==> decimal(n).len() == 1,
    decreases n,
{
    if n >= 10 {
        lemma_decimal_nonempty(n / 10);
    }
}

/// Different numbers have different decimal representations.
proof fn lemma_decimal_injective(x: nat, y: nat)
    requires
        decimal(x) == decimal(y),
    ensures
        x == y,
    decreases x,
{
    lemma_decimal_nonempty(x);
    lemma_decimal_nonempty(y);
    if x < 10 {
        assert(y < 10);
        assert(decimal(x) == seq![digit_char(x as int)]);
        assert(decimal(y) == seq![digit_char(y as int)]);
        lemma_digit(x as int);
        lemma_digit(y as int);
        assert(seq![digit_char(x as int)][0] == digit_char(x as int));
        assert(seq![digit_char(y as int)][0] == digit_char(y as int));
        assert(decimal(x)[0] == decimal(y)[0]);
        assert(digit_char(x as int) == digit_char(y as int));
    } else {
        assert(y >= 10);
        let dx = decimal(x);
        let dy = decimal(y);
        assert(dx.last() == dy.last());
        assert(dx.last() == digit_char((x % 10) as int));
        assert(dy.last() == digit_char((y % 10) as int));
        assert(dx.drop_last() == dy.drop_last());
        assert(dx.drop_last() =~= decimal(x / 10));
        assert(dy.drop_last() =~= decimal(y / 10));
        lemma_decimal_injective(x / 10, y / 10);
        lemma_digit((x % 10) as int);
        lemma_digit((y % 10) as int);
        assert(x == 10 * (x / 10) + x % 10) by (nonlinear_arith);
        assert(y == 10 * (y / 10) + y % 10) by (nonlinear_arith);
    }
}

/// The names tried for `a` are all different.
proof fn lemma_candidates_distinct(a: Seq<char>, i: nat, j: nat)
    requires
        candidate(a, i) == candidate(a, j),
    ensures
        i == j,
{
    reveal_strlit("_renamed_");
    let p = a + renamed_infix();
    if i > 0 {
        lemma_decimal_nonempty((i - 1) as nat);
    }
    if j > 0 {
        lemma_decimal_nonempty((j - 1) as nat);
    }
    if i > 0 && j > 0 {
        let ci = candidate(a, i);
        assert(ci.subrange(p.len() as int, ci.len() as int) =~= decimal((i - 1) as nat));
        let cj = candidate(a, j);
        assert(cj.subrange(p.len() as int, cj.len() as int) =~= decimal((j - 1) as nat));
        lemma_decimal_injective((i - 1) as nat, (j - 1) as nat);
    }
}

/// Among the first `n + 1` names tried, one is not among `n` used names.
proof fn lemma_fresh_candidate_exists(a: Seq<char>, used: Seq<Seq<char>>)
    ensures
        exists|i: nat| i <= used.len() && !used.contains(#[trigger] candidate(a, i)),
{
    let n = used.len() as int;
    let f = |i: int| candidate(a, i as nat);
    let range = set_int_range(0, n + 1);
    lemma_int_range(0, n + 1);
    assert forall|x: int, y: int| range.contains(x) && range.contains(y) && f(x) == f(y) implies x
        == y by {
        lemma_candidates_distinct(a, x as nat, y as nat);
    }
    let image = range.map(f);
    lemma_map_size(range, image, f);
    if forall|i: nat| i <= used.len() ==> used.contains(#[trigger] candidate(a, i)) {
        assert forall|s: Seq<char>| image.contains(s) implies used.to_set().contains(s) by {
            let x = choose|x: int| range.contains(x) && f(x) == s;
            assert(used.contains(candidate(a, x as nat)));
        }
        used.lemma_cardinality_of_set();
        lemma_len_subset(image, used.to_set());
        assert(false);
    }
}

/// The names used so far, each at most once.
pub struct Renamer {
    used_names: Vec<String>,
}

impl View for Renamer {
    type V = Seq<Seq<char>>;

    closed spec fn view(&self) -> Seq<Seq<char>> {
        self.used_names@.map_values(|s: String| s@)
    }
}

impl Renamer {
    /// No name is used twice.
    #[verifier::type_invariant]
    spec fn names_unique(self) -> bool {
        self@.no_duplicates()
    }

    /// No name used yet.
    pub fn new() -> (r: Self)
        ensures
            r@ == Seq::<Seq<char>>::empty(),
    {
        let r = Renamer { used_names: Vec::new() };
        assert(r@ =~= Seq::<Seq<char>>::empty());
        r
    }

    fn is_used(&self, name: &String) -> (r: bool)
        ensures
            r == self@.contains(name@),
    {
        let mut i: usize = 0;
        while i < self.used_names.len()
            invariant
                i <= self.used_names@.len(),
                forall|j: int| 0 <= j < i ==> self@[j] != name@,
            decreases self.used_names@.len() - i,
        {
            if same_string(&self.used_names[i], name) {
                assert(self@[i as int] == name@);
                return true;
            }
            i += 1;
        }
        false
    }

    /// A name not used before, recorded as used: `a` itself if it is free,
    /// otherwise the first of `a` renamed with the counters 0, 1, 2, ...
    /// that is free.
    pub fn get_name(&mut self, a: &String) -> (r: String)
        ensures
            exists|i: nat|
                #![trigger candidate(a@, i)]
                r@ == candidate(a@, i) && !old(self)@.contains(candidate(a@, i)) && forall|j: nat|
                    j < i ==> old(self)@.contains(#[trigger] candidate(a@, j)),
            final(self)@ == old(self)@.push(r@),
            final(self)@.no_duplicates(),
    {
        proof {
            use_type_invariant(&*self);
        }
        let ghost used = self@;
        assert(used.len() == self.used_names.len());
        proof {
            lemma_fresh_candidate_exists(a@, used);
        }
        let mut count: u64 = 0;
        let mut name = copy_string(a);
        assert(name@ == candidate(a@, 0));
        loop
            invariant
                self@ == used,
                used == old(self)@,
                used.no_duplicates(),
                used.len() <= usize::MAX,
                (count as nat) <= used.len(),
                name@ == candidate(a@, count as nat),
                forall|j: nat| j < count ==> used.contains(#[trigger] candidate(a@, j)),
                exists|i: nat| i <= used.len() && !used.contains(#[trigger] candidate(a@, i)),
            decreases used.len() - count,
        {
            if !self.is_used(&name) {
                let kept = copy_string(&name);
                let mut names: Vec<String> = Vec::new();
                std::mem::swap(&mut names, &mut self.used_names);
                let ghost before = names@;
                names.push(kept);
                assert(names@.map_values(|s: String| s@) =~= used.push(name@));
                self.used_names = names;
                return name;
            }
            proof {
                if count as nat == used.len() {
                    let i = choose|i: nat| i <= used.len() && !used.contains(#[trigger] candidate(a@, i));
                    if i < count {
                        assert(used.contains(candidate(a@, i)));
                    }
                    assert(false);
                }
            }
            name = renamed(a, count);
            count = count + 1;
            assert(name@ == candidate(a@, count as nat));
        }
    }
}

/// Whether two strings hold the same characters.
fn same_string(a: &String, b: &String) -> (r: bool)
    ensures
        r == (a@ == b@),
{
    let x = a.as_str();
    let y = b.as_str();
    let n = x.unicode_len();
    if n != y.unicode_len() {
        return false;
    }
    let mut i: usize = 0;
    while i < n
        invariant
            i <= n,
            n == x@.len(),
            x@.len() == y@.len(),
            x@ == a@,
            y@ == b@,
            forall|j: int| 0 <= j < i ==> x@[j] == y@[j],
        decreases n - i,
    {
        if x.get_char(i) != y.get_char(i) {
            return false;
        }
        i += 1;
    }
    assert(x@ =~= y@);
    true
}

/// A copy of a string.
fn copy_string(s: &String) -> (r: String)
    ensures
        r@ == s@,
{
    s.clone()
}

} // verus!
